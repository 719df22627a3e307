//! Properties of the engine that relate several operations.
use vstd::prelude::*;
use crate::graph::{Op, reaches, well_formed_graph, operands_precede, holds_label};
use crate::backward::{
    Factor,
    Transfer,
    dependency_count,
    edge_count,
    has_edge,
    is_backward_plan,
    is_edge_transfer,
    lemma_reaches_below,
};

verus! {

proof fn lemma_square_edge_count<V>(g: Seq<Op<V>>, y: int, x: usize, m: int)
    requires
        well_formed_graph(g),
        0 <= y < g.len(),
        0 <= m <= g.len(),
        g[y] == Op::<V>::Mul(x, x),
    ensures
        edge_count(g, y, x as int, m) == if m > y { 2int } else { 0int },
    decreases m,
{
    if m > 0 {
        lemma_square_edge_count(g, y, x, m - 1);
        let s = m - 1;
        if s != y && reaches(g, y, s) {
            assert(operands_precede(g, y));
            if s > y {
                lemma_reaches_below(g, y, s);
            }
            assert(reaches(g, x as int, s));
            lemma_reaches_below(g, x as int, s);
            assert(operands_precede(g, s));
            assert(g[s].arity() > 0 ==> g[s].operand(0) < s);
            assert(g[s].arity() > 1 ==> g[s].operand(1) < s);
        }
    }
}

/// A node used as both operands of a product that is the root receives two
/// contributions, one per slot, not one per consuming node.
pub proof fn lemma_square_counts_both_slots<V>(g: Seq<Op<V>>, y: int, x: usize)
    requires
        well_formed_graph(g),
        0 <= y < g.len(),
        g[y] == Op::<V>::Mul(x, x),
    ensures
        dependency_count(g, y, x as int) == 2,
{
    assert(operands_precede(g, y));
    assert(g[y].operand(0) == x as int);
    lemma_square_edge_count(g, y, x, g.len() as int);
}

/// The transfer from slot `slot` of `y = x * x` to `x`.
pub open spec fn square_transfer(y: int, x: usize, slot: usize) -> Transfer {
    Transfer { source: y as usize, slot, target: x, factor: Factor::ValueOf(x) }
}

/// In the backward pass from `y = x * x`, `x` receives two transfers, each
/// scaled by the value of `x`: its gradient is twice the value of `x` times
/// the gradient of `y`.
pub proof fn lemma_square_two_transfers<V>(g: Seq<Op<V>>, y: int, x: usize, plan: Seq<Transfer>)
    requires
        well_formed_graph(g),
        0 <= y < g.len(),
        g[y] == Op::<V>::Mul(x, x),
        is_backward_plan(g, y, plan),
    ensures
        (exists|p: int, q: int|
            0 <= p < plan.len() && 0 <= q < plan.len() && p != q && #[trigger] plan[p]
                == square_transfer(y, x, 0) && #[trigger] plan[q] == square_transfer(y, x, 1)),
{
    assert(operands_precede(g, y));
    assert(reaches(g, y, y));
    assert(has_edge(plan, y, 0));
    assert(has_edge(plan, y, 1));
    let p = choose|p: int| 0 <= p < plan.len() && plan[p].source == y && plan[p].slot == 0;
    let q = choose|q: int| 0 <= q < plan.len() && plan[q].source == y && plan[q].slot == 1;
    assert(is_edge_transfer(g, plan[p]));
    assert(is_edge_transfer(g, plan[q]));
}

/// A sum passes its gradient unchanged to both operands; a product passes to
/// each operand its gradient times the value of the other operand.
pub proof fn lemma_sum_and_product_rules<V>(g: Seq<Op<V>>, root: int, plan: Seq<Transfer>, p: int)
    requires
        is_backward_plan(g, root, plan),
        0 <= p < plan.len(),
    ensures
        (g[plan[p].source as int] is Add) ==> (plan[p].factor == Factor::One),
        (g[plan[p].source as int] is Mul) ==> ((plan[p].slot == 0 ==> plan[p].target == g[plan[p].source as int]->Mul_0
            && plan[p].factor == Factor::ValueOf(g[plan[p].source as int]->Mul_1))
            && (plan[p].slot == 1 ==> plan[p].target == g[plan[p].source as int]->Mul_1
            && plan[p].factor == Factor::ValueOf(g[plan[p].source as int]->Mul_0))),
{
    assert(is_edge_transfer(g, plan[p]));
}

/// Recording a run for one label leaves what every other label holds as it
/// was.
pub proof fn lemma_other_labels_untouched(
    runs: Seq<(Seq<char>, Seq<bool>)>,
    entry: (Seq<char>, Seq<bool>),
    i: int,
    label: Seq<char>,
)
    requires
        entry.0 != label,
    ensures
        holds_label(runs.push(entry), i, label) == holds_label(runs, i, label),
{
    let runs1 = runs.push(entry);
    if holds_label(runs1, i, label) {
        let r = choose|r: int|
            0 <= r < runs1.len() && (#[trigger] runs1[r]).0 == label && 0 <= i < runs1[r].1.len()
                && runs1[r].1[i];
        assert(runs1[r] == runs[r]);
    }
    if holds_label(runs, i, label) {
        let r = choose|r: int|
            0 <= r < runs.len() && (#[trigger] runs[r]).0 == label && 0 <= i < runs[r].1.len()
                && runs[r].1[i];
        assert(runs1[r] == runs[r]);
    }
}

/// After a run for `label` from `root`, the root holds `label`, so a second
/// run for `label` from `root` is refused.
pub proof fn lemma_same_label_again_refused<V>(
    g: Seq<Op<V>>,
    runs: Seq<(Seq<char>, Seq<bool>)>,
    root: int,
    label: Seq<char>,
)
    requires
        0 <= root < g.len(),
    ensures
        holds_label(
            runs.push((label, Seq::new(g.len(), |j: int| reaches(g, root, j)))),
            root,
            label,
        ),
        reaches(g, root, root),
{
    let runs1 = runs.push((label, Seq::new(g.len(), |j: int| reaches(g, root, j))));
    assert(runs1[runs.len() as int].1[root]);
}

} // verus!
