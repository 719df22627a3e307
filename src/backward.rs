//! The gradient engine: dependency counting and propagation.
use vstd::prelude::*;
use crate::graph::{Op, Tape, reaches, well_formed_graph, operands_precede};

verus! {

/// Number of slots `k` with `lo <= k < hi` of `op` that hold node `j`.
pub open spec fn hits<V>(op: Op<V>, lo: int, hi: int, j: int) -> int {
    (if lo <= 0 < hi && 0 < op.arity() && op.operand(0) == j { 1int } else { 0int }) + (if lo <= 1
        < hi && 1 < op.arity() && op.operand(1) == j {
        1int
    } else {
        0int
    })
}

/// Over the first `n` nodes `s`, the number of slots in `lo[s] .. hi[s]` that
/// hold node `j`.
pub open spec fn flow<V>(g: Seq<Op<V>>, lo: Seq<int>, hi: Seq<int>, j: int, n: int) -> int
    decreases n,
{
    if n <= 0 {
        0
    } else {
        flow(g, lo, hi, j, n - 1) + hits(g[n - 1], lo[n - 1], hi[n - 1], j)
    }
}

/// Over the first `n` nodes, the operand slots that hold `j` and belong to a
/// node reachable from `root`.
pub open spec fn edge_count<V>(g: Seq<Op<V>>, root: int, j: int, n: int) -> int
    decreases n,
{
    if n <= 0 {
        0
    } else {
        edge_count(g, root, j, n - 1) + if reaches(g, root, n - 1) {
            hits(g[n - 1], 0, g[n - 1].arity(), j)
        } else {
            0
        }
    }
}

/// The number of contributions node `j` receives in a backward pass from
/// `root`: one per operand slot holding `j` among the nodes reachable from
/// `root`, plus the seed for the root itself.
pub open spec fn dependency_count<V>(g: Seq<Op<V>>, root: int, j: int) -> int {
    (if j == root { 1int } else { 0int }) + edge_count(g, root, j, g.len() as int)
}

/// For each node, its arity if it is reachable from `root`, else zero.
pub open spec fn reach_arity<V>(g: Seq<Op<V>>, root: int) -> Seq<int> {
    Seq::new(g.len(), |s: int| if reaches(g, root, s) { g[s].arity() } else { 0 })
}

pub open spec fn zeros(n: int) -> Seq<int> {
    Seq::new(n as nat, |s: int| 0int)
}

proof fn lemma_flow_bounds<V>(g: Seq<Op<V>>, lo: Seq<int>, hi: Seq<int>, j: int, n: int)
    ensures
        0 <= flow(g, lo, hi, j, n) <= 2 * (if n < 0 { 0 } else { n }),
    decreases n,
{
    if n > 0 {
        lemma_flow_bounds(g, lo, hi, j, n - 1);
    }
}

/// Changing the upper bound of one node changes the flow by that node's term.
proof fn lemma_flow_empty<V>(g: Seq<Op<V>>, hi: Seq<int>, j: int, n: int)
    requires
        forall|s: int| 0 <= s < n ==> #[trigger] hi[s] == 0,
    ensures
        flow(g, hi, hi, j, n) == 0,
    decreases n,
{
    if n > 0 {
        lemma_flow_empty(g, hi, j, n - 1);
    }
}

proof fn lemma_flow_update_hi<V>(
    g: Seq<Op<V>>,
    lo: Seq<int>,
    hi: Seq<int>,
    s: int,
    v: int,
    j: int,
    n: int,
)
    requires
        0 <= s,
        hi.len() >= n,
        s < hi.len(),
    ensures
        flow(g, lo, hi.update(s, v), j, n) == flow(g, lo, hi, j, n) + if s < n {
            hits(g[s], lo[s], v, j) - hits(g[s], lo[s], hi[s], j)
        } else {
            0
        },
    decreases n,
{
    if n > 0 {
        lemma_flow_update_hi(g, lo, hi, s, v, j, n - 1);
    }
}

/// Changing the lower bound of one node changes the flow by that node's term.
proof fn lemma_flow_update_lo<V>(
    g: Seq<Op<V>>,
    lo: Seq<int>,
    hi: Seq<int>,
    s: int,
    v: int,
    j: int,
    n: int,
)
    requires
        0 <= s,
        lo.len() >= n,
        s < lo.len(),
    ensures
        flow(g, lo.update(s, v), hi, j, n) == flow(g, lo, hi, j, n) + if s < n {
            hits(g[s], v, hi[s], j) - hits(g[s], lo[s], hi[s], j)
        } else {
            0
        },
    decreases n,
{
    if n > 0 {
        lemma_flow_update_lo(g, lo, hi, s, v, j, n - 1);
    }
}

/// The flow from zero up to the reachable arities is the edge count.
proof fn lemma_flow_edge_count<V>(g: Seq<Op<V>>, root: int, j: int, n: int)
    requires
        0 <= n <= g.len(),
    ensures
        flow(g, zeros(g.len() as int), reach_arity(g, root), j, n) == edge_count(g, root, j, n),
    decreases n,
{
    if n > 0 {
        lemma_flow_edge_count(g, root, j, n - 1);
    }
}

/// Reachability is transitive.
pub proof fn lemma_reaches_trans<V>(g: Seq<Op<V>>, i: int, m: int, j: int)
    requires
        reaches(g, i, m),
        reaches(g, m, j),
    ensures
        reaches(g, i, j),
    decreases i,
{
    if i != m {
        if 0 < g[i].arity() && 0 <= g[i].operand(0) < i && reaches(g, g[i].operand(0), m) {
            lemma_reaches_trans(g, g[i].operand(0), m, j);
        } else {
            lemma_reaches_trans(g, g[i].operand(1), m, j);
        }
    }
}

/// A node reaches only itself and earlier nodes.
pub proof fn lemma_reaches_below<V>(g: Seq<Op<V>>, i: int, j: int)
    requires
        reaches(g, i, j),
    ensures
        j <= i,
    decreases i,
{
    if i != j {
        if 0 < g[i].arity() && 0 <= g[i].operand(0) < i && reaches(g, g[i].operand(0), j) {
            lemma_reaches_below(g, g[i].operand(0), j);
        } else {
            lemma_reaches_below(g, g[i].operand(1), j);
        }
    }
}

/// In a well-formed graph a node reaches each of its operands.
proof fn lemma_reaches_operand<V>(g: Seq<Op<V>>, i: int, k: int)
    requires
        well_formed_graph(g),
        0 <= i < g.len(),
        0 <= k < g[i].arity(),
    ensures
        reaches(g, i, g[i].operand(k)),
{
    assert(operands_precede(g, i));
    let o = g[i].operand(k);
    assert(reaches(g, o, o));
}

/// A set of nodes that holds `root` and holds every operand of its members
/// below `root` holds every node that `root` reaches.
proof fn lemma_closed_holds_reach<V>(g: Seq<Op<V>>, found: Seq<bool>, i: int, j: int)
    requires
        well_formed_graph(g),
        found.len() == g.len(),
        0 <= i < g.len(),
        found[i],
        forall|s: int, k: int|
            0 <= s <= i && found[s] && 0 <= k < g[s].arity() ==> #[trigger] found[g[s].operand(k)],
        reaches(g, i, j),
    ensures
        found[j],
    decreases i,
{
    if i != j {
        assert(operands_precede(g, i));
        if 0 < g[i].arity() && 0 <= g[i].operand(0) < i && reaches(g, g[i].operand(0), j) {
            assert(found[g[i].operand(0)]);
            lemma_closed_holds_reach(g, found, g[i].operand(0), j);
        } else {
            assert(found[g[i].operand(1)]);
            lemma_closed_holds_reach(g, found, g[i].operand(1), j);
        }
    }
}

proof fn lemma_operands_in_range<V>(g: Seq<Op<V>>)
    requires
        well_formed_graph(g),
    ensures
        forall|s: int, k: int|
            #![trigger g[s].operand(k)]
            0 <= s < g.len() && 0 <= k < g[s].arity() ==> 0 <= g[s].operand(k) < s,
{
    assert forall|s: int, k: int|
        #![trigger g[s].operand(k)]
        0 <= s < g.len() && 0 <= k < g[s].arity() implies 0 <= g[s].operand(k) < s by {
        assert(operands_precede(g, s));
    }
}

/// The state of the counting pass. `ex[s]` is how many operand slots of `s`
/// have been visited; `counts[j]` is how many visits `j` has had, except that
/// a visit to `pend` has been issued and not yet counted.
pub open spec fn counting_state<V>(
    g: Seq<Op<V>>,
    root: int,
    counts: Seq<usize>,
    ex: Seq<int>,
    pend: int,
) -> bool {
    &&& counts.len() == g.len()
    &&& ex.len() == g.len()
    &&& forall|j: int|
        0 <= j < g.len() ==> #[trigger] counts[j] + (if j == pend { 1int } else { 0int }) == (if j
            == root {
            1int
        } else {
            0int
        }) + flow(g, zeros(g.len() as int), ex, j, g.len() as int)
    &&& forall|s: int| 0 <= s < g.len() ==> 0 <= #[trigger] ex[s] <= g[s].arity()
    &&& forall|s: int| 0 <= s < g.len() && #[trigger] counts[s] == 0 ==> ex[s] == 0
    &&& forall|s: int| 0 <= s < g.len() && #[trigger] counts[s] > 0 ==> reaches(g, root, s)
    &&& forall|s: int, k: int|
        #![trigger g[s].operand(k)]
        0 <= s < g.len() && 0 <= k < ex[s] ==> counts[g[s].operand(k)] > 0 || g[s].operand(k)
            == pend
}

/// Every discovered node below `bound` has had all its slots visited.
pub open spec fn expanded_below<V>(g: Seq<Op<V>>, counts: Seq<usize>, ex: Seq<int>, bound: int) -> bool {
    forall|s: int| 0 <= s < bound && #[trigger] counts[s] > 0 ==> ex[s] == g[s].arity()
}

impl<V> Tape<V> {
    /// One visit of node `i` along an operand slot (or as the root): counts
    /// the visit and, on first discovery, visits each operand slot of `i`.
    fn count_visits(&self, root: Ghost<int>, i: usize, counts: &mut Vec<usize>, ex: Ghost<Seq<int>>) -> (ex2:
        Ghost<Seq<int>>)
        requires
            self.wf(),
            i < self.graph().len(),
            reaches(self.graph(), root@, i as int),
            counting_state(self.graph(), root@, old(counts)@, ex@, i as int),
            expanded_below(self.graph(), old(counts)@, ex@, i + 1),
        ensures
            counting_state(self.graph(), root@, final(counts)@, ex2@, -1),
            expanded_below(self.graph(), final(counts)@, ex2@, i + 1),
            forall|s: int|
                i < s < self.graph().len() ==> #[trigger] final(counts)@[s] == old(counts)@[s],
            forall|s: int| i < s < self.graph().len() ==> #[trigger] ex2@[s] == ex@[s],
            final(counts)@[i as int] > 0,
            forall|s: int|
                0 <= s < self.graph().len() && #[trigger] old(counts)@[s] > 0 ==> final(counts)@[s]
                    > 0,
        decreases i, 1int,
    {
        let ghost g = self.graph();
        let ghost n = g.len() as int;
        proof {
            lemma_flow_bounds(g, zeros(n), ex@, i as int, n);
            lemma_operands_in_range(g);
        }
        if counts[i] > 0 {
            counts.set(i, counts[i] + 1);
            return ex;
        }
        counts.set(i, 1);
        let arity: usize = match self.op(i) {
            Op::Leaf => 0,
            Op::Add(_, _) | Op::Mul(_, _) => 2,
            Op::Exp(_) | Op::Pow(_, _) => 1,
        };
        let mut cur = ex;
        let mut k: usize = 0;
        while k < arity
            invariant
                self.wf(),
                g == self.graph(),
                n == g.len(),
                i < n,
                arity == g[i as int].arity(),
                0 <= k <= arity,
                cur@[i as int] == k,
                reaches(g, root@, i as int),
                counting_state(g, root@, counts@, cur@, -1),
                expanded_below(g, counts@, cur@, i as int),
                counts@[i as int] > 0,
                forall|s: int| i < s < n ==> #[trigger] counts@[s] == old(counts)@[s],
                forall|s: int| i < s < n ==> #[trigger] cur@[s] == ex@[s],
                forall|s: int|
                    0 <= s < n && #[trigger] old(counts)@[s] > 0 ==> counts@[s] > 0,
            decreases arity - k,
        {
            cur = self.visit_slot(root, i, k, counts, cur);
            k = k + 1;
        }
        cur
    }

    /// Visits operand slot `k` of the discovered node `i`.
    fn visit_slot(&self, root: Ghost<int>, i: usize, k: usize, counts: &mut Vec<usize>, ex: Ghost<Seq<int>>) -> (ex2:
        Ghost<Seq<int>>)
        requires
            self.wf(),
            i < self.graph().len(),
            reaches(self.graph(), root@, i as int),
            counting_state(self.graph(), root@, old(counts)@, ex@, -1),
            expanded_below(self.graph(), old(counts)@, ex@, i as int),
            old(counts)@[i as int] > 0,
            ex@[i as int] == k,
            k < self.graph()[i as int].arity(),
        ensures
            counting_state(self.graph(), root@, final(counts)@, ex2@, -1),
            expanded_below(self.graph(), final(counts)@, ex2@, i as int),
            ex2@[i as int] == k + 1,
            forall|s: int|
                i <= s < self.graph().len() ==> #[trigger] final(counts)@[s] == old(counts)@[s],
            forall|s: int| i < s < self.graph().len() ==> #[trigger] ex2@[s] == ex@[s],
            forall|s: int|
                0 <= s < self.graph().len() && #[trigger] old(counts)@[s] > 0 ==> final(counts)@[s]
                    > 0,
        decreases i, 0int,
    {
        let ghost g = self.graph();
        let ghost n = g.len() as int;
        let a: usize = match self.op(i) {
            Op::Leaf => 0,
            Op::Add(a, b) | Op::Mul(a, b) => if k == 0 { *a } else { *b },
            Op::Exp(a) | Op::Pow(a, _) => *a,
        };
        let ghost ex1 = ex@.update(i as int, k + 1);
        proof {
            lemma_operands_in_range(g);
            assert(a as int == g[i as int].operand(k as int));
            assert forall|j: int| 0 <= j < n implies #[trigger] flow(g, zeros(n), ex1, j, n) == flow(
                g,
                zeros(n),
                ex@,
                j,
                n,
            ) + if j == a { 1int } else { 0int } by {
                lemma_flow_update_hi(g, zeros(n), ex@, i as int, k + 1, j, n);
            }
            lemma_reaches_operand(g, i as int, k as int);
            lemma_reaches_trans(g, root@, i as int, a as int);
        }
        self.count_visits(root, a, counts, Ghost(ex1))
    }
}

impl<V> Tape<V> {
    /// The dependency-counting pass: for each node, how many contributions it
    /// will receive when propagating from `root`. A node has a nonzero count
    /// exactly when `root` reaches it.
    pub fn count_dependencies(&self, root: usize) -> (counts: Vec<usize>)
        requires
            self.wf(),
            root < self.graph().len(),
        ensures
            counts@.len() == self.graph().len(),
            forall|j: int|
                0 <= j < self.graph().len() ==> #[trigger] counts@[j] == dependency_count(
                    self.graph(),
                    root as int,
                    j,
                ),
            forall|j: int|
                0 <= j < self.graph().len() ==> (#[trigger] counts@[j] > 0 <==> reaches(
                    self.graph(),
                    root as int,
                    j,
                )),
    {
        let ghost g = self.graph();
        let ghost n = g.len() as int;
        let len = self.len();
        let mut counts: Vec<usize> = Vec::new();
        let mut m: usize = 0;
        while m < len
            invariant
                m <= len,
                len == n,
                counts@.len() == m,
                forall|s: int| 0 <= s < m ==> #[trigger] counts@[s] == 0,
            decreases len - m,
        {
            counts.push(0);
            m = m + 1;
        }
        let ghost z = zeros(n);
        proof {
            assert forall|j: int| 0 <= j < n implies flow(g, z, z, j, n) == 0 by {
                lemma_flow_empty(g, z, j, n);
            }
        }
        let ex = self.count_visits(Ghost(root as int), root, &mut counts, Ghost(z));
        proof {
            let found = Seq::new(n as nat, |s: int| counts@[s] > 0);
            let ra = reach_arity(g, root as int);
            assert forall|s: int| 0 <= s < n implies #[trigger] ex@[s] == ra[s] && (counts@[s] > 0
                <==> reaches(g, root as int, s)) by {
                if s > root {
                    if reaches(g, root as int, s) {
                        lemma_reaches_below(g, root as int, s);
                    }
                } else if counts@[s] == 0 {
                    if reaches(g, root as int, s) {
                        lemma_operands_in_range(g);
                        lemma_closed_holds_reach(g, found, root as int, s);
                    }
                }
            }
            assert(ex@ =~= ra);
            assert forall|j: int| 0 <= j < n implies #[trigger] counts@[j] == dependency_count(
                g,
                root as int,
                j,
            ) by {
                lemma_flow_edge_count(g, root as int, j, n);
            }
        }
        counts
    }
}

/// The local derivative of a node with respect to one of its operand slots,
/// named by the forward values it is made of.
#[derive(Clone, Copy, Debug, PartialEq, Eq, Structural)]
pub enum Factor {
    /// The derivative is one: a sum passes its gradient through unchanged.
    One,
    /// The derivative is the forward value of the given node: the other
    /// factor of a product, or the exponential node itself.
    ValueOf(usize),
    /// The given node is `Pow(a, p)`, and the derivative is
    /// `p * value(a)^(p - 1)`.
    PowerRule(usize),
}

/// One contribution of the backward pass: the gradient of `source` times
/// `factor` is added to the gradient of `target`, the node held in operand
/// slot `slot` of `source`.
#[derive(Clone, Copy, Debug, PartialEq, Eq, Structural)]
pub struct Transfer {
    pub source: usize,
    pub slot: usize,
    pub target: usize,
    pub factor: Factor,
}

/// The chain-rule factor for operand slot `k` of node `s`.
pub open spec fn local_factor<V>(g: Seq<Op<V>>, s: int, k: int) -> Factor {
    match g[s] {
        Op::Leaf => Factor::One,
        Op::Add(_, _) => Factor::One,
        Op::Mul(a, b) => if k == 0 { Factor::ValueOf(b) } else { Factor::ValueOf(a) },
        Op::Exp(_) => Factor::ValueOf(s as usize),
        Op::Pow(_, _) => Factor::PowerRule(s as usize),
    }
}

/// `t` is operand slot `t.slot` of node `t.source`, with its chain-rule factor.
pub open spec fn is_edge_transfer<V>(g: Seq<Op<V>>, t: Transfer) -> bool {
    &&& t.source < g.len()
    &&& t.slot < g[t.source as int].arity()
    &&& t.target == g[t.source as int].operand(t.slot as int)
    &&& t.factor == local_factor(g, t.source as int, t.slot as int)
}

/// Some transfer of `plan` comes from slot `k` of node `s`.
pub open spec fn has_edge(plan: Seq<Transfer>, s: int, k: int) -> bool {
    exists|p: int| 0 <= p < plan.len() && plan[p].source == s && plan[p].slot == k
}

/// `plan` is a backward pass from `root`: one transfer for every operand slot
/// of every node that `root` reaches, and no other; and every transfer into a
/// node comes before any transfer out of it, so a node's gradient is complete
/// before it is passed on.
pub open spec fn is_backward_plan<V>(g: Seq<Op<V>>, root: int, plan: Seq<Transfer>) -> bool {
    &&& forall|p: int|
        0 <= p < plan.len() ==> #[trigger] is_edge_transfer(g, plan[p]) && reaches(
            g,
            root,
            plan[p].source as int,
        )
    &&& forall|p: int, q: int|
        0 <= p < q < plan.len() ==> !(#[trigger] plan[p].source == #[trigger] plan[q].source
            && plan[p].slot == plan[q].slot)
    &&& forall|s: int, k: int|
        0 <= s < g.len() && reaches(g, root, s) && 0 <= k < g[s].arity() ==> #[trigger] has_edge(
            plan,
            s,
            k,
        )
    &&& forall|p: int, q: int|
        0 <= p < plan.len() && 0 <= q < plan.len() && #[trigger] plan[p].target
            == #[trigger] plan[q].source ==> p < q
}

/// The contributions each node still awaits: `em[s]` is how many operand
/// slots of `s` have passed a contribution on; `pending[j]` is how many
/// contributions `j` still awaits, except that one to `pend` is under way.
pub open spec fn pending_matches<V>(
    g: Seq<Op<V>>,
    root: int,
    pending: Seq<usize>,
    em: Seq<int>,
    pend: int,
) -> bool {
    &&& pending.len() == g.len()
    &&& em.len() == g.len()
    &&& forall|j: int|
        0 <= j < g.len() ==> #[trigger] pending[j] == flow(g, em, reach_arity(g, root), j, g.len() as int)
            + (if j == pend { 1int } else { 0int })
}

/// Only released nodes have passed contributions on, and only through the
/// slots they have.
pub open spec fn progress_bounded<V>(g: Seq<Op<V>>, root: int, pending: Seq<usize>, em: Seq<int>) -> bool {
    &&& forall|s: int| 0 <= s < g.len() ==> 0 <= #[trigger] em[s] <= reach_arity(g, root)[s]
    &&& forall|s: int| 0 <= s < g.len() && #[trigger] pending[s] > 0 ==> em[s] == 0
}

/// `plan` holds exactly the slots passed on so far, each once.
pub open spec fn plan_recorded<V>(g: Seq<Op<V>>, root: int, em: Seq<int>, plan: Seq<Transfer>) -> bool {
    &&& forall|p: int|
        0 <= p < plan.len() ==> #[trigger] is_edge_transfer(g, plan[p]) && reaches(
            g,
            root,
            plan[p].source as int,
        ) && plan[p].slot < em[plan[p].source as int]
    &&& forall|p: int, q: int|
        0 <= p < q < plan.len() ==> !(#[trigger] plan[p].source == #[trigger] plan[q].source
            && plan[p].slot == plan[q].slot)
    &&& forall|s: int, k: int| 0 <= s < g.len() && 0 <= k < em[s] ==> #[trigger] has_edge(plan, s, k)
}

/// Every transfer into a node comes before every transfer out of it.
pub open spec fn plan_ordered(plan: Seq<Transfer>) -> bool {
    forall|p: int, q: int|
        0 <= p < plan.len() && 0 <= q < plan.len() && #[trigger] plan[p].target
            == #[trigger] plan[q].source ==> p < q
}

/// The state of the propagation pass.
pub open spec fn propagation_state<V>(
    g: Seq<Op<V>>,
    root: int,
    pending: Seq<usize>,
    em: Seq<int>,
    plan: Seq<Transfer>,
    pend: int,
) -> bool {
    &&& pending_matches(g, root, pending, em, pend)
    &&& progress_bounded(g, root, pending, em)
    &&& plan_recorded(g, root, em, plan)
    &&& plan_ordered(plan)
}

/// Every released node below `bound` has passed on all its contributions.
pub open spec fn released_below<V>(
    g: Seq<Op<V>>,
    root: int,
    pending: Seq<usize>,
    em: Seq<int>,
    bound: int,
) -> bool {
    forall|s: int|
        0 <= s < bound && #[trigger] pending[s] == 0 ==> em[s] == reach_arity(g, root)[s]
}

proof fn lemma_has_edge_push(plan: Seq<Transfer>, t: Transfer, s: int, k: int)
    requires
        has_edge(plan, s, k),
    ensures
        has_edge(plan.push(t), s, k),
{
    let p = choose|p: int| 0 <= p < plan.len() && plan[p].source == s && plan[p].slot == k;
    assert(plan.push(t)[p] == plan[p]);
}

proof fn lemma_has_edge_extend(plan: Seq<Transfer>, plan2: Seq<Transfer>, s: int, k: int)
    requires
        has_edge(plan, s, k),
        plan.len() <= plan2.len(),
        forall|p: int| 0 <= p < plan.len() ==> #[trigger] plan2[p] == plan[p],
    ensures
        has_edge(plan2, s, k),
{
    let p = choose|p: int| 0 <= p < plan.len() && plan[p].source == s && plan[p].slot == k;
    assert(plan2[p] == plan[p]);
}

/// A positive flow into `j` comes from some slot in range that holds `j`.
proof fn lemma_flow_witness<V>(g: Seq<Op<V>>, lo: Seq<int>, hi: Seq<int>, j: int, n: int) -> (r: (
    int,
    int,
))
    requires
        flow(g, lo, hi, j, n) > 0,
    ensures
        0 <= r.0 < n,
        lo[r.0] <= r.1 < hi[r.0],
        0 <= r.1 < g[r.0].arity(),
        g[r.0].operand(r.1) == j,
    decreases n,
{
    if n <= 0 {
        (0, 0)
    } else if flow(g, lo, hi, j, n - 1) > 0 {
        lemma_flow_witness(g, lo, hi, j, n - 1)
    } else {
        let s = n - 1;
        if lo[s] <= 0 < hi[s] && 0 < g[s].arity() && g[s].operand(0) == j {
            (s, 0)
        } else {
            (s, 1)
        }
    }
}

/// Once propagation is over, every node that `root` reaches has been released.
proof fn lemma_all_released<V>(
    g: Seq<Op<V>>,
    root: int,
    pending: Seq<usize>,
    em: Seq<int>,
    plan: Seq<Transfer>,
    j: int,
)
    requires
        well_formed_graph(g),
        0 <= root < g.len(),
        propagation_state(g, root, pending, em, plan, -1),
        released_below(g, root, pending, em, root + 1),
        0 <= j < g.len(),
    ensures
        pending[j] == 0,
    decreases g.len() - j,
{
    let ra = reach_arity(g, root);
    if pending[j] > 0 {
        let (s, k) = lemma_flow_witness(g, em, ra, j, g.len() as int);
        assert(operands_precede(g, s));
        assert(reaches(g, root, s));
        lemma_reaches_below(g, root, s);
        lemma_all_released(g, root, pending, em, plan, s);
    }
}

/// Passing a contribution on through slot `k` of the released node `i` keeps
/// the propagation state, with the contribution under way to its target.
proof fn lemma_pass_on_state<V>(
    g: Seq<Op<V>>,
    root: int,
    pending: Seq<usize>,
    em: Seq<int>,
    plan0: Seq<Transfer>,
    tr: Transfer,
)
    requires
        well_formed_graph(g),
        is_edge_transfer(g, tr),
        reaches(g, root, tr.source as int),
        propagation_state(g, root, pending, em, plan0, -1),
        pending[tr.source as int] == 0,
        em[tr.source as int] == tr.slot,
    ensures
        propagation_state(
            g,
            root,
            pending,
            em.update(tr.source as int, tr.slot + 1),
            plan0.push(tr),
            tr.target as int,
        ),
        reaches(g, root, tr.target as int),
{
    let n = g.len() as int;
    let ra = reach_arity(g, root);
    let i = tr.source as int;
    let k = tr.slot as int;
    let t = tr.target as int;
    let em1 = em.update(tr.source as int, tr.slot + 1);
    let plan1 = plan0.push(tr);
    lemma_operands_in_range(g);
    assert forall|j: int| 0 <= j < n implies #[trigger] flow(g, em1, ra, j, n) + (if j == t {
        1int
    } else {
        0int
    }) == flow(g, em, ra, j, n) by {
        lemma_flow_update_lo(g, em, ra, i, k + 1, j, n);
    }
    lemma_reaches_operand(g, i, k);
    lemma_reaches_trans(g, root, i, t);
    lemma_flow_bounds(g, em1, ra, t, n);
    assert(pending[t] > 0);
    assert(em[t] == 0);
    assert forall|s: int, kk: int| 0 <= s < n && 0 <= kk < em1[s] implies #[trigger] has_edge(
        plan1,
        s,
        kk,
    ) by {
        if s == i && kk == k {
            assert(plan1[plan0.len() as int] == tr);
        } else {
            lemma_has_edge_push(plan0, tr, s, kk);
        }
    }
    assert forall|p: int| 0 <= p < plan1.len() implies #[trigger] is_edge_transfer(g, plan1[p])
        && reaches(g, root, plan1[p].source as int) && plan1[p].slot < em1[plan1[p].source as int] by {
        if p < plan0.len() {
            assert(plan1[p] == plan0[p]);
            assert(is_edge_transfer(g, plan0[p]));
        }
    }
    assert forall|p: int, q: int| 0 <= p < q < plan1.len() implies !(#[trigger] plan1[p].source
        == #[trigger] plan1[q].source && plan1[p].slot == plan1[q].slot) by {
        assert(plan1[p] == plan0[p]);
        assert(is_edge_transfer(g, plan0[p]));
        if q < plan0.len() {
            assert(plan1[q] == plan0[q]);
        }
    }
    assert forall|p: int, q: int|
        0 <= p < plan1.len() && 0 <= q < plan1.len() && #[trigger] plan1[p].target
            == #[trigger] plan1[q].source implies p < q by {
        if p < plan0.len() {
            assert(plan1[p] == plan0[p]);
        }
        if q < plan0.len() {
            assert(plan1[q] == plan0[q]);
            assert(is_edge_transfer(g, plan0[q]));
        }
    }
    assert(pending_matches(g, root, pending, em1, t));
    assert(progress_bounded(g, root, pending, em1));
    assert(plan_recorded(g, root, em1, plan1));
    assert(plan_ordered(plan1));
}

impl<V> Tape<V> {
    /// Delivers one contribution to node `i`; once `i` has received all of
    /// them, passes a contribution on through each of its operand slots.
    fn receive(
        &self,
        root: Ghost<int>,
        i: usize,
        pending: &mut Vec<usize>,
        plan: &mut Vec<Transfer>,
        em: Ghost<Seq<int>>,
    ) -> (em2: Ghost<Seq<int>>)
        requires
            self.wf(),
            i < self.graph().len(),
            reaches(self.graph(), root@, i as int),
            propagation_state(self.graph(), root@, old(pending)@, em@, old(plan)@, i as int),
            released_below(self.graph(), root@, old(pending)@, em@, i + 1),
        ensures
            propagation_state(self.graph(), root@, final(pending)@, em2@, final(plan)@, -1),
            released_below(self.graph(), root@, final(pending)@, em2@, i + 1),
            forall|s: int|
                i < s < self.graph().len() ==> #[trigger] final(pending)@[s] == old(pending)@[s],
            forall|s: int| i < s < self.graph().len() ==> #[trigger] em2@[s] == em@[s],
            old(plan)@.len() <= final(plan)@.len(),
            forall|p: int| 0 <= p < old(plan)@.len() ==> #[trigger] final(plan)@[p] == old(plan)@[p],
        decreases i, 1int,
    {
        let ghost g = self.graph();
        let ghost n = g.len() as int;
        proof {
            lemma_flow_bounds(g, em@, reach_arity(g, root@), i as int, n);
        }
        let ghost p0 = pending@;
        pending.set(i, pending[i] - 1);
        proof {
            let ra = reach_arity(g, root@);
            assert forall|j: int| 0 <= j < n implies #[trigger] pending@[j] == flow(g, em@, ra, j, n)
                by {
                assert(p0[j] == flow(g, em@, ra, j, n) + if j == i { 1int } else { 0int });
            }
            assert forall|j: int| 0 <= j < n && #[trigger] pending@[j] > 0 implies em@[j] == 0 by {
                assert(p0[j] > 0);
            }
            assert forall|j: int| i < j < n implies #[trigger] pending@[j] == p0[j] by {}
            assert forall|j: int| 0 <= j < i && #[trigger] pending@[j] == 0 implies em@[j] == ra[j] by {
                assert(p0[j] == 0);
            }
        }
        if pending[i] > 0 {
            return em;
        }
        let arity: usize = match self.op(i) {
            Op::Leaf => 0,
            Op::Add(_, _) | Op::Mul(_, _) => 2,
            Op::Exp(_) | Op::Pow(_, _) => 1,
        };
        let mut cur = em;
        let mut k: usize = 0;
        while k < arity
            invariant
                self.wf(),
                g == self.graph(),
                n == g.len(),
                i < n,
                arity == g[i as int].arity(),
                0 <= k <= arity,
                cur@[i as int] == k,
                reaches(g, root@, i as int),
                propagation_state(g, root@, pending@, cur@, plan@, -1),
                released_below(g, root@, pending@, cur@, i as int),
                pending@[i as int] == 0,
                forall|s: int| i < s < n ==> #[trigger] pending@[s] == old(pending)@[s],
                forall|s: int| i < s < n ==> #[trigger] cur@[s] == em@[s],
                old(plan)@.len() <= plan@.len(),
                forall|p: int| 0 <= p < old(plan)@.len() ==> #[trigger] plan@[p] == old(plan)@[p],
            decreases arity - k,
        {
            cur = self.pass_on(root, i, k, pending, plan, cur);
            k = k + 1;
        }
        cur
    }

    /// Passes the gradient of the released node `i` on through slot `k`.
    fn pass_on(
        &self,
        root: Ghost<int>,
        i: usize,
        k: usize,
        pending: &mut Vec<usize>,
        plan: &mut Vec<Transfer>,
        em: Ghost<Seq<int>>,
    ) -> (em2: Ghost<Seq<int>>)
        requires
            self.wf(),
            i < self.graph().len(),
            reaches(self.graph(), root@, i as int),
            propagation_state(self.graph(), root@, old(pending)@, em@, old(plan)@, -1),
            released_below(self.graph(), root@, old(pending)@, em@, i as int),
            old(pending)@[i as int] == 0,
            em@[i as int] == k,
            k < self.graph()[i as int].arity(),
        ensures
            propagation_state(self.graph(), root@, final(pending)@, em2@, final(plan)@, -1),
            released_below(self.graph(), root@, final(pending)@, em2@, i as int),
            em2@[i as int] == k + 1,
            forall|s: int|
                i <= s < self.graph().len() ==> #[trigger] final(pending)@[s] == old(pending)@[s],
            forall|s: int| i < s < self.graph().len() ==> #[trigger] em2@[s] == em@[s],
            old(plan)@.len() <= final(plan)@.len(),
            forall|p: int| 0 <= p < old(plan)@.len() ==> #[trigger] final(plan)@[p] == old(plan)@[p],
        decreases i, 0int,
    {
        let ghost g = self.graph();
        let (t, factor) = match self.op(i) {
            Op::Leaf => (0, Factor::One),
            Op::Add(a, b) => (if k == 0 { *a } else { *b }, Factor::One),
            Op::Mul(a, b) => if k == 0 {
                (*a, Factor::ValueOf(*b))
            } else {
                (*b, Factor::ValueOf(*a))
            },
            Op::Exp(a) => (*a, Factor::ValueOf(i)),
            Op::Pow(a, _) => (*a, Factor::PowerRule(i)),
        };
        let tr = Transfer { source: i, slot: k, target: t, factor };
        let ghost em1 = em@.update(i as int, k + 1);
        proof {
            lemma_operands_in_range(g);
            assert(t as int == g[i as int].operand(k as int));
            assert(is_edge_transfer(g, tr));
            lemma_pass_on_state(g, root@, pending@, em@, plan@, tr);
        }
        plan.push(tr);
        self.receive(root, t, pending, plan, Ghost(em1))
    }
}

impl<V> Tape<V> {
    /// The backward pass from `root`: counts each node's dependencies, seeds
    /// the root, and propagates, releasing a node only when all of its
    /// contributions have arrived. Returns the transfers in the order made.
    pub fn backward(&self, root: usize) -> (plan: Vec<Transfer>)
        requires
            self.wf(),
            root < self.graph().len(),
        ensures
            is_backward_plan(self.graph(), root as int, plan@),
    {
        let ghost g = self.graph();
        let ghost n = g.len() as int;
        let ghost ra = reach_arity(g, root as int);
        let mut pending = self.count_dependencies(root);
        let mut plan: Vec<Transfer> = Vec::new();
        let ghost z = zeros(n);
        proof {
            assert forall|j: int| 0 <= j < n implies #[trigger] pending@[j] == flow(g, z, ra, j, n) + (
            if j == root {
                1int
            } else {
                0int
            }) by {
                lemma_flow_edge_count(g, root as int, j, n);
            }
            assert(reaches(g, root as int, root as int));
        }
        let em = self.receive(Ghost(root as int), root, &mut pending, &mut plan, Ghost(z));
        proof {
            assert forall|s: int, k: int|
                0 <= s < n && reaches(g, root as int, s) && 0 <= k < g[s].arity() implies #[trigger] has_edge(
                plan@,
                s,
                k,
            ) by {
                lemma_all_released(g, root as int, pending@, em@, plan@, s);
                if s > root {
                    lemma_reaches_below(g, root as int, s);
                }
                assert(em@[s] == ra[s]);
            }
            assert forall|p: int| 0 <= p < plan@.len() implies #[trigger] is_edge_transfer(g, plan@[p])
                && reaches(g, root as int, plan@[p].source as int) by {}
        }
        plan
    }
}

} // verus!
