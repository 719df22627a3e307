//! The node arena: operations, forward values and reachability.
use vstd::prelude::*;
use crate::backward::{Transfer, is_backward_plan};

verus! {

/// The largest number of nodes a tape may hold; it keeps every dependency
/// count within `u32` range on any target.
pub const MAX_NODES: usize = 0x7fff_ffff;

/// How a node was produced. Operands are indices of earlier nodes.
pub enum Op<V> {
    Leaf,
    Add(usize, usize),
    Mul(usize, usize),
    Exp(usize),
    Pow(usize, V),
}

impl<V> Op<V> {
    /// Number of operand slots.
    pub open spec fn arity(&self) -> int {
        match self {
            Op::Leaf => 0,
            Op::Add(_, _) => 2,
            Op::Mul(_, _) => 2,
            Op::Exp(_) => 1,
            Op::Pow(_, _) => 1,
        }
    }

    /// The node held in operand slot `k`.
    pub open spec fn operand(&self, k: int) -> int {
        match self {
            Op::Leaf => -1,
            Op::Add(a, b) => if k == 0 { *a as int } else { *b as int },
            Op::Mul(a, b) => if k == 0 { *a as int } else { *b as int },
            Op::Exp(a) => *a as int,
            Op::Pow(a, _) => *a as int,
        }
    }
}

/// Every operand of node `i` is an earlier node.
pub open spec fn operands_precede<V>(g: Seq<Op<V>>, i: int) -> bool {
    forall|k: int| 0 <= k < g[i].arity() ==> 0 <= #[trigger] g[i].operand(k) < i
}

/// A graph in which every operand refers to an earlier node: it is acyclic by
/// construction, and the node order is a topological order.
pub open spec fn well_formed_graph<V>(g: Seq<Op<V>>) -> bool {
    forall|i: int| 0 <= i < g.len() ==> #[trigger] operands_precede(g, i)
}

/// Whether node `j` can be reached from node `i` by following operand slots
/// (every node reaches itself).
pub open spec fn reaches<V>(g: Seq<Op<V>>, i: int, j: int) -> bool
    decreases i,
{
    if i == j {
        true
    } else if i < 0 || i >= g.len() {
        false
    } else {
        (0 < g[i].arity() && 0 <= g[i].operand(0) < i && reaches(g, g[i].operand(0), j)) || (1
            < g[i].arity() && 0 <= g[i].operand(1) < i && reaches(g, g[i].operand(1), j))
    }
}

/// The record of one gradient computation: its label and, for each node
/// that existed then, whether the computation reached it.
pub struct Run {
    label: String,
    reached: Vec<bool>,
}

/// The nodes of a computation, their forward values, and the gradient
/// computations made on them.
pub struct Tape<V> {
    ops: Vec<Op<V>>,
    values: Vec<V>,
    runs: Vec<Run>,
}

/// Node `i` holds a gradient for `label` in one of the recorded runs.
pub open spec fn holds_label(runs: Seq<(Seq<char>, Seq<bool>)>, i: int, label: Seq<char>) -> bool {
    exists|r: int|
        0 <= r < runs.len() && (#[trigger] runs[r]).0 == label && 0 <= i < runs[r].1.len()
            && runs[r].1[i]
}

/// No two runs with the same label reached a common node.
pub open spec fn labels_disjoint(runs: Seq<(Seq<char>, Seq<bool>)>) -> bool {
    forall|r1: int, r2: int, i: int|
        0 <= r1 < runs.len() && 0 <= r2 < runs.len() && r1 != r2 && runs[r1].0 == runs[r2].0 && 0
            <= i < runs[r1].1.len() && 0 <= i < runs[r2].1.len() ==> !(#[trigger] runs[r1].1[i]
            && #[trigger] runs[r2].1[i])
}

impl<V> Tape<V> {
    pub closed spec fn graph(&self) -> Seq<Op<V>> {
        self.ops@
    }

    pub closed spec fn values(&self) -> Seq<V> {
        self.values@
    }

    /// The runs made so far: each label with the nodes it reached.
    pub closed spec fn runs(&self) -> Seq<(Seq<char>, Seq<bool>)> {
        self.runs@.map_values(|r: Run| (r.label@, r.reached@))
    }

    pub open spec fn wf(&self) -> bool {
        &&& forall|r: int|
            0 <= r < self.runs().len() ==> (#[trigger] self.runs()[r]).1.len() <= self.graph().len()
        &&& labels_disjoint(self.runs())
        &&& self.graph().len() == self.values().len()
        &&& self.graph().len() <= MAX_NODES
        &&& well_formed_graph(self.graph())
    }

    pub fn new() -> (t: Self)
        ensures
            t.wf(),
            t.graph().len() == 0,
            t.runs().len() == 0,
    {
        let t = Tape { ops: Vec::new(), values: Vec::new(), runs: Vec::new() };
        assert(t.runs() =~= Seq::empty());
        t
    }

    pub fn len(&self) -> (r: usize)
        ensures
            r == self.graph().len(),
    {
        self.ops.len()
    }

    /// The forward value stored with node `i`.
    pub fn value(&self, i: usize) -> (r: &V)
        requires
            i < self.values().len(),
        ensures
            *r == self.values()[i as int],
    {
        &self.values[i]
    }

    /// The operation that produced node `i`.
    pub fn op(&self, i: usize) -> (r: &Op<V>)
        requires
            i < self.graph().len(),
        ensures
            *r == self.graph()[i as int],
    {
        &self.ops[i]
    }

    fn push(&mut self, op: Op<V>, value: V) -> (r: usize)
        requires
            old(self).wf(),
            old(self).graph().len() < MAX_NODES,
            forall|k: int|
                0 <= k < op.arity() ==> 0 <= #[trigger] op.operand(k) < old(self).graph().len(),
        ensures
            final(self).wf(),
            final(self).graph() == old(self).graph().push(op),
            final(self).values() == old(self).values().push(value),
            final(self).runs() == old(self).runs(),
            r == old(self).graph().len(),
    {
        let r = self.ops.len();
        proof {
            let g = self.ops@.push(op);
            assert forall|i: int| 0 <= i < g.len() implies #[trigger] operands_precede(g, i) by {
                if i < r {
                    assert(operands_precede(self.ops@, i));
                }
            }
        }
        self.ops.push(op);
        self.values.push(value);
        r
    }

    /// Appends a leaf holding `value`.
    pub fn leaf(&mut self, value: V) -> (r: usize)
        requires
            old(self).wf(),
            old(self).graph().len() < MAX_NODES,
        ensures
            final(self).wf(),
            final(self).graph() == old(self).graph().push(Op::Leaf),
            final(self).values() == old(self).values().push(value),
            final(self).runs() == old(self).runs(),
            r == old(self).graph().len(),
    {
        self.push(Op::Leaf, value)
    }

    /// Appends the sum of nodes `a` and `b`, whose forward value is `value`.
    pub fn add(&mut self, a: usize, b: usize, value: V) -> (r: usize)
        requires
            old(self).wf(),
            old(self).graph().len() < MAX_NODES,
            a < old(self).graph().len(),
            b < old(self).graph().len(),
        ensures
            final(self).wf(),
            final(self).graph() == old(self).graph().push(Op::Add(a, b)),
            final(self).values() == old(self).values().push(value),
            final(self).runs() == old(self).runs(),
            r == old(self).graph().len(),
    {
        self.push(Op::Add(a, b), value)
    }

    /// Appends the product of nodes `a` and `b`, whose forward value is `value`.
    pub fn mul(&mut self, a: usize, b: usize, value: V) -> (r: usize)
        requires
            old(self).wf(),
            old(self).graph().len() < MAX_NODES,
            a < old(self).graph().len(),
            b < old(self).graph().len(),
        ensures
            final(self).wf(),
            final(self).graph() == old(self).graph().push(Op::Mul(a, b)),
            final(self).values() == old(self).values().push(value),
            final(self).runs() == old(self).runs(),
            r == old(self).graph().len(),
    {
        self.push(Op::Mul(a, b), value)
    }

    /// Appends the exponential of node `a`, whose forward value is `value`.
    pub fn exp(&mut self, a: usize, value: V) -> (r: usize)
        requires
            old(self).wf(),
            old(self).graph().len() < MAX_NODES,
            a < old(self).graph().len(),
        ensures
            final(self).wf(),
            final(self).graph() == old(self).graph().push(Op::Exp(a)),
            final(self).values() == old(self).values().push(value),
            final(self).runs() == old(self).runs(),
            r == old(self).graph().len(),
    {
        self.push(Op::Exp(a), value)
    }

    /// Appends node `a` raised to the constant `exponent`, whose forward value
    /// is `value`.
    pub fn pow(&mut self, a: usize, exponent: V, value: V) -> (r: usize)
        requires
            old(self).wf(),
            old(self).graph().len() < MAX_NODES,
            a < old(self).graph().len(),
        ensures
            final(self).wf(),
            final(self).graph() == old(self).graph().push(Op::Pow(a, exponent)),
            final(self).values() == old(self).values().push(value),
            final(self).runs() == old(self).runs(),
            r == old(self).graph().len(),
    {
        self.push(Op::Pow(a, exponent), value)
    }
}

/// Why a gradient computation was refused.
#[derive(Clone, Copy, Debug, PartialEq, Eq, Structural)]
pub enum GradientError {
    /// A node that the root reaches already holds a gradient for this label:
    /// its dependency counts have been spent, so the label cannot be reused
    /// there.
    LabelInUse,
}

impl<V> Tape<V> {
    /// Number of gradient computations recorded.
    pub fn run_count(&self) -> (r: usize)
        ensures
            r == self.runs().len(),
    {
        self.runs.len()
    }

    /// Computes the gradient of `root` under `label`: returns the backward
    /// pass and records which nodes now hold a gradient for `label`. Refused,
    /// with nothing changed, when a node that `root` reaches already holds one.
    pub fn compute_gradient(&mut self, root: usize, label: &str) -> (r: Result<
        Vec<Transfer>,
        GradientError,
    >)
        requires
            old(self).wf(),
            root < old(self).graph().len(),
        ensures
            final(self).wf(),
            final(self).graph() == old(self).graph(),
            final(self).values() == old(self).values(),
            r is Err <==> exists|j: int|
                0 <= j < old(self).graph().len() && reaches(old(self).graph(), root as int, j)
                    && #[trigger] holds_label(old(self).runs(), j, label@),
            r is Err ==> r == Err::<Vec<Transfer>, GradientError>(GradientError::LabelInUse)
                && final(self).runs() == old(self).runs(),
            r matches Ok(plan) ==> is_backward_plan(old(self).graph(), root as int, plan@)
                && final(self).runs() == old(self).runs().push(
                (
                    label@,
                    Seq::new(
                        old(self).graph().len(),
                        |j: int| reaches(old(self).graph(), root as int, j),
                    ),
                ),
            ),
    {
        let ghost g = self.graph();
        let ghost n = g.len() as int;
        let ghost runs0 = self.runs();
        let counts = self.count_dependencies(root);
        let name = label.to_owned();
        let mut r: usize = 0;
        while r < self.runs.len()
            invariant
                self.wf(),
                g == self.graph(),
                n == g.len(),
                runs0 == self.runs(),
                runs0.len() == self.runs@.len(),
                name@ == label@,
                counts@.len() == n,
                forall|j: int| 0 <= j < n ==> (#[trigger] counts@[j] > 0 <==> reaches(g, root as int, j)),
                0 <= r <= runs0.len(),
                forall|q: int, j: int|
                    0 <= q < r && runs0[q].0 == label@ && 0 <= j < runs0[q].1.len() ==> !(
                    #[trigger] runs0[q].1[j] && reaches(g, root as int, j)),
            decreases runs0.len() - r,
        {
            assert(runs0[r as int] == (self.runs@[r as int].label@, self.runs@[r as int].reached@));
            if self.runs[r].label == name {
                let reached = &self.runs[r].reached;
                assert(reached@ == runs0[r as int].1);
                assert(runs0[r as int].1.len() <= n);
                let mut j: usize = 0;
                while j < reached.len()
                    invariant
                        self.wf(),
                        g == self.graph(),
                        runs0 == self.runs(),
                        r < runs0.len(),
                        reached@ == runs0[r as int].1,
                        runs0[r as int].0 == label@,
                        runs0[r as int].1.len() <= n,
                        counts@.len() == n,
                        forall|j: int| 0 <= j < n ==> (#[trigger] counts@[j] > 0 <==> reaches(g, root as int, j)),
                        0 <= j <= reached@.len(),
                        forall|jj: int| 0 <= jj < j ==> !(#[trigger] reached@[jj] && reaches(g, root as int, jj)),
                    decreases reached@.len() - j,
                {
                    if reached[j] && counts[j] > 0 {
                        proof {
                            assert(holds_label(runs0, j as int, label@));
                        }
                        return Err(GradientError::LabelInUse);
                    }
                    j = j + 1;
                }
            }
            r = r + 1;
        }
        let plan = self.backward(root);
        let mut reached: Vec<bool> = Vec::new();
        let mut j: usize = 0;
        while j < counts.len()
            invariant
                counts@.len() == n,
                forall|j: int| 0 <= j < n ==> (#[trigger] counts@[j] > 0 <==> reaches(g, root as int, j)),
                0 <= j <= n,
                reached@.len() == j,
                forall|jj: int| 0 <= jj < j ==> #[trigger] reached@[jj] == reaches(g, root as int, jj),
            decreases n - j,
        {
            reached.push(counts[j] > 0);
            j = j + 1;
        }
        let ghost entry = (label@, reached@);
        proof {
            assert(reached@ =~= Seq::new(n as nat, |j: int| reaches(g, root as int, j)));
            assert forall|j: int| 0 <= j < n && reaches(g, root as int, j) implies !#[trigger] holds_label(runs0, j, label@) by {
                if holds_label(runs0, j, label@) {
                    let q = choose|q: int|
                        0 <= q < runs0.len() && (#[trigger] runs0[q]).0 == label@ && 0 <= j < runs0[q].1.len()
                            && runs0[q].1[j];
                    assert(!(runs0[q].1[j] && reaches(g, root as int, j)));
                }
            }
        }
        self.runs.push(Run { label: name, reached });
        proof {
            let runs1 = self.runs();
            assert(runs1 =~= runs0.push(entry));
            assert forall|r1: int, r2: int, i: int|
                0 <= r1 < runs1.len() && 0 <= r2 < runs1.len() && r1 != r2 && runs1[r1].0 == runs1[r2].0 && 0
                    <= i < runs1[r1].1.len() && 0 <= i < runs1[r2].1.len() implies !(#[trigger] runs1[r1].1[i]
                    && #[trigger] runs1[r2].1[i]) by {
                if r1 == runs0.len() {
                    assert(!(runs0[r2].1[i] && reaches(g, root as int, i)));
                } else if r2 == runs0.len() {
                    assert(!(runs0[r1].1[i] && reaches(g, root as int, i)));
                }
            }
        }
        Ok(plan)
    }

    /// The run that holds the gradient of `node` for `label`, if any; a node
    /// holds at most one.
    pub fn gradient_run(&self, node: usize, label: &str) -> (r: Option<usize>)
        requires
            self.wf(),
        ensures
            r is None <==> !holds_label(self.runs(), node as int, label@),
            r matches Some(k) ==> k < self.runs().len() && self.runs()[k as int].0 == label@
                && node < self.runs()[k as int].1.len() && self.runs()[k as int].1[node as int],
    {
        let ghost runs0 = self.runs();
        let name = label.to_owned();
        let mut r: usize = 0;
        while r < self.runs.len()
            invariant
                runs0 == self.runs(),
                runs0.len() == self.runs@.len(),
                name@ == label@,
                0 <= r <= runs0.len(),
                forall|q: int|
                    0 <= q < r ==> !((#[trigger] runs0[q]).0 == label@ && 0 <= node < runs0[q].1.len()
                        && runs0[q].1[node as int]),
            decreases runs0.len() - r,
        {
            assert(runs0[r as int] == (self.runs@[r as int].label@, self.runs@[r as int].reached@));
            if self.runs[r].label == name && node < self.runs[r].reached.len() && self.runs[r].reached[node] {
                return Some(r);
            }
            r = r + 1;
        }
        None
    }
}

} // verus!
