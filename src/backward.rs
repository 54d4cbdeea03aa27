use vstd::prelude::*;

use crate::graph::{operands, well_formed, Graph, Node};
use crate::order::{is_order_from, is_topological, reaches};

verus! {

/// How one node passes its gradient to one of its operands:
/// `grad[operand] += factor * grad[node]`, where the factor is
/// - `Pass`: one (a sum);
/// - `ScaleBy(i)`: the forward value of node `i`, the other factor of a product;
/// - `Negate`: minus one;
/// - `Power`: `p * x^(p - 1)`, for the node `x^p`;
/// - `Rectify`: one where the node's own value is positive, else zero.
#[derive(Clone, Copy, PartialEq, Eq, Structural, Debug)]
pub enum Rule {
    Pass,
    ScaleBy(usize),
    Negate,
    Power,
    Rectify,
}

/// One chain-rule step of the backward pass.
#[derive(Clone, Copy, PartialEq, Eq, Structural, Debug)]
pub struct Step {
    pub node: usize,
    pub operand: usize,
    pub rule: Rule,
}

/// The local chain-rule steps of node `v`, one per operand, in operand order.
pub open spec fn steps_of<C>(nodes: Seq<Node<C>>, v: usize) -> Seq<Step> {
    match nodes[v as int] {
        Node::Leaf(_) => seq![],
        Node::Add(a, b) => seq![
            Step { node: v, operand: a, rule: Rule::Pass },
            Step { node: v, operand: b, rule: Rule::Pass },
        ],
        Node::Mul(a, b) => seq![
            Step { node: v, operand: a, rule: Rule::ScaleBy(b) },
            Step { node: v, operand: b, rule: Rule::ScaleBy(a) },
        ],
        Node::Neg(a) => seq![Step { node: v, operand: a, rule: Rule::Negate }],
        Node::Pow(a, _) => seq![Step { node: v, operand: a, rule: Rule::Power }],
        Node::Relu(a) => seq![Step { node: v, operand: a, rule: Rule::Rectify }],
    }
}

/// The steps of every node of `order`, taken from the last node back to the first.
pub open spec fn schedule<C>(nodes: Seq<Node<C>>, order: Seq<usize>) -> Seq<Step>
    decreases order.len(),
{
    if order.len() == 0 {
        seq![]
    } else {
        schedule(nodes, order.drop_first()) + steps_of(nodes, order[0])
    }
}

/// No node of `order` has as operand a node that comes later in `order`.
pub open spec fn operands_come_first<C>(nodes: Seq<Node<C>>, order: Seq<usize>) -> bool {
    forall|p: int, q: int, k: int|
        0 <= p < order.len() && 0 <= q < order.len() && 0 <= k < operands(
            nodes[order[p] as int],
        ).len() && #[trigger] operands(nodes[order[p] as int])[k] == #[trigger] order[q] ==> q < p
}

proof fn lemma_topological_operands_first<C>(nodes: Seq<Node<C>>, order: Seq<usize>)
    requires
        is_topological(nodes, order),
    ensures
        operands_come_first(nodes, order),
{
    assert forall|p: int, q: int, k: int|
        0 <= p < order.len() && 0 <= q < order.len() && 0 <= k < operands(
            nodes[order[p] as int],
        ).len() && #[trigger] operands(nodes[order[p] as int])[k] == #[trigger] order[q]
        implies q < p by {
        assert(order.take(p).contains(operands(nodes[order[p] as int])[k]));
        let j = choose|j: int| 0 <= j < p && order.take(p)[j] == order[q];
        assert(order[j] == order[q]);
    }
}

proof fn lemma_steps_of_shape<C>(nodes: Seq<Node<C>>, v: usize)
    requires
        v < nodes.len(),
    ensures
        steps_of(nodes, v).len() == operands(nodes[v as int]).len(),
        forall|k: int|
            0 <= k < steps_of(nodes, v).len() ==> (#[trigger] steps_of(nodes, v)[k]).node == v
                && steps_of(nodes, v)[k].operand == operands(nodes[v as int])[k],
{
}

/// `s` goes from a node of `order` to one of that node's operands.
pub open spec fn step_within<C>(nodes: Seq<Node<C>>, order: Seq<usize>, s: Step) -> bool {
    exists|p: int, k: int|
        0 <= p < order.len() && 0 <= k < operands(nodes[order[p] as int]).len() && s.node
            == order[p] && s.operand == operands(nodes[order[p] as int])[k]
}

proof fn lemma_schedule_shape<C>(nodes: Seq<Node<C>>, order: Seq<usize>)
    requires
        forall|p: int| 0 <= p < order.len() ==> order[p] < nodes.len(),
    ensures
        forall|i: int|
            0 <= i < schedule(nodes, order).len() ==> step_within(
                nodes,
                order,
                #[trigger] schedule(nodes, order)[i],
            ),
    decreases order.len(),
{
    if order.len() > 0 {
        let rest = order.drop_first();
        lemma_schedule_shape(nodes, rest);
        lemma_steps_of_shape(nodes, order[0]);
        let sr = schedule(nodes, rest);
        let t = steps_of(nodes, order[0]);
        assert forall|i: int| 0 <= i < schedule(nodes, order).len() implies step_within(
            nodes,
            order,
            #[trigger] schedule(nodes, order)[i],
        ) by {
            let s = schedule(nodes, order)[i];
            if i < sr.len() {
                assert(s == sr[i]);
                assert(step_within(nodes, rest, sr[i]));
                let (p, k) = choose|p: int, k: int|
                    0 <= p < rest.len() && 0 <= k < operands(nodes[rest[p] as int]).len()
                        && sr[i].node == rest[p] && sr[i].operand == operands(
                        nodes[rest[p] as int],
                    )[k];
                assert(order[p + 1] == rest[p]);
                let pn = p + 1;
                assert(0 <= pn < order.len() && 0 <= k < operands(nodes[order[pn] as int]).len()
                    && s.node == order[pn] && s.operand == operands(nodes[order[pn] as int])[k]);
            } else {
                assert(s == t[i - sr.len()]);
                let k = i - sr.len();
                let pz: int = 0;
                assert(0 <= pz < order.len() && 0 <= k < operands(nodes[order[pz] as int]).len()
                    && s.node == order[pz] && s.operand == operands(nodes[order[pz] as int])[k]);
            }
        }
    }
}

proof fn lemma_schedule_order<C>(nodes: Seq<Node<C>>, order: Seq<usize>)
    requires
        forall|p: int| 0 <= p < order.len() ==> order[p] < nodes.len(),
        operands_come_first(nodes, order),
    ensures
        forall|i: int, j: int|
            0 <= i < schedule(nodes, order).len() && 0 <= j < schedule(nodes, order).len()
                && (#[trigger] schedule(nodes, order)[j]).operand == (#[trigger] schedule(
                nodes,
                order,
            )[i]).node ==> j < i,
    decreases order.len(),
{
    if order.len() > 0 {
        let rest = order.drop_first();
        let sr = schedule(nodes, rest);
        let t = steps_of(nodes, order[0]);
        let sch = schedule(nodes, order);
        assert(operands_come_first(nodes, rest)) by {
            assert forall|p: int, q: int, k: int|
                0 <= p < rest.len() && 0 <= q < rest.len() && 0 <= k < operands(
                    nodes[rest[p] as int],
                ).len() && #[trigger] operands(nodes[rest[p] as int])[k] == #[trigger] rest[q]
                implies q < p by {
                assert(rest[p] == order[p + 1] && rest[q] == order[q + 1]);
            }
        }
        lemma_schedule_order(nodes, rest);
        lemma_schedule_shape(nodes, rest);
        lemma_steps_of_shape(nodes, order[0]);
        assert forall|i: int, j: int|
            0 <= i < sch.len() && 0 <= j < sch.len() && (#[trigger] sch[j]).operand == (
            #[trigger] sch[i]).node implies j < i by {
            if i < sr.len() && j < sr.len() {
                assert(sch[i] == sr[i] && sch[j] == sr[j]);
            } else if i >= sr.len() && j >= sr.len() {
                assert(sch[i] == t[i - sr.len()] && sch[j] == t[j - sr.len()]);
                assert(operands(nodes[order[0] as int])[j - sr.len()] == order[0]);
            } else if i < sr.len() {
                assert(sch[i] == sr[i] && sch[j] == t[j - sr.len()]);
                assert(step_within(nodes, rest, sr[i]));
                let (p, k) = choose|p: int, k: int|
                    0 <= p < rest.len() && 0 <= k < operands(nodes[rest[p] as int]).len()
                        && sr[i].node == rest[p] && sr[i].operand == operands(
                        nodes[rest[p] as int],
                    )[k];
                assert(rest[p] == order[p + 1]);
                assert(operands(nodes[order[0] as int])[j - sr.len()] == order[p + 1]);
            }
        }
    }
}

/// In the backward pass from `root`, every step that adds into a node's gradient
/// comes before every step that reads that gradient: a node passes its gradient
/// on only once all of its consumers have contributed to it.
pub proof fn lemma_gradient_complete_before_read<C>(
    nodes: Seq<Node<C>>,
    root: usize,
    order: Seq<usize>,
)
    requires
        well_formed(nodes),
        is_order_from(nodes, root, order),
    ensures
        forall|i: int, j: int|
            0 <= i < schedule(nodes, order).len() && 0 <= j < schedule(nodes, order).len()
                && (#[trigger] schedule(nodes, order)[j]).operand == (#[trigger] schedule(
                nodes,
                order,
            )[i]).node ==> j < i,
{
    lemma_topological_operands_first(nodes, order);
    lemma_schedule_order(nodes, order);
}

/// The steps that pass on the gradient of node `u`.
pub open spec fn from_node(u: usize) -> spec_fn(Step) -> bool {
    |s: Step| s.node == u
}

proof fn lemma_filter_steps_of<C>(nodes: Seq<Node<C>>, v: usize, u: usize)
    ensures
        steps_of(nodes, v).filter(from_node(u)) == if v == u {
            steps_of(nodes, v)
        } else {
            seq![]
        },
{
    reveal_with_fuel(Seq::<_>::filter, 3);
    let t = steps_of(nodes, v);
    if t.len() == 2 {
        assert(t.drop_last().drop_last() =~= Seq::<Step>::empty());
        assert(t.drop_last() =~= seq![t[0]]);
        assert(seq![t[0]].drop_last() =~= Seq::<Step>::empty());
        assert(Seq::<Step>::empty().push(t[0]).push(t[1]) =~= t);
    } else if t.len() == 1 {
        assert(t.drop_last() =~= Seq::<Step>::empty());
        assert(Seq::<Step>::empty().push(t[0]) =~= t);
    }
}

proof fn lemma_contains_after_first(order: Seq<usize>, u: usize)
    requires
        order.len() > 0,
        order.no_duplicates(),
    ensures
        order.drop_first().no_duplicates(),
        order.contains(u) <==> (order[0] == u || order.drop_first().contains(u)),
        order[0] == u ==> !order.drop_first().contains(u),
{
    let rest = order.drop_first();
    if order.contains(u) && order[0] != u {
        let j = choose|j: int| 0 <= j < order.len() && order[j] == u;
        assert(rest[j - 1] == u);
    }
    if rest.contains(u) {
        let j = choose|j: int| 0 <= j < rest.len() && rest[j] == u;
        assert(order[j + 1] == u);
    }
    if order[0] == u {
        assert(order.contains(u));
    }
}

proof fn lemma_schedule_filter<C>(nodes: Seq<Node<C>>, order: Seq<usize>, u: usize)
    requires
        order.no_duplicates(),
    ensures
        schedule(nodes, order).filter(from_node(u)) == if order.contains(u) {
            steps_of(nodes, u)
        } else {
            seq![]
        },
    decreases order.len(),
{
    if order.len() > 0 {
        let rest = order.drop_first();
        let sr = schedule(nodes, rest);
        let t = steps_of(nodes, order[0]);
        lemma_contains_after_first(order, u);
        lemma_schedule_filter(nodes, rest, u);
        lemma_filter_steps_of(nodes, order[0], u);
        Seq::filter_distributes_over_add(sr, t, from_node(u));
        assert(schedule(nodes, order) == sr + t);
        if order[0] == u {
            assert(Seq::<Step>::empty() + t =~= t);
        } else {
            assert(sr.filter(from_node(u)) + Seq::<Step>::empty() =~= sr.filter(from_node(u)));
        }
    } else {
        reveal_with_fuel(Seq::<_>::filter, 1);
        assert(schedule(nodes, order) =~= Seq::<Step>::empty());
    }
}

/// The backward pass from `root` runs the local steps of every node reachable
/// from `root` exactly once, and of no other node: the steps that pass on the
/// gradient of `u` are `steps_of(u)`, in order, when `root` reaches `u`, and
/// there are none otherwise. So the gradient of a shared node sums the
/// contributions of all of its consumers.
pub proof fn lemma_each_reachable_node_once<C>(
    nodes: Seq<Node<C>>,
    root: usize,
    order: Seq<usize>,
    u: usize,
)
    requires
        well_formed(nodes),
        is_order_from(nodes, root, order),
    ensures
        schedule(nodes, order).filter(from_node(u)) == if reaches(nodes, root as int, u as int) {
            steps_of(nodes, u)
        } else {
            seq![]
        },
{
    lemma_schedule_filter(nodes, order, u);
}

impl<C: Copy> Graph<C> {
    fn push_steps(&self, v: usize, plan: &mut Vec<Step>)
        requires
            v < self@.len(),
        ensures
            final(plan)@ == old(plan)@ + steps_of(self@, v),
    {
        match self.node(v) {
            Node::Leaf(_) => {},
            Node::Add(a, b) => {
                plan.push(Step { node: v, operand: a, rule: Rule::Pass });
                plan.push(Step { node: v, operand: b, rule: Rule::Pass });
            },
            Node::Mul(a, b) => {
                plan.push(Step { node: v, operand: a, rule: Rule::ScaleBy(b) });
                plan.push(Step { node: v, operand: b, rule: Rule::ScaleBy(a) });
            },
            Node::Neg(a) => {
                plan.push(Step { node: v, operand: a, rule: Rule::Negate });
            },
            Node::Pow(a, _) => {
                plan.push(Step { node: v, operand: a, rule: Rule::Power });
            },
            Node::Relu(a) => {
                plan.push(Step { node: v, operand: a, rule: Rule::Rectify });
            },
        }
        assert(plan@ =~= old(plan)@ + steps_of(self@, v));
    }

    /// The chain-rule steps of one backward pass from `root`: the nodes reachable
    /// from `root` in reverse topological order, each with its local steps.
    pub fn backward_plan(&self, root: usize) -> (plan: Vec<Step>)
        requires
            self.wf(),
            root < self@.len(),
        ensures
            exists|order: Seq<usize>|
                is_order_from(self@, root, order) && plan@ == schedule(self@, order),
            forall|i: int, j: int|
                0 <= i < plan@.len() && 0 <= j < plan@.len() && (#[trigger] plan@[j]).operand == (
                #[trigger] plan@[i]).node ==> j < i,
            forall|u: usize|
                #[trigger] plan@.filter(from_node(u)) == if reaches(self@, root as int, u as int) {
                    steps_of(self@, u)
                } else {
                    seq![]
                },
    {
        let order = self.build_order(root);
        let mut plan: Vec<Step> = Vec::new();
        let mut k: usize = order.len();
        while k > 0
            invariant
                k <= order@.len(),
                is_order_from(self@, root, order@),
                plan@ == schedule(self@, order@.subrange(k as int, order@.len() as int)),
            decreases k,
        {
            k = k - 1;
            let ghost before = order@.subrange(k + 1, order@.len() as int);
            self.push_steps(order[k], &mut plan);
            proof {
                let now = order@.subrange(k as int, order@.len() as int);
                assert(now.drop_first() =~= before);
            }
        }
        assert(order@.subrange(0, order@.len() as int) =~= order@);
        proof {
            lemma_gradient_complete_before_read(self@, root, order@);
            assert forall|u: usize|
                #[trigger] plan@.filter(from_node(u)) == if reaches(self@, root as int, u as int) {
                    steps_of(self@, u)
                } else {
                    seq![]
                } by {
                lemma_each_reachable_node_once(self@, root, order@, u);
            }
        }
        plan
    }
}

} // verus!
