use vstd::prelude::*;

use crate::graph::{operands, Graph, Node};

verus! {

/// `x` is `v` itself or lies below `v` through a chain of operand links.
pub open spec fn reaches<C>(nodes: Seq<Node<C>>, v: int, x: int) -> bool
    decreases v,
{
    if v < 0 || v >= nodes.len() {
        false
    } else if x == v {
        true
    } else {
        let ops = operands(nodes[v]);
        ||| (ops.len() > 0 && ops[0] < v && reaches(nodes, ops[0] as int, x))
        ||| (ops.len() > 1 && ops[1] < v && reaches(nodes, ops[1] as int, x))
    }
}

/// `order` lists distinct nodes of the arena, each strictly after all of its operands.
pub open spec fn is_topological<C>(nodes: Seq<Node<C>>, order: Seq<usize>) -> bool {
    &&& order.no_duplicates()
    &&& forall|i: int| 0 <= i < order.len() ==> order[i] < nodes.len()
    &&& forall|i: int, k: int|
        0 <= i < order.len() && 0 <= k < operands(nodes[order[i] as int]).len() ==> order.take(
            i,
        ).contains(#[trigger] operands(nodes[order[i] as int])[k])
}

/// `order` is a topological order of exactly the nodes reachable from `root`,
/// ending with `root`.
pub open spec fn is_order_from<C>(nodes: Seq<Node<C>>, root: usize, order: Seq<usize>) -> bool {
    &&& is_topological(nodes, order)
    &&& forall|x: usize| order.contains(x) <==> reaches(nodes, root as int, x as int)
    &&& order.len() > 0
    &&& order.last() == root
}

/// Nothing reachable from `v` lies above `v`.
pub proof fn lemma_reaches_below<C>(nodes: Seq<Node<C>>, v: int, x: int)
    requires
        reaches(nodes, v, x),
    ensures
        0 <= x <= v < nodes.len(),
    decreases v,
{
    let ops = operands(nodes[v]);
    if x != v {
        if ops.len() > 0 && ops[0] < v && reaches(nodes, ops[0] as int, x) {
            lemma_reaches_below(nodes, ops[0] as int, x);
        } else {
            lemma_reaches_below(nodes, ops[1] as int, x);
        }
    }
}

/// A topological order holds everything below each of its nodes.
pub proof fn lemma_topological_closed<C>(nodes: Seq<Node<C>>, order: Seq<usize>, v: usize, x: int)
    requires
        is_topological(nodes, order),
        order.contains(v),
        reaches(nodes, v as int, x),
    ensures
        order.contains(x as usize),
    decreases v,
{
    if x != v {
        let i = choose|i: int| 0 <= i < order.len() && order[i] == v;
        let ops = operands(nodes[v as int]);
        let k: int = if ops.len() > 0 && ops[0] < v && reaches(nodes, ops[0] as int, x) {
            0
        } else {
            1
        };
        assert(0 <= k < ops.len());
        assert(nodes[order[i] as int] == nodes[v as int]);
        assert(order.take(i).contains(operands(nodes[order[i] as int])[k]));
        let j = choose|j: int| 0 <= j < i && order.take(i)[j] == ops[k];
        assert(order[j] == ops[k]);
        lemma_topological_closed(nodes, order, ops[k], x);
    }
}

impl<C: Copy> Graph<C> {
    /// Depth-first post-order visit of `v`: each unvisited operand first, then `v`.
    fn visit(&self, v: usize, visited: &mut Vec<bool>, order: &mut Vec<usize>)
        requires
            self.wf(),
            v < self@.len(),
            old(visited)@.len() == self@.len(),
            is_topological(self@, old(order)@),
            forall|x: usize|
                x < self@.len() ==> (old(visited)@[x as int] <==> old(order)@.contains(x)),
        ensures
            final(visited)@.len() == self@.len(),
            is_topological(self@, final(order)@),
            forall|x: usize|
                x < self@.len() ==> (final(visited)@[x as int] <==> final(order)@.contains(x)),
            old(order)@.is_prefix_of(final(order)@),
            forall|x: usize|
                final(order)@.contains(x) <==> (old(order)@.contains(x) || reaches(
                    self@,
                    v as int,
                    x as int,
                )),
            !old(visited)@[v as int] ==> final(order)@.len() > 0 && final(order)@.last() == v,
        decreases v,
    {
        if visited[v] {
            proof {
                assert forall|x: usize| reaches(self@, v as int, x as int) implies order@.contains(
                    x,
                ) by {
                    lemma_topological_closed(self@, order@, v, x as int);
                }
            }
            return;
        }
        let ghost order0 = order@;
        let ghost nodes = self@;
        let n = self.node(v);
        proof {
            assert(forall|k: int| 0 <= k < operands(n).len() ==> operands(n)[k] < v);
        }
        match n {
            Node::Leaf(_) => {},
            Node::Add(a, b) => {
                assert(operands(n)[0] == a && operands(n)[1] == b);
                self.visit(a, visited, order);
                self.visit(b, visited, order);
            },
            Node::Mul(a, b) => {
                assert(operands(n)[0] == a && operands(n)[1] == b);
                self.visit(a, visited, order);
                self.visit(b, visited, order);
            },
            Node::Neg(a) => {
                assert(operands(n)[0] == a);
                self.visit(a, visited, order);
            },
            Node::Pow(a, _) => {
                assert(operands(n)[0] == a);
                self.visit(a, visited, order);
            },
            Node::Relu(a) => {
                assert(operands(n)[0] == a);
                self.visit(a, visited, order);
            },
        }
        let ghost order1 = order@;
        proof {
            assert(!order1.contains(v)) by {
                if order1.contains(v) {
                    assert(!order0.contains(v));
                    let ops = operands(n);
                    if ops.len() > 0 && reaches(nodes, ops[0] as int, v as int) {
                        lemma_reaches_below(nodes, ops[0] as int, v as int);
                    }
                    if ops.len() > 1 && reaches(nodes, ops[1] as int, v as int) {
                        lemma_reaches_below(nodes, ops[1] as int, v as int);
                    }
                }
            }
        }
        visited.set(v, true);
        order.push(v);
        proof {
            let o = order@;
            assert(o.take(order1.len() as int) =~= order1);
            assert forall|i: int| 0 <= i < order1.len() implies o.take(i) =~= order1.take(i) by {}
            assert forall|k: int| 0 <= k < operands(n).len() implies order1.contains(
                #[trigger] operands(n)[k],
            ) by {
                assert(reaches(nodes, operands(n)[k] as int, operands(n)[k] as int));
            }
            assert(o[o.len() - 1] == v);
            assert forall|i: int, k: int|
                0 <= i < o.len() && 0 <= k < operands(nodes[o[i] as int]).len() implies o.take(
                i,
            ).contains(#[trigger] operands(nodes[o[i] as int])[k]) by {
                if i < order1.len() {
                    assert(o[i] == order1[i]);
                    assert(order1.take(i).contains(operands(nodes[order1[i] as int])[k]));
                } else {
                    assert(o[i] == v);
                    assert(order1.contains(operands(n)[k]));
                }
            }
            assert forall|x: usize|
                o.contains(x) <==> (order0.contains(x) || reaches(nodes, v as int, x as int)) by {
                if o.contains(x) && x != v {
                    let j = choose|j: int| 0 <= j < o.len() && o[j] == x;
                    assert(order1[j] == x);
                }
                if order1.contains(x) {
                    let j = choose|j: int| 0 <= j < order1.len() && order1[j] == x;
                    assert(o[j] == x);
                }
            }
            assert(order0.is_prefix_of(o));
        }
    }

    /// The nodes reachable from `root`, each after all of its operands, `root` last.
    pub fn build_order(&self, root: usize) -> (order: Vec<usize>)
        requires
            self.wf(),
            root < self@.len(),
        ensures
            is_order_from(self@, root, order@),
    {
        let mut visited: Vec<bool> = Vec::new();
        let n = self.len();
        while visited.len() < n
            invariant
                visited@.len() <= n,
                n == self@.len(),
                forall|x: int| 0 <= x < visited@.len() ==> !visited@[x],
            decreases n - visited@.len(),
        {
            visited.push(false);
        }
        let mut order: Vec<usize> = Vec::new();
        self.visit(root, &mut visited, &mut order);
        order
    }
}

} // verus!
