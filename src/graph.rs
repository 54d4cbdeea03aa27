use vstd::prelude::*;

verus! {

/// One node of the expression arena. Operands are indices of earlier nodes;
/// `C` is the caller's constant payload (a leaf's value, an exponent), which
/// the graph stores and never computes with.
#[derive(Clone, Copy, Debug)]
pub enum Node<C> {
    Leaf(C),
    Add(usize, usize),
    Mul(usize, usize),
    Neg(usize),
    Pow(usize, C),
    Relu(usize),
}

/// The operand indices of a node, in order.
pub open spec fn operands<C>(n: Node<C>) -> Seq<usize> {
    match n {
        Node::Leaf(_) => seq![],
        Node::Add(a, b) => seq![a, b],
        Node::Mul(a, b) => seq![a, b],
        Node::Neg(a) => seq![a],
        Node::Pow(a, _) => seq![a],
        Node::Relu(a) => seq![a],
    }
}

/// An arena of nodes in which every node refers only to nodes built before it.
pub open spec fn well_formed<C>(nodes: Seq<Node<C>>) -> bool {
    forall|i: int, k: int|
        0 <= i < nodes.len() && 0 <= k < operands(nodes[i]).len() ==> operands(nodes[i])[k] < i
}

pub struct Graph<C> {
    nodes: Vec<Node<C>>,
}

impl<C> View for Graph<C> {
    type V = Seq<Node<C>>;

    closed spec fn view(&self) -> Seq<Node<C>> {
        self.nodes@
    }
}

impl<C: Copy> Graph<C> {

    pub fn new() -> (g: Self)
        ensures
            g@ == Seq::<Node<C>>::empty(),
    {
        Graph { nodes: Vec::new() }
    }

    pub open spec fn wf(&self) -> bool {
        well_formed(self@)
    }

    pub fn len(&self) -> (n: usize)
        ensures
            n == self@.len(),
    {
        self.nodes.len()
    }

    /// The node stored at index `i`.
    pub fn node(&self, i: usize) -> (n: Node<C>)
        requires
            i < self@.len(),
        ensures
            n == self@[i as int],
    {
        self.nodes[i]
    }

    fn push(&mut self, n: Node<C>) -> (r: usize)
        requires
            old(self).wf(),
            old(self)@.len() < usize::MAX,
            forall|k: int| 0 <= k < operands(n).len() ==> operands(n)[k] < old(self)@.len(),
        ensures
            final(self).wf(),
            final(self)@ == old(self)@.push(n),
            r == old(self)@.len(),
    {
        let r = self.nodes.len();
        self.nodes.push(n);
        proof {
            assert forall|i: int, k: int|
                0 <= i < self.nodes@.len() && 0 <= k < operands(self.nodes@[i]).len()
                implies operands(self.nodes@[i])[k] < i by {
                if i < r {
                    assert(self.nodes@[i] == old(self).nodes@[i]);
                }
            }
        }
        r
    }

    /// A new input node holding the constant `value`.
    pub fn leaf(&mut self, value: C) -> (r: usize)
        requires
            old(self).wf(),
            old(self)@.len() < usize::MAX,
        ensures
            final(self).wf(),
            final(self)@ == old(self)@.push(Node::Leaf(value)),
            r == old(self)@.len(),
    {
        self.push(Node::Leaf(value))
    }

    /// The node `a + b`.
    pub fn add(&mut self, a: usize, b: usize) -> (r: usize)
        requires
            old(self).wf(),
            old(self)@.len() < usize::MAX,
            a < old(self)@.len(),
            b < old(self)@.len(),
        ensures
            final(self).wf(),
            final(self)@ == old(self)@.push(Node::Add(a, b)),
            r == old(self)@.len(),
    {
        self.push(Node::Add(a, b))
    }

    /// The node `a * b`.
    pub fn mul(&mut self, a: usize, b: usize) -> (r: usize)
        requires
            old(self).wf(),
            old(self)@.len() < usize::MAX,
            a < old(self)@.len(),
            b < old(self)@.len(),
        ensures
            final(self).wf(),
            final(self)@ == old(self)@.push(Node::Mul(a, b)),
            r == old(self)@.len(),
    {
        self.push(Node::Mul(a, b))
    }

    /// The node `-a`.
    pub fn neg(&mut self, a: usize) -> (r: usize)
        requires
            old(self).wf(),
            old(self)@.len() < usize::MAX,
            a < old(self)@.len(),
        ensures
            final(self).wf(),
            final(self)@ == old(self)@.push(Node::Neg(a)),
            r == old(self)@.len(),
    {
        self.push(Node::Neg(a))
    }

    /// The node `a` raised to the constant `exponent`.
    pub fn pow(&mut self, a: usize, exponent: C) -> (r: usize)
        requires
            old(self).wf(),
            old(self)@.len() < usize::MAX,
            a < old(self)@.len(),
        ensures
            final(self).wf(),
            final(self)@ == old(self)@.push(Node::Pow(a, exponent)),
            r == old(self)@.len(),
    {
        self.push(Node::Pow(a, exponent))
    }

    /// The node `max(a, 0)`.
    pub fn relu(&mut self, a: usize) -> (r: usize)
        requires
            old(self).wf(),
            old(self)@.len() < usize::MAX,
            a < old(self)@.len(),
        ensures
            final(self).wf(),
            final(self)@ == old(self)@.push(Node::Relu(a)),
            r == old(self)@.len(),
    {
        self.push(Node::Relu(a))
    }

    /// The node `a - b`, built as `a + (-b)`: a fresh negation of `b`, then the sum.
    pub fn sub(&mut self, a: usize, b: usize) -> (r: usize)
        requires
            old(self).wf(),
            old(self)@.len() + 1 < usize::MAX,
            a < old(self)@.len(),
            b < old(self)@.len(),
        ensures
            final(self).wf(),
            final(self)@ == old(self)@.push(Node::Neg(b)).push(Node::Add(a, old(self)@.len() as usize)),
            r == old(self)@.len() + 1,
    {
        let nb = self.neg(b);
        self.add(a, nb)
    }

    /// The node `a / b`, built as `a * b^e` where `e` is the caller's constant
    /// for minus one: a fresh power of `b`, then the product.
    pub fn div(&mut self, a: usize, b: usize, minus_one: C) -> (r: usize)
        requires
            old(self).wf(),
            old(self)@.len() + 1 < usize::MAX,
            a < old(self)@.len(),
            b < old(self)@.len(),
        ensures
            final(self).wf(),
            final(self)@ == old(self)@.push(Node::Pow(b, minus_one)).push(
                Node::Mul(a, old(self)@.len() as usize),
            ),
            r == old(self)@.len() + 1,
    {
        let rb = self.pow(b, minus_one);
        self.mul(a, rb)
    }
}

} // verus!
