use vstd::prelude::*;

use crate::graph::{Graph, Node};

verus! {

/// The nodes that the weighted sum `b + w[0]*x[0] + ... + w[m-1]*x[m-1]` appends
/// to an arena of `start` nodes: each product, then the running sum that takes it.
pub open spec fn sum_nodes<C>(start: int, w: Seq<usize>, x: Seq<usize>, b: usize, m: int) -> Seq<
    Node<C>,
> {
    Seq::new(
        (2 * m) as nat,
        |j: int|
            if j % 2 == 0 {
                Node::Mul(w[j / 2], x[j / 2])
            } else {
                Node::Add(
                    if j == 1 {
                        b
                    } else {
                        (start + j - 2) as usize
                    },
                    (start + j - 1) as usize,
                )
            },
    )
}

/// The index of that weighted sum: the bias itself when there are no terms.
pub open spec fn sum_index(start: int, b: usize, m: int) -> int {
    if m == 0 {
        b as int
    } else {
        start + 2 * m - 1
    }
}

/// The number of weight and input pairs: the shorter of the two lengths.
pub open spec fn min_len(w: Seq<usize>, x: Seq<usize>) -> int {
    if w.len() <= x.len() {
        w.len() as int
    } else {
        x.len() as int
    }
}

/// Node `idx` of `nodes` computes `b + w[0]*x[0] + ... + w[m-1]*x[m-1]`, summed
/// left to right, each product a node of its own.
pub open spec fn sum_at<C>(
    nodes: Seq<Node<C>>,
    w: Seq<usize>,
    x: Seq<usize>,
    b: usize,
    m: int,
    idx: int,
) -> bool
    decreases m,
{
    if m <= 0 {
        idx == b
    } else {
        &&& 0 <= idx < nodes.len()
        &&& match nodes[idx] {
            Node::Add(a, p) => p < nodes.len() && nodes[p as int] == Node::<C>::Mul(
                w[m - 1],
                x[m - 1],
            ) && sum_at(nodes, w, x, b, m - 1, a as int),
            _ => false,
        }
    }
}

/// Node `r` of `nodes` is what neuron `n` computes from the inputs `x`.
pub open spec fn neuron_output<C>(nodes: Seq<Node<C>>, n: Neuron, x: Seq<usize>, r: int) -> bool {
    let m = min_len(n.weights(), x);
    if n.rectifies() {
        &&& 0 <= r < nodes.len()
        &&& match nodes[r] {
            Node::Relu(s) => sum_at(nodes, n.weights(), x, n.bias(), m, s as int),
            _ => false,
        }
    } else {
        sum_at(nodes, n.weights(), x, n.bias(), m, r)
    }
}

/// What a node computes stays true when the arena grows.
pub proof fn lemma_sum_at_grow<C>(
    nodes: Seq<Node<C>>,
    more: Seq<Node<C>>,
    w: Seq<usize>,
    x: Seq<usize>,
    b: usize,
    m: int,
    idx: int,
)
    requires
        sum_at(nodes, w, x, b, m, idx),
        nodes.is_prefix_of(more),
    ensures
        sum_at(more, w, x, b, m, idx),
    decreases m,
{
    if m > 0 {
        if let Node::Add(a, p) = nodes[idx] {
            assert(more[idx] == nodes[idx]);
            assert(more[p as int] == nodes[p as int]);
            lemma_sum_at_grow(nodes, more, w, x, b, m - 1, a as int);
        }
    }
}

pub proof fn lemma_neuron_output_grow<C>(
    nodes: Seq<Node<C>>,
    more: Seq<Node<C>>,
    n: Neuron,
    x: Seq<usize>,
    r: int,
)
    requires
        neuron_output(nodes, n, x, r),
        nodes.is_prefix_of(more),
    ensures
        neuron_output(more, n, x, r),
{
    let m = min_len(n.weights(), x);
    if n.rectifies() {
        if let Node::Relu(s) = nodes[r] {
            assert(more[r] == nodes[r]);
            lemma_sum_at_grow(nodes, more, n.weights(), x, n.bias(), m, s as int);
        }
    } else {
        lemma_sum_at_grow(nodes, more, n.weights(), x, n.bias(), m, r);
    }
}

/// The weights of `n` are nodes holding the leaves `ws`, and its bias a node
/// holding the leaf `bias`.
pub open spec fn holds_leaves<C>(nodes: Seq<Node<C>>, n: Neuron, ws: Seq<C>, bias: C) -> bool {
    &&& n.weights().len() == ws.len()
    &&& forall|k: int|
        0 <= k < ws.len() ==> n.weights()[k] < nodes.len() && nodes[n.weights()[k] as int]
            == Node::Leaf(ws[k])
    &&& n.bias() < nodes.len()
    &&& nodes[n.bias() as int] == Node::Leaf(bias)
}

pub proof fn lemma_holds_leaves_grow<C>(
    nodes: Seq<Node<C>>,
    more: Seq<Node<C>>,
    n: Neuron,
    ws: Seq<C>,
    bias: C,
)
    requires
        holds_leaves(nodes, n, ws, bias),
        nodes.is_prefix_of(more),
    ensures
        holds_leaves(more, n, ws, bias),
{
    assert forall|k: int| 0 <= k < ws.len() implies n.weights()[k] < more.len() && more[n.weights()[k] as int] == Node::Leaf(ws[k]) by {
        assert(more[n.weights()[k] as int] == nodes[n.weights()[k] as int]);
    }
    assert(more[n.bias() as int] == nodes[n.bias() as int]);
}

/// One neuron: weight and bias nodes of an arena, and whether it rectifies.
pub struct Neuron {
    w: Vec<usize>,
    b: usize,
    nonlin: bool,
}

impl Neuron {
    pub closed spec fn weights(&self) -> Seq<usize> {
        self.w@
    }

    pub closed spec fn bias(&self) -> usize {
        self.b
    }

    pub closed spec fn rectifies(&self) -> bool {
        self.nonlin
    }

    /// All parameter nodes refer into an arena of `n` nodes.
    pub open spec fn within(&self, n: int) -> bool {
        &&& forall|i: int| 0 <= i < self.weights().len() ==> self.weights()[i] < n
        &&& self.bias() < n
    }

    /// A neuron whose weights are fresh leaves holding `weights`, and whose
    /// bias is a fresh leaf holding `bias`.
    pub fn new<C: Copy>(g: &mut Graph<C>, weights: &Vec<C>, bias: C, nonlin: bool) -> (r: Neuron)
        requires
            old(g).wf(),
            old(g)@.len() + weights@.len() < usize::MAX,
        ensures
            final(g).wf(),
            final(g)@ == old(g)@ + weights@.map_values(|c: C| Node::Leaf(c)).push(
                Node::Leaf(bias),
            ),
            r.weights() == Seq::new(weights@.len(), |i: int| (old(g)@.len() + i) as usize),
            r.bias() == old(g)@.len() + weights@.len(),
            r.rectifies() == nonlin,
            holds_leaves(final(g)@, r, weights@, bias),
            r.within(final(g)@.len() as int),
    {
        let ghost start = g@.len();
        let mut w: Vec<usize> = Vec::new();
        let mut i: usize = 0;
        while i < weights.len()
            invariant
                i <= weights@.len(),
                start == old(g)@.len(),
                start + weights@.len() < usize::MAX,
                g.wf(),
                g@ == old(g)@ + weights@.take(i as int).map_values(|c: C| Node::Leaf(c)),
                w@ == Seq::new(i as nat, |k: int| (start + k) as usize),
            decreases weights@.len() - i,
        {
            let ghost before = g@;
            let k = g.leaf(weights[i]);
            w.push(k);
            proof {
                assert(weights@.take(i + 1).map_values(|c: C| Node::Leaf(c)) =~= weights@.take(
                    i as int,
                ).map_values(|c: C| Node::Leaf(c)).push(Node::Leaf(weights@[i as int])));
                assert(g@ =~= old(g)@ + weights@.take(i + 1).map_values(|c: C| Node::Leaf(c)));
                assert(w@ =~= Seq::new((i + 1) as nat, |k: int| (start + k) as usize));
            }
            i = i + 1;
        }
        let b = g.leaf(bias);
        proof {
            assert(weights@.take(weights@.len() as int) =~= weights@);
            assert(g@ =~= old(g)@ + weights@.map_values(|c: C| Node::Leaf(c)).push(
                Node::Leaf(bias),
            ));
        }
        let r = Neuron { w, b, nonlin };
        proof {
            assert forall|k: int| 0 <= k < weights@.len() implies r.weights()[k] < g@.len()
                && g@[r.weights()[k] as int] == Node::Leaf(weights@[k]) by {
                assert(g@[start + k] == weights@.map_values(|c: C| Node::Leaf(c))[k]);
            }
        }
        r
    }

    /// The parameter nodes: the weights, then the bias.
    pub fn parameters(&self) -> (r: Vec<usize>)
        ensures
            r@ == self.weights().push(self.bias()),
    {
        let mut r = self.w.clone();
        r.push(self.b);
        r
    }

    /// Appends `b + sum of w[i] * x[i]` over the pairs that both have, rectified
    /// when the neuron rectifies, and returns its node.
    pub fn call<C: Copy>(&self, g: &mut Graph<C>, x: &Vec<usize>) -> (r: usize)
        requires
            old(g).wf(),
            self.within(old(g)@.len() as int),
            forall|i: int| 0 <= i < x@.len() ==> x@[i] < old(g)@.len(),
            old(g)@.len() + 2 * min_len(self.weights(), x@) + 1 < usize::MAX,
        ensures
            final(g).wf(),
            ({
                let start = old(g)@.len() as int;
                let m = min_len(self.weights(), x@);
                let sum = sum_nodes(start, self.weights(), x@, self.bias(), m);
                if self.rectifies() {
                    &&& final(g)@ == old(g)@ + sum.push(
                        Node::Relu(sum_index(start, self.bias(), m) as usize),
                    )
                    &&& r == start + 2 * m
                } else {
                    &&& final(g)@ == old(g)@ + sum
                    &&& r == sum_index(start, self.bias(), m)
                }
            }),
            neuron_output(final(g)@, *self, x@, r as int),
    {
        let ghost start = g@.len() as int;
        let ghost w = self.w@;
        let m: usize = if self.w.len() <= x.len() {
            self.w.len()
        } else {
            x.len()
        };
        let mut acc: usize = self.b;
        let mut i: usize = 0;
        while i < m
            invariant
                i <= m,
                m == min_len(w, x@),
                w == self.w@,
                start == old(g)@.len(),
                start + 2 * m + 1 < usize::MAX,
                self.within(start),
                forall|k: int| 0 <= k < x@.len() ==> x@[k] < start,
                g.wf(),
                g@ == old(g)@ + sum_nodes::<C>(start, w, x@, self.b, i as int),
                acc == sum_index(start, self.b, i as int),
                sum_at(g@, w, x@, self.b, i as int, acc as int),
            decreases m - i,
        {
            assert(self.weights()[i as int] < start);
            assert(g@.len() == start + 2 * i);
            let ghost g0 = g@;
            let ghost acc0 = acc;
            let p = g.mul(self.w[i], x[i]);
            acc = g.add(acc, p);
            proof {
                assert(g0.is_prefix_of(g@));
                lemma_sum_at_grow(g0, g@, w, x@, self.b, i as int, acc0 as int);
                assert(g@[acc as int] == Node::<C>::Add(acc0, p));
                assert(g@[p as int] == Node::<C>::Mul(w[i as int], x@[i as int]));
                assert(sum_nodes::<C>(start, w, x@, self.b, i + 1) =~= sum_nodes::<C>(
                    start,
                    w,
                    x@,
                    self.b,
                    i as int,
                ).push(Node::Mul(w[i as int], x@[i as int])).push(
                    Node::Add(sum_index(start, self.b, i as int) as usize, (start + 2 * i) as usize),
                ));
            }
            i = i + 1;
        }
        if self.nonlin {
            let ghost g0 = g@;
            let r = g.relu(acc);
            proof {
                assert(g0.is_prefix_of(g@));
                lemma_sum_at_grow(g0, g@, w, x@, self.b, m as int, acc as int);
                assert(g@[r as int] == Node::<C>::Relu(acc));
            }
            r
        } else {
            acc
        }
    }
}

/// How many leaves the neurons of a layer with these weights take: each
/// neuron's weights and its bias.
pub open spec fn leaf_count<C>(ws: Seq<Vec<C>>) -> int
    decreases ws.len(),
{
    if ws.len() == 0 {
        0
    } else {
        leaf_count(ws.drop_last()) + ws.last()@.len() + 1
    }
}

/// `r[i]` is what the `i`th neuron of `layer` computes from `x`.
pub open spec fn layer_output<C>(nodes: Seq<Node<C>>, layer: Layer, x: Seq<usize>, r: Seq<usize>) -> bool {
    &&& r.len() == layer.neurons().len()
    &&& forall|i: int|
        0 <= i < r.len() ==> r[i] < nodes.len() && neuron_output(
            nodes,
            layer.neurons()[i],
            x,
            r[i] as int,
        )
}

pub proof fn lemma_layer_output_grow<C>(
    nodes: Seq<Node<C>>,
    more: Seq<Node<C>>,
    layer: Layer,
    x: Seq<usize>,
    r: Seq<usize>,
)
    requires
        layer_output(nodes, layer, x, r),
        nodes.is_prefix_of(more),
    ensures
        layer_output(more, layer, x, r),
{
    assert forall|i: int| 0 <= i < r.len() implies r[i] < more.len() && neuron_output(
        more,
        layer.neurons()[i],
        x,
        r[i] as int,
    ) by {
        lemma_neuron_output_grow(nodes, more, layer.neurons()[i], x, r[i] as int);
    }
}

/// A layer of neurons that all read the same inputs.
pub struct Layer {
    neurons: Vec<Neuron>,
}

impl Layer {
    pub closed spec fn neurons(&self) -> Seq<Neuron> {
        self.neurons@
    }

    pub open spec fn within(&self, n: int) -> bool {
        forall|i: int| 0 <= i < self.neurons().len() ==> (#[trigger] self.neurons()[i]).within(n)
    }

    /// A layer with one neuron per entry of `weights`, built from that entry,
    /// each with a fresh bias leaf holding `bias`.
    pub fn new<C: Copy>(g: &mut Graph<C>, weights: &Vec<Vec<C>>, bias: C, nonlin: bool) -> (r: Layer)
        requires
            old(g).wf(),
            old(g)@.len() + leaf_count(weights@) < usize::MAX,
        ensures
            final(g).wf(),
            old(g)@.is_prefix_of(final(g)@),
            final(g)@.len() == old(g)@.len() + leaf_count(weights@),
            r.neurons().len() == weights@.len(),
            r.within(final(g)@.len() as int),
            forall|i: int|
                0 <= i < weights@.len() ==> (#[trigger] r.neurons()[i]).rectifies() == nonlin
                    && holds_leaves(final(g)@, r.neurons()[i], weights@[i]@, bias),
    {
        let mut neurons: Vec<Neuron> = Vec::new();
        let mut i: usize = 0;
        while i < weights.len()
            invariant
                i <= weights@.len(),
                old(g)@.len() + leaf_count(weights@) < usize::MAX,
                g.wf(),
                old(g)@.is_prefix_of(g@),
                g@.len() == old(g)@.len() + leaf_count(weights@.take(i as int)),
                neurons@.len() == i,
                forall|j: int|
                    0 <= j < i ==> (#[trigger] neurons@[j]).rectifies() == nonlin && holds_leaves(
                        g@,
                        neurons@[j],
                        weights@[j]@,
                        bias,
                    ) && neurons@[j].within(g@.len() as int),
            decreases weights@.len() - i,
        {
            proof {
                assert(weights@.take(i + 1).drop_last() =~= weights@.take(i as int));
                lemma_leaf_count_prefix(weights@, i + 1);
            }
            let ghost g0 = g@;
            let n = Neuron::new(g, &weights[i], bias, nonlin);
            proof {
                assert(g0.is_prefix_of(g@));
                assert forall|j: int| 0 <= j < i implies (#[trigger] neurons@[j]).rectifies()
                    == nonlin && holds_leaves(g@, neurons@[j], weights@[j]@, bias)
                    && neurons@[j].within(g@.len() as int) by {
                    lemma_holds_leaves_grow(g0, g@, neurons@[j], weights@[j]@, bias);
                }
            }
            neurons.push(n);
            i = i + 1;
        }
        proof {
            assert(weights@.take(weights@.len() as int) =~= weights@);
        }
        Layer { neurons }
    }

    /// The parameter nodes of every neuron, in order.
    pub open spec fn parameter_nodes(&self) -> Seq<usize> {
        self.neurons().map_values(|n: Neuron| n.weights().push(n.bias())).flatten()
    }

    /// The parameter nodes of every neuron, in order.
    pub fn parameters(&self) -> (r: Vec<usize>)
        ensures
            r@ == self.parameter_nodes(),
    {
        let mut r: Vec<usize> = Vec::new();
        let mut i: usize = 0;
        while i < self.neurons.len()
            invariant
                i <= self.neurons@.len(),
                r@ == self.neurons@.take(i as int).map_values(
                    |n: Neuron| n.weights().push(n.bias()),
                ).flatten(),
            decreases self.neurons@.len() - i,
        {
            let mut p = self.neurons[i].parameters();
            proof {
                let f = |n: Neuron| n.weights().push(n.bias());
                let t = self.neurons@.take(i + 1).map_values(f);
                assert(t.drop_last() =~= self.neurons@.take(i as int).map_values(f));
                t.drop_last().lemma_flatten_push(t.last());
                assert(t.drop_last().push(t.last()) =~= t);
            }
            r.append(&mut p);
            i = i + 1;
        }
        proof {
            assert(self.neurons@.take(self.neurons@.len() as int) =~= self.neurons@);
        }
        r
    }

    /// The output node of each neuron on the inputs `x`, in order.
    pub fn call<C: Copy>(&self, g: &mut Graph<C>, x: &Vec<usize>) -> (r: Vec<usize>)
        requires
            old(g).wf(),
            self.within(old(g)@.len() as int),
            forall|i: int| 0 <= i < x@.len() ==> x@[i] < old(g)@.len(),
            old(g)@.len() + self.neurons().len() * (2 * x@.len() + 2) < usize::MAX,
        ensures
            final(g).wf(),
            old(g)@.is_prefix_of(final(g)@),
            final(g)@.len() <= old(g)@.len() + self.neurons().len() * (2 * x@.len() + 2),
            layer_output(final(g)@, *self, x@, r@),
    {
        let ghost start = g@.len() as int;
        let ghost c = 2 * x@.len() + 2;
        let ghost n = self.neurons@.len() as int;
        let mut r: Vec<usize> = Vec::new();
        let mut i: usize = 0;
        while i < self.neurons.len()
            invariant
                i <= n,
                n == self.neurons@.len(),
                c == 2 * x@.len() + 2,
                start == old(g)@.len(),
                start + n * c < usize::MAX,
                self.within(start),
                forall|k: int| 0 <= k < x@.len() ==> x@[k] < start,
                g.wf(),
                old(g)@.is_prefix_of(g@),
                g@.len() <= start + i * c,
                r@.len() == i,
                forall|j: int|
                    0 <= j < i ==> r@[j] < g@.len() && neuron_output(
                        g@,
                        self.neurons@[j],
                        x@,
                        r@[j] as int,
                    ),
            decreases n - i,
        {
            proof {
                assert(start + i * c + c <= start + n * c) by (nonlinear_arith)
                    requires
                        i < n,
                        c >= 0,
                ;
                assert(self.neurons()[i as int].within(start));
                assert(self.neurons@[i as int].within(g@.len() as int));
                assert(forall|k: int| 0 <= k < x@.len() ==> x@[k] < g@.len());
            }
            let ghost g0 = g@;
            let ghost r0 = r@;
            let o = self.neurons[i].call(g, x);
            proof {
                assert(g0.is_prefix_of(g@));
                assert forall|j: int| 0 <= j < i implies r0[j] < g@.len() && neuron_output(
                    g@,
                    self.neurons@[j],
                    x@,
                    r0[j] as int,
                ) by {
                    lemma_neuron_output_grow(g0, g@, self.neurons@[j], x@, r0[j] as int);
                }
                assert((i + 1) * c == i * c + c) by (nonlinear_arith);
            }
            r.push(o);
            i = i + 1;
        }
        r
    }
}

/// The sizes of the layers of a network with `nin` inputs and the output
/// counts `nouts`: for each layer its number of inputs, of outputs, and whether
/// it rectifies, which all but the last do.
pub fn layer_shapes(nin: usize, nouts: &Vec<usize>) -> (r: Vec<(usize, usize, bool)>)
    ensures
        r@.len() == nouts@.len(),
        forall|i: int|
            0 <= i < nouts@.len() ==> #[trigger] r@[i] == (
                if i == 0 {
                    nin
                } else {
                    nouts@[i - 1]
                },
                nouts@[i],
                i + 1 != nouts@.len(),
            ),
{
    let mut r: Vec<(usize, usize, bool)> = Vec::new();
    let mut i: usize = 0;
    while i < nouts.len()
        invariant
            i <= nouts@.len(),
            r@.len() == i,
            forall|j: int|
                0 <= j < i ==> #[trigger] r@[j] == (
                    if j == 0 {
                        nin
                    } else {
                        nouts@[j - 1]
                    },
                    nouts@[j],
                    j + 1 != nouts@.len(),
                ),
        decreases nouts@.len() - i,
    {
        let input = if i == 0 {
            nin
        } else {
            nouts[i - 1]
        };
        r.push((input, nouts[i], i + 1 != nouts.len()));
        i = i + 1;
    }
    r
}

/// How many leaves the layers of a network with these weights take.
pub open spec fn network_leaf_count<C>(ws: Seq<Vec<Vec<C>>>) -> int
    decreases ws.len(),
{
    if ws.len() == 0 {
        0
    } else {
        network_leaf_count(ws.drop_last()) + leaf_count(ws.last()@)
    }
}

/// A bound on the nodes that evaluating `layers` on `width` inputs appends.
pub open spec fn call_cost(layers: Seq<Layer>, width: int) -> int
    decreases layers.len(),
{
    if layers.len() == 0 {
        0
    } else {
        layers[0].neurons().len() * (2 * width + 2) + call_cost(
            layers.drop_first(),
            layers[0].neurons().len() as int,
        )
    }
}

/// `xs[0]` are the inputs and each `xs[k + 1]` what layer `k` computes from `xs[k]`.
pub open spec fn network_trace<C>(nodes: Seq<Node<C>>, layers: Seq<Layer>, xs: Seq<Seq<usize>>) -> bool {
    &&& xs.len() == layers.len() + 1
    &&& forall|k: int|
        0 <= k < layers.len() ==> layer_output(nodes, #[trigger] layers[k], xs[k], xs[k + 1])
}

proof fn lemma_call_cost_nonneg(layers: Seq<Layer>, width: int)
    requires
        width >= 0,
    ensures
        call_cost(layers, width) >= 0,
    decreases layers.len(),
{
    if layers.len() > 0 {
        let n = layers[0].neurons().len() as int;
        lemma_call_cost_nonneg(layers.drop_first(), n);
        assert(n * (2 * width + 2) >= 0) by (nonlinear_arith)
            requires
                n >= 0,
                width >= 0,
        ;
    }
}

proof fn lemma_network_leaf_count_prefix<C>(ws: Seq<Vec<Vec<C>>>, i: int)
    requires
        0 <= i <= ws.len(),
    ensures
        network_leaf_count(ws.take(i)) <= network_leaf_count(ws),
    decreases ws.len() - i,
{
    if i < ws.len() {
        lemma_network_leaf_count_prefix(ws, i + 1);
        assert(ws.take(i + 1).drop_last() =~= ws.take(i));
        lemma_leaf_count_nonneg(ws[i]@);
    } else {
        assert(ws.take(i) =~= ws);
    }
}

proof fn lemma_leaf_count_nonneg<C>(ws: Seq<Vec<C>>)
    ensures
        leaf_count(ws) >= 0,
    decreases ws.len(),
{
    if ws.len() > 0 {
        lemma_leaf_count_nonneg(ws.drop_last());
    }
}

/// A feed-forward network: layers applied one after another.
pub struct MLP {
    layers: Vec<Layer>,
}

impl MLP {
    pub closed spec fn layers(&self) -> Seq<Layer> {
        self.layers@
    }

    pub open spec fn within(&self, n: int) -> bool {
        forall|l: int| 0 <= l < self.layers().len() ==> (#[trigger] self.layers()[l]).within(n)
    }

    /// A network with one layer per entry of `weights`, built from that entry;
    /// every layer but the last rectifies, and every bias is a fresh leaf
    /// holding `bias`.
    pub fn new<C: Copy>(g: &mut Graph<C>, weights: &Vec<Vec<Vec<C>>>, bias: C) -> (r: MLP)
        requires
            old(g).wf(),
            old(g)@.len() + network_leaf_count(weights@) < usize::MAX,
        ensures
            final(g).wf(),
            old(g)@.is_prefix_of(final(g)@),
            final(g)@.len() == old(g)@.len() + network_leaf_count(weights@),
            r.layers().len() == weights@.len(),
            r.within(final(g)@.len() as int),
            forall|l: int|
                0 <= l < weights@.len() ==> (#[trigger] r.layers()[l]).neurons().len()
                    == weights@[l]@.len() && forall|i: int|
                    0 <= i < weights@[l]@.len() ==> (#[trigger] r.layers()[l].neurons()[i]).rectifies()
                        == (l + 1 != weights@.len()) && holds_leaves(
                        final(g)@,
                        r.layers()[l].neurons()[i],
                        weights@[l]@[i]@,
                        bias,
                    ),
    {
        let mut layers: Vec<Layer> = Vec::new();
        let mut l: usize = 0;
        while l < weights.len()
            invariant
                l <= weights@.len(),
                old(g)@.len() + network_leaf_count(weights@) < usize::MAX,
                g.wf(),
                old(g)@.is_prefix_of(g@),
                g@.len() == old(g)@.len() + network_leaf_count(weights@.take(l as int)),
                layers@.len() == l,
                forall|k: int| 0 <= k < l ==> (#[trigger] layers@[k]).within(g@.len() as int),
                forall|k: int|
                    0 <= k < l ==> (#[trigger] layers@[k]).neurons().len() == weights@[k]@.len()
                        && forall|i: int|
                        0 <= i < weights@[k]@.len() ==> (#[trigger] layers@[k].neurons()[i]).rectifies()
                            == (k + 1 != weights@.len()) && holds_leaves(
                            g@,
                            layers@[k].neurons()[i],
                            weights@[k]@[i]@,
                            bias,
                        ),
            decreases weights@.len() - l,
        {
            proof {
                assert(weights@.take(l + 1).drop_last() =~= weights@.take(l as int));
                lemma_network_leaf_count_prefix(weights@, l + 1);
            }
            let ghost g0 = g@;
            let layer = Layer::new(g, &weights[l], bias, l + 1 != weights.len());
            proof {
                assert forall|k: int| 0 <= k < l implies (#[trigger] layers@[k]).within(g@.len() as int) by {
                    assert forall|i: int| 0 <= i < layers@[k].neurons().len() implies (
                    #[trigger] layers@[k].neurons()[i]).within(g@.len() as int) by {
                        assert(layers@[k].neurons()[i].within(g0.len() as int));
                    }
                }
                assert forall|k: int, i: int|
                    0 <= k < l && 0 <= i < weights@[k]@.len() implies holds_leaves(
                        g@,
                        #[trigger] layers@[k].neurons()[i],
                        weights@[k]@[i]@,
                        bias,
                    ) by {
                    lemma_holds_leaves_grow(g0, g@, layers@[k].neurons()[i], weights@[k]@[i]@, bias);
                }
            }
            layers.push(layer);
            l = l + 1;
        }
        proof {
            assert(weights@.take(weights@.len() as int) =~= weights@);
        }
        MLP { layers }
    }

    /// The parameter nodes of every layer, in order.
    pub fn parameters(&self) -> (r: Vec<usize>)
        ensures
            r@ == self.layers().map_values(|l: Layer| l.parameter_nodes()).flatten(),
    {
        let mut r: Vec<usize> = Vec::new();
        let mut i: usize = 0;
        while i < self.layers.len()
            invariant
                i <= self.layers@.len(),
                r@ == self.layers@.take(i as int).map_values(|l: Layer| l.parameter_nodes()).flatten(),
            decreases self.layers@.len() - i,
        {
            let mut p = self.layers[i].parameters();
            proof {
                let f = |l: Layer| l.parameter_nodes();
                let t = self.layers@.take(i + 1).map_values(f);
                assert(t.drop_last() =~= self.layers@.take(i as int).map_values(f));
                t.drop_last().lemma_flatten_push(t.last());
                assert(t.drop_last().push(t.last()) =~= t);
            }
            r.append(&mut p);
            i = i + 1;
        }
        proof {
            assert(self.layers@.take(self.layers@.len() as int) =~= self.layers@);
        }
        r
    }

    /// The exact value of `call_cost` on `width` inputs, or `None` where it does
    /// not fit in a `usize`.
    pub fn cost(&self, width: usize) -> (r: Option<usize>)
        ensures
            match r {
                Some(c) => c == call_cost(self.layers(), width as int),
                None => call_cost(self.layers(), width as int) > usize::MAX,
            },
    {
        let ghost n = self.layers@.len() as int;
        let mut acc: usize = 0;
        let mut w: usize = width;
        let mut l: usize = 0;
        proof {
            assert(self.layers@.subrange(0, n) =~= self.layers@);
        }
        while l < self.layers.len()
            invariant
                l <= n,
                n == self.layers@.len(),
                call_cost(self.layers@, width as int) == acc + call_cost(
                    self.layers@.subrange(l as int, n),
                    w as int,
                ),
            decreases n - l,
        {
            let ghost sub = self.layers@.subrange(l as int, n);
            let k = self.layers[l].neurons.len();
            proof {
                assert(sub[0] == self.layers@[l as int]);
                assert(sub.drop_first() =~= self.layers@.subrange(l + 1, n));
                assert(self.layers@[l as int].neurons() == self.layers@[l as int].neurons@);
                lemma_call_cost_nonneg(sub.drop_first(), k as int);
                assert(k * (2 * w + 2) >= 0) by (nonlinear_arith);
            }
            let step = match w.checked_mul(2) {
                Some(w2) => match w2.checked_add(2) {
                    Some(w22) => k.checked_mul(w22),
                    None => {
                        proof {
                            assert(k * (2 * w + 2) >= k * (2 * w + 2)) by (nonlinear_arith);
                            if k > 0 {
                                assert(k * (2 * w + 2) >= 2 * w + 2) by (nonlinear_arith)
                                    requires
                                        k >= 1,
                                        w >= 0,
                                ;
                            }
                        }
                        if k == 0 {
                            Some(0)
                        } else {
                            None
                        }
                    },
                },
                None => {
                    proof {
                        if k > 0 {
                            assert(k * (2 * w + 2) >= 2 * w + 2) by (nonlinear_arith)
                                requires
                                    k >= 1,
                                    w >= 0,
                            ;
                        }
                    }
                    if k == 0 {
                        Some(0)
                    } else {
                        None
                    }
                },
            };
            match step {
                Some(c) => {
                    proof {
                        if k == 0 {
                            assert(k * (2 * w + 2) == 0) by (nonlinear_arith)
                                requires
                                    k == 0,
                            ;
                        }
                    }
                    match acc.checked_add(c) {
                        Some(a) => {
                            acc = a;
                        },
                        None => {
                            return None;
                        },
                    }
                },
                None => {
                    return None;
                },
            }
            w = k;
            l = l + 1;
        }
        Some(acc)
    }

    /// `call` where the inputs and the arena allow it: `None` exactly where an
    /// input is no node of `g` or the nodes that `call` may append would not fit
    /// in the arena.
    pub fn try_call<C: Copy>(&self, g: &mut Graph<C>, x: &Vec<usize>) -> (r: Option<Vec<usize>>)
        requires
            old(g).wf(),
            self.within(old(g)@.len() as int),
        ensures
            final(g).wf(),
            old(g)@.is_prefix_of(final(g)@),
            r is None <==> !(forall|i: int| 0 <= i < x@.len() ==> x@[i] < old(g)@.len()) || old(
                g,
            )@.len() + call_cost(self.layers(), x@.len() as int) >= usize::MAX,
            r is None ==> final(g)@ == old(g)@,
            match r {
                Some(out) => exists|xs: Seq<Seq<usize>>|
                    network_trace(final(g)@, self.layers(), xs) && xs[0] == x@ && xs.last()
                        == out@,
                None => true,
            },
    {
        let mut i: usize = 0;
        while i < x.len()
            invariant
                i <= x@.len(),
                g.wf(),
                g@ == old(g)@,
                forall|k: int| 0 <= k < i ==> x@[k] < g@.len(),
            decreases x@.len() - i,
        {
            if x[i] >= g.len() {
                return None;
            }
            i = i + 1;
        }
        match self.cost(x.len()) {
            Some(c) => {
                if c >= usize::MAX - g.len() {
                    return None;
                }
                Some(self.call(g, x))
            },
            None => None,
        }
    }

    /// The outputs of the last layer, each layer reading the outputs of the one
    /// before and the first reading `x`.
    pub fn call<C: Copy>(&self, g: &mut Graph<C>, x: &Vec<usize>) -> (r: Vec<usize>)
        requires
            old(g).wf(),
            self.within(old(g)@.len() as int),
            forall|i: int| 0 <= i < x@.len() ==> x@[i] < old(g)@.len(),
            old(g)@.len() + call_cost(self.layers(), x@.len() as int) < usize::MAX,
        ensures
            final(g).wf(),
            old(g)@.is_prefix_of(final(g)@),
            exists|xs: Seq<Seq<usize>>|
                network_trace(final(g)@, self.layers(), xs) && xs[0] == x@ && xs.last() == r@,
    {
        let ghost n = self.layers@.len() as int;
        let mut cur: Vec<usize> = x.clone();
        let ghost mut xs: Seq<Seq<usize>> = seq![x@];
        let mut l: usize = 0;
        proof {
            assert(cur@ =~= x@);
            assert(self.layers@.subrange(0, n) =~= self.layers@);
        }
        while l < self.layers.len()
            invariant
                l <= n,
                n == self.layers@.len(),
                g.wf(),
                old(g)@.is_prefix_of(g@),
                self.within(old(g)@.len() as int),
                g@.len() + call_cost(self.layers@.subrange(l as int, n), cur@.len() as int)
                    < usize::MAX,
                forall|i: int| 0 <= i < cur@.len() ==> cur@[i] < g@.len(),
                xs.len() == l + 1,
                xs[0] == x@,
                xs[l as int] == cur@,
                forall|k: int|
                    0 <= k < l ==> layer_output(g@, #[trigger] self.layers@[k], xs[k], xs[k + 1]),
            decreases n - l,
        {
            let ghost sub = self.layers@.subrange(l as int, n);
            let ghost g0 = g@;
            let ghost cur0 = cur@;
            proof {
                assert(sub[0] == self.layers@[l as int]);
                assert(sub.drop_first() =~= self.layers@.subrange(l + 1, n));
                lemma_call_cost_nonneg(sub.drop_first(), sub[0].neurons().len() as int);
                assert(self.layers()[l as int].within(old(g)@.len() as int));
                assert forall|i: int| 0 <= i < self.layers@[l as int].neurons().len() implies (
                #[trigger] self.layers@[l as int].neurons()[i]).within(g@.len() as int) by {
                    assert(self.layers@[l as int].neurons()[i].within(old(g)@.len() as int));
                }
            }
            let next = self.layers[l].call(g, &cur);
            proof {
                assert(g0.is_prefix_of(g@));
                assert forall|k: int| 0 <= k < l implies layer_output(
                    g@,
                    #[trigger] self.layers@[k],
                    xs[k],
                    xs[k + 1],
                ) by {
                    lemma_layer_output_grow(g0, g@, self.layers@[k], xs[k], xs[k + 1]);
                }
                xs = xs.push(next@);
            }
            cur = next;
            l = l + 1;
        }
        proof {
            assert(network_trace(g@, self.layers(), xs));
            assert(xs.last() == cur@);
            assert(network_trace(g@, self.layers(), xs) && xs[0] == x@ && xs.last() == cur@);
        }
        cur
    }
}

proof fn lemma_leaf_count_prefix<C>(ws: Seq<Vec<C>>, i: int)
    requires
        0 <= i <= ws.len(),
    ensures
        leaf_count(ws.take(i)) <= leaf_count(ws),
    decreases ws.len() - i,
{
    if i < ws.len() {
        lemma_leaf_count_prefix(ws, i + 1);
        assert(ws.take(i + 1).drop_last() =~= ws.take(i));
    } else {
        assert(ws.take(i) =~= ws);
    }
}

} // verus!
