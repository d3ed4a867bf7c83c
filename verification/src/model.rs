use crate::graph::GraphError;
use crate::math::{forward_pure, forwarded, product, sum, zero, Activation, Scalar};
use vstd::prelude::*;

verus! {

/// What a node holds.
pub struct NodeView<S, A> {
    /// Handles of the edges that leave the node, oldest first.
    pub forw: Seq<usize>,
    /// Handles of the edges that arrive at the node, oldest first.
    pub back: Seq<usize>,
    pub activ_f: A,
    pub transform: S,
    pub factor: S,
    pub cache_handle: usize,
}

impl<S: Scalar, A: Activation<S>> NodeView<S, A> {
    /// The node's value on the weighted input `x`.
    pub open spec fn value_on(self, x: S) -> S {
        forwarded(self.activ_f, x, self.transform, self.factor)
    }
}

/// What an edge holds.
pub struct EdgeView<S> {
    pub weight: S,
    pub a: usize,
    pub b: usize,
}

/// What a graph holds.
pub struct GraphView<S, A> {
    pub nodes: Seq<NodeView<S, A>>,
    pub edges: Seq<EdgeView<S>>,
    pub input_layer: Seq<usize>,
    pub hidden_layers: Seq<Seq<usize>>,
    pub output_layer: Seq<usize>,
    pub cache: Seq<(S, bool)>,
    pub layer_size: usize,
}

impl<S: Scalar, A: Activation<S>> GraphView<S, A> {
    /// The cache slot of the node that edge `e` leaves.
    pub open spec fn source_slot(self, e: usize) -> int {
        self.nodes[self.edges[e as int].a as int].cache_handle as int
    }

    /// Whether edge `e` exists, leaves a node that exists, and that node's
    /// slot lies in a cache of `m` slots.
    pub open spec fn edge_readable(self, m: int, e: usize) -> bool {
        &&& e < self.edges.len()
        &&& self.edges[e as int].a < self.nodes.len()
        &&& self.source_slot(e) < m
    }

    /// Whether node `h` exists and its slot lies in a cache of `m` slots.
    pub open spec fn node_present(self, m: int, h: usize) -> bool {
        &&& h < self.nodes.len()
        &&& self.nodes[h as int].cache_handle < m
    }

    /// Whether node `h` exists and each edge that arrives at it is readable.
    pub open spec fn sources_readable(self, m: int, h: usize) -> bool {
        &&& h < self.nodes.len()
        &&& forall|k: int|
            0 <= k < self.nodes[h as int].back.len() ==> self.edge_readable(
                m,
                #[trigger] self.nodes[h as int].back[k],
            )
    }

    /// Whether node `h` can be evaluated against a cache of `m` slots.
    pub open spec fn node_readable(self, m: int, h: usize) -> bool {
        self.node_present(m, h) && self.sources_readable(m, h)
    }

    /// Whether every node of `layer` can be evaluated against a cache of `m`
    /// slots.
    pub open spec fn layer_readable(self, m: int, layer: Seq<usize>) -> bool {
        forall|i: int| 0 <= i < layer.len() ==> self.node_readable(m, #[trigger] layer[i])
    }

    /// Whether every node of `layer` exists with its slot in a cache of `m`
    /// slots.
    pub open spec fn layer_present(self, m: int, layer: Seq<usize>) -> bool {
        forall|i: int| 0 <= i < layer.len() ==> self.node_present(m, #[trigger] layer[i])
    }

    /// Whether a forward pass over a cache of `m` slots finds every handle
    /// that it looks up.
    pub open spec fn can_evaluate(self, m: int) -> bool {
        &&& self.layer_present(m, self.input_layer)
        &&& forall|l: int|
            0 <= l < self.hidden_layers.len() ==> self.layer_readable(
                m,
                #[trigger] self.hidden_layers[l],
            )
        &&& self.layer_readable(m, self.output_layer)
    }

    /// Whether an input of `n_in` numbers and an output of `n_out` numbers
    /// have the widths of the input and the output layer.
    pub open spec fn fits(self, n_in: int, n_out: int) -> bool {
        n_in == self.input_layer.len() && n_out == self.output_layer.len()
    }

    /// Whether the slot of every node of every layer is marked computed.
    pub open spec fn all_marked(self, c: Seq<(S, bool)>) -> bool {
        &&& layer_marked(self, c, self.input_layer, self.input_layer.len() as int)
        &&& forall|l: int|
            0 <= l < self.hidden_layers.len() ==> layer_marked(
                self,
                c,
                #[trigger] self.hidden_layers[l],
                self.hidden_layers[l].len() as int,
            )
        &&& layer_marked(self, c, self.output_layer, self.output_layer.len() as int)
    }

    /// Marks that are kept stay on the nodes of a layer.
    pub proof fn marked_stays(self, before: Seq<(S, bool)>, after: Seq<(S, bool)>, layer: Seq<usize>)
        requires
            marks_kept(before, after),
            self.layer_present(before.len() as int, layer),
            layer_marked(self, before, layer, layer.len() as int),
        ensures
            layer_marked(self, after, layer, layer.len() as int),
    {
        assert forall|i: int| 0 <= i < layer.len() implies after[self.nodes[(
        #[trigger] layer[i]) as int].cache_handle as int].1 by {
            assert(self.node_present(before.len() as int, layer[i]));
        }
    }

    /// The weighted input from the first `k` edges of `back`: beginning at
    /// zero, each edge adds its source's cached value times its weight.
    pub open spec fn weighted_sum(self, c: Seq<(S, bool)>, back: Seq<usize>, k: int) -> S
        decreases k,
    {
        if k <= 0 {
            zero::<S>()
        } else {
            sum(
                self.weighted_sum(c, back, k - 1),
                product(c[self.source_slot(back[k - 1])].0, self.edges[back[k - 1] as int].weight),
            )
        }
    }

    /// The value of node `h` when its sources are read from `c`.
    pub open spec fn fired(self, c: Seq<(S, bool)>, h: usize) -> S {
        let node = self.nodes[h as int];
        node.value_on(self.weighted_sum(c, node.back, node.back.len() as int))
    }

    /// The cache `c` once node `h` has been evaluated and stored.
    pub open spec fn after_node(self, c: Seq<(S, bool)>, h: usize) -> Seq<(S, bool)> {
        c.update(self.nodes[h as int].cache_handle as int, (self.fired(c, h), true))
    }

    /// The cache `c` once the first `k` nodes of `layer` have been evaluated
    /// in turn.
    pub open spec fn after_nodes(self, c: Seq<(S, bool)>, layer: Seq<usize>, k: int) -> Seq<
        (S, bool),
    >
        decreases k,
    {
        if k <= 0 {
            c
        } else {
            self.after_node(self.after_nodes(c, layer, k - 1), layer[k - 1])
        }
    }

    /// The cache `c` once the first `l` hidden layers have been evaluated.
    pub open spec fn after_hidden(self, c: Seq<(S, bool)>, l: int) -> Seq<(S, bool)>
        decreases l,
    {
        if l <= 0 {
            c
        } else {
            let layer = self.hidden_layers[l - 1];
            self.after_nodes(self.after_hidden(c, l - 1), layer, layer.len() as int)
        }
    }

    /// The cache `c` once the first `k` input nodes have taken their values
    /// from `input`.
    pub open spec fn after_inputs(self, input: Seq<S>, c: Seq<(S, bool)>, k: int) -> Seq<(S, bool)>
        decreases k,
    {
        if k <= 0 {
            c
        } else {
            let node = self.nodes[self.input_layer[k - 1] as int];
            self.after_inputs(input, c, k - 1).update(
                node.cache_handle as int,
                (node.value_on(input[k - 1]), true),
            )
        }
    }

    /// The cache when the output layer's turn comes.
    pub open spec fn before_outputs(self, input: Seq<S>, c: Seq<(S, bool)>) -> Seq<(S, bool)> {
        self.after_hidden(
            self.after_inputs(input, c, self.input_layer.len() as int),
            self.hidden_layers.len() as int,
        )
    }

    /// The cache at the end of a forward pass that began with `c`.
    pub open spec fn evaluated(self, input: Seq<S>, c: Seq<(S, bool)>) -> Seq<(S, bool)> {
        self.after_nodes(
            self.before_outputs(input, c),
            self.output_layer,
            self.output_layer.len() as int,
        )
    }

    /// What a forward pass that began with `c` writes at position `i` of the
    /// output.
    pub open spec fn output_at(self, input: Seq<S>, c: Seq<(S, bool)>, i: int) -> S {
        self.fired(
            self.after_nodes(self.before_outputs(input, c), self.output_layer, i),
            self.output_layer[i],
        )
    }

    /// The whole output of a forward pass that began with `c`.
    pub open spec fn outputs(self, input: Seq<S>, c: Seq<(S, bool)>) -> Seq<S> {
        Seq::new(self.output_layer.len(), |i: int| self.output_at(input, c, i))
    }

    /// What one forward pass leaves behind, where it began with the cache
    /// `before` and an output buffer that held `output_before`.
    ///
    /// Neither the cache nor the buffer changes its length. The pass
    /// succeeds if and only if input and buffer have the widths of their
    /// layers and every handle is found. It fails with `DimensionMismatch`
    /// exactly where a width is wrong, and else with `InvalidHandle` exactly
    /// where a handle is missing; either way it changes nothing. Where it
    /// succeeds, no mark is lost and the slot of every node of every layer is
    /// marked; and where what it is made with is a function of its
    /// arguments, cache and output are those of `evaluated` and `outputs`.
    pub open spec fn passed(
        self,
        input: Seq<S>,
        before: Seq<(S, bool)>,
        after: Seq<(S, bool)>,
        output_before: Seq<S>,
        output_after: Seq<S>,
        done: Result<(), GraphError>,
    ) -> bool {
        let fits = self.fits(input.len() as int, output_before.len() as int);
        let found = self.can_evaluate(before.len() as int);
        &&& after.len() == before.len()
        &&& output_after.len() == output_before.len()
        &&& done.is_ok() <==> fits && found
        &&& done == Err::<(), GraphError>(GraphError::DimensionMismatch) <==> !fits
        &&& done == Err::<(), GraphError>(GraphError::InvalidHandle) <==> fits && !found
        &&& done.is_err() ==> after == before && output_after == output_before
        &&& done.is_ok() ==> marks_kept(before, after) && self.all_marked(after)
        &&& done.is_ok() && forward_pure::<S, A>() ==> after == self.evaluated(input, before)
            && output_after == self.outputs(input, before)
    }
}

/// The cache that a fresh evaluation starts from: the values of `template`,
/// none of them marked computed.
pub open spec fn fresh<S>(template: Seq<(S, bool)>) -> Seq<(S, bool)> {
    Seq::new(template.len(), |i: int| (template[i].0, false))
}

/// Whether no slot of `before` that was marked computed has lost its mark in
/// `after`.
pub open spec fn marks_kept<S>(before: Seq<(S, bool)>, after: Seq<(S, bool)>) -> bool {
    &&& before.len() == after.len()
    &&& forall|j: int| 0 <= j < before.len() && before[j].1 ==> (#[trigger] after[j]).1
}

/// Whether the slot of each of the first `k` nodes of `layer` is marked
/// computed in `c`.
pub open spec fn layer_marked<S, A>(g: GraphView<S, A>, c: Seq<(S, bool)>, layer: Seq<usize>, k: int) -> bool {
    forall|i: int| 0 <= i < k ==> c[g.nodes[(#[trigger] layer[i]) as int].cache_handle as int].1
}

} // verus!
