use crate::math::{difference, product, slope, squashed, sum, Activation, Scalar};
use crate::model::{fresh, EdgeView, GraphView};
use vstd::prelude::*;

verus! {

/// The signal that training sends back from an output node that gave
/// `output` where `expected` was asked for.
pub open spec fn output_signal<S: Scalar>(expected: S, output: S) -> S {
    let y = squashed(output);
    product(slope(y), difference(squashed(expected), y))
}

/// A training step under way: the graph with the weights as they stand, and
/// the error cache with the signals staged so far.
pub struct Training<S, A> {
    pub graph: GraphView<S, A>,
    pub errors: Seq<(S, bool)>,
}

impl<S: Scalar, A: Activation<S>> GraphView<S, A> {
    /// The graph with the weight of edge `e` replaced.
    pub open spec fn reweighted(self, e: usize, weight: S) -> Self {
        GraphView {
            edges: self.edges.update(
                e as int,
                EdgeView { weight, a: self.edges[e as int].a, b: self.edges[e as int].b },
            ),
            ..self
        }
    }

    /// Whether `other` is this graph up to the weights of its edges.
    pub open spec fn same_shape(self, other: Self) -> bool {
        &&& self.nodes == other.nodes
        &&& self.input_layer == other.input_layer
        &&& self.hidden_layers == other.hidden_layers
        &&& self.output_layer == other.output_layer
        &&& self.cache == other.cache
        &&& self.layer_size == other.layer_size
        &&& self.edges.len() == other.edges.len()
        &&& forall|e: int|
            0 <= e < self.edges.len() ==> (#[trigger] self.edges[e]).a == other.edges[e].a
                && self.edges[e].b == other.edges[e].b
    }

    /// Whether a training step with a cache of `m` slots finds every handle
    /// that it looks up, in the cache and in its own error cache, which has
    /// the size of the graph's template.
    pub open spec fn can_train(self, m: int) -> bool {
        let own = self.cache.len() as int;
        &&& self.can_evaluate(m)
        &&& forall|i: int|
            0 <= i < self.output_layer.len() ==> self.sources_readable(
                own,
                #[trigger] self.output_layer[i],
            )
        &&& forall|l: int|
            0 <= l < self.hidden_layers.len() ==> self.layer_readable(
                own,
                #[trigger] self.hidden_layers[l],
            )
        &&& self.layer_readable(m, self.input_layer)
        &&& self.layer_readable(own, self.input_layer)
    }

    /// Which handles a lookup finds does not depend on the weights.
    pub proof fn shape_fixes_lookups(self, other: Self)
        requires
            self.same_shape(other),
        ensures
            forall|m: int, e: usize| #[trigger]
                self.edge_readable(m, e) == other.edge_readable(m, e),
            forall|m: int, h: usize| #[trigger]
                self.node_present(m, h) == other.node_present(m, h),
            forall|m: int, h: usize| #[trigger]
                self.sources_readable(m, h) == other.sources_readable(m, h),
            forall|m: int, h: usize| #[trigger]
                self.node_readable(m, h) == other.node_readable(m, h),
            forall|m: int, layer: Seq<usize>| #[trigger]
                self.layer_readable(m, layer) == other.layer_readable(m, layer),
            forall|m: int, layer: Seq<usize>| #[trigger]
                self.layer_present(m, layer) == other.layer_present(m, layer),
            forall|m: int| #[trigger] self.can_evaluate(m) == other.can_evaluate(m),
            forall|m: int| #[trigger] self.can_train(m) == other.can_train(m),
    {
        assert forall|m: int, e: usize| #[trigger]
            self.edge_readable(m, e) == other.edge_readable(m, e) by {
            if e < self.edges.len() {
                assert(self.edges[e as int].a == other.edges[e as int].a);
            }
        }
        assert forall|m: int, h: usize| #[trigger]
            self.sources_readable(m, h) == other.sources_readable(m, h) by {
            if h < self.nodes.len() {
                let back = self.nodes[h as int].back;
                assert forall|k: int| 0 <= k < back.len() implies self.edge_readable(m, back[k])
                    == other.edge_readable(m, back[k]) by {}
            }
        }
    }

    /// The graph and the output vector after one training step.
    pub open spec fn trained(self, input: Seq<S>, c: Seq<(S, bool)>, expected: Seq<S>, rate: S) -> Self {
        let cache = self.evaluated(input, c);
        let outputs = self.outputs(input, c);
        (Training { graph: self, errors: fresh(self.cache) }).outputs_trained(
            cache,
            rate,
            outputs,
            expected,
            self.output_layer.len() as int,
        ).hidden_trained(cache, rate, 0).layer_trained(
            cache,
            rate,
            self.input_layer,
            self.input_layer.len() as int,
        ).graph
    }
}

impl<S: Scalar, A: Activation<S>> Training<S, A> {
    /// The signal that reaches edge `e` through the node whose error slot is
    /// `own`: the staged error times the weight, times the slope at the
    /// edge's squashed source value.
    pub open spec fn relayed(self, c: Seq<(S, bool)>, e: usize, own: int) -> S {
        let y = squashed(c[self.graph.source_slot(e)].0);
        product(slope(y), product(self.graph.edges[e as int].weight, self.errors[own].0))
    }

    /// The step after edge `e` has taken the signal `signal`: the edge's
    /// weight grows by `rate * signal * y`, where `y` is its squashed source
    /// value, and the error slot of its source stages
    /// `y * (1 - y) * (weight * signal)`, with the weight as it was.
    pub open spec fn pulled(self, c: Seq<(S, bool)>, rate: S, e: usize, signal: S) -> Self {
        let weight = self.graph.edges[e as int].weight;
        let slot = self.graph.source_slot(e);
        let y = squashed(c[slot].0);
        Training {
            graph: self.graph.reweighted(e, sum(product(product(rate, signal), y), weight)),
            errors: self.errors.update(
                slot,
                (product(slope(y), product(weight, signal)), self.errors[slot].1),
            ),
        }
    }

    /// The step after the first `k` edges of `back`, which arrive at one node,
    /// have been pulled in turn. With `fixed` every edge takes that signal;
    /// without it, each takes what the node's error slot `own` relays at
    /// that moment.
    pub open spec fn node_trained(
        self,
        c: Seq<(S, bool)>,
        rate: S,
        back: Seq<usize>,
        own: int,
        fixed: Option<S>,
        k: int,
    ) -> Self
        decreases k,
    {
        if k <= 0 {
            self
        } else {
            let prev = self.node_trained(c, rate, back, own, fixed, k - 1);
            let signal = match fixed {
                Some(s) => s,
                None => prev.relayed(c, back[k - 1], own),
            };
            prev.pulled(c, rate, back[k - 1], signal)
        }
    }

    /// The step after the first `k` output nodes have sent back the signal of
    /// their error.
    pub open spec fn outputs_trained(
        self,
        c: Seq<(S, bool)>,
        rate: S,
        outputs: Seq<S>,
        expected: Seq<S>,
        k: int,
    ) -> Self
        decreases k,
    {
        if k <= 0 {
            self
        } else {
            let prev = self.outputs_trained(c, rate, outputs, expected, k - 1);
            let node = prev.graph.nodes[prev.graph.output_layer[k - 1] as int];
            prev.node_trained(
                c,
                rate,
                node.back,
                node.cache_handle as int,
                Some(output_signal(expected[k - 1], outputs[k - 1])),
                node.back.len() as int,
            )
        }
    }

    /// The step after the first `k` nodes of `layer` have relayed what was
    /// staged for them.
    pub open spec fn layer_trained(self, c: Seq<(S, bool)>, rate: S, layer: Seq<usize>, k: int) -> Self
        decreases k,
    {
        if k <= 0 {
            self
        } else {
            let prev = self.layer_trained(c, rate, layer, k - 1);
            let node = prev.graph.nodes[layer[k - 1] as int];
            prev.node_trained(
                c,
                rate,
                node.back,
                node.cache_handle as int,
                None,
                node.back.len() as int,
            )
        }
    }

    /// The step after the hidden layers from the last down to layer `l` have
    /// relayed their signals.
    pub open spec fn hidden_trained(self, c: Seq<(S, bool)>, rate: S, l: int) -> Self
        decreases self.graph.hidden_layers.len() - l,
    {
        if l >= self.graph.hidden_layers.len() || l < 0 {
            self
        } else {
            let layer = self.graph.hidden_layers[l];
            self.hidden_trained(c, rate, l + 1).layer_trained(c, rate, layer, layer.len() as int)
        }
    }
}

} // verus!
