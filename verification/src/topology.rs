use crate::graph::GraphError;
use crate::math::{exact, forward_pure, zero, Activation, Scalar};
use crate::model::{fresh, layer_marked, EdgeView, GraphView, NodeView};
use vstd::prelude::*;

verus! {

/// Cell `j` of row `i` in a table of `rows` rows and `copies` columns, read
/// row by row, has the number `i * copies + j`, and that number gives `i`
/// and `j` back.
pub proof fn lemma_cell(i: int, j: int, rows: int, copies: int)
    requires
        0 <= i < rows,
        0 <= j < copies,
    ensures
        0 <= i * copies + j < rows * copies,
        (i * copies + j) / copies == i,
        (i * copies + j) % copies == j,
{
    assert(0 <= i * copies && (i + 1) * copies <= rows * copies && (i + 1) * copies == i * copies
        + copies) by (nonlinear_arith)
        requires
            0 <= i < rows,
            0 < copies,
    ;
    vstd::arithmetic::div_mod::lemma_fundamental_div_mod_converse(i * copies + j, copies, i, j);
}

/// Handles of the edges of `edges` that leave node `h`, oldest first.
pub open spec fn leaving<S>(edges: Seq<EdgeView<S>>, h: usize) -> Seq<usize>
    decreases edges.len(),
{
    if edges.len() == 0 {
        Seq::empty()
    } else if edges.last().a == h {
        leaving(edges.drop_last(), h).push((edges.len() - 1) as usize)
    } else {
        leaving(edges.drop_last(), h)
    }
}

/// Handles of the edges of `edges` that arrive at node `h`, oldest first.
pub open spec fn arriving<S>(edges: Seq<EdgeView<S>>, h: usize) -> Seq<usize>
    decreases edges.len(),
{
    if edges.len() == 0 {
        Seq::empty()
    } else if edges.last().b == h {
        arriving(edges.drop_last(), h).push((edges.len() - 1) as usize)
    } else {
        arriving(edges.drop_last(), h)
    }
}

/// Every handle that `arriving` lists is the handle of an edge that arrives
/// at `h`.
pub proof fn lemma_arriving_arrive<S>(edges: Seq<EdgeView<S>>, h: usize)
    requires
        edges.len() <= usize::MAX,
    ensures
        forall|k: int|
            0 <= k < arriving(edges, h).len() ==> (#[trigger] arriving(edges, h)[k]) < edges.len()
                && edges[arriving(edges, h)[k] as int].b == h,
    decreases edges.len(),
{
    if edges.len() > 0 {
        lemma_arriving_arrive(edges.drop_last(), h);
        assert forall|k: int| 0 <= k < arriving(edges, h).len() implies (#[trigger] arriving(
            edges,
            h,
        )[k]) < edges.len() && edges[arriving(edges, h)[k] as int].b == h by {
            let rest = arriving(edges.drop_last(), h);
            if k < rest.len() {
                assert(arriving(edges, h)[k] == rest[k]);
                assert(edges.drop_last()[rest[k] as int] == edges[rest[k] as int]);
            } else {
                assert(edges.last().b == h);
                assert(arriving(edges, h)[k] == edges.len() - 1);
            }
        }
    }
}

/// Which edges leave a node and which arrive at it does not depend on the
/// weights.
pub proof fn lemma_lists_ignore_weights<S>(one: Seq<EdgeView<S>>, other: Seq<EdgeView<S>>, h: usize)
    requires
        one.len() == other.len(),
        forall|e: int|
            0 <= e < one.len() ==> (#[trigger] one[e]).a == other[e].a && one[e].b == other[e].b,
    ensures
        leaving(one, h) == leaving(other, h),
        arriving(one, h) == arriving(other, h),
    decreases one.len(),
{
    if one.len() > 0 {
        assert(one.last().a == other.last().a && one.last().b == other.last().b);
        assert forall|e: int| 0 <= e < one.drop_last().len() implies (#[trigger] one.drop_last()[e]).a
            == other.drop_last()[e].a && one.drop_last()[e].b == other.drop_last()[e].b by {
            assert(one[e].a == other[e].a);
        }
        lemma_lists_ignore_weights(one.drop_last(), other.drop_last(), h);
    }
}

/// A node as it is made: without edges, with the given settings.
pub open spec fn blank<S, A>(cache_handle: usize, conf: (A, S, S)) -> NodeView<S, A> {
    NodeView {
        forw: Seq::empty(),
        back: Seq::empty(),
        activ_f: conf.0,
        transform: conf.1,
        factor: conf.2,
        cache_handle,
    }
}

/// A block of `rows * copies` edges of one weight. Edge `k` leaves
/// `srcs[k / copies]`. With `cross` it arrives at `dsts[k % copies]`, so
/// that every source meets every target; without, at `dsts[k / copies]`, so
/// that source and target of the same position are joined `copies` times.
pub open spec fn block<S>(
    srcs: Seq<usize>,
    dsts: Seq<usize>,
    rows: int,
    copies: int,
    cross: bool,
    weight: S,
) -> Seq<EdgeView<S>> {
    Seq::new(
        (rows * copies) as nat,
        |k: int|
            EdgeView {
                weight,
                a: srcs[k / copies],
                b: dsts[if cross {
                    k % copies
                } else {
                    k / copies
                }],
            },
    )
}

/// The edges between the first `p` pairs of hidden layers: layers 0 and 1,
/// layers 2 and 3, and so on, each pair joined position by position.
pub open spec fn hidden_pairs<S>(hidden: Seq<Seq<usize>>, p: int, weight: S) -> Seq<EdgeView<S>>
    decreases p,
{
    if p <= 0 {
        Seq::empty()
    } else {
        hidden_pairs(hidden, p - 1, weight) + block(
            hidden[2 * p - 2],
            hidden[2 * p - 1],
            hidden[2 * p - 2].len() as int,
            hidden[2 * p - 1].len() as int,
            false,
            weight,
        )
    }
}

/// The smaller of two numbers.
pub open spec fn least(a: int, b: int) -> int {
    if a <= b {
        a
    } else {
        b
    }
}

/// All edges of a new graph, in the order of their handles: every input
/// node to every node of the first hidden layer; the hidden layers in
/// pairs; then, for each position that both the output layer and the input
/// layer have, the input node of that position to the node of that position
/// in the last hidden layer, once for each node of that layer.
pub open spec fn wiring<S>(input: Seq<usize>, hidden: Seq<Seq<usize>>, outs: int, weight: S) -> Seq<
    EdgeView<S>,
> {
    block(input, hidden[0], input.len() as int, hidden[0].len() as int, true, weight)
        + hidden_pairs(hidden, hidden.len() as int / 2, weight) + block(
        input,
        hidden.last(),
        least(outs, input.len() as int),
        hidden.last().len() as int,
        false,
        weight,
    )
}

impl<S: Scalar, A: Activation<S>> GraphView<S, A> {
    /// Whether every edge joins nodes that exist and every node lists
    /// exactly the edges that leave it and that arrive at it.
    pub open spec fn adjacent(self) -> bool {
        &&& self.edges.len() <= usize::MAX
        &&& forall|e: int|
            0 <= e < self.edges.len() ==> (#[trigger] self.edges[e]).a < self.nodes.len()
                && self.edges[e].b < self.nodes.len()
        &&& forall|h: usize|
            h < self.nodes.len() ==> (#[trigger] self.nodes[h as int]).forw == leaving(
                self.edges,
                h,
            ) && self.nodes[h as int].back == arriving(self.edges, h)
    }

    /// Whether the nodes lie as construction lays them: first the input
    /// layer, then the output layer, then the hidden layers one after the
    /// other, every layer but the output layer `layer_size` wide, each node
    /// with the cache slot of its own handle, and the graph's own cache
    /// unmarked and zero.
    pub open spec fn laid_out(self) -> bool {
        let width = self.layer_size as int;
        let outs = self.output_layer.len() as int;
        let depth = self.hidden_layers.len() as int;
        &&& width > 0 && outs > 0 && depth > 0
        &&& self.input_layer.len() == width
        &&& self.nodes.len() == width + outs + depth * width
        &&& self.cache.len() == self.nodes.len()
        &&& forall|i: int| 0 <= i < width ==> #[trigger] self.input_layer[i] == i
        &&& forall|i: int| 0 <= i < outs ==> #[trigger] self.output_layer[i] == width + i
        &&& forall|l: int|
            0 <= l < depth ==> (#[trigger] self.hidden_layers[l]).len() == width
        &&& forall|l: int, i: int|
            0 <= l < depth && 0 <= i < width ==> #[trigger] self.hidden_layers[l][i] == width
                + outs + l * width + i
        &&& forall|h: int|
            0 <= h < self.nodes.len() ==> (#[trigger] self.nodes[h]).cache_handle == h
        &&& forall|h: int|
            0 <= h < self.cache.len() ==> !(#[trigger] self.cache[h]).1 && call_ensures(
                S::zero,
                (),
                self.cache[h].0,
            )
    }

    /// Whether the graph is as construction leaves it, whatever its weights.
    pub open spec fn well_formed(self) -> bool {
        self.laid_out() && self.adjacent()
    }

    /// Whether `other` has the layers, the cache and the nodes of this graph,
    /// but for the edges that the nodes list.
    pub open spec fn same_frame(self, other: Self) -> bool {
        &&& self.input_layer == other.input_layer
        &&& self.hidden_layers == other.hidden_layers
        &&& self.output_layer == other.output_layer
        &&& self.cache == other.cache
        &&& self.layer_size == other.layer_size
        &&& self.nodes.len() == other.nodes.len()
        &&& forall|h: int|
            0 <= h < self.nodes.len() ==> (#[trigger] self.nodes[h]).cache_handle
                == other.nodes[h].cache_handle && self.nodes[h].activ_f == other.nodes[h].activ_f
                && self.nodes[h].transform == other.nodes[h].transform && self.nodes[h].factor
                == other.nodes[h].factor
    }

    /// Whether `other` is this graph but for its nodes.
    pub open spec fn besides_nodes(self, other: Self) -> bool {
        &&& self.edges =~= other.edges
        &&& self.input_layer == other.input_layer
        &&& self.hidden_layers =~= other.hidden_layers
        &&& self.output_layer == other.output_layer
        &&& self.cache == other.cache
        &&& self.layer_size == other.layer_size
    }

    /// Whether `other` is this graph but for its edges.
    pub open spec fn besides_edges(self, other: Self) -> bool {
        &&& self.nodes =~= other.nodes
        &&& self.input_layer == other.input_layer
        &&& self.hidden_layers =~= other.hidden_layers
        &&& self.output_layer == other.output_layer
        &&& self.cache == other.cache
        &&& self.layer_size == other.layer_size
    }

    /// The graph with one more edge, from node `a` to node `b`.
    pub open spec fn connected(self, a: usize, weight: S, b: usize) -> Self {
        let e = self.edges.len() as usize;
        let left = self.nodes.update(
            a as int,
            NodeView { forw: self.nodes[a as int].forw.push(e), ..self.nodes[a as int] },
        );
        GraphView {
            edges: self.edges.push(EdgeView { weight, a, b }),
            nodes: left.update(
                b as int,
                NodeView { back: left[b as int].back.push(e), ..left[b as int] },
            ),
            ..self
        }
    }

    /// Whether every handle of `layer` is the handle of a node.
    pub open spec fn holds(self, layer: Seq<usize>) -> bool {
        forall|i: int| 0 <= i < layer.len() ==> #[trigger] layer[i] < self.nodes.len()
    }

    /// Whether the graph is still without edges, each node as it was made
    /// with the settings `conf` and with the cache slot of its own handle,
    /// and the graph's own cache unmarked and zero.
    pub open spec fn sprouting(self, conf: (A, S, S)) -> bool {
        &&& self.edges.len() == 0
        &&& self.nodes.len() == self.cache.len()
        &&& forall|h: int|
            0 <= h < self.nodes.len() ==> (#[trigger] self.nodes[h]).cache_handle == h
                && self.nodes[h] == blank(self.nodes[h].cache_handle, conf)
        &&& forall|h: int|
            0 <= h < self.cache.len() ==> !(#[trigger] self.cache[h]).1 && call_ensures(
                S::zero,
                (),
                self.cache[h].0,
            )
    }

    /// Whether `after` is this graph with one more node, made with the
    /// settings `conf`, and one more cache slot for it, unmarked and zero.
    pub open spec fn grown(self, after: Self, conf: (A, S, S)) -> bool {
        &&& after.nodes.len() == self.nodes.len() + 1
        &&& after.nodes.drop_last() == self.nodes
        &&& after.nodes.last().cache_handle == self.cache.len()
        &&& after.nodes.last() == blank(after.nodes.last().cache_handle, conf)
        &&& after.cache.len() == self.cache.len() + 1
        &&& after.cache.drop_last() == self.cache
        &&& !after.cache.last().1
        &&& call_ensures(S::zero, (), after.cache.last().0)
        &&& after.edges == self.edges
        &&& after.layer_size == self.layer_size
    }

    /// Training keeps a graph well formed: it changes weights only.
    pub proof fn shape_keeps_well_formed(self, other: Self)
        requires
            self.same_shape(other),
            other.well_formed(),
        ensures
            self.well_formed(),
    {
        assert forall|e: int| 0 <= e < self.edges.len() implies (#[trigger] self.edges[e]).a
            < self.nodes.len() && self.edges[e].b < self.nodes.len() by {
            assert(other.edges[e].a < other.nodes.len());
        }
        assert forall|h: usize| h < self.nodes.len() implies (#[trigger] self.nodes[h as int]).forw
            == leaving(self.edges, h) && self.nodes[h as int].back == arriving(self.edges, h) by {
            lemma_lists_ignore_weights(self.edges, other.edges, h);
            assert(other.nodes[h as int].forw == leaving(other.edges, h));
        }
    }

    /// On a well-formed graph, with a cache that has a slot for every node,
    /// a forward pass and a training step find every handle they look up.
    pub proof fn well_formed_finds_all(self)
        requires
            self.well_formed(),
        ensures
            self.can_evaluate(self.nodes.len() as int),
            self.can_train(self.nodes.len() as int),
    {
        let m = self.nodes.len() as int;
        self.layout_holds_layers();
        assert forall|h: usize| h < self.nodes.len() implies #[trigger] self.node_readable(m, h) by {
            assert(self.nodes[h as int].cache_handle == h);
            let back = self.nodes[h as int].back;
            lemma_arriving_arrive(self.edges, h);
            assert forall|k: int| 0 <= k < back.len() implies self.edge_readable(
                m,
                #[trigger] back[k],
            ) by {
                let e = back[k];
                assert(e == arriving(self.edges, h)[k]);
                assert(self.edges[e as int].a < self.nodes.len());
                assert(self.nodes[self.edges[e as int].a as int].cache_handle
                    == self.edges[e as int].a);
            }
        }
        assert forall|layer: Seq<usize>| #[trigger] self.holds(layer) implies self.layer_readable(
            m,
            layer,
        ) by {
            assert forall|i: int| 0 <= i < layer.len() implies self.node_readable(
                m,
                #[trigger] layer[i],
            ) by {}
        }
        assert(self.layer_readable(m, self.input_layer));
        assert(self.layer_readable(m, self.output_layer));
        assert forall|l: int| 0 <= l < self.hidden_layers.len() implies self.layer_readable(
            m,
            #[trigger] self.hidden_layers[l],
        ) by {
            assert(self.holds(self.hidden_layers[l]));
        }
        assert forall|i: int| 0 <= i < self.input_layer.len() implies self.node_present(
            m,
            #[trigger] self.input_layer[i],
        ) by {
            assert(self.node_readable(m, self.input_layer[i]));
        }
        assert forall|i: int| 0 <= i < self.output_layer.len() implies self.sources_readable(
            m,
            #[trigger] self.output_layer[i],
        ) by {
            assert(self.node_readable(m, self.output_layer[i]));
        }
    }

    /// On a well-formed graph every cache slot belongs to a node of some
    /// layer: once the slots of all layers are marked, all slots are.
    pub proof fn layers_cover_cache(self, c: Seq<(S, bool)>)
        requires
            self.well_formed(),
            c.len() == self.nodes.len(),
            self.all_marked(c),
        ensures
            forall|j: int| 0 <= j < c.len() ==> (#[trigger] c[j]).1,
    {
        let width = self.layer_size as int;
        let outs = self.output_layer.len() as int;
        let depth = self.hidden_layers.len() as int;
        assert forall|j: int| 0 <= j < c.len() implies (#[trigger] c[j]).1 by {
            assert(self.nodes[j].cache_handle == j);
            if j < width {
                assert(self.input_layer[j] == j);
            } else if j < width + outs {
                assert(self.output_layer[j - width] == j);
            } else {
                let x = j - width - outs;
                let l = x / width;
                let i = x % width;
                vstd::arithmetic::div_mod::lemma_fundamental_div_mod(x, width);
                assert(0 <= l < depth) by (nonlinear_arith)
                    requires
                        0 <= x < depth * width,
                        x == width * l + i,
                        0 <= i < width,
                ;
                assert(width * l == l * width) by (nonlinear_arith);
                let layer = self.hidden_layers[l];
                assert(layer_marked(self, c, layer, layer.len() as int));
                assert(self.hidden_layers[l][i] == j);
                assert(layer[i] == j);
            }
        }
    }

    /// The cache that a fresh evaluation of a well-formed graph starts from
    /// has one slot for every node, each unmarked and zero.
    pub proof fn fresh_cache_is_blank(self)
        requires
            self.well_formed(),
        ensures
            fresh(self.cache).len() == self.nodes.len(),
            forall|i: int|
                0 <= i < self.nodes.len() ==> !(#[trigger] fresh(self.cache)[i]).1 && call_ensures(
                    S::zero,
                    (),
                    fresh(self.cache)[i].0,
                ),
            exact::<S>() ==> forall|i: int|
                0 <= i < self.nodes.len() ==> #[trigger] fresh(self.cache)[i] == (zero::<S>(), false),
    {
        assert forall|i: int| 0 <= i < self.nodes.len() implies !(#[trigger] fresh(
            self.cache,
        )[i]).1 && call_ensures(S::zero, (), fresh(self.cache)[i].0) by {
            assert(!self.cache[i].1);
        }
    }

    /// Two calls of `calc_graph` on one graph with one input, each begun on
    /// a fresh cache and with an output buffer of one length, end alike
    /// where what a forward pass is made with is a function of its
    /// arguments: both succeed or both fail with the same error, with the
    /// same cache and, where they succeed, with the same output.
    pub proof fn fresh_passes_agree(
        self,
        input: Seq<S>,
        first_buffer: Seq<S>,
        first_cache: Seq<(S, bool)>,
        first_output: Seq<S>,
        first_done: Result<(), GraphError>,
        second_buffer: Seq<S>,
        second_cache: Seq<(S, bool)>,
        second_output: Seq<S>,
        second_done: Result<(), GraphError>,
    )
        requires
            forward_pure::<S, A>(),
            first_buffer.len() == second_buffer.len(),
            self.passed(
                input,
                fresh(self.cache),
                first_cache,
                first_buffer,
                first_output,
                first_done,
            ),
            self.passed(
                input,
                fresh(self.cache),
                second_cache,
                second_buffer,
                second_output,
                second_done,
            ),
        ensures
            first_done.is_ok() <==> second_done.is_ok(),
            first_done.is_err() ==> first_done == second_done,
            first_cache == second_cache,
            first_done.is_ok() ==> first_output == second_output,
    {
        if first_done.is_ok() {
        } else if self.fits(input.len() as int, first_buffer.len() as int) {
            assert(first_done == Err::<(), GraphError>(GraphError::InvalidHandle));
            assert(second_done == Err::<(), GraphError>(GraphError::InvalidHandle));
        } else {
            assert(first_done == Err::<(), GraphError>(GraphError::DimensionMismatch));
            assert(second_done == Err::<(), GraphError>(GraphError::DimensionMismatch));
        }
    }

    /// A graph without edges stays one when it grows by a node.
    pub proof fn grown_keeps_sprouting(self, after: Self, conf: (A, S, S))
        requires
            self.sprouting(conf),
            self.grown(after, conf),
        ensures
            after.sprouting(conf),
            after.nodes.len() == self.nodes.len() + 1,
    {
        assert forall|h: int| 0 <= h < after.cache.len() implies !(#[trigger] after.cache[h]).1
            && call_ensures(S::zero, (), after.cache[h].0) by {
            if h < self.cache.len() {
                assert(after.cache[h] == after.cache.drop_last()[h]);
                assert(!self.cache[h].1);
            } else {
                assert(after.cache[h] == after.cache.last());
            }
        }
        assert forall|h: int| 0 <= h < after.nodes.len() implies (#[trigger] after.nodes[h]).cache_handle
            == h && after.nodes[h] == blank(after.nodes[h].cache_handle, conf) by {
            if h < self.nodes.len() {
                assert(after.nodes[h] == after.nodes.drop_last()[h]);
                assert(self.nodes[h].cache_handle == h);
            } else {
                assert(after.nodes[h] == after.nodes.last());
            }
        }
    }

    /// In a graph that is laid out, every layer holds handles of nodes.
    pub proof fn layout_holds_layers(self)
        requires
            self.laid_out(),
        ensures
            self.holds(self.input_layer),
            self.holds(self.output_layer),
            forall|l: int|
                0 <= l < self.hidden_layers.len() ==> self.holds(#[trigger] self.hidden_layers[l]),
    {
        let width = self.layer_size as int;
        let depth = self.hidden_layers.len() as int;
        assert(depth * width >= 0) by (nonlinear_arith)
            requires
                depth > 0,
                width > 0,
        ;
        assert forall|l: int| 0 <= l < depth implies self.holds(
            #[trigger] self.hidden_layers[l],
        ) by {
            let layer = self.hidden_layers[l];
            assert forall|i: int| 0 <= i < layer.len() implies #[trigger] layer[i]
                < self.nodes.len() by {
                lemma_cell(l, i, depth, width);
                assert(self.hidden_layers[l][i] == width + self.output_layer.len() + l * width
                    + i);
            }
        }
    }

    /// Whether the nodes are laid out does not depend on the edges.
    pub proof fn frame_keeps_layout(self, other: Self)
        requires
            self.same_frame(other),
            other.laid_out(),
        ensures
            self.laid_out(),
    {
        assert forall|h: int| 0 <= h < self.nodes.len() implies (#[trigger] self.nodes[h]).cache_handle
            == h by {
            assert(other.nodes[h].cache_handle == h);
        }
    }

    /// A new edge between nodes that exist keeps the lists of the nodes
    /// right.
    pub proof fn connected_stays_adjacent(self, a: usize, weight: S, b: usize)
        requires
            self.adjacent(),
            self.edges.len() < usize::MAX,
            a < self.nodes.len(),
            b < self.nodes.len(),
        ensures
            self.connected(a, weight, b).adjacent(),
            self.connected(a, weight, b).same_frame(self),
    {
        let after = self.connected(a, weight, b);
        assert(after.edges.drop_last() == self.edges);
        assert forall|h: usize| h < after.nodes.len() implies (#[trigger] after.nodes[h as int]).forw
            == leaving(after.edges, h) && after.nodes[h as int].back == arriving(after.edges, h) by {
            assert(self.nodes[h as int].forw == leaving(self.edges, h));
        }
        assert forall|e: int| 0 <= e < after.edges.len() implies (#[trigger] after.edges[e]).a
            < after.nodes.len() && after.edges[e].b < after.nodes.len() by {
            if e < self.edges.len() {
                assert(self.edges[e].a < self.nodes.len());
            }
        }
    }
}

} // verus!
