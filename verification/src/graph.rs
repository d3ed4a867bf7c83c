use crate::arena::Arena;
use crate::math::{
    exact, forw_calc, forward_pure, node_pure, pure, sigmoid, sigmoid_slope, zero, Activation, Scalar,
};
use crate::model::{fresh, layer_marked, marks_kept, EdgeView, GraphView, NodeView};
use crate::topology::{arriving, blank, block, hidden_pairs, leaving, lemma_cell, wiring};
use crate::training::Training;
use vstd::prelude::*;

verus! {

pub type EdgeHandle = usize;

pub type NodeHandle = usize;

pub type CacheHandle = usize;

/// Why an operation on a graph was refused.
#[derive(Clone, Copy, Debug, PartialEq, Eq, Structural)]
pub enum GraphError {
    /// A vector's length differs from the width of the layer it belongs to.
    DimensionMismatch,
    /// A handle that the topology refers to is missing from its arena.
    InvalidHandle,
    /// A graph was asked for with a layer count or a layer width of zero.
    InvalidTopologyConfig,
}

/// A unit of computation.
pub struct Node<S, A> {
    forw: Vec<EdgeHandle>,
    back: Vec<EdgeHandle>,
    activ_f: A,
    activ_transform: S,
    activ_v: S,
    cache_handle: CacheHandle,
}

impl<S, A> View for Node<S, A> {
    type V = NodeView<S, A>;

    closed spec fn view(&self) -> NodeView<S, A> {
        NodeView {
            forw: self.forw@,
            back: self.back@,
            activ_f: self.activ_f,
            transform: self.activ_transform,
            factor: self.activ_v,
            cache_handle: self.cache_handle,
        }
    }
}

impl<S: Scalar, A: Activation<S>> Node<S, A> {
    /// A node without edges.
    pub fn new(cache_handle: CacheHandle, activ_f: A, activ_transform: S, activ_v: S) -> (node: Self)
        ensures
            node@ == (NodeView {
                forw: Seq::empty(),
                back: Seq::empty(),
                activ_f,
                transform: activ_transform,
                factor: activ_v,
                cache_handle,
            }),
    {
        Self {
            forw: Vec::new(),
            back: Vec::new(),
            activ_f,
            activ_transform,
            activ_v,
            cache_handle,
        }
    }

    /// Handles of the edges that leave the node, oldest first.
    pub fn forw(&self) -> (edges: &Vec<EdgeHandle>)
        ensures
            edges@ == self@.forw,
    {
        &self.forw
    }

    /// Handles of the edges that arrive at the node, oldest first.
    pub fn back(&self) -> (edges: &Vec<EdgeHandle>)
        ensures
            edges@ == self@.back,
    {
        &self.back
    }

    /// Handle of the node's cache slot.
    pub fn cache_handle(&self) -> (handle: CacheHandle)
        ensures
            handle == self@.cache_handle,
    {
        self.cache_handle
    }

    /// The node's value on the weighted input `weighted_sum`.
    pub fn calc(&self, weighted_sum: S) -> (value: S)
        ensures
            node_pure::<S, A>() ==> value == self@.value_on(weighted_sum),
    {
        forw_calc(&self.activ_f, weighted_sum, self.activ_transform, self.activ_v)
    }
}

/// A weighted connection from node `a` to node `b`.
pub struct Edge<S> {
    weight: S,
    a: NodeHandle,
    b: NodeHandle,
}

impl<S> View for Edge<S> {
    type V = EdgeView<S>;

    closed spec fn view(&self) -> EdgeView<S> {
        EdgeView { weight: self.weight, a: self.a, b: self.b }
    }
}

impl<S: Scalar> Edge<S> {
    pub fn new(a: &NodeHandle, weight: S, b: &NodeHandle) -> (edge: Self)
        ensures
            edge@ == (EdgeView { weight, a: *a, b: *b }),
    {
        Self { weight, a: *a, b: *b }
    }

    /// The edge's weight.
    pub fn weight(&self) -> (weight: S)
        ensures
            weight == self@.weight,
    {
        self.weight
    }

    /// Handle of the node that the edge leaves.
    pub fn source(&self) -> (a: NodeHandle)
        ensures
            a == self@.a,
    {
        self.a
    }

    /// Handle of the node at which the edge arrives.
    pub fn target(&self) -> (b: NodeHandle)
        ensures
            b == self@.b,
    {
        self.b
    }
}

/// A layered network: its nodes and edges, the layers that order the nodes,
/// and the cache that every fresh evaluation starts from.
pub struct Graph<S, A> {
    nodes: Arena<Node<S, A>>,
    edges: Arena<Edge<S>>,
    input_layer: Vec<usize>,
    hidden_layers: Vec<Vec<usize>>,
    output_layer: Vec<usize>,
    cache: Arena<(S, bool)>,
    layer_size: usize,
}

impl<S, A> View for Graph<S, A> {
    type V = GraphView<S, A>;

    closed spec fn view(&self) -> GraphView<S, A> {
        GraphView {
            nodes: Seq::new(self.nodes@.len(), |i: int| self.nodes@[i]@),
            edges: Seq::new(self.edges@.len(), |i: int| self.edges@[i]@),
            input_layer: self.input_layer@,
            hidden_layers: Seq::new(self.hidden_layers@.len(), |i: int| self.hidden_layers@[i]@),
            output_layer: self.output_layer@,
            cache: self.cache@,
            layer_size: self.layer_size,
        }
    }
}

impl<S: Scalar, A: Activation<S>> Graph<S, A> {
    /// A graph of `layer_size` input nodes, `output_layer_size` output nodes
    /// and `hidden_layers_amt` hidden layers of `layer_size` nodes each, every
    /// node with the activation, the transform and the factor of `node_conf`,
    /// joined by the edges of `wiring`, each with the weight `init_weight`. A
    /// count of zero is refused.
    pub fn new(
        init_weight: S,
        layer_size: usize,
        output_layer_size: usize,
        hidden_layers_amt: usize,
        node_conf: (A, S, S),
    ) -> (made: Result<Self, GraphError>)
        ensures
            made.is_err() <==> layer_size == 0 || output_layer_size == 0 || hidden_layers_amt == 0,
            made.is_err() ==> made matches Err(GraphError::InvalidTopologyConfig),
            made.is_ok() ==> made.unwrap()@.well_formed(),
            made.is_ok() ==> made.unwrap()@.layer_size == layer_size,
            made.is_ok() ==> made.unwrap()@.output_layer.len() == output_layer_size,
            made.is_ok() ==> made.unwrap()@.hidden_layers.len() == hidden_layers_amt,
            made.is_ok() ==> made.unwrap()@.edges == wiring(
                made.unwrap()@.input_layer,
                made.unwrap()@.hidden_layers,
                output_layer_size as int,
                init_weight,
            ),
            made.is_ok() ==> forall|h: int|
                0 <= h < made.unwrap()@.nodes.len() ==> (#[trigger] made.unwrap()@.nodes[h]).activ_f
                    == node_conf.0 && made.unwrap()@.nodes[h].transform == node_conf.1
                    && made.unwrap()@.nodes[h].factor == node_conf.2,
    {
        if layer_size == 0 || output_layer_size == 0 || hidden_layers_amt == 0 {
            return Err(GraphError::InvalidTopologyConfig);
        }
        let mut graph = Self {
            nodes: Arena::new(),
            edges: Arena::new(),
            input_layer: Vec::new(),
            hidden_layers: Vec::new(),
            output_layer: Vec::new(),
            cache: Arena::new(),
            layer_size,
        };

        let (activ_f, activ_transform, activ_v) = node_conf;
        let ghost width = layer_size as int;
        let ghost outs = output_layer_size as int;

        let mut i: usize = 0;
        while i < layer_size
            invariant
                i <= layer_size,
                node_conf == (activ_f, activ_transform, activ_v),
                graph@.sprouting(node_conf),
                graph@.layer_size == layer_size,
                graph@.nodes.len() == i,
                graph@.input_layer.len() == i,
                forall|k: int| 0 <= k < i ==> #[trigger] graph@.input_layer[k] == k,
                graph@.output_layer.len() == 0,
                graph@.hidden_layers.len() == 0,
            decreases layer_size - i,
        {
            let ghost before = graph@;
            graph.add_input_node(activ_f, activ_transform, activ_v);
            proof {
                before.grown_keeps_sprouting(graph@, node_conf);
            }
            i += 1;
        }
        let ghost input = graph@.input_layer;

        let mut i: usize = 0;
        while i < output_layer_size
            invariant
                i <= output_layer_size,
                node_conf == (activ_f, activ_transform, activ_v),
                graph@.sprouting(node_conf),
                graph@.layer_size == layer_size,
                graph@.nodes.len() == width + i,
                width == layer_size,
                graph@.input_layer == input,
                graph@.output_layer.len() == i,
                forall|k: int| 0 <= k < i ==> #[trigger] graph@.output_layer[k] == width + k,
                graph@.hidden_layers.len() == 0,
            decreases output_layer_size - i,
        {
            let ghost before = graph@;
            graph.add_output_node(activ_f, activ_transform, activ_v);
            proof {
                before.grown_keeps_sprouting(graph@, node_conf);
            }
            i += 1;
        }
        let ghost output = graph@.output_layer;

        let mut l: usize = 0;
        while l < hidden_layers_amt
            invariant
                l <= hidden_layers_amt,
                width == layer_size,
                outs == output_layer_size,
                node_conf == (activ_f, activ_transform, activ_v),
                graph@.sprouting(node_conf),
                graph@.layer_size == layer_size,
                graph@.nodes.len() == width + outs + l * width,
                graph@.input_layer == input,
                graph@.output_layer == output,
                graph@.hidden_layers.len() == l,
                forall|j: int| 0 <= j < l ==> (#[trigger] graph@.hidden_layers[j]).len() == width,
                forall|j: int, k: int|
                    0 <= j < l && 0 <= k < width ==> #[trigger] graph@.hidden_layers[j][k] == width
                        + outs + j * width + k,
            decreases hidden_layers_amt - l,
        {
            let ghost before = graph@;
            graph.add_layer(activ_f, activ_transform, activ_v);
            proof {
                assert((l + 1) * width == l * width + width) by (nonlinear_arith);
                let now = graph@.hidden_layers;
                assert forall|j: int| 0 <= j < l + 1 implies (#[trigger] now[j]).len() == width && (
                forall|k: int| 0 <= k < width ==> #[trigger] now[j][k] == width + outs + j * width + k) by {
                    if j < l {
                        assert(now[j] == now.drop_last()[j]);
                        assert(before.hidden_layers[j].len() == width);
                    } else {
                        assert(now[j] == now.last());
                        assert forall|k: int| 0 <= k < width implies #[trigger] now[j][k] == width
                            + outs + j * width + k by {
                            assert(now.last()[k] == before.nodes.len() + k);
                        }
                    }
                }
            }
            l += 1;
        }

        proof {
            let g = graph@;
            assert(g.laid_out()) by {
                assert forall|h: int| 0 <= h < g.nodes.len() implies (#[trigger] g.nodes[h]).cache_handle
                    == h by {}
            }
            assert(g.adjacent()) by {
                assert forall|h: usize| h < g.nodes.len() implies (#[trigger] g.nodes[h as int]).forw
                    == leaving(g.edges, h) && g.nodes[h as int].back == arriving(g.edges, h) by {
                    assert(g.nodes[h as int] == blank(g.nodes[h as int].cache_handle, node_conf));
                }
            }
        }
        let ghost bare = graph@;
        graph.create_edges(init_weight);
        proof {
            graph@.frame_keeps_layout(bare);
        }
        Ok(graph)
    }

    /// Adds a node, with a cache slot of its own, and returns its handle.
    fn add_node(&mut self, activ_f: A, activ_transform: S, activ_v: S) -> (handle: NodeHandle)
        ensures
            handle == old(self)@.nodes.len(),
            old(self)@.grown(final(self)@, (activ_f, activ_transform, activ_v)),
            final(self)@.input_layer == old(self)@.input_layer,
            final(self)@.hidden_layers == old(self)@.hidden_layers,
            final(self)@.output_layer == old(self)@.output_layer,
    {
        let cache_handle = self.cache.add((S::zero(), false));
        let handle = self.nodes.add(Node::new(cache_handle, activ_f, activ_transform, activ_v));
        proof {
            assert(final(self)@.nodes.drop_last() =~= old(self)@.nodes);
            assert(final(self)@.cache.drop_last() =~= old(self)@.cache);
            assert(final(self)@.edges =~= old(self)@.edges);
            assert(final(self)@.hidden_layers =~= old(self)@.hidden_layers);
        }
        handle
    }

    /// Adds a node to the input layer.
    fn add_input_node(&mut self, activ_f: A, activ_transform: S, activ_v: S) -> (handle: NodeHandle)
        ensures
            handle == old(self)@.nodes.len(),
            old(self)@.grown(final(self)@, (activ_f, activ_transform, activ_v)),
            final(self)@.input_layer == old(self)@.input_layer.push(handle),
            final(self)@.hidden_layers == old(self)@.hidden_layers,
            final(self)@.output_layer == old(self)@.output_layer,
    {
        let handle = self.add_node(activ_f, activ_transform, activ_v);
        let ghost mid = self@;
        self.input_layer.push(handle);
        proof {
            assert(final(self)@.nodes =~= mid.nodes);
            assert(final(self)@.edges =~= mid.edges);
            assert(final(self)@.hidden_layers =~= mid.hidden_layers);
        }
        handle
    }

    /// Adds a node to the output layer.
    fn add_output_node(&mut self, activ_f: A, activ_transform: S, activ_v: S) -> (handle: NodeHandle)
        ensures
            handle == old(self)@.nodes.len(),
            old(self)@.grown(final(self)@, (activ_f, activ_transform, activ_v)),
            final(self)@.input_layer == old(self)@.input_layer,
            final(self)@.hidden_layers == old(self)@.hidden_layers,
            final(self)@.output_layer == old(self)@.output_layer.push(handle),
    {
        let handle = self.add_node(activ_f, activ_transform, activ_v);
        let ghost mid = self@;
        self.output_layer.push(handle);
        proof {
            assert(final(self)@.nodes =~= mid.nodes);
            assert(final(self)@.edges =~= mid.edges);
            assert(final(self)@.hidden_layers =~= mid.hidden_layers);
        }
        handle
    }

    /// Adds a hidden layer of `layer_size` new nodes behind the others.
    fn add_layer(&mut self, activ_f: A, activ_transform: S, activ_v: S)
        requires
            old(self)@.sprouting((activ_f, activ_transform, activ_v)),
        ensures
            final(self)@.sprouting((activ_f, activ_transform, activ_v)),
            final(self)@.layer_size == old(self)@.layer_size,
            final(self)@.input_layer == old(self)@.input_layer,
            final(self)@.output_layer == old(self)@.output_layer,
            final(self)@.nodes.len() == old(self)@.nodes.len() + old(self)@.layer_size,
            final(self)@.hidden_layers.len() == old(self)@.hidden_layers.len() + 1,
            final(self)@.hidden_layers.drop_last() == old(self)@.hidden_layers,
            final(self)@.hidden_layers.last().len() == old(self)@.layer_size,
            forall|i: int|
                0 <= i < old(self)@.layer_size ==> #[trigger] final(self)@.hidden_layers.last()[i]
                    == old(self)@.nodes.len() + i,
    {
        let ghost conf = (activ_f, activ_transform, activ_v);
        let ghost base = self@.nodes.len() as int;
        let mut layer: Vec<usize> = Vec::new();
        let mut i: usize = 0;
        while i < self.layer_size
            invariant
                i <= self.layer_size,
                self@.sprouting(conf),
                conf == (activ_f, activ_transform, activ_v),
                self@.layer_size == old(self)@.layer_size,
                self@.input_layer == old(self)@.input_layer,
                self@.output_layer == old(self)@.output_layer,
                self@.hidden_layers == old(self)@.hidden_layers,
                self@.nodes.len() == base + i,
                base == old(self)@.nodes.len(),
                layer@.len() == i,
                forall|k: int| 0 <= k < i ==> #[trigger] layer@[k] == base + k,
            decreases self.layer_size - i,
        {
            let ghost before = self@;
            let handle = self.add_node(activ_f, activ_transform, activ_v);
            layer.push(handle);
            proof {
                before.grown_keeps_sprouting(self@, conf);
            }
            i += 1;
        }
        let ghost mid = self@;
        self.hidden_layers.push(layer);
        proof {
            assert(final(self)@.nodes =~= mid.nodes);
            assert(final(self)@.edges =~= mid.edges);
            assert(final(self)@.hidden_layers.drop_last() =~= old(self)@.hidden_layers);
            assert(final(self)@.hidden_layers.last() == layer@);
        }
    }

    /// Adds the edges of `wiring` to a graph that has its nodes and no edge
    /// yet.
    fn create_edges(&mut self, init_weight: S)
        requires
            old(self)@.laid_out(),
            old(self)@.adjacent(),
            old(self)@.edges.len() == 0,
        ensures
            final(self)@.adjacent(),
            final(self)@.same_frame(old(self)@),
            final(self)@.edges == wiring(
                old(self)@.input_layer,
                old(self)@.hidden_layers,
                old(self)@.output_layer.len() as int,
                init_weight,
            ),
    {
        let ghost g = self@;
        proof {
            g.layout_holds_layers();
        }
        // Input layer
        let input = self.layer_handles(None);
        let first = self.layer_handles(Some(0));
        assert(g.holds(g.hidden_layers[0]));
        self.connect_block(&input, &first, input.len(), first.len(), true, init_weight);
        let ghost crossed = self@.edges;
        assert(crossed == block(
            g.input_layer,
            g.hidden_layers[0],
            g.input_layer.len() as int,
            g.hidden_layers[0].len() as int,
            true,
            init_weight,
        ));

        // Hidden layers
        let depth = self.hidden_layers.len();
        let mut window_i: usize = 0;
        let ghost mut p: int = 0;
        while depth - window_i >= 2
            invariant
                window_i == 2 * p,
                window_i <= depth,
                depth == g.hidden_layers.len(),
                self@.adjacent(),
                self@.same_frame(g),
                g.laid_out(),
                forall|l: int| 0 <= l < g.hidden_layers.len() ==> g.holds(#[trigger] g.hidden_layers[l]),
                g.holds(g.input_layer),
                self@.edges == crossed + hidden_pairs(g.hidden_layers, p, init_weight),
            decreases depth - window_i,
        {
            let layer0 = self.layer_handles(Some(window_i));
            let layer1 = self.layer_handles(Some(window_i + 1));
            assert(g.holds(g.hidden_layers[window_i as int]));
            assert(g.holds(g.hidden_layers[window_i + 1]));
            assert(g.hidden_layers[window_i as int].len() == g.hidden_layers[window_i + 1].len());
            self.connect_block(&layer0, &layer1, layer0.len(), layer1.len(), false, init_weight);
            proof {
                p = p + 1;
            }
            window_i += 2;
        }
        assert(p == depth as int / 2);

        // Output layer
        let last = self.layer_handles(Some(depth - 1));
        assert(g.holds(g.hidden_layers[depth - 1]));
        assert(g.hidden_layers[depth - 1] == g.hidden_layers.last());
        let rows = if self.output_layer.len() <= input.len() {
            self.output_layer.len()
        } else {
            input.len()
        };
        self.connect_block(&input, &last, rows, last.len(), false, init_weight);
    }

    /// Adds `rows * copies` edges of one weight, row by row: see `block`.
    fn connect_block(
        &mut self,
        srcs: &Vec<usize>,
        dsts: &Vec<usize>,
        rows: usize,
        copies: usize,
        cross: bool,
        weight: S,
    )
        requires
            old(self)@.adjacent(),
            old(self)@.holds(srcs@),
            old(self)@.holds(dsts@),
            rows <= srcs@.len(),
            cross ==> copies <= dsts@.len(),
            !cross ==> rows <= dsts@.len(),
        ensures
            final(self)@.adjacent(),
            final(self)@.same_frame(old(self)@),
            final(self)@.edges == old(self)@.edges + block(
                srcs@,
                dsts@,
                rows as int,
                copies as int,
                cross,
                weight,
            ),
    {
        let ghost all = block(srcs@, dsts@, rows as int, copies as int, cross, weight);
        let ghost mut n: int = 0;
        let mut i: usize = 0;
        proof {
            assert(rows * copies >= 0 && (rows == 0 ==> rows * copies == 0)) by (nonlinear_arith)
                requires
                    rows >= 0,
                    copies >= 0,
            ;
        }
        while i < rows
            invariant
                i <= rows,
                n == i * copies,
                0 <= n <= all.len(),
                i == rows ==> n == all.len(),
                all == block(srcs@, dsts@, rows as int, copies as int, cross, weight),
                self@.adjacent(),
                self@.same_frame(old(self)@),
                self@.holds(srcs@),
                self@.holds(dsts@),
                rows <= srcs@.len(),
                cross ==> copies <= dsts@.len(),
                !cross ==> rows <= dsts@.len(),
                self@.edges == old(self)@.edges + all.take(n),
            decreases rows - i,
        {
            let mut j: usize = 0;
            while j < copies
                invariant
                    j <= copies,
                    i < rows,
                    n == i * copies + j,
                    0 <= n <= all.len(),
                    all == block(srcs@, dsts@, rows as int, copies as int, cross, weight),
                    self@.adjacent(),
                    self@.same_frame(old(self)@),
                    self@.holds(srcs@),
                    self@.holds(dsts@),
                    rows <= srcs@.len(),
                    cross ==> copies <= dsts@.len(),
                    !cross ==> rows <= dsts@.len(),
                    self@.edges == old(self)@.edges + all.take(n),
                decreases copies - j,
            {
                let a = srcs[i];
                let b = if cross {
                    dsts[j]
                } else {
                    dsts[i]
                };
                let ghost before = self@;
                let done = self.connect(&a, weight, &b);
                proof {
                    assert(done.is_ok());
                    lemma_cell(i as int, j as int, rows as int, copies as int);
                    before.connected_stays_adjacent(a, weight, b);
                    assert(all[n] == (EdgeView { weight, a, b }));
                    assert(all.take(n + 1) == all.take(n).push(all[n]));
                    assert(self@.edges == old(self)@.edges + all.take(n + 1));
                    n = n + 1;
                }
                j += 1;
            }
            proof {
                assert((i + 1) * copies == i * copies + copies && (i + 1) * copies <= rows * copies
                    && (i + 1 == rows ==> (i + 1) * copies == rows * copies)) by (nonlinear_arith)
                    requires
                        0 <= i < rows,
                        0 <= copies,
                ;
            }
            i += 1;
        }
        proof {
            assert(all.take(all.len() as int) == all);
        }
    }

    /// Adds an edge from node `a` to node `b` and enters it in the lists of
    /// both. Fails, and changes nothing, when one of the two is no node.
    pub fn connect(&mut self, a: &NodeHandle, weight: S, b: &NodeHandle) -> (done: Result<
        (),
        GraphError,
    >)
        ensures
            done.is_ok() <==> *a < old(self)@.nodes.len() && *b < old(self)@.nodes.len(),
            done.is_err() ==> done == Err::<(), GraphError>(GraphError::InvalidHandle) && final(self)@
                == old(self)@,
            done.is_ok() ==> final(self)@ == old(self)@.connected(*a, weight, *b) && final(self)@.edges.len() <= usize::MAX,
            old(self)@.well_formed() ==> final(self)@.well_formed(),
    {
        if *a >= self.nodes.len() || *b >= self.nodes.len() {
            return Err(GraphError::InvalidHandle);
        }
        let edge = self.edges.add(Edge::new(a, weight, b));
        match self.nodes.get_mut(*a) {
            Some(an) => {
                an.forw.push(edge);
            },
            None => {},
        }
        match self.nodes.get_mut(*b) {
            Some(bn) => {
                bn.back.push(edge);
            },
            None => {},
        }
        proof {
            let goal = old(self)@.connected(*a, weight, *b);
            assert(final(self)@.edges =~= goal.edges);
            assert(final(self)@.nodes =~= goal.nodes);
            assert(final(self)@.hidden_layers =~= goal.hidden_layers);
            if old(self)@.well_formed() {
                old(self)@.connected_stays_adjacent(*a, weight, *b);
                goal.frame_keeps_layout(old(self)@);
            }
        }
        Ok(())
    }

    /// The handles of hidden layer `l`, or of the input layer where `l` is
    /// `None`.
    fn layer_handles(&self, l: Option<usize>) -> (handles: Vec<usize>)
        requires
            l.is_some() ==> l.unwrap() < self@.hidden_layers.len(),
        ensures
            l.is_some() ==> handles@ == self@.hidden_layers[l.unwrap() as int],
            l.is_none() ==> handles@ == self@.input_layer,
    {
        let layer = match l {
            Some(l) => &self.hidden_layers[l],
            None => &self.input_layer,
        };
        let mut handles: Vec<usize> = Vec::new();
        let mut i: usize = 0;
        while i < layer.len()
            invariant
                i <= layer@.len(),
                handles@ == layer@.take(i as int),
            decreases layer@.len() - i,
        {
            handles.push(layer[i]);
            proof {
                assert(layer@.take(i + 1) == layer@.take(i as int).push(layer@[i as int]));
            }
            i += 1;
        }
        proof {
            assert(layer@.take(layer@.len() as int) == layer@);
        }
        handles
    }

    /// The cache that a fresh evaluation starts from: a copy of the graph's
    /// own, with no slot marked computed.
    pub fn new_cache(&self) -> (cache: Arena<(S, bool)>)
        ensures
            cache@ == fresh(self@.cache),
            self@.well_formed() ==> cache@.len() == self@.nodes.len() && forall|i: int|
                0 <= i < cache@.len() ==> !(#[trigger] cache@[i]).1 && call_ensures(
                    S::zero,
                    (),
                    cache@[i].0,
                ),
            self@.well_formed() && exact::<S>() ==> forall|i: int|
                0 <= i < cache@.len() ==> #[trigger] cache@[i] == (zero::<S>(), false),
    {
        proof {
            if self@.well_formed() {
                self@.fresh_cache_is_blank();
            }
        }
        let mut cache: Arena<(S, bool)> = Arena::new();
        let mut e: usize = 0;
        while e < self.cache.len()
            invariant
                e <= self@.cache.len(),
                cache@ == fresh(self@.cache).take(e as int),
            decreases self@.cache.len() - e,
        {
            let slot = self.cache.get(e).unwrap();
            cache.add((slot.0, false));
            proof {
                assert(fresh(self@.cache).take(e + 1) == fresh(self@.cache).take(e as int).push(
                    fresh(self@.cache)[e as int],
                ));
            }
            e += 1;
        }
        proof {
            assert(fresh(self@.cache).take(self@.cache.len() as int) == fresh(self@.cache));
        }
        cache
    }

    /// The node behind `handle`, if there is one.
    pub fn get_node(&self, handle: &NodeHandle) -> (node: Option<&Node<S, A>>)
        ensures
            *handle < self@.nodes.len() ==> node.is_some() && node.unwrap()@
                == self@.nodes[*handle as int],
            *handle >= self@.nodes.len() ==> node.is_none(),
    {
        self.nodes.get(*handle)
    }

    /// The node behind `handle`, to be changed in place. Whatever the caller
    /// leaves there is the node from then on; nothing else changes.
    pub fn mut_node(&mut self, handle: &NodeHandle) -> (node: Option<&mut Node<S, A>>)
        ensures
            final(self)@.besides_nodes(old(self)@),
            *handle >= old(self)@.nodes.len() ==> node.is_none() && final(self)@.nodes =~= old(self)@.nodes,
            *handle < old(self)@.nodes.len() ==> node.is_some() && node.unwrap()@
                == old(self)@.nodes[*handle as int] && final(self)@.nodes =~= old(self)@.nodes.update(
                *handle as int,
                final(node.unwrap())@,
            ),
    {
        self.nodes.get_mut(*handle)
    }

    /// The edge behind `handle`, if there is one.
    pub fn get_edge(&self, handle: &EdgeHandle) -> (edge: Option<&Edge<S>>)
        ensures
            *handle < self@.edges.len() ==> edge.is_some() && edge.unwrap()@
                == self@.edges[*handle as int],
            *handle >= self@.edges.len() ==> edge.is_none(),
    {
        self.edges.get(*handle)
    }

    /// The edge behind `handle`, to be changed in place. Whatever the caller
    /// leaves there is the edge from then on; nothing else changes.
    pub fn mut_edge(&mut self, handle: &EdgeHandle) -> (edge: Option<&mut Edge<S>>)
        ensures
            final(self)@.besides_edges(old(self)@),
            *handle >= old(self)@.edges.len() ==> edge.is_none() && final(self)@.edges =~= old(self)@.edges,
            *handle < old(self)@.edges.len() ==> edge.is_some() && edge.unwrap()@
                == old(self)@.edges[*handle as int] && final(self)@.edges =~= old(self)@.edges.update(
                *handle as int,
                final(edge.unwrap())@,
            ),
    {
        self.edges.get_mut(*handle)
    }

    /// Whether edge `e` is readable against a cache of `m` slots.
    fn edge_readable(&self, m: usize, e: usize) -> (ok: bool)
        ensures
            ok == self@.edge_readable(m as int, e),
    {
        match self.edges.get(e) {
            None => false,
            Some(edge) => match self.nodes.get(edge.a) {
                None => false,
                Some(source) => source.cache_handle < m,
            },
        }
    }

    /// Whether node `h` exists with its slot in a cache of `m` slots.
    fn node_present(&self, m: usize, h: usize) -> (ok: bool)
        ensures
            ok == self@.node_present(m as int, h),
    {
        match self.nodes.get(h) {
            None => false,
            Some(node) => node.cache_handle < m,
        }
    }

    /// Whether node `h` exists and each edge that arrives at it is readable.
    fn sources_readable(&self, m: usize, h: usize) -> (ok: bool)
        ensures
            ok == self@.sources_readable(m as int, h),
    {
        match self.nodes.get(h) {
            None => false,
            Some(node) => {
                let mut k: usize = 0;
                while k < node.back.len()
                    invariant
                        k <= node.back.len(),
                        h < self@.nodes.len(),
                        node@ == self@.nodes[h as int],
                        forall|j: int|
                            0 <= j < k ==> self@.edge_readable(m as int, #[trigger] node@.back[j]),
                    decreases node.back.len() - k,
                {
                    if !self.edge_readable(m, node.back[k]) {
                        assert(!self@.edge_readable(m as int, self@.nodes[h as int].back[k as int]));
                        return false;
                    }
                    k += 1;
                }
                true
            },
        }
    }

    /// Whether every node of `layer` passes: with `deep`, the test is
    /// `node_readable`, without it `node_present`.
    fn layer_ok(&self, m: usize, layer: &Vec<usize>, deep: bool) -> (ok: bool)
        ensures
            deep ==> ok == self@.layer_readable(m as int, layer@),
            !deep ==> ok == self@.layer_present(m as int, layer@),
    {
        let mut i: usize = 0;
        while i < layer.len()
            invariant
                i <= layer.len(),
                deep ==> forall|j: int|
                    0 <= j < i ==> self@.node_readable(m as int, #[trigger] layer@[j]),
                !deep ==> forall|j: int|
                    0 <= j < i ==> self@.node_present(m as int, #[trigger] layer@[j]),
            decreases layer.len() - i,
        {
            if !self.node_present(m, layer[i]) {
                return false;
            }
            if deep && !self.sources_readable(m, layer[i]) {
                return false;
            }
            i += 1;
        }
        true
    }

    /// Whether a forward pass over a cache of `m` slots finds every handle
    /// that it looks up.
    pub fn evaluable(&self, m: usize) -> (ok: bool)
        ensures
            ok == self@.can_evaluate(m as int),
    {
        if !self.layer_ok(m, &self.input_layer, false) {
            return false;
        }
        let mut l: usize = 0;
        while l < self.hidden_layers.len()
            invariant
                l <= self.hidden_layers@.len(),
                forall|j: int|
                    0 <= j < l ==> self@.layer_readable(m as int, #[trigger] self@.hidden_layers[j]),
            decreases self.hidden_layers.len() - l,
        {
            if !self.layer_ok(m, &self.hidden_layers[l], true) {
                assert(!self@.layer_readable(m as int, self@.hidden_layers[l as int]));
                return false;
            }
            assert(self@.layer_readable(m as int, self@.hidden_layers[l as int]));
            l += 1;
        }
        self.layer_ok(m, &self.output_layer, true)
    }

    /// One forward pass: gives the input nodes their values from `input`,
    /// evaluates the hidden layers in order and then the output layer, whose
    /// values also go to `output`. Succeeds where the lengths fit the layers
    /// and every handle is found; fails, and changes nothing, when a length
    /// is wrong or a handle is missing: see `passed`.
    pub fn calc_graph(&self, input: &[S], cache: &mut Arena<(S, bool)>, output: &mut [S]) -> (done:
        Result<(), GraphError>)
        ensures
            self@.passed(
                input@,
                old(cache)@,
                final(cache)@,
                old(output)@,
                final(output)@,
                done,
            ),
            self@.well_formed() && old(cache)@.len() == self@.nodes.len() ==> (done.is_ok()
                <==> self@.fits(input@.len() as int, old(output)@.len() as int)),
            self@.well_formed() && old(cache)@.len() == self@.nodes.len() && done.is_ok()
                ==> forall|j: int| 0 <= j < final(cache)@.len() ==> (#[trigger] final(cache)@[j]).1,
    {
        proof {
            if self@.well_formed() {
                self@.well_formed_finds_all();
            }
        }
        if input.len() != self.input_layer.len() || output.len() != self.output_layer.len() {
            return Err(GraphError::DimensionMismatch);
        }
        if !self.evaluable(cache.len()) {
            return Err(GraphError::InvalidHandle);
        }
        self.forward(input, cache, output);
        proof {
            if self@.well_formed() && cache@.len() == self@.nodes.len() {
                self@.layers_cover_cache(cache@);
            }
        }
        Ok(())
    }

    /// The forward pass proper, for a graph and vectors that were checked.
    fn forward(&self, input: &[S], cache: &mut Arena<(S, bool)>, output: &mut [S])
        requires
            input@.len() == self@.input_layer.len(),
            old(output)@.len() == self@.output_layer.len(),
            self@.can_evaluate(old(cache)@.len() as int),
        ensures
            final(output)@.len() == old(output)@.len(),
            final(cache)@.len() == old(cache)@.len(),
            forward_pure::<S, A>() ==> final(cache)@ == self@.evaluated(input@, old(cache)@),
            forward_pure::<S, A>() ==> final(output)@ == self@.outputs(input@, old(cache)@),
            marks_kept(old(cache)@, final(cache)@),
            self@.all_marked(final(cache)@),
    {
        self.eval_inputs(input, cache);
        let ghost c1 = cache@;
        let mut l: usize = 0;
        while l < self.hidden_layers.len()
            invariant
                l <= self@.hidden_layers.len(),
                output@ == old(output)@,
                cache@.len() == old(cache)@.len(),
                self@.can_evaluate(cache@.len() as int),
                forward_pure::<S, A>() ==> cache@ == self@.after_hidden(c1, l as int),
                marks_kept(old(cache)@, cache@),
                layer_marked(self@, cache@, self@.input_layer, self@.input_layer.len() as int),
                forall|j: int|
                    0 <= j < l ==> layer_marked(
                        self@,
                        cache@,
                        #[trigger] self@.hidden_layers[j],
                        self@.hidden_layers[j].len() as int,
                    ),
            decreases self@.hidden_layers.len() - l,
        {
            let ghost before = cache@;
            assert(self@.layer_readable(cache@.len() as int, self@.hidden_layers[l as int]));
            self.eval_layer(&self.hidden_layers[l], cache, output, false);
            proof {
                self@.marked_stays(before, cache@, self@.input_layer);
                assert forall|j: int| 0 <= j < l implies layer_marked(
                    self@,
                    cache@,
                    #[trigger] self@.hidden_layers[j],
                    self@.hidden_layers[j].len() as int,
                ) by {
                    self@.marked_stays(before, cache@, self@.hidden_layers[j]);
                }
            }
            l += 1;
        }
        let ghost c2 = cache@;
        self.eval_layer(&self.output_layer, cache, output, true);
        proof {
            self@.marked_stays(c2, cache@, self@.input_layer);
            assert forall|j: int| 0 <= j < self@.hidden_layers.len() implies layer_marked(
                self@,
                cache@,
                #[trigger] self@.hidden_layers[j],
                self@.hidden_layers[j].len() as int,
            ) by {
                self@.marked_stays(c2, cache@, self@.hidden_layers[j]);
            }
            if forward_pure::<S, A>() {
                assert(final(output)@ =~= self@.outputs(input@, old(cache)@));
            }
        }
    }

    /// Gives each input node its value from `input`.
    fn eval_inputs(&self, input: &[S], cache: &mut Arena<(S, bool)>)
        requires
            input@.len() == self@.input_layer.len(),
            self@.layer_present(old(cache)@.len() as int, self@.input_layer),
        ensures
            forward_pure::<S, A>() ==> final(cache)@ == self@.after_inputs(
                input@,
                old(cache)@,
                input@.len() as int,
            ),
            marks_kept(old(cache)@, final(cache)@),
            layer_marked(self@, final(cache)@, self@.input_layer, input@.len() as int),
    {
        let mut i: usize = 0;
        while i < input.len()
            invariant
                i <= input@.len(),
                input@.len() == self@.input_layer.len(),
                self@.layer_present(cache@.len() as int, self@.input_layer),
                forward_pure::<S, A>() ==> cache@ == self@.after_inputs(input@, old(cache)@, i as int),
                marks_kept(old(cache)@, cache@),
                layer_marked(self@, cache@, self@.input_layer, i as int),
            decreases input@.len() - i,
        {
            let h = self.input_layer[i];
            assert(self@.node_present(cache@.len() as int, self@.input_layer[i as int]));
            let node = self.nodes.get(h).unwrap();
            let value = node.calc(input[i]);
            Self::store(cache, node.cache_handle, value);
            i += 1;
        }
    }

    /// Evaluates the nodes of `layer` in turn; with `record`, each value also
    /// goes to the same position of `output`.
    fn eval_layer(&self, layer: &Vec<usize>, cache: &mut Arena<(S, bool)>, output: &mut [S], record: bool)
        requires
            self@.layer_readable(old(cache)@.len() as int, layer@),
            record ==> old(output)@.len() == layer@.len(),
        ensures
            final(output)@.len() == old(output)@.len(),
            !record ==> final(output)@ == old(output)@,
            forward_pure::<S, A>() ==> final(cache)@ == self@.after_nodes(
                old(cache)@,
                layer@,
                layer@.len() as int,
            ),
            forward_pure::<S, A>() && record ==> forall|i: int|
                0 <= i < layer@.len() ==> #[trigger] final(output)@[i] == self@.fired(
                    self@.after_nodes(old(cache)@, layer@, i),
                    layer@[i],
                ),
            marks_kept(old(cache)@, final(cache)@),
            layer_marked(self@, final(cache)@, layer@, layer@.len() as int),
    {
        let mut i: usize = 0;
        while i < layer.len()
            invariant
                i <= layer@.len(),
                self@.layer_readable(cache@.len() as int, layer@),
                output@.len() == old(output)@.len(),
                record ==> output@.len() == layer@.len(),
                !record ==> output@ == old(output)@,
                forward_pure::<S, A>() ==> cache@ == self@.after_nodes(old(cache)@, layer@, i as int),
                forward_pure::<S, A>() && record ==> forall|j: int|
                    0 <= j < i ==> #[trigger] output@[j] == self@.fired(
                        self@.after_nodes(old(cache)@, layer@, j),
                        layer@[j],
                    ),
                marks_kept(old(cache)@, cache@),
                layer_marked(self@, cache@, layer@, i as int),
            decreases layer@.len() - i,
        {
            let h = layer[i];
            assert(self@.node_readable(cache@.len() as int, layer@[i as int]));
            let value = self.fire(cache, h);
            let node = self.nodes.get(h).unwrap();
            Self::store(cache, node.cache_handle, value);
            if record {
                output[i] = value;
            }
            i += 1;
        }
    }

    /// The value of node `h` when its sources are read from `cache`.
    fn fire(&self, cache: &Arena<(S, bool)>, h: usize) -> (value: S)
        requires
            self@.node_readable(cache@.len() as int, h),
        ensures
            forward_pure::<S, A>() ==> value == self@.fired(cache@, h),
    {
        let node = self.nodes.get(h).unwrap();
        let mut total = S::zero();
        let mut k: usize = 0;
        while k < node.back.len()
            invariant
                k <= node.back.len(),
                h < self@.nodes.len(),
                node@ == self@.nodes[h as int],
                self@.sources_readable(cache@.len() as int, h),
                forward_pure::<S, A>() ==> total == self@.weighted_sum(cache@, node@.back, k as int),
            decreases node.back.len() - k,
        {
            let e = node.back[k];
            assert(self@.edge_readable(cache@.len() as int, self@.nodes[h as int].back[k as int]));
            let edge = self.edges.get(e).unwrap();
            let source = self.nodes.get(edge.a).unwrap();
            let slot = cache.get(source.cache_handle).unwrap();
            total = total.plus(slot.0.times(edge.weight));
            k += 1;
        }
        node.calc(total)
    }

    /// Stores `value` in `slot` and marks the slot computed.
    fn store(cache: &mut Arena<(S, bool)>, slot: usize, value: S)
        requires
            slot < old(cache)@.len(),
        ensures
            final(cache)@ == old(cache)@.update(slot as int, (value, true)),
    {
        match cache.get_mut(slot) {
            Some(mem) => {
                *mem = (value, true);
            },
            None => {},
        }
    }

    /// Whether a training step with a cache of `m` slots finds every handle
    /// that it looks up.
    pub fn trainable(&self, m: usize) -> (ok: bool)
        ensures
            ok == self@.can_train(m as int),
    {
        let own = self.cache.len();
        if !self.evaluable(m) {
            return false;
        }
        let mut i: usize = 0;
        while i < self.output_layer.len()
            invariant
                i <= self@.output_layer.len(),
                own == self@.cache.len(),
                forall|j: int|
                    0 <= j < i ==> self@.sources_readable(
                        own as int,
                        #[trigger] self@.output_layer[j],
                    ),
            decreases self@.output_layer.len() - i,
        {
            if !self.sources_readable(own, self.output_layer[i]) {
                assert(!self@.sources_readable(
                    self@.cache.len() as int,
                    self@.output_layer[i as int],
                ));
                return false;
            }
            i += 1;
        }
        let mut l: usize = 0;
        while l < self.hidden_layers.len()
            invariant
                l <= self@.hidden_layers.len(),
                own == self@.cache.len(),
                forall|j: int|
                    0 <= j < l ==> self@.layer_readable(
                        own as int,
                        #[trigger] self@.hidden_layers[j],
                    ),
            decreases self@.hidden_layers.len() - l,
        {
            if !self.layer_ok(own, &self.hidden_layers[l], true) {
                assert(!self@.layer_readable(
                    self@.cache.len() as int,
                    self@.hidden_layers[l as int],
                ));
                return false;
            }
            assert(self@.layer_readable(own as int, self@.hidden_layers[l as int]));
            l += 1;
        }
        self.layer_ok(m, &self.input_layer, true) && self.layer_ok(own, &self.input_layer, true)
    }

    /// One training step: a forward pass, after which every edge takes the
    /// signal of the node it arrives at, from the output layer back through
    /// the hidden layers to the input layer. Fails, and changes nothing, when
    /// a length is wrong or a handle is missing.
    pub fn train(
        &mut self,
        input: &[S],
        cache: &mut Arena<(S, bool)>,
        output_buf: &mut Vec<S>,
        expected_output: &[S],
        learning_rate: S,
    ) -> (done: Result<(), GraphError>)
        ensures
            final(self)@.same_shape(old(self)@),
            final(cache)@.len() == old(cache)@.len(),
            final(output_buf)@.len() == old(output_buf)@.len(),
            done.is_ok() <==> old(self)@.fits(input@.len() as int, old(output_buf)@.len() as int)
                && expected_output@.len() == old(self)@.output_layer.len() && old(self)@.can_train(
                old(cache)@.len() as int,
            ),
            done == Err::<(), GraphError>(GraphError::DimensionMismatch) <==> !(old(self)@.fits(
                input@.len() as int,
                old(output_buf)@.len() as int,
            ) && expected_output@.len() == old(self)@.output_layer.len()),
            done == Err::<(), GraphError>(GraphError::InvalidHandle) <==> old(self)@.fits(
                input@.len() as int,
                old(output_buf)@.len() as int,
            ) && expected_output@.len() == old(self)@.output_layer.len() && !old(self)@.can_train(
                old(cache)@.len() as int,
            ),
            done.is_err() ==> final(self)@ == old(self)@ && final(cache)@ == old(cache)@ && final(output_buf)@ == old(output_buf)@,
            done.is_ok() && forward_pure::<S, A>() ==> final(cache)@ == old(self)@.evaluated(
                input@,
                old(cache)@,
            ) && final(output_buf)@ == old(self)@.outputs(input@, old(cache)@),
            done.is_ok() && pure::<S, A>() ==> final(self)@ == old(self)@.trained(
                input@,
                old(cache)@,
                expected_output@,
                learning_rate,
            ),
            done.is_ok() ==> marks_kept(old(cache)@, final(cache)@) && old(self)@.all_marked(
                final(cache)@,
            ),
            old(self)@.well_formed() ==> final(self)@.well_formed(),
            old(self)@.well_formed() && old(cache)@.len() == old(self)@.nodes.len() ==> (
            done.is_ok() <==> old(self)@.fits(input@.len() as int, old(output_buf)@.len() as int)
                && expected_output@.len() == old(self)@.output_layer.len()),
            old(self)@.well_formed() && old(cache)@.len() == old(self)@.nodes.len() && done.is_ok()
                ==> forall|j: int| 0 <= j < final(cache)@.len() ==> (#[trigger] final(cache)@[j]).1,
    {
        proof {
            if self@.well_formed() {
                self@.well_formed_finds_all();
            }
        }
        if input.len() != self.input_layer.len() || output_buf.len() != self.output_layer.len()
            || expected_output.len() != self.output_layer.len() {
            return Err(GraphError::DimensionMismatch);
        }
        if !self.trainable(cache.len()) {
            return Err(GraphError::InvalidHandle);
        }
        self.forward(input, cache, output_buf.as_mut_slice());
        proof {
            if self@.well_formed() && cache@.len() == self@.nodes.len() {
                self@.layers_cover_cache(cache@);
            }
        }
        self.backward(cache, output_buf, expected_output, learning_rate);
        proof {
            if old(self)@.well_formed() {
                self@.shape_keeps_well_formed(old(self)@);
            }
        }
        Ok(())
    }

    /// The backward pass proper, for a graph and vectors that were checked:
    /// the output layer, the hidden layers from the last to the first, then
    /// the input layer.
    fn backward(&mut self, cache: &Arena<(S, bool)>, outputs: &Vec<S>, expected: &[S], rate: S)
        requires
            outputs@.len() == old(self)@.output_layer.len(),
            expected@.len() == old(self)@.output_layer.len(),
            old(self)@.can_train(cache@.len() as int),
        ensures
            final(self)@.same_shape(old(self)@),
            pure::<S, A>() ==> final(self)@ == (Training {
                graph: old(self)@,
                errors: fresh(old(self)@.cache),
            }).outputs_trained(
                cache@,
                rate,
                outputs@,
                expected@,
                old(self)@.output_layer.len() as int,
            ).hidden_trained(cache@, rate, 0).layer_trained(
                cache@,
                rate,
                old(self)@.input_layer,
                old(self)@.input_layer.len() as int,
            ).graph,
    {
        let mut errors = self.new_cache();
        let ghost m = cache@.len() as int;
        let ghost own = errors@.len() as int;
        proof {
            assert forall|i: int| 0 <= i < self@.output_layer.len() implies self@.sources_readable(
                m,
                #[trigger] self@.output_layer[i],
            ) by {
                assert(self@.node_readable(m, self@.output_layer[i]));
            }
        }
        self.train_outputs(cache, &mut errors, outputs, expected, rate);
        let ghost start = Training { graph: self@, errors: errors@ };
        proof {
            old(self)@.shape_fixes_lookups(self@);
        }
        let mut l: usize = self.hidden_layers.len();
        while l > 0
            invariant
                l <= self@.hidden_layers.len(),
                self@.same_shape(start.graph),
                start.graph.same_shape(old(self)@),
                errors@.len() == own,
                own == self@.cache.len(),
                m == cache@.len(),
                self@.can_train(m),
                pure::<S, A>() ==> (Training { graph: self@, errors: errors@ })
                    == start.hidden_trained(cache@, rate, l as int),
            decreases l,
        {
            l -= 1;
            let ghost prev = self@;
            let layer = self.layer_handles(Some(l));
            assert(self@.layer_readable(m, self@.hidden_layers[l as int]));
            assert(self@.layer_readable(own, self@.hidden_layers[l as int]));
            self.train_layer(cache, &mut errors, &layer, rate);
            proof {
                prev.shape_fixes_lookups(self@);
            }
        }
        let layer = self.layer_handles(None);
        self.train_layer(cache, &mut errors, &layer, rate);
    }

    /// Lets each output node send back the signal of its error.
    fn train_outputs(
        &mut self,
        cache: &Arena<(S, bool)>,
        errors: &mut Arena<(S, bool)>,
        outputs: &Vec<S>,
        expected: &[S],
        rate: S,
    )
        requires
            outputs@.len() == old(self)@.output_layer.len(),
            expected@.len() == old(self)@.output_layer.len(),
            forall|i: int|
                0 <= i < old(self)@.output_layer.len() ==> old(self)@.sources_readable(
                    cache@.len() as int,
                    #[trigger] old(self)@.output_layer[i],
                ),
            forall|i: int|
                0 <= i < old(self)@.output_layer.len() ==> old(self)@.sources_readable(
                    old(errors)@.len() as int,
                    #[trigger] old(self)@.output_layer[i],
                ),
        ensures
            final(self)@.same_shape(old(self)@),
            final(errors)@.len() == old(errors)@.len(),
            pure::<S, A>() ==> (Training { graph: final(self)@, errors: final(errors)@ }) == (Training {
                graph: old(self)@,
                errors: old(errors)@,
            }).outputs_trained(cache@, rate, outputs@, expected@, outputs@.len() as int),
    {
        let ghost start = Training { graph: self@, errors: errors@ };
        let mut i: usize = 0;
        while i < self.output_layer.len()
            invariant
                i <= self@.output_layer.len(),
                outputs@.len() == self@.output_layer.len(),
                expected@.len() == self@.output_layer.len(),
                start == (Training { graph: old(self)@, errors: old(errors)@ }),
                self@.same_shape(start.graph),
                errors@.len() == start.errors.len(),
                forall|j: int|
                    0 <= j < self@.output_layer.len() ==> self@.sources_readable(
                        cache@.len() as int,
                        #[trigger] self@.output_layer[j],
                    ),
                forall|j: int|
                    0 <= j < self@.output_layer.len() ==> self@.sources_readable(
                        errors@.len() as int,
                        #[trigger] self@.output_layer[j],
                    ),
                pure::<S, A>() ==> (Training { graph: self@, errors: errors@ })
                    == start.outputs_trained(cache@, rate, outputs@, expected@, i as int),
            decreases self@.output_layer.len() - i,
        {
            let ghost prev = self@;
            let h = self.output_layer[i];
            assert(self@.sources_readable(cache@.len() as int, self@.output_layer[i as int]));
            assert(self@.sources_readable(errors@.len() as int, self@.output_layer[i as int]));
            let target = sigmoid(expected[i]);
            let y = sigmoid(outputs[i]);
            let signal = sigmoid_slope(y).times(target.minus(y));
            self.train_node(cache, errors, h, Some(signal), rate);
            proof {
                prev.shape_fixes_lookups(self@);
            }
            i += 1;
        }
    }

    /// Lets each node of `layer` relay what was staged for it.
    fn train_layer(
        &mut self,
        cache: &Arena<(S, bool)>,
        errors: &mut Arena<(S, bool)>,
        layer: &Vec<usize>,
        rate: S,
    )
        requires
            old(self)@.layer_readable(cache@.len() as int, layer@),
            old(self)@.layer_readable(old(errors)@.len() as int, layer@),
        ensures
            final(self)@.same_shape(old(self)@),
            final(errors)@.len() == old(errors)@.len(),
            pure::<S, A>() ==> (Training { graph: final(self)@, errors: final(errors)@ }) == (Training {
                graph: old(self)@,
                errors: old(errors)@,
            }).layer_trained(cache@, rate, layer@, layer@.len() as int),
    {
        let ghost start = Training { graph: self@, errors: errors@ };
        let mut i: usize = 0;
        while i < layer.len()
            invariant
                i <= layer@.len(),
                start == (Training { graph: old(self)@, errors: old(errors)@ }),
                self@.same_shape(start.graph),
                errors@.len() == start.errors.len(),
                self@.layer_readable(cache@.len() as int, layer@),
                self@.layer_readable(errors@.len() as int, layer@),
                pure::<S, A>() ==> (Training { graph: self@, errors: errors@ })
                    == start.layer_trained(cache@, rate, layer@, i as int),
            decreases layer@.len() - i,
        {
            let ghost prev = self@;
            let h = layer[i];
            assert(self@.node_readable(cache@.len() as int, layer@[i as int]));
            assert(self@.node_readable(errors@.len() as int, layer@[i as int]));
            self.train_node(cache, errors, h, None, rate);
            proof {
                prev.shape_fixes_lookups(self@);
            }
            i += 1;
        }
    }

    /// Pulls each edge that arrives at node `h`, in the order of its list.
    fn train_node(
        &mut self,
        cache: &Arena<(S, bool)>,
        errors: &mut Arena<(S, bool)>,
        h: usize,
        fixed: Option<S>,
        rate: S,
    )
        requires
            old(self)@.sources_readable(cache@.len() as int, h),
            old(self)@.sources_readable(old(errors)@.len() as int, h),
            fixed.is_none() ==> old(self)@.node_present(old(errors)@.len() as int, h),
        ensures
            final(self)@.same_shape(old(self)@),
            final(errors)@.len() == old(errors)@.len(),
            pure::<S, A>() ==> (Training { graph: final(self)@, errors: final(errors)@ }) == (Training {
                graph: old(self)@,
                errors: old(errors)@,
            }).node_trained(
                cache@,
                rate,
                old(self)@.nodes[h as int].back,
                old(self)@.nodes[h as int].cache_handle as int,
                fixed,
                old(self)@.nodes[h as int].back.len() as int,
            ),
    {
        let ghost start = Training { graph: self@, errors: errors@ };
        let ghost back = self@.nodes[h as int].back;
        let own = self.nodes.get(h).unwrap().cache_handle;
        let n = self.nodes.get(h).unwrap().back.len();
        let mut k: usize = 0;
        while k < n
            invariant
                k <= n,
                n == back.len(),
                h < self@.nodes.len(),
                self@.nodes[h as int].back == back,
                self@.nodes[h as int].cache_handle == own,
                start == (Training { graph: old(self)@, errors: old(errors)@ }),
                self@.same_shape(start.graph),
                errors@.len() == start.errors.len(),
                self@.sources_readable(cache@.len() as int, h),
                self@.sources_readable(errors@.len() as int, h),
                fixed.is_none() ==> own < errors@.len(),
                pure::<S, A>() ==> (Training { graph: self@, errors: errors@ }) == start.node_trained(
                    cache@,
                    rate,
                    back,
                    own as int,
                    fixed,
                    k as int,
                ),
            decreases n - k,
        {
            let ghost prev = Training { graph: self@, errors: errors@ };
            let e = self.nodes.get(h).unwrap().back[k];
            assert(self@.edge_readable(cache@.len() as int, self@.nodes[h as int].back[k as int]));
            assert(self@.edge_readable(errors@.len() as int, self@.nodes[h as int].back[k as int]));
            let edge = self.edges.get(e).unwrap();
            let weight = edge.weight;
            let slot = self.nodes.get(edge.a).unwrap().cache_handle;
            let y = sigmoid(cache.get(slot).unwrap().0);
            let signal = match fixed {
                Some(s) => s,
                None => sigmoid_slope(y).times(weight.times(errors.get(own).unwrap().0)),
            };
            let staged = sigmoid_slope(y).times(weight.times(signal));
            Self::stage(errors, slot, staged);
            let grown = rate.times(signal).times(y).plus(weight);
            self.reweigh(e, grown);
            proof {
                prev.graph.shape_fixes_lookups(self@);
                if pure::<S, A>() {
                    assert((Training { graph: self@, errors: errors@ }) == prev.pulled(
                        cache@,
                        rate,
                        e,
                        signal,
                    ));
                }
            }
            k += 1;
        }
    }

    /// Stages `value` in `slot` of the error cache and leaves its mark alone.
    fn stage(errors: &mut Arena<(S, bool)>, slot: usize, value: S)
        requires
            slot < old(errors)@.len(),
        ensures
            final(errors)@ == old(errors)@.update(slot as int, (value, old(errors)@[slot as int].1)),
    {
        match errors.get_mut(slot) {
            Some(mem) => {
                mem.0 = value;
            },
            None => {},
        }
    }

    /// Replaces the weight of edge `e`.
    fn reweigh(&mut self, e: usize, weight: S)
        requires
            e < old(self)@.edges.len(),
        ensures
            final(self)@ == old(self)@.reweighted(e, weight),
    {
        match self.edges.get_mut(e) {
            Some(edge) => {
                edge.weight = weight;
            },
            None => {},
        }
        proof {
            assert(final(self)@.edges =~= old(self)@.reweighted(e, weight).edges);
            assert(final(self)@.nodes =~= old(self)@.nodes);
            assert(final(self)@.hidden_layers =~= old(self)@.hidden_layers);
        }
    }
}

} // verus!
