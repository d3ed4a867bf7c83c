use neural::arena::Arena;
use neural::graph::{Edge, Graph, GraphError, Node};
use neural::math::{Activation, Scalar};

#[derive(Clone, Copy, Debug, PartialEq)]
struct Float(f32);

impl Scalar for Float {
    fn zero() -> Self {
        Float(0.0)
    }

    fn one() -> Self {
        Float(1.0)
    }

    fn euler() -> Self {
        Float(std::f32::consts::E)
    }

    fn plus(self, rhs: Self) -> Self {
        Float(self.0 + rhs.0)
    }

    fn minus(self, rhs: Self) -> Self {
        Float(self.0 - rhs.0)
    }

    fn times(self, rhs: Self) -> Self {
        Float(self.0 * rhs.0)
    }

    fn over(self, rhs: Self) -> Self {
        Float(self.0 / rhs.0)
    }

    fn negated(self) -> Self {
        Float(-self.0)
    }

    fn powf(self, exponent: Self) -> Self {
        Float(self.0.powf(exponent.0))
    }
}

#[derive(Clone, Copy)]
struct Identity;

impl Activation<Float> for Identity {
    fn eval(&self, x: Float) -> Float {
        x
    }
}

#[derive(Clone, Copy)]
struct Doubling;

impl Activation<Float> for Doubling {
    fn eval(&self, x: Float) -> Float {
        Float(2.0 * x.0)
    }
}

type Net = Graph<Float, Identity>;

fn floats(values: &[f32]) -> Vec<Float> {
    values.iter().map(|v| Float(*v)).collect()
}

fn plain(values: &[Float]) -> Vec<f32> {
    values.iter().map(|v| v.0).collect()
}

fn slots(cache: &Arena<(Float, bool)>) -> Vec<(f32, bool)> {
    (0..cache.len())
        .map(|h| {
            let slot = cache.get(h).unwrap();
            (slot.0 .0, slot.1)
        })
        .collect()
}

fn ends(graph: &Net, count: usize) -> Vec<(usize, usize)> {
    (0..count)
        .map(|e| {
            let edge = graph.get_edge(&e).unwrap();
            (edge.source(), edge.target())
        })
        .collect()
}

fn weights(graph: &Net, count: usize) -> Vec<f32> {
    (0..count).map(|e| graph.get_edge(&e).unwrap().weight().0).collect()
}

fn squash(x: f32) -> f32 {
    1.0 / (1.0 + std::f32::consts::E.powf(-x))
}

/// Two inputs, one output, one hidden layer, every weight 0.5.
fn small() -> Net {
    Graph::new(Float(0.5), 2, 1, 1, (Identity, Float(0.0), Float(1.0))).unwrap()
}

/// `small()` with both hidden nodes joined to the output node.
fn joined() -> Net {
    let mut graph = small();
    graph.connect(&3, Float(0.5), &2).unwrap();
    graph.connect(&4, Float(0.5), &2).unwrap();
    graph
}

#[test]
fn it_works() {
    let graph: Net = Graph::new(Float(1.0), 10, 1, 10, (Identity, Float(1.0), Float(1.0))).unwrap();
    let mut cache = graph.new_cache();

    let input = vec![];
    let mut output = vec![];

    let _ = graph.calc_graph(&input, &mut cache, &mut output);
}

#[test]
fn new_refuses_a_count_of_zero() {
    let conf = (Identity, Float(0.0), Float(1.0));
    assert_eq!(Net::new(Float(0.5), 0, 1, 1, conf).err(), Some(GraphError::InvalidTopologyConfig));
    assert_eq!(Net::new(Float(0.5), 2, 0, 1, conf).err(), Some(GraphError::InvalidTopologyConfig));
    assert_eq!(Net::new(Float(0.5), 2, 1, 0, conf).err(), Some(GraphError::InvalidTopologyConfig));
    assert!(Net::new(Float(0.5), 1, 1, 1, conf).is_ok());
}

#[test]
fn new_wires_inputs_to_the_first_hidden_layer() {
    let graph = small();
    assert_eq!(ends(&graph, 6), vec![(0, 3), (0, 4), (1, 3), (1, 4), (0, 3), (0, 3)]);
    assert!(graph.get_edge(&6).is_none());
    assert_eq!(weights(&graph, 6), vec![0.5; 6]);
}

#[test]
fn new_gives_each_node_its_edges_and_its_slot() {
    let graph = small();
    let forw: Vec<Vec<usize>> = (0..5).map(|h| graph.get_node(&h).unwrap().forw().clone()).collect();
    let back: Vec<Vec<usize>> = (0..5).map(|h| graph.get_node(&h).unwrap().back().clone()).collect();
    assert_eq!(forw, vec![vec![0, 1, 4, 5], vec![2, 3], vec![], vec![], vec![]]);
    assert_eq!(back, vec![vec![], vec![], vec![], vec![0, 2, 4, 5], vec![1, 3]]);
    for h in 0..5 {
        assert_eq!(graph.get_node(&h).unwrap().cache_handle(), h);
    }
    assert!(graph.get_node(&5).is_none());
}

#[test]
fn new_joins_hidden_layers_in_pairs() {
    let graph: Net = Graph::new(Float(0.5), 2, 1, 3, (Identity, Float(0.0), Float(1.0))).unwrap();
    assert_eq!(
        ends(&graph, 10),
        vec![(0, 3), (0, 4), (1, 3), (1, 4), (3, 5), (3, 5), (4, 6), (4, 6), (0, 7), (0, 7)]
    );
    assert!(graph.get_edge(&10).is_none());
    assert!(graph.get_node(&8).is_some());
    assert!(graph.get_node(&9).is_none());
}

#[test]
fn new_takes_more_outputs_than_inputs() {
    let graph: Net = Graph::new(Float(0.5), 1, 3, 1, (Identity, Float(0.0), Float(1.0))).unwrap();
    assert_eq!(ends(&graph, 2), vec![(0, 4), (0, 4)]);
    assert!(graph.get_edge(&2).is_none());
    assert!(graph.get_node(&4).is_some());
    assert!(graph.get_node(&5).is_none());
}

#[test]
fn new_cache_is_blank() {
    let graph: Net = Graph::new(Float(0.5), 3, 2, 2, (Identity, Float(0.0), Float(1.0))).unwrap();
    let cache = graph.new_cache();
    assert_eq!(cache.len(), 3 + 2 + 2 * 3);
    assert_eq!(slots(&cache), vec![(0.0, false); 11]);
}

#[test]
fn new_cache_is_blank_after_a_pass() {
    let graph = small();
    let mut cache = graph.new_cache();
    let mut output = floats(&[0.0]);
    graph.calc_graph(&floats(&[1.0, 1.0]), &mut cache, &mut output).unwrap();
    assert_eq!(slots(&graph.new_cache()), vec![(0.0, false); 5]);
}

#[test]
fn calc_graph_marks_every_slot() {
    let graph: Net = Graph::new(Float(0.5), 3, 2, 4, (Identity, Float(0.0), Float(1.0))).unwrap();
    let mut cache = graph.new_cache();
    let mut output = floats(&[0.0, 0.0]);
    assert_eq!(graph.calc_graph(&floats(&[1.0, 2.0, 3.0]), &mut cache, &mut output), Ok(()));
    assert_eq!(cache.len(), 17);
    assert!(slots(&cache).iter().all(|slot| slot.1));
}

#[test]
fn calc_graph_repeats_on_fresh_caches() {
    let graph = joined();
    let input = floats(&[0.25, -3.5]);
    let mut first = floats(&[0.0]);
    let mut second = floats(&[7.0]);
    let mut cache = graph.new_cache();
    graph.calc_graph(&input, &mut cache, &mut first).unwrap();
    let mut again = graph.new_cache();
    graph.calc_graph(&input, &mut again, &mut second).unwrap();
    assert_eq!(first[0].0.to_bits(), second[0].0.to_bits());
    assert_eq!(slots(&cache), slots(&again));
}

#[test]
fn calc_graph_refuses_a_short_input() {
    let graph = small();
    let mut cache = graph.new_cache();
    let mut output = floats(&[9.0]);
    assert_eq!(
        graph.calc_graph(&floats(&[1.0]), &mut cache, &mut output),
        Err(GraphError::DimensionMismatch)
    );
    assert_eq!(slots(&cache), vec![(0.0, false); 5]);
    assert_eq!(plain(&output), vec![9.0]);
}

#[test]
fn calc_graph_refuses_other_wrong_lengths() {
    let graph = small();
    let mut cache = graph.new_cache();
    let mut output = floats(&[9.0]);
    assert_eq!(
        graph.calc_graph(&floats(&[1.0, 1.0, 1.0]), &mut cache, &mut output),
        Err(GraphError::DimensionMismatch)
    );
    let mut wide = floats(&[9.0, 9.0]);
    assert_eq!(
        graph.calc_graph(&floats(&[1.0, 1.0]), &mut cache, &mut wide),
        Err(GraphError::DimensionMismatch)
    );
    let mut none = floats(&[]);
    assert_eq!(
        graph.calc_graph(&floats(&[1.0, 1.0]), &mut cache, &mut none),
        Err(GraphError::DimensionMismatch)
    );
    assert_eq!(slots(&cache), vec![(0.0, false); 5]);
}

#[test]
fn calc_graph_refuses_a_cache_without_the_slots() {
    let graph = small();
    let tiny: Net = Graph::new(Float(0.5), 1, 1, 1, (Identity, Float(0.0), Float(1.0))).unwrap();
    let mut cache = tiny.new_cache();
    let mut output = floats(&[9.0]);
    assert!(!graph.evaluable(cache.len()));
    assert!(graph.evaluable(5));
    assert_eq!(
        graph.calc_graph(&floats(&[1.0, 1.0]), &mut cache, &mut output),
        Err(GraphError::InvalidHandle)
    );
    assert_eq!(slots(&cache), vec![(0.0, false); 3]);
    assert_eq!(plain(&output), vec![9.0]);
}

#[test]
fn forward_pass_by_hand() {
    // Hidden node 3 has four edges from the inputs, hidden node 4 has two,
    // and the output node has none.
    let graph = small();
    let mut cache = graph.new_cache();
    let mut output = floats(&[9.0]);
    assert_eq!(graph.calc_graph(&floats(&[1.0, 1.0]), &mut cache, &mut output), Ok(()));
    assert_eq!(plain(&output), vec![0.0]);
    assert_eq!(
        slots(&cache),
        vec![(1.0, true), (1.0, true), (0.0, true), (2.0, true), (1.0, true)]
    );
}

#[test]
fn forward_pass_through_joined_outputs() {
    let graph = joined();
    let mut cache = graph.new_cache();
    let mut output = floats(&[9.0]);
    assert_eq!(graph.calc_graph(&floats(&[1.0, 1.0]), &mut cache, &mut output), Ok(()));
    assert_eq!(plain(&output), vec![1.5]);
    assert_eq!(
        slots(&cache),
        vec![(1.0, true), (1.0, true), (1.5, true), (2.0, true), (1.0, true)]
    );
}

#[test]
fn forward_pass_applies_transform_and_factor() {
    // Every node gives (2 x + 1) * 3.
    let mut graph: Graph<Float, Doubling> =
        Graph::new(Float(0.5), 1, 1, 1, (Doubling, Float(1.0), Float(3.0))).unwrap();
    graph.connect(&2, Float(0.25), &1).unwrap();
    let mut cache = graph.new_cache();
    let mut output = floats(&[0.0]);
    assert_eq!(graph.calc_graph(&floats(&[1.0]), &mut cache, &mut output), Ok(()));
    // input: (2 + 1) * 3 = 9; hidden: two edges, 9 * 0.5 twice = 9, (18 + 1) * 3 = 57;
    // output: 57 * 0.25 = 14.25, (28.5 + 1) * 3 = 88.5
    assert_eq!(slots(&cache), vec![(9.0, true), (88.5, true), (57.0, true)]);
    assert_eq!(plain(&output), vec![88.5]);
}

#[test]
fn forward_pass_reads_stale_slots_as_they_are() {
    let graph = joined();
    let mut cache = graph.new_cache();
    let mut output = floats(&[0.0]);
    graph.calc_graph(&floats(&[1.0, 1.0]), &mut cache, &mut output).unwrap();
    graph.calc_graph(&floats(&[2.0, 0.0]), &mut cache, &mut output).unwrap();
    // node 3: 2 * 0.5 three times and 0 once = 3; node 4: 1; output: 2
    assert_eq!(plain(&output), vec![2.0]);
}

#[test]
fn node_calc_is_the_forward_formula() {
    let node: Node<Float, Doubling> = Node::new(7, Doubling, Float(1.0), Float(3.0));
    assert_eq!(node.calc(Float(4.0)), Float(27.0));
    assert_eq!(node.cache_handle(), 7);
    assert!(node.forw().is_empty());
    assert!(node.back().is_empty());
}

#[test]
fn edge_new_keeps_its_parts() {
    let edge = Edge::new(&3, Float(0.75), &8);
    assert_eq!(edge.source(), 3);
    assert_eq!(edge.target(), 8);
    assert_eq!(edge.weight(), Float(0.75));
}

#[test]
fn mut_edge_changes_what_a_pass_reads() {
    let mut graph = joined();
    *graph.mut_edge(&7).unwrap() = Edge::new(&4, Float(2.0), &2);
    assert!(graph.mut_edge(&8).is_none());
    let mut cache = graph.new_cache();
    let mut output = floats(&[0.0]);
    graph.calc_graph(&floats(&[1.0, 1.0]), &mut cache, &mut output).unwrap();
    assert_eq!(plain(&output), vec![3.0]);
}

#[test]
fn mut_node_replaces_the_node() {
    let mut graph = small();
    *graph.mut_node(&3).unwrap() = Node::new(3, Identity, Float(5.0), Float(1.0));
    assert!(graph.mut_node(&5).is_none());
    let mut cache = graph.new_cache();
    let mut output = floats(&[0.0]);
    graph.calc_graph(&floats(&[1.0, 1.0]), &mut cache, &mut output).unwrap();
    // the new node lists no edges: its value is 0 + 5
    assert_eq!(slots(&cache)[3], (5.0, true));
}

#[test]
fn a_node_with_a_missing_slot_is_an_invalid_handle() {
    let mut graph = small();
    *graph.mut_node(&4).unwrap() = Node::new(50, Identity, Float(0.0), Float(1.0));
    let mut cache = graph.new_cache();
    let mut output = floats(&[0.0]);
    assert_eq!(
        graph.calc_graph(&floats(&[1.0, 1.0]), &mut cache, &mut output),
        Err(GraphError::InvalidHandle)
    );
    let mut buf = floats(&[0.0]);
    assert_eq!(
        graph.train(&floats(&[1.0, 1.0]), &mut cache, &mut buf, &floats(&[1.0]), Float(0.1)),
        Err(GraphError::InvalidHandle)
    );
    assert_eq!(slots(&cache), vec![(0.0, false); 5]);
}

#[test]
fn connect_refuses_a_missing_node() {
    let mut graph = small();
    assert_eq!(graph.connect(&0, Float(1.0), &5), Err(GraphError::InvalidHandle));
    assert_eq!(graph.connect(&5, Float(1.0), &0), Err(GraphError::InvalidHandle));
    assert!(graph.get_edge(&6).is_none());
    assert_eq!(graph.connect(&4, Float(1.0), &2), Ok(()));
    let edge = graph.get_edge(&6).unwrap();
    assert_eq!((edge.source(), edge.target(), edge.weight()), (4, 2, Float(1.0)));
    assert_eq!(graph.get_node(&4).unwrap().forw(), &vec![6]);
    assert_eq!(graph.get_node(&2).unwrap().back(), &vec![6]);
}

#[test]
fn train_refuses_wrong_lengths() {
    let mut graph = joined();
    let mut cache = graph.new_cache();
    let mut buf = floats(&[9.0]);
    let input = floats(&[1.0, 1.0]);
    let rate = Float(0.1);
    assert_eq!(
        graph.train(&floats(&[1.0]), &mut cache, &mut buf, &floats(&[1.0]), rate),
        Err(GraphError::DimensionMismatch)
    );
    assert_eq!(
        graph.train(&input, &mut cache, &mut buf, &floats(&[1.0, 1.0]), rate),
        Err(GraphError::DimensionMismatch)
    );
    assert_eq!(
        graph.train(&input, &mut cache, &mut buf, &floats(&[]), rate),
        Err(GraphError::DimensionMismatch)
    );
    let mut wide = floats(&[9.0, 9.0]);
    assert_eq!(
        graph.train(&input, &mut cache, &mut wide, &floats(&[1.0]), rate),
        Err(GraphError::DimensionMismatch)
    );
    assert_eq!(weights(&graph, 8), vec![0.5; 8]);
    assert_eq!(slots(&cache), vec![(0.0, false); 5]);
    assert_eq!(plain(&buf), vec![9.0]);
}

#[test]
fn train_refuses_a_cache_without_the_slots() {
    let mut graph = joined();
    let tiny: Net = Graph::new(Float(0.5), 1, 1, 1, (Identity, Float(0.0), Float(1.0))).unwrap();
    let mut cache = tiny.new_cache();
    let mut buf = floats(&[9.0]);
    assert!(!graph.trainable(cache.len()));
    assert!(graph.trainable(5));
    assert_eq!(
        graph.train(&floats(&[1.0, 1.0]), &mut cache, &mut buf, &floats(&[1.0]), Float(0.1)),
        Err(GraphError::InvalidHandle)
    );
    assert_eq!(weights(&graph, 8), vec![0.5; 8]);
    assert_eq!(plain(&buf), vec![9.0]);
}

#[test]
fn train_runs_the_forward_pass() {
    let mut graph = joined();
    let mut cache = graph.new_cache();
    let mut buf = floats(&[9.0]);
    assert_eq!(
        graph.train(&floats(&[1.0, 1.0]), &mut cache, &mut buf, &floats(&[1.0]), Float(0.1)),
        Ok(())
    );
    assert_eq!(plain(&buf), vec![1.5]);
    assert_eq!(
        slots(&cache),
        vec![(1.0, true), (1.0, true), (1.5, true), (2.0, true), (1.0, true)]
    );
}

#[test]
fn train_moves_the_weights_by_the_rule() {
    let mut graph = joined();
    let mut cache = graph.new_cache();
    let mut buf = floats(&[0.0]);
    let rate = 0.1f32;
    graph.train(&floats(&[1.0, 1.0]), &mut cache, &mut buf, &floats(&[1.0]), Float(rate)).unwrap();

    // The output node gave 1.5 where 1 was asked for.
    let y = squash(1.5);
    let signal = y * (1.0 - y) * (squash(1.0) - y);
    // Edge 6 comes from node 3, which holds 2; edge 7 from node 4, which holds 1.
    let y3 = squash(2.0);
    let y4 = squash(1.0);
    let after = weights(&graph, 8);
    assert_eq!(after[6], rate * signal * y3 + 0.5);
    assert_eq!(after[7], rate * signal * y4 + 0.5);
    assert!(signal < 0.0);
    assert!(after[6] < 0.5 && after[7] < 0.5);
    assert!(after[6] > 0.4988 && after[6] < 0.4989);
    assert!(after[7] > 0.4990 && after[7] < 0.4991);

    // What was staged for node 3, then relayed over its edges in turn; the
    // edges 0, 4 and 5 come from input 0 and edge 2 from input 1, both at 1.
    let staged3 = y3 * (1.0 - y3) * (0.5 * signal);
    let y0 = squash(1.0);
    let relayed = y0 * (1.0 - y0) * (0.5 * staged3);
    assert_eq!(after[0], rate * relayed * y0 + 0.5);
    assert_eq!(after[2], after[0]);
    assert_eq!(after[4], after[0]);
    assert_eq!(after[5], after[0]);

    let staged4 = y4 * (1.0 - y4) * (0.5 * signal);
    let relayed4 = y0 * (1.0 - y0) * (0.5 * staged4);
    assert_eq!(after[1], rate * relayed4 * y0 + 0.5);
    assert_eq!(after[3], after[1]);
    assert!(after[0] < 0.5 && after[0] > 0.49999);
    assert!(after[1] < after[0]);
}

#[test]
fn train_keeps_the_topology() {
    let mut graph = joined();
    let before = ends(&graph, 8);
    let mut cache = graph.new_cache();
    let mut buf = floats(&[0.0]);
    graph.train(&floats(&[1.0, 1.0]), &mut cache, &mut buf, &floats(&[1.0]), Float(0.1)).unwrap();
    assert_eq!(ends(&graph, 8), before);
    assert!(graph.get_edge(&8).is_none());
    assert_eq!(graph.get_node(&3).unwrap().back(), &vec![0, 2, 4, 5]);
    assert_eq!(slots(&graph.new_cache()), vec![(0.0, false); 5]);
}

#[test]
fn train_twice_comes_closer_to_the_expected_output() {
    let mut graph = joined();
    let input = floats(&[1.0, 1.0]);
    let expected = floats(&[1.0]);
    let mut buf = floats(&[0.0]);

    let mut cache = graph.new_cache();
    graph.train(&input, &mut cache, &mut buf, &expected, Float(0.1)).unwrap();
    let first = (expected[0].0 - buf[0].0).abs();

    let mut cache = graph.new_cache();
    graph.train(&input, &mut cache, &mut buf, &expected, Float(0.1)).unwrap();
    let second = (expected[0].0 - buf[0].0).abs();

    assert_eq!(first, 0.5);
    assert!(second < first);
}

#[test]
fn train_repeatedly_keeps_coming_closer() {
    let mut graph = joined();
    let input = floats(&[1.0, 1.0]);
    let expected = floats(&[1.0]);
    let mut buf = floats(&[0.0]);
    let mut last = f32::INFINITY;
    for _ in 0..30 {
        let mut cache = graph.new_cache();
        graph.train(&input, &mut cache, &mut buf, &expected, Float(0.1)).unwrap();
        let error = (expected[0].0 - buf[0].0).abs();
        assert!(error < last);
        last = error;
    }
    assert!(last < 0.45);
}

#[test]
fn train_on_a_new_graph_has_no_signal_to_send() {
    // As built, no edge arrives at the output node: its value cannot move,
    // and every signal that the hidden layer relays is zero.
    let mut graph = small();
    let input = floats(&[1.0, 1.0]);
    let expected = floats(&[1.0]);
    let mut buf = floats(&[9.0]);
    let mut cache = graph.new_cache();
    graph.train(&input, &mut cache, &mut buf, &expected, Float(0.1)).unwrap();
    let first = (expected[0].0 - buf[0].0).abs();
    let mut cache = graph.new_cache();
    graph.train(&input, &mut cache, &mut buf, &expected, Float(0.1)).unwrap();
    let second = (expected[0].0 - buf[0].0).abs();
    assert_eq!(first, 1.0);
    assert_eq!(second, first);
    assert_eq!(weights(&graph, 6), vec![0.5; 6]);
}
