use dataflow_progress::concat::ConcatExtensionTrait;
use dataflow_progress::graph::{Graph, Source, Stream, Target, TopologyError};
use dataflow_progress::ports::Message;
use dataflow_progress::wiring::TargetPort;

#[test]
fn new_graph_is_empty() {
    let graph: Graph<u64, u32> = Graph::new();
    assert_eq!(graph.scopes(), 0);
    assert_eq!(graph.edges(), &vec![]);
    assert_eq!(graph.ports().tees(), 0);
    assert_eq!(graph.ports().counting_ports(), 0);
    assert_eq!(graph.ports().queues(), 0);
}

#[test]
fn inputs_are_numbered_in_order() {
    let mut graph: Graph<u64, u32> = Graph::new();
    assert_eq!(graph.new_input(), Stream { name: Source::GraphInput(0), port: 0 });
    assert_eq!(graph.new_input(), Stream { name: Source::GraphInput(1), port: 1 });
    assert!(graph.has_source(Source::GraphInput(1)));
    assert!(!graph.has_source(Source::GraphInput(2)));
}

#[test]
fn copy_with_takes_the_new_name_and_tee() {
    let stream = Stream { name: Source::GraphInput(3), port: 4 };
    let copy = stream.copy_with(Source::ScopeOutput(1, 0), 9);
    assert_eq!(copy, Stream { name: Source::ScopeOutput(1, 0), port: 9 });
    assert_eq!(stream, Stream { name: Source::GraphInput(3), port: 4 });
}

#[test]
fn has_stream_wants_a_known_name_and_tee() {
    let mut graph: Graph<u64, u32> = Graph::new();
    let stream = graph.new_input();
    assert!(graph.has_stream(&stream));
    assert!(!graph.has_stream(&Stream { name: Source::GraphInput(0), port: 1 }));
    assert!(!graph.has_stream(&Stream { name: Source::GraphInput(1), port: 0 }));
    assert!(!graph.has_stream(&Stream { name: Source::ScopeOutput(0, 0), port: 0 }));
}

#[test]
fn connect_records_a_sound_edge() {
    let mut graph: Graph<u64, u32> = Graph::new();
    let mut a = graph.new_input();
    let mut b = graph.new_input();
    let merged = a.concat(&mut b, &mut graph);
    let before = graph.edges().len();
    assert_eq!(graph.connect(merged.name, Target::ScopeInput(0, 1)), Ok(()));
    assert_eq!(graph.edges().len(), before + 1);
    assert_eq!(graph.edges()[before], (Source::ScopeOutput(0, 0), Target::ScopeInput(0, 1)));
}

#[test]
fn connect_refuses_an_unknown_graph_input() {
    let mut graph: Graph<u64, u32> = Graph::new();
    let mut a = graph.new_input();
    let mut b = graph.new_input();
    let _ = a.concat(&mut b, &mut graph);
    let edges = graph.edges().clone();
    assert_eq!(
        graph.connect(Source::GraphInput(2), Target::ScopeInput(0, 0)),
        Err(TopologyError::UnknownSource(Source::GraphInput(2)))
    );
    assert_eq!(graph.edges(), &edges);
}

#[test]
fn connect_refuses_an_unknown_operator_as_source() {
    let mut graph: Graph<u64, u32> = Graph::new();
    let mut a = graph.new_input();
    let mut b = graph.new_input();
    let _ = a.concat(&mut b, &mut graph);
    assert_eq!(
        graph.connect(Source::ScopeOutput(1, 0), Target::ScopeInput(0, 0)),
        Err(TopologyError::UnknownSource(Source::ScopeOutput(1, 0)))
    );
}

#[test]
fn connect_refuses_an_output_beyond_the_declared_count() {
    let mut graph: Graph<u64, u32> = Graph::new();
    let mut a = graph.new_input();
    let mut b = graph.new_input();
    let _ = a.concat(&mut b, &mut graph);
    assert_eq!(
        graph.connect(Source::ScopeOutput(0, 1), Target::ScopeInput(0, 0)),
        Err(TopologyError::UnknownSource(Source::ScopeOutput(0, 1)))
    );
}

#[test]
fn connect_refuses_an_unknown_operator_as_target() {
    let mut graph: Graph<u64, u32> = Graph::new();
    let a = graph.new_input();
    assert_eq!(
        graph.connect(a.name, Target::ScopeInput(0, 0)),
        Err(TopologyError::UnknownTarget(Target::ScopeInput(0, 0)))
    );
    assert_eq!(graph.edges(), &vec![]);
}

#[test]
fn connect_refuses_an_input_beyond_the_declared_count() {
    let mut graph: Graph<u64, u32> = Graph::new();
    let mut a = graph.new_input();
    let mut b = graph.new_input();
    let _ = a.concat(&mut b, &mut graph);
    assert_eq!(
        graph.connect(a.name, Target::ScopeInput(0, 2)),
        Err(TopologyError::UnknownTarget(Target::ScopeInput(0, 2)))
    );
    assert!(graph.has_target(Target::ScopeInput(0, 1)));
    assert!(!graph.has_target(Target::ScopeInput(0, 2)));
}

#[test]
fn connect_refuses_an_unknown_graph_output() {
    let mut graph: Graph<u64, u32> = Graph::new();
    let a = graph.new_input();
    assert_eq!(
        graph.connect(a.name, Target::GraphOutput(0)),
        Err(TopologyError::UnknownTarget(Target::GraphOutput(0)))
    );
}

#[test]
fn connect_names_the_source_when_both_ends_are_unknown() {
    let mut graph: Graph<u64, u32> = Graph::new();
    assert_eq!(
        graph.connect(Source::GraphInput(0), Target::GraphOutput(0)),
        Err(TopologyError::UnknownSource(Source::GraphInput(0)))
    );
}

#[test]
fn new_output_is_fed_by_its_stream() {
    let mut graph: Graph<u64, u32> = Graph::new();
    let a = graph.new_input();
    let output = graph.new_output(&a);
    assert_eq!(output, 0);
    assert_eq!(graph.edges(), &vec![(Source::GraphInput(0), Target::GraphOutput(0))]);
    assert_eq!(graph.ports().targets(a.port), &vec![TargetPort::Queue(0)]);
    graph.deliver_data(TargetPort::Tee(a.port), &1, &vec![2, 3]);
    graph.flush(TargetPort::Tee(a.port));
    assert_eq!(graph.output(output), &vec![Message::Data(1, vec![2, 3]), Message::Flush]);
}

#[test]
fn add_tee_and_counted_and_target_build_by_hand() {
    let mut graph: Graph<u64, u32> = Graph::new();
    let a = graph.new_input();
    let tee = graph.add_tee();
    let adapter = graph.add_counted(tee);
    graph.add_target(a.port, TargetPort::Counted(adapter));
    assert_eq!(tee, 1);
    assert_eq!(adapter, 0);
    assert_eq!(graph.ports().targets(a.port), &vec![TargetPort::Counted(0)]);
    assert_eq!(graph.ports().wrapped(0), 1);
    graph.deliver_data(TargetPort::Tee(a.port), &6, &vec![1]);
    assert_eq!(graph.ports().pending(TargetPort::Counted(adapter)), 1);
    assert_eq!(graph.ports().pending(TargetPort::Tee(tee)), 1);
}

#[test]
fn add_queue_is_registered_by_hand() {
    let mut graph: Graph<u64, u32> = Graph::new();
    let a = graph.new_input();
    let queue = graph.add_queue();
    assert_eq!(queue, 0);
    assert!(graph.has_target(Target::GraphOutput(0)));
    assert!(!graph.has_target(Target::GraphOutput(1)));
    graph.add_target(a.port, TargetPort::Queue(queue));
    graph.deliver_data(TargetPort::Tee(a.port), &2, &vec![5]);
    assert_eq!(graph.output(queue), &vec![Message::Data(2, vec![5])]);
    assert_eq!(graph.edges(), &vec![]);
}

#[test]
fn input_reports_what_entered_there() {
    let mut graph: Graph<u64, u32> = Graph::new();
    let mut a = graph.new_input();
    let mut b = graph.new_input();
    let _ = a.concat(&mut b, &mut graph);
    assert_eq!(graph.inputs(), 2);
    assert_eq!(graph.input_port(0), TargetPort::Tee(a.port));
    assert_eq!(graph.input_port(1), TargetPort::Tee(b.port));
    graph.deliver_data(graph.input_port(0), &3, &vec![1, 2]);
    graph.deliver_data(graph.input_port(1), &4, &vec![3]);
    graph.deliver_data(graph.input_port(0), &5, &vec![]);

    let mut entered = vec![(0, 0)];
    assert!(graph.pull_input_progress(0, &mut entered));
    assert_eq!(entered, vec![(0, 0), (3, 2), (5, 0)]);
    assert!(!graph.pull_input_progress(0, &mut entered));
    assert_eq!(entered, vec![(0, 0), (3, 2), (5, 0)]);

    let mut other = Vec::new();
    assert!(graph.pull_input_progress(1, &mut other));
    assert_eq!(other, vec![(4, 1)]);
}

#[test]
fn input_report_leaves_the_operators_alone() {
    let mut graph: Graph<u64, u32> = Graph::new();
    let mut a = graph.new_input();
    let mut b = graph.new_input();
    let _ = a.concat(&mut b, &mut graph);
    graph.deliver_data(graph.input_port(0), &3, &vec![1, 2]);
    let mut entered = Vec::new();
    assert!(graph.pull_input_progress(0, &mut entered));
    let mut frontier = Vec::new();
    let mut consumed = vec![Vec::new(), Vec::new()];
    let mut produced = vec![Vec::new()];
    assert!(graph.pull_internal_progress(0, &mut frontier, &mut consumed, &mut produced));
    assert_eq!(consumed, vec![vec![(3, 2)], vec![]]);
    assert_eq!(produced, vec![vec![(3, 2)]]);
}
