use dataflow_progress::concat::{ConcatExtensionTrait, ConcatScope};
use dataflow_progress::graph::{Graph, Source, Stream, Target};
use dataflow_progress::ports::{Message, Ports};
use dataflow_progress::wiring::TargetPort;
use dataflow_progress::scope::Scope;

const T1: u64 = 10;
const T2: u64 = 20;

struct Merge {
    graph: Graph<u64, u32>,
    first: Stream,
    second: Stream,
    merged: Stream,
    scope: usize,
}

fn merge_of_two_inputs() -> Merge {
    let mut graph: Graph<u64, u32> = Graph::new();
    let mut first = graph.new_input();
    let mut second = graph.new_input();
    let merged = first.concat(&mut second, &mut graph);
    let scope = match merged.name {
        Source::ScopeOutput(scope, _) => scope,
        Source::GraphInput(_) => panic!("a merged stream is fed by an operator"),
    };
    Merge { graph, first, second, merged, scope }
}

struct Round {
    did_work: bool,
    frontier: Vec<Vec<(u64, i64)>>,
    consumed: Vec<Vec<(u64, i64)>>,
    produced: Vec<Vec<(u64, i64)>>,
}

fn harvest(graph: &mut Graph<u64, u32>, scope: usize) -> Round {
    let mut frontier = vec![vec![(99, 1)]];
    let mut consumed = vec![Vec::new(); graph.scope(scope).inputs()];
    let mut produced = vec![Vec::new(); graph.scope(scope).outputs()];
    let did_work =
        graph.pull_internal_progress(scope, &mut frontier, &mut consumed, &mut produced);
    Round { did_work, frontier, consumed, produced }
}

fn sorted(mut pairs: Vec<(u64, i64)>) -> Vec<(u64, i64)> {
    pairs.sort();
    pairs
}

#[test]
fn concat_names_the_new_operator_and_tee() {
    let merge = merge_of_two_inputs();
    assert_eq!(merge.first, Stream { name: Source::GraphInput(0), port: 0 });
    assert_eq!(merge.second, Stream { name: Source::GraphInput(1), port: 1 });
    assert_eq!(merge.merged, Stream { name: Source::ScopeOutput(0, 0), port: 2 });
    assert_eq!(merge.scope, 0);
    assert_eq!(merge.graph.scopes(), 1);
}

#[test]
fn concat_connects_each_stream_to_its_input() {
    let merge = merge_of_two_inputs();
    assert_eq!(
        merge.graph.edges(),
        &vec![
            (Source::GraphInput(0), Target::ScopeInput(0, 0)),
            (Source::GraphInput(1), Target::ScopeInput(0, 1)),
        ]
    );
}

#[test]
fn concat_registers_a_counting_port_with_each_stream() {
    let merge = merge_of_two_inputs();
    let ports = merge.graph.ports();
    assert_eq!(ports.tees(), 3);
    assert_eq!(ports.counting_ports(), 2);
    assert_eq!(ports.targets(merge.first.port), &vec![TargetPort::Counted(0)]);
    assert_eq!(ports.targets(merge.second.port), &vec![TargetPort::Counted(1)]);
    assert_eq!(ports.targets(merge.merged.port), &Vec::<TargetPort>::new());
    assert_eq!(ports.wrapped(0), merge.merged.port);
    assert_eq!(ports.wrapped(1), merge.merged.port);
    let scope = merge.graph.scope(merge.scope);
    assert_eq!(scope.input_port(0), TargetPort::Counted(0));
    assert_eq!(scope.input_port(1), TargetPort::Counted(1));
    assert_eq!(scope.output_port(), TargetPort::Tee(merge.merged.port));
}

#[test]
fn concat_scope_describes_itself() {
    let merge = merge_of_two_inputs();
    let scope = merge.graph.scope(merge.scope);
    assert_eq!(scope.name(), "Concat");
    assert_eq!(scope.inputs(), 2);
    assert_eq!(scope.outputs(), 1);
    assert!(!scope.notify_me());
}

#[test]
fn concat_scope_has_one_input_for_each_counting_port() {
    let scope = ConcatScope::new(vec![4, 2, 7], 1);
    assert_eq!(scope.inputs(), 3);
    assert_eq!(scope.outputs(), 1);
    assert_eq!(scope.input_port(2), TargetPort::Counted(7));
    assert_eq!(scope.output_port(), TargetPort::Tee(1));
}

#[test]
fn end_to_end_two_deliveries_then_two_harvests() {
    let mut merge = merge_of_two_inputs();
    let left = merge.graph.scope(merge.scope).input_port(0);
    let right = merge.graph.scope(merge.scope).input_port(1);
    merge.graph.deliver_data(left, &T1, &vec![1, 2, 3]);
    merge.graph.deliver_data(right, &T2, &vec![4, 5, 6, 7, 8]);

    let round = harvest(&mut merge.graph, merge.scope);
    assert_eq!(round.consumed, vec![vec![(T1, 3)], vec![(T2, 5)]]);
    assert_eq!(round.produced.len(), 1);
    assert_eq!(sorted(round.produced[0].clone()), vec![(T1, 3), (T2, 5)]);
    assert!(round.did_work);

    let again = harvest(&mut merge.graph, merge.scope);
    assert_eq!(again.consumed, vec![vec![], vec![]]);
    assert_eq!(again.produced, vec![vec![]]);
    assert!(!again.did_work);
}

#[test]
fn produced_keeps_the_order_of_delivery() {
    let mut merge = merge_of_two_inputs();
    merge.graph.deliver_data(TargetPort::Counted(1), &T2, &vec![4, 5]);
    merge.graph.deliver_data(TargetPort::Counted(0), &T1, &vec![1]);
    let round = harvest(&mut merge.graph, merge.scope);
    assert_eq!(round.produced, vec![vec![(T2, 2), (T1, 1)]]);
}

#[test]
fn harvest_without_deliveries_reports_nothing() {
    let mut merge = merge_of_two_inputs();
    let round = harvest(&mut merge.graph, merge.scope);
    assert_eq!(round.consumed, vec![vec![], vec![]]);
    assert_eq!(round.produced, vec![vec![]]);
    assert!(!round.did_work);
}

#[test]
fn harvest_leaves_the_frontier_alone() {
    let mut merge = merge_of_two_inputs();
    merge.graph.deliver_data(TargetPort::Counted(0), &T1, &vec![1]);
    let round = harvest(&mut merge.graph, merge.scope);
    assert_eq!(round.frontier, vec![vec![(99, 1)]]);
}

#[test]
fn harvest_appends_to_what_the_buffers_hold() {
    let mut merge = merge_of_two_inputs();
    merge.graph.deliver_data(TargetPort::Counted(0), &T1, &vec![1, 2]);
    let mut frontier = Vec::new();
    let mut consumed = vec![vec![(1, 1)], vec![(2, 2)], vec![(3, 3)]];
    let mut produced = vec![vec![(4, 4)], vec![(5, 5)]];
    let did_work = merge.graph.pull_internal_progress(
        merge.scope,
        &mut frontier,
        &mut consumed,
        &mut produced,
    );
    assert!(did_work);
    assert_eq!(consumed, vec![vec![(1, 1), (T1, 2)], vec![(2, 2)], vec![(3, 3)]]);
    assert_eq!(produced, vec![vec![(4, 4), (T1, 2)], vec![(5, 5)]]);
}

#[test]
fn batch_size_is_reported_for_the_input_it_came_in_on() {
    let mut merge = merge_of_two_inputs();
    merge.graph.deliver_data(TargetPort::Counted(1), &T1, &vec![0; 17]);
    let round = harvest(&mut merge.graph, merge.scope);
    assert_eq!(round.consumed, vec![vec![], vec![(T1, 17)]]);
    assert_eq!(round.produced, vec![vec![(T1, 17)]]);
}

#[test]
fn deliveries_at_one_timestamp_accumulate() {
    let mut merge = merge_of_two_inputs();
    merge.graph.deliver_data(TargetPort::Counted(0), &T1, &vec![1, 2, 3]);
    merge.graph.deliver_data(TargetPort::Counted(0), &T1, &vec![4, 5]);
    let round = harvest(&mut merge.graph, merge.scope);
    assert_eq!(round.consumed[0], vec![(T1, 3), (T1, 2)]);
    let total: i64 = round.consumed[0].iter().map(|pair| pair.1).sum();
    assert_eq!(total, 5);
}

#[test]
fn empty_batch_is_reported_with_count_zero() {
    let mut merge = merge_of_two_inputs();
    merge.graph.deliver_data(TargetPort::Counted(0), &T1, &vec![]);
    let round = harvest(&mut merge.graph, merge.scope);
    assert_eq!(round.consumed, vec![vec![(T1, 0)], vec![]]);
    assert_eq!(round.produced, vec![vec![(T1, 0)]]);
    assert!(round.did_work);
}

#[test]
fn delivery_into_a_stream_reaches_the_operator() {
    let mut merge = merge_of_two_inputs();
    merge.graph.deliver_data(TargetPort::Tee(merge.first.port), &T1, &vec![1, 2, 3]);
    merge.graph.deliver_data(TargetPort::Tee(merge.second.port), &T2, &vec![4]);
    let round = harvest(&mut merge.graph, merge.scope);
    assert_eq!(round.consumed, vec![vec![(T1, 3)], vec![(T2, 1)]]);
    assert_eq!(round.produced, vec![vec![(T1, 3), (T2, 1)]]);
}

#[test]
fn data_is_relayed_unchanged() {
    let mut merge = merge_of_two_inputs();
    let output = merge.graph.new_output(&merge.merged);
    merge.graph.deliver_data(TargetPort::Counted(0), &T1, &vec![3, 1, 2]);
    merge.graph.deliver_data(TargetPort::Counted(1), &T2, &vec![9, 8]);
    merge.graph.deliver_data(TargetPort::Counted(0), &T1, &vec![]);
    assert_eq!(
        merge.graph.output(output),
        &vec![
            Message::Data(T1, vec![3, 1, 2]),
            Message::Data(T2, vec![9, 8]),
            Message::Data(T1, vec![]),
        ]
    );
}

#[test]
fn one_count_record_however_many_consumers() {
    let mut merge = merge_of_two_inputs();
    let outputs: Vec<usize> = (0..4).map(|_| merge.graph.new_output(&merge.merged)).collect();
    merge.graph.deliver_data(TargetPort::Counted(0), &T1, &vec![5, 6]);
    for output in outputs {
        assert_eq!(merge.graph.output(output), &vec![Message::Data(T1, vec![5, 6])]);
    }
    let round = harvest(&mut merge.graph, merge.scope);
    assert_eq!(round.consumed, vec![vec![(T1, 2)], vec![]]);
    assert_eq!(round.produced, vec![vec![(T1, 2)]]);
}

#[test]
fn flush_passes_through_the_operator_uncounted() {
    let mut merge = merge_of_two_inputs();
    let output = merge.graph.new_output(&merge.merged);
    merge.graph.flush(TargetPort::Tee(merge.first.port));
    assert_eq!(merge.graph.output(output), &vec![Message::Flush]);
    let round = harvest(&mut merge.graph, merge.scope);
    assert_eq!(round.consumed, vec![vec![], vec![]]);
    assert_eq!(round.produced, vec![vec![]]);
    assert!(!round.did_work);
}

#[test]
fn consumed_equals_produced_over_many_rounds() {
    let mut merge = merge_of_two_inputs();
    let mut consumed: Vec<(u64, i64)> = Vec::new();
    let mut produced: Vec<(u64, i64)> = Vec::new();
    let mut delivered: Vec<(u64, i64)> = Vec::new();
    for round in 0..6u64 {
        for step in 0..round {
            let input = ((round + step) % 2) as usize;
            let time = (round * step) % 4;
            let batch = vec![0u32; (step % 3) as usize];
            merge.graph.deliver_data(TargetPort::Counted(input), &time, &batch);
            delivered.push((time, batch.len() as i64));
        }
        let report = harvest(&mut merge.graph, merge.scope);
        assert_eq!(report.did_work, round > 0);
        for pairs in report.consumed {
            consumed.extend(pairs);
        }
        produced.extend(report.produced[0].clone());
        assert_eq!(sorted(consumed.clone()), sorted(produced.clone()));
    }
    assert_eq!(sorted(consumed), sorted(delivered.clone()));
    assert_eq!(produced, delivered);
}

#[test]
fn stream_merged_with_itself_is_counted_on_both_inputs() {
    let mut graph: Graph<u64, u32> = Graph::new();
    let mut stream = graph.new_input();
    let mut same = stream;
    let merged = stream.concat(&mut same, &mut graph);
    let output = graph.new_output(&merged);
    graph.deliver_data(TargetPort::Tee(stream.port), &T1, &vec![1, 2]);
    let round = harvest(&mut graph, 0);
    assert_eq!(round.consumed, vec![vec![(T1, 2)], vec![(T1, 2)]]);
    assert_eq!(round.produced, vec![vec![(T1, 2), (T1, 2)]]);
    assert_eq!(
        graph.output(output),
        &vec![Message::Data(T1, vec![1, 2]), Message::Data(T1, vec![1, 2])]
    );
}

#[test]
fn merges_chain() {
    let mut graph: Graph<u64, u32> = Graph::new();
    let mut a = graph.new_input();
    let mut b = graph.new_input();
    let mut c = graph.new_input();
    let mut ab = a.concat(&mut b, &mut graph);
    let abc = ab.concat(&mut c, &mut graph);
    assert_eq!(abc.name, Source::ScopeOutput(1, 0));
    let output = graph.new_output(&abc);
    graph.deliver_data(TargetPort::Tee(a.port), &T1, &vec![1]);
    graph.deliver_data(TargetPort::Tee(c.port), &T2, &vec![2, 3]);
    graph.deliver_data(TargetPort::Tee(b.port), &T1, &vec![4, 5, 6]);

    let inner = harvest(&mut graph, 0);
    assert_eq!(inner.consumed, vec![vec![(T1, 1)], vec![(T1, 3)]]);
    assert_eq!(inner.produced, vec![vec![(T1, 1), (T1, 3)]]);

    let outer = harvest(&mut graph, 1);
    assert_eq!(outer.consumed, vec![vec![(T1, 1), (T1, 3)], vec![(T2, 2)]]);
    assert_eq!(outer.produced, vec![vec![(T1, 1), (T2, 2), (T1, 3)]]);

    assert_eq!(
        graph.output(output),
        &vec![
            Message::Data(T1, vec![1]),
            Message::Data(T2, vec![2, 3]),
            Message::Data(T1, vec![4, 5, 6]),
        ]
    );
    assert!(!harvest(&mut graph, 0).did_work);
    assert!(!harvest(&mut graph, 1).did_work);
}

#[test]
fn harvest_of_one_operator_leaves_the_other_alone() {
    let mut graph: Graph<u64, u32> = Graph::new();
    let mut a = graph.new_input();
    let mut b = graph.new_input();
    let mut ab = a.concat(&mut b, &mut graph);
    let mut c = graph.new_input();
    let _abc = ab.concat(&mut c, &mut graph);
    graph.deliver_data(TargetPort::Tee(a.port), &T1, &vec![1]);
    let outer = harvest(&mut graph, 1);
    assert_eq!(outer.consumed, vec![vec![(T1, 1)], vec![]]);
    let inner = harvest(&mut graph, 0);
    assert_eq!(inner.consumed, vec![vec![(T1, 1)], vec![]]);
    assert_eq!(inner.produced, vec![vec![(T1, 1)]]);
}

#[test]
fn scope_harvests_an_arena_built_by_hand() {
    let mut ports: Ports<u64, u32> = Ports::new();
    let tee = ports.add_tee();
    let inputs: Vec<usize> = (0..3).map(|_| ports.add_counted(tee)).collect();
    let mut scope = ConcatScope::new(inputs.clone(), tee);
    assert_eq!(scope.inputs(), 3);
    ports.deliver_data(scope.input_port(2), &T1, &vec![1, 2]);
    ports.deliver_data(scope.input_port(0), &T2, &vec![3]);
    ports.deliver_data(scope.input_port(2), &T2, &vec![4, 5, 6]);

    let mut frontier = Vec::new();
    let mut consumed = vec![Vec::new(); 3];
    let mut produced = vec![Vec::new()];
    assert!(scope.pull_internal_progress(
        &mut ports,
        &mut frontier,
        &mut consumed,
        &mut produced
    ));
    assert_eq!(consumed, vec![vec![(T2, 1)], vec![], vec![(T1, 2), (T2, 3)]]);
    assert_eq!(produced, vec![vec![(T1, 2), (T2, 1), (T2, 3)]]);
    assert_eq!(frontier, Vec::<Vec<(u64, i64)>>::new());
    for input in inputs {
        assert_eq!(ports.pending(TargetPort::Counted(input)), 0);
    }
    assert_eq!(ports.pending(TargetPort::Tee(tee)), 0);
    assert!(!scope.pull_internal_progress(
        &mut ports,
        &mut frontier,
        &mut consumed,
        &mut produced
    ));
    assert_eq!(consumed, vec![vec![(T2, 1)], vec![], vec![(T1, 2), (T2, 3)]]);
    assert_eq!(produced, vec![vec![(T1, 2), (T2, 1), (T2, 3)]]);
}

#[test]
fn merge_without_inputs_reports_what_its_tee_is_given() {
    let mut ports: Ports<u64, u32> = Ports::new();
    let tee = ports.add_tee();
    let mut scope = ConcatScope::new(Vec::new(), tee);
    assert_eq!(scope.inputs(), 0);
    ports.deliver_data(scope.output_port(), &T1, &vec![1]);
    let mut frontier = Vec::new();
    let mut consumed = Vec::new();
    let mut produced = vec![Vec::new()];
    assert!(scope.pull_internal_progress(
        &mut ports,
        &mut frontier,
        &mut consumed,
        &mut produced
    ));
    assert_eq!(consumed, Vec::<Vec<(u64, i64)>>::new());
    assert_eq!(produced, vec![vec![(T1, 1)]]);
}
