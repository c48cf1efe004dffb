//! The dataflow under construction: its operators, the edges between them,
//! and the arena of ports that carries the data.
//!
//! Everything is owned here and named by index. A [`Stream`] is a handle: the
//! name of an output and the tee that fans the output out.

use vstd::prelude::*;
use crate::concat::{lemma_wired_installed, ConcatScope, ConcatView};
use crate::ports::{Message, Ports, PortsView};
use crate::wiring::{TargetPort, Wiring};
use crate::scope::{any_pending, harvested, lemma_cleared_push, rows, Scope};

verus! {

/// Where an edge starts.
#[derive(Clone, Copy, Debug, PartialEq, Eq, Structural)]
pub enum Source {
    /// The input of the graph with this index.
    GraphInput(usize),
    /// The output, second, of the operator, first.
    ScopeOutput(usize, usize),
}

/// Where an edge ends.
#[derive(Clone, Copy, Debug, PartialEq, Eq, Structural)]
pub enum Target {
    /// The output of the graph with this index.
    GraphOutput(usize),
    /// The input, second, of the operator, first.
    ScopeInput(usize, usize),
}

/// Why an edge was refused.
#[derive(Clone, Copy, Debug, PartialEq, Eq, Structural)]
pub enum TopologyError {
    /// The edge starts at an operator or port that the graph does not have.
    UnknownSource(Source),
    /// The edge ends at an operator or port that the graph does not have.
    UnknownTarget(Target),
}

/// Handle of an output: its name in the graph and the tee that fans it out.
#[derive(Clone, Copy, Debug, PartialEq, Eq, Structural)]
pub struct Stream {
    /// The output that feeds the stream.
    pub name: Source,
    /// The index of the tee with which consumers of the stream register.
    pub port: usize,
}

impl Stream {
    /// A handle of the same kind for another output and tee.
    pub fn copy_with(&self, name: Source, port: usize) -> (stream: Stream)
        ensures
            stream == (Stream { name, port }),
    {
        Stream { name, port }
    }
}

/// A dataflow, as a mathematical value.
#[verifier::ext_equal]
pub struct GraphView<T, D> {
    /// The arena of ports.
    pub ports: PortsView<T, D>,
    /// The operators, by index.
    pub scopes: Seq<ConcatView>,
    /// The edges, in the order in which they were connected.
    pub edges: Seq<(Source, Target)>,
    /// For each input of the graph, the index of its tee.
    pub inputs: Seq<usize>,
}

impl<T, D> GraphView<T, D> {
    /// Whether `source` names an input of the graph or an output of one of
    /// its operators.
    pub open spec fn has_source(self, source: Source) -> bool {
        match source {
            Source::GraphInput(input) => input < self.inputs.len(),
            Source::ScopeOutput(scope, output) => scope < self.scopes.len() && output < 1,
        }
    }

    /// Whether `target` names an output of the graph or an input of one of
    /// its operators.
    pub open spec fn has_target(self, target: Target) -> bool {
        match target {
            Target::GraphOutput(output) => output < self.ports.wiring.queues,
            Target::ScopeInput(scope, input) => scope < self.scopes.len() && input
                < self.scopes[scope as int].consumed.len(),
        }
    }

    /// What `connect` answers for an edge from `source` to `target`.
    pub open spec fn connection(self, source: Source, target: Target) -> Result<(), TopologyError> {
        if !self.has_source(source) {
            Err(TopologyError::UnknownSource(source))
        } else if !self.has_target(target) {
            Err(TopologyError::UnknownTarget(target))
        } else {
            Ok(())
        }
    }

    /// Whether `stream` is a stream of this graph: its name is a source of
    /// the graph and its tee exists.
    pub open spec fn has_stream(self, stream: Stream) -> bool {
        self.has_source(stream.name) && stream.port < self.ports.wiring.tees.len()
    }

    /// Whether tee `tee` is spoken for: it is the output of an operator or
    /// the tee of an input of the graph.
    pub open spec fn owns(self, tee: usize) -> bool {
        ||| exists|s: int| 0 <= s < self.scopes.len() && (#[trigger] self.scopes[s]).produced == tee
        ||| exists|g: int| 0 <= g < self.inputs.len() && #[trigger] self.inputs[g] == tee
    }

    /// The ports are well formed, every tee fans out to counting ports and
    /// queues only, every operator is wired as a merge operator, every input
    /// of the graph has its tee, no tee is the output of two operators, of
    /// an operator and an input, or of two inputs, and every edge joins a
    /// source and a target that the graph has.
    pub open spec fn wf(self) -> bool {
        &&& self.ports.wf()
        &&& self.ports.wiring.flat()
        &&& forall|s: int|
            0 <= s < self.scopes.len() ==> (#[trigger] self.scopes[s]).wired(self.ports.wiring)
        &&& forall|g: int|
            0 <= g < self.inputs.len() ==> (#[trigger] self.inputs[g])
                < self.ports.wiring.tees.len()
        &&& forall|s: int, t: int|
            0 <= s < t < self.scopes.len() ==> (#[trigger] self.scopes[s]).produced
                != (#[trigger] self.scopes[t]).produced
        &&& forall|g: int, h: int|
            0 <= g < h < self.inputs.len() ==> #[trigger] self.inputs[g]
                != #[trigger] self.inputs[h]
        &&& forall|s: int, g: int|
            0 <= s < self.scopes.len() && 0 <= g < self.inputs.len() ==> (
            #[trigger] self.scopes[s]).produced != #[trigger] self.inputs[g]
        &&& forall|e: int|
            0 <= e < self.edges.len() ==> self.has_source((#[trigger] self.edges[e]).0)
                && self.has_target(self.edges[e].1)
    }

    /// The graph with one more input, fed into a new tee.
    pub open spec fn with_input(self) -> Self {
        GraphView {
            ports: self.ports.with_tee(),
            inputs: self.inputs.push(self.ports.wiring.tees.len() as usize),
            ..self
        }
    }

    /// The graph with one more output, a new queue, fed by `stream`.
    pub open spec fn with_output(self, stream: Stream) -> Self {
        let queue = self.ports.wiring.queues as usize;
        GraphView {
            ports: self.ports.with_queue().with_target(stream.port, TargetPort::Queue(queue)),
            edges: self.edges.push((stream.name, Target::GraphOutput(queue))),
            ..self
        }
    }

    /// The graph with one more operator.
    pub open spec fn with_scope(self, scope: ConcatView) -> Self {
        GraphView { scopes: self.scopes.push(scope), ..self }
    }

    /// The graph with one more edge.
    pub open spec fn with_edge(self, source: Source, target: Target) -> Self {
        GraphView { edges: self.edges.push((source, target)), ..self }
    }

    /// The graph after input `input` reported what entered there: the
    /// count map of the input's tee is empty.
    pub open spec fn input_harvested(self, input: int) -> Self {
        self.with_ports(self.ports.cleared(seq![TargetPort::Tee(self.inputs[input])]))
    }

    /// The graph after operator `scope` reported its progress: the
    /// operator's buffers are empty.
    pub open spec fn harvested(self, scope: int) -> Self {
        self.with_ports(self.ports.cleared(self.scopes[scope].buffers()))
    }

    /// The graph with other contents of its ports.
    pub open spec fn with_ports(self, ports: PortsView<T, D>) -> Self {
        GraphView { ports, ..self }
    }
}

/// A dataflow under construction and in operation.
pub struct Graph<T, D> {
    ports: Ports<T, D>,
    scopes: Vec<ConcatScope>,
    edges: Vec<(Source, Target)>,
    inputs: Vec<usize>,
}

impl<T, D> View for Graph<T, D> {
    type V = GraphView<T, D>;

    closed spec fn view(&self) -> GraphView<T, D> {
        GraphView {
            ports: self.ports@,
            scopes: Seq::new(self.scopes.len() as nat, |s: int| self.scopes[s]@),
            edges: self.edges@,
            inputs: self.inputs@,
        }
    }
}

/// Whether `new` has every port that `old` has, with every counting port of
/// `old` wrapping the tee it wrapped.
spec fn extends(new: Wiring, old: Wiring) -> bool {
    &&& old.tees.len() <= new.tees.len()
    &&& old.queues <= new.queues
    &&& old.adapters.len() <= new.adapters.len()
    &&& forall|a: int| 0 <= a < old.adapters.len() ==> #[trigger] new.adapters[a] == old.adapters[a]
}

/// A graph stays well formed when its ports grow, as long as the tees still
/// fan out to counting ports and queues only and no new counting port wraps
/// the output of an operator.
proof fn lemma_ports_grown<T, D>(graph: GraphView<T, D>, ports: PortsView<T, D>)
    requires
        graph.wf(),
        ports.wf(),
        ports.wiring.flat(),
        extends(ports.wiring, graph.ports.wiring),
        forall|a: int, s: int|
            graph.ports.wiring.adapters.len() <= a < ports.wiring.adapters.len() && 0 <= s
                < graph.scopes.len() ==> #[trigger] ports.wiring.adapters[a]
                != (#[trigger] graph.scopes[s]).produced,
    ensures
        graph.with_ports(ports).wf(),
{
    let after = graph.with_ports(ports);
    assert forall|s: int| 0 <= s < after.scopes.len() implies (#[trigger] after.scopes[s]).wired(
        ports.wiring,
    ) by {
        let scope = graph.scopes[s];
        assert(scope.wired(graph.ports.wiring));
        assert forall|a: int|
            0 <= a < ports.wiring.adapters.len() && #[trigger] ports.wiring.adapters[a]
                == scope.produced implies scope.consumed.contains(a as usize) by {
            assert(graph.ports.wiring.adapters[a] == scope.produced);
        }
    }
    assert forall|g: int| 0 <= g < after.inputs.len() implies (#[trigger] after.inputs[g])
        < ports.wiring.tees.len() by {
        assert(graph.inputs[g] < graph.ports.wiring.tees.len());
    }
    assert forall|e: int| 0 <= e < after.edges.len() implies after.has_source(
        (#[trigger] after.edges[e]).0,
    ) && after.has_target(after.edges[e].1) by {
        assert(graph.has_source(graph.edges[e].0) && graph.has_target(graph.edges[e].1));
    }
}

impl<T: Copy, D: Copy> Graph<T, D> {
    /// A graph without operators, edges, inputs or ports.
    pub fn new() -> (graph: Self)
        ensures
            graph@.wf(),
            graph@.scopes.len() == 0,
            graph@.edges.len() == 0,
            graph@.inputs.len() == 0,
            graph@.ports.wiring.tees.len() == 0,
            graph@.ports.wiring.adapters.len() == 0,
            graph@.ports.wiring.queues == 0,
    {
        Graph { ports: Ports::new(), scopes: Vec::new(), edges: Vec::new(), inputs: Vec::new() }
    }

    /// The arena of ports.
    pub fn ports(&self) -> (ports: &Ports<T, D>)
        ensures
            ports@ == self@.ports,
    {
        &self.ports
    }

    /// The operator with index `index`.
    pub fn scope(&self, index: usize) -> (scope: &ConcatScope)
        requires
            index < self@.scopes.len(),
        ensures
            scope@ == self@.scopes[index as int],
    {
        &self.scopes[index]
    }

    /// The number of operators.
    pub fn scopes(&self) -> (n: usize)
        ensures
            n == self@.scopes.len(),
    {
        self.scopes.len()
    }

    /// The edges, in the order in which they were connected.
    pub fn edges(&self) -> (edges: &Vec<(Source, Target)>)
        ensures
            edges@ == self@.edges,
    {
        &self.edges
    }

    /// Everything output `output` of the graph was handed, oldest first.
    pub fn output(&self, output: usize) -> (messages: &Vec<Message<T, D>>)
        requires
            output < self@.ports.wiring.queues,
        ensures
            messages@.map_values(|message: Message<T, D>| message@)
                == self@.ports.queues[output as int],
    {
        self.ports.queue(output)
    }

    /// Whether `source` names an input of the graph or an output of one of
    /// its operators.
    pub fn has_source(&self, source: Source) -> (has: bool)
        ensures
            has == self@.has_source(source),
    {
        match source {
            Source::GraphInput(input) => input < self.inputs.len(),
            Source::ScopeOutput(scope, output) => scope < self.scopes.len() && output < 1,
        }
    }

    /// Whether `target` names an output of the graph or an input of one of
    /// its operators.
    pub fn has_target(&self, target: Target) -> (has: bool)
        ensures
            has == self@.has_target(target),
    {
        match target {
            Target::GraphOutput(output) => output < self.ports.queues(),
            Target::ScopeInput(scope, input) => scope < self.scopes.len() && input
                < self.scopes[scope].inputs(),
        }
    }

    /// Whether `stream` is a stream of this graph.
    pub fn has_stream(&self, stream: &Stream) -> (has: bool)
        ensures
            has == self@.has_stream(*stream),
    {
        self.has_source(stream.name) && stream.port < self.ports.tees()
    }

    /// Adds a tee with nothing registered with it and returns its index,
    /// which is the number of tees there were.
    pub fn add_tee(&mut self) -> (tee: usize)
        requires
            old(self)@.wf(),
        ensures
            tee == old(self)@.ports.wiring.tees.len(),
            final(self)@ == old(self)@.with_ports(old(self)@.ports.with_tee()),
            final(self)@.wf(),
    {
        let tee = self.ports.add_tee();
        proof {
            let before = old(self)@;
            let ports = before.ports.with_tee();
            assert forall|k: int, i: int|
                0 <= k < ports.wiring.tees.len() && 0 <= i < ports.wiring.tees[k].len() implies !(
            #[trigger] ports.wiring.tees[k][i] is Tee) by {
                assert(before.ports.wiring.tees[k][i] == ports.wiring.tees[k][i]);
            }
            lemma_ports_grown(before, ports);
            assert(self@.scopes =~= before.scopes);
            assert(self@ =~= before.with_ports(ports));
        }
        tee
    }

    /// Adds a counting port that wraps tee `tee` and returns its index,
    /// which is the number of counting ports there were. The tee may not be
    /// the output of an operator that the graph already has: the inputs of
    /// an operator are fixed when it is made.
    pub fn add_counted(&mut self, tee: usize) -> (adapter: usize)
        requires
            old(self)@.wf(),
            tee < old(self)@.ports.wiring.tees.len(),
            forall|s: int|
                0 <= s < old(self)@.scopes.len() ==> (#[trigger] old(self)@.scopes[s]).produced
                    != tee,
        ensures
            adapter == old(self)@.ports.wiring.adapters.len(),
            final(self)@ == old(self)@.with_ports(old(self)@.ports.with_counted(tee)),
            final(self)@.wf(),
    {
        let adapter = self.ports.add_counted(tee);
        proof {
            let before = old(self)@;
            let ports = before.ports.with_counted(tee);
            lemma_ports_grown(before, ports);
            assert(self@.scopes =~= before.scopes);
            assert(self@ =~= before.with_ports(ports));
        }
        adapter
    }

    /// Adds an empty queue and returns its index, which is the number of
    /// queues there were.
    pub fn add_queue(&mut self) -> (queue: usize)
        requires
            old(self)@.wf(),
        ensures
            queue == old(self)@.ports.wiring.queues,
            final(self)@ == old(self)@.with_ports(old(self)@.ports.with_queue()),
            final(self)@.wf(),
    {
        let queue = self.ports.add_queue();
        proof {
            let before = old(self)@;
            let ports = before.ports.with_queue();
            lemma_ports_grown(before, ports);
            assert(self@.scopes =~= before.scopes);
            assert(self@ =~= before.with_ports(ports));
        }
        queue
    }

    /// Registers `target`, a counting port or a queue that lies below tee
    /// `tee`, with that tee, after the ports already registered there.
    pub fn add_target(&mut self, tee: usize, target: TargetPort)
        requires
            old(self)@.wf(),
            tee < old(self)@.ports.wiring.tees.len(),
            old(self)@.ports.wiring.below(tee as int, target),
            !(target is Tee),
        ensures
            final(self)@ == old(self)@.with_ports(old(self)@.ports.with_target(tee, target)),
            final(self)@.wf(),
    {
        self.ports.add_target(tee, target);
        proof {
            let before = old(self)@;
            let ports = before.ports.with_target(tee, target);
            assert forall|k: int, i: int|
                0 <= k < ports.wiring.tees.len() && 0 <= i < ports.wiring.tees[k].len() implies !(
            #[trigger] ports.wiring.tees[k][i] is Tee) by {
                if !(k == tee && i == before.ports.wiring.tees[k].len()) {
                    assert(before.ports.wiring.tees[k][i] == ports.wiring.tees[k][i]);
                }
            }
            lemma_ports_grown(before, ports);
            assert(self@.scopes =~= before.scopes);
            assert(self@ =~= before.with_ports(ports));
        }
    }

    /// Adds `scope` to the graph and returns its index, which is the number
    /// of operators there were. The operator has to be wired into the
    /// graph's ports, with an output tee that is not spoken for.
    pub fn add_scope(&mut self, scope: ConcatScope) -> (index: usize)
        requires
            old(self)@.wf(),
            scope@.wired(old(self)@.ports.wiring),
            !old(self)@.owns(scope@.produced),
        ensures
            index == old(self)@.scopes.len(),
            final(self)@ == old(self)@.with_scope(scope@),
            final(self)@.wf(),
    {
        let index = self.scopes.len();
        self.scopes.push(scope);
        proof {
            let before = old(self)@;
            let after = before.with_scope(scope@);
            assert(self@.scopes =~= after.scopes);
            assert(self@ =~= after);
            assert forall|s: int| 0 <= s < after.scopes.len() implies (
            #[trigger] after.scopes[s]).wired(after.ports.wiring) by {
                if s < before.scopes.len() {
                    assert(before.scopes[s].wired(before.ports.wiring));
                }
            }
            assert forall|e: int| 0 <= e < after.edges.len() implies after.has_source(
                (#[trigger] after.edges[e]).0,
            ) && after.has_target(after.edges[e].1) by {
                assert(before.has_source(before.edges[e].0) && before.has_target(
                    before.edges[e].1,
                ));
                if let Target::ScopeInput(s, _) = before.edges[e].1 {
                    assert(after.scopes[s as int] == before.scopes[s as int]);
                }
            }
        }
        index
    }

    /// Records an edge from `source` to `target`. An edge that starts or
    /// ends at an operator or port that the graph does not have is refused,
    /// and the graph stays as it was.
    pub fn connect(&mut self, source: Source, target: Target) -> (result: Result<
        (),
        TopologyError,
    >)
        ensures
            result == old(self)@.connection(source, target),
            result is Ok ==> final(self)@ == old(self)@.with_edge(source, target),
            result is Err ==> final(self)@ == old(self)@,
            old(self)@.wf() ==> final(self)@.wf(),
    {
        if !self.has_source(source) {
            return Err(TopologyError::UnknownSource(source));
        }
        if !self.has_target(target) {
            return Err(TopologyError::UnknownTarget(target));
        }
        self.edges.push((source, target));
        proof {
            let after = old(self)@.with_edge(source, target);
            assert(self@.scopes =~= after.scopes);
            assert(self@ =~= after);
        }
        Ok(())
    }

    /// Adds an input to the graph and a tee that fans it out. The stream's
    /// name is the new input, whose index is the number of inputs there
    /// were.
    pub fn new_input(&mut self) -> (stream: Stream)
        requires
            old(self)@.wf(),
        ensures
            stream == (Stream {
                name: Source::GraphInput(old(self)@.inputs.len() as usize),
                port: old(self)@.ports.wiring.tees.len() as usize,
            }),
            final(self)@ == old(self)@.with_input(),
            final(self)@.wf(),
            final(self)@.has_stream(stream),
    {
        let input = self.inputs.len();
        let tee = self.add_tee();
        let ghost grown = self@;
        self.inputs.push(tee);
        proof {
            let after = old(self)@.with_input();
            assert(self@.scopes =~= after.scopes);
            assert(self@ =~= after);
            assert forall|g: int| 0 <= g < after.inputs.len() implies (#[trigger] after.inputs[g])
                < after.ports.wiring.tees.len() by {
                if g < grown.inputs.len() {
                    assert(grown.inputs[g] < grown.ports.wiring.tees.len());
                }
            }
            assert forall|e: int| 0 <= e < after.edges.len() implies after.has_source(
                (#[trigger] after.edges[e]).0,
            ) && after.has_target(after.edges[e].1) by {
                assert(grown.has_source(grown.edges[e].0) && grown.has_target(grown.edges[e].1));
            }
        }
        Stream { name: Source::GraphInput(input), port: tee }
    }

    /// Adds an output to the graph, a new queue that is handed whatever
    /// `stream` carries from now on. Returns the index of the output, which
    /// is the number of outputs there were.
    pub fn new_output(&mut self, stream: &Stream) -> (output: usize)
        requires
            old(self)@.wf(),
            old(self)@.has_stream(*stream),
        ensures
            output == old(self)@.ports.wiring.queues,
            final(self)@ == old(self)@.with_output(*stream),
            final(self)@.wf(),
    {
        let queue = self.add_queue();
        self.add_target(stream.port, TargetPort::Queue(queue));
        let connected = self.connect(stream.name, Target::GraphOutput(queue));
        assert(connected is Ok);
        proof {
            assert(self@ =~~= old(self)@.with_output(*stream));
        }
        queue
    }

    /// The tee of input `input` of the graph.
    pub fn input_port(&self, input: usize) -> (port: TargetPort)
        requires
            input < self@.inputs.len(),
        ensures
            port == TargetPort::Tee(self@.inputs[input as int]),
    {
        TargetPort::Tee(self.inputs[input])
    }

    /// The number of inputs of the graph.
    pub fn inputs(&self) -> (n: usize)
        ensures
            n == self@.inputs.len(),
    {
        self.inputs.len()
    }

    /// Reports what entered the graph at input `input` since the last call:
    /// `messages_produced` gains what the count map of the input's tee
    /// held, and the map is left empty. Returns whether there was anything
    /// to report.
    pub fn pull_input_progress(
        &mut self,
        input: usize,
        messages_produced: &mut Vec<(T, i64)>,
    ) -> (did_work: bool)
        requires
            old(self)@.wf(),
            input < old(self)@.inputs.len(),
        ensures
            final(messages_produced)@ == old(messages_produced)@ + old(self)@.ports.counts(
                TargetPort::Tee(old(self)@.inputs[input as int]),
            ),
            final(self)@ == old(self)@.input_harvested(input as int),
            final(self)@.wf(),
            did_work == (old(self)@.ports.counts(
                TargetPort::Tee(old(self)@.inputs[input as int]),
            ).len() > 0),
    {
        let port = TargetPort::Tee(self.inputs[input]);
        proof {
            assert(old(self)@.inputs[input as int] < old(self)@.ports.wiring.tees.len());
        }
        let did_work = self.ports.pending(port) > 0;
        self.ports.drain_into(port, messages_produced);
        proof {
            let before = old(self)@;
            let after = before.input_harvested(input as int);
            lemma_cleared_push(before.ports, Seq::empty(), port);
            assert(before.ports.cleared(Seq::empty()) =~~= before.ports);
            assert(Seq::<TargetPort>::empty().push(port) =~= seq![port]);
            assert(self@.scopes =~= after.scopes);
            assert(self@ =~= after);
        }
        did_work
    }

    /// Asks operator `scope` for its progress: buffer `i` of
    /// `messages_consumed` gains what input `i` consumed since the last
    /// call, buffer `0` of `messages_produced` gains what the output
    /// produced, and the operator's own buffers are left empty. Returns
    /// whether there was anything to report. `frontier_progress` is not
    /// read: a merge operator reports the same whatever is outstanding
    /// elsewhere.
    pub fn pull_internal_progress(
        &mut self,
        scope: usize,
        frontier_progress: &mut Vec<Vec<(T, i64)>>,
        messages_consumed: &mut Vec<Vec<(T, i64)>>,
        messages_produced: &mut Vec<Vec<(T, i64)>>,
    ) -> (did_work: bool)
        requires
            old(self)@.wf(),
            scope < old(self)@.scopes.len(),
            old(self)@.scopes[scope as int].consumed.len() <= old(messages_consumed).len(),
            1 <= old(messages_produced).len(),
        ensures
            rows(final(messages_consumed)@) == harvested(
                rows(old(messages_consumed)@),
                old(self)@.scopes[scope as int].consumed_buffers(),
                old(self)@.ports,
            ),
            rows(final(messages_produced)@) == harvested(
                rows(old(messages_produced)@),
                old(self)@.scopes[scope as int].produced_buffers(),
                old(self)@.ports,
            ),
            *final(frontier_progress) == *old(frontier_progress),
            final(self)@ == old(self)@.harvested(scope as int),
            final(self)@.wf(),
            did_work == any_pending(old(self)@.ports, old(self)@.scopes[scope as int].buffers()),
    {
        proof {
            let before = old(self)@;
            assert(before.scopes[scope as int].wired(before.ports.wiring));
            lemma_wired_installed(before.scopes[scope as int], before.ports.wiring);
        }
        let did_work = self.scopes[scope].pull_internal_progress(
            &mut self.ports,
            frontier_progress,
            messages_consumed,
            messages_produced,
        );
        proof {
            let after = old(self)@.harvested(scope as int);
            assert(self@.scopes =~= after.scopes);
            assert(self@ =~= after);
        }
        did_work
    }

    /// Delivers the batch `data`, tagged `time`, into `port`.
    pub fn deliver_data(&mut self, port: TargetPort, time: &T, data: &Vec<D>)
        requires
            old(self)@.wf(),
            old(self)@.ports.wiring.has(port),
            data.len() <= i64::MAX,
        ensures
            final(self)@ == old(self)@.with_ports(old(self)@.ports.delivered(port, *time, data@)),
            final(self)@.wf(),
    {
        self.ports.deliver_data(port, time, data);
        proof {
            let after = old(self)@.with_ports(old(self)@.ports.delivered(port, *time, data@));
            assert(self@.scopes =~= after.scopes);
            assert(self@ =~= after);
        }
    }

    /// Flushes `port` and every port reachable from it.
    pub fn flush(&mut self, port: TargetPort)
        requires
            old(self)@.wf(),
            old(self)@.ports.wiring.has(port),
        ensures
            final(self)@ == old(self)@.with_ports(old(self)@.ports.flushed(port)),
            final(self)@.wf(),
    {
        self.ports.flush(port);
        proof {
            let after = old(self)@.with_ports(old(self)@.ports.flushed(port));
            assert(self@.scopes =~= after.scopes);
            assert(self@ =~= after);
        }
    }
}

} // verus!
