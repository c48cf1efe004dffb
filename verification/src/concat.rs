//! The merge operator: any number of inputs relayed, unchanged, to one
//! output.

use vstd::prelude::*;
use crate::count_map::{lemma_net_count_push, net_count};
use crate::graph::{Graph, GraphView, Source, Stream, Target};
use crate::ports::{copies, Ports, PortsView};
use crate::wiring::{TargetPort, Wiring};
use crate::scope::{
    any_pending, harvested, installed, lemma_any_pending_push, lemma_cleared_push,
    lemma_harvested_push, rows, Scope,
};

verus! {

/// The counting ports of `adapters`, as port handles.
pub open spec fn counted_ports(adapters: Seq<usize>) -> Seq<TargetPort> {
    Seq::new(adapters.len(), |i: int| TargetPort::Counted(adapters[i]))
}

/// The merge operator. It holds no data: what arrives at the counting port
/// of an input goes straight to the operator's output tee. It knows the
/// counting port of each input, whose count map buffers what that input
/// consumed, and its output tee, whose count map buffers what was produced.
pub struct ConcatScope {
    consumed: Vec<usize>,
    produced: usize,
}

/// A merge operator, as a mathematical value.
pub struct ConcatView {
    /// For each input, the index of its counting port.
    pub consumed: Seq<usize>,
    /// The index of the output tee.
    pub produced: usize,
}

impl View for ConcatScope {
    type V = ConcatView;

    closed spec fn view(&self) -> ConcatView {
        ConcatView { consumed: self.consumed@, produced: self.produced }
    }
}

impl ConcatView {
    /// For each input, the port whose count map buffers what was consumed
    /// there.
    pub open spec fn consumed_buffers(self) -> Seq<TargetPort> {
        counted_ports(self.consumed)
    }

    /// The port whose count map buffers what was produced.
    pub open spec fn produced_buffers(self) -> Seq<TargetPort> {
        seq![TargetPort::Tee(self.produced)]
    }

    /// All the operator's buffers: those of the inputs, then that of the
    /// output.
    pub open spec fn buffers(self) -> Seq<TargetPort> {
        self.consumed_buffers() + self.produced_buffers()
    }

    /// Whether the operator is wired into `wiring` as a merge operator has
    /// to be: its output tee exists, its inputs are counting ports that wrap
    /// the output tee, each named once, and no other counting port wraps the
    /// output tee.
    pub open spec fn wired(self, wiring: Wiring) -> bool {
        &&& self.produced < wiring.tees.len()
        &&& self.consumed.no_duplicates()
        &&& forall|i: int|
            0 <= i < self.consumed.len() ==> (#[trigger] self.consumed[i]) < wiring.adapters.len()
                && wiring.adapters[self.consumed[i] as int] == self.produced
        &&& forall|a: int|
            0 <= a < wiring.adapters.len() && #[trigger] wiring.adapters[a] == self.produced
                ==> self.consumed.contains(a as usize)
    }
}

/// A wired merge operator's buffers are count-map ports of the wiring, each
/// named once.
pub proof fn lemma_wired_installed(scope: ConcatView, wiring: Wiring)
    requires
        scope.wired(wiring),
    ensures
        installed(scope.buffers(), wiring),
{
    let buffers = scope.buffers();
    let n = scope.consumed.len() as int;
    assert forall|i: int, j: int|
        0 <= i < buffers.len() && 0 <= j < buffers.len() && i != j implies buffers[i]
        != buffers[j] by {
        if i < n && j < n {
            assert(scope.consumed[i] != scope.consumed[j]);
        }
    }
    assert forall|i: int| 0 <= i < buffers.len() implies wiring.has(#[trigger] buffers[i]) && !(
    buffers[i] is Queue) by {
        if i < n {
            assert(scope.consumed[i] < wiring.adapters.len());
        }
    }
}

impl ConcatScope {
    /// A merge operator whose inputs are the counting ports `consumed`, in
    /// order, and whose output is tee `produced`.
    pub fn new(consumed: Vec<usize>, produced: usize) -> (scope: Self)
        ensures
            scope@ == (ConcatView { consumed: consumed@, produced }),
    {
        ConcatScope { consumed, produced }
    }

    /// The counting port of input `input`.
    pub fn input_port(&self, input: usize) -> (port: TargetPort)
        requires
            input < self@.consumed.len(),
        ensures
            port == TargetPort::Counted(self@.consumed[input as int]),
    {
        TargetPort::Counted(self.consumed[input])
    }

    /// The output tee.
    pub fn output_port(&self) -> (port: TargetPort)
        ensures
            port == TargetPort::Tee(self@.produced),
    {
        TargetPort::Tee(self.produced)
    }
}

impl Scope for ConcatScope {
    open spec fn consumed_buffers(&self) -> Seq<TargetPort> {
        self@.consumed_buffers()
    }

    open spec fn produced_buffers(&self) -> Seq<TargetPort> {
        self@.produced_buffers()
    }

    fn name(&self) -> (name: String)
        ensures
            name@ == "Concat"@,
    {
        "Concat".to_owned()
    }

    fn inputs(&self) -> (n: usize) {
        self.consumed.len()
    }

    fn outputs(&self) -> (n: usize) {
        1
    }

    fn pull_internal_progress<T: Copy, D: Copy>(
        &mut self,
        ports: &mut Ports<T, D>,
        frontier_progress: &mut Vec<Vec<(T, i64)>>,
        messages_consumed: &mut Vec<Vec<(T, i64)>>,
        messages_produced: &mut Vec<Vec<(T, i64)>>,
    ) -> (did_work: bool)
        ensures
            *final(self) == *old(self),
            *final(frontier_progress) == *old(frontier_progress),
    {
        let ghost before = ports@;
        let ghost consumed = self@.consumed_buffers();
        let ghost buffers = self@.buffers();
        let ghost out_before = rows(messages_consumed@);
        let mut did_work = false;
        let n = self.consumed.len();
        let mut index: usize = 0;
        proof {
            assert(before.cleared(consumed.take(0)) =~~= before);
            assert(harvested(out_before, consumed.take(0), before) =~= out_before);
        }
        while index < n
            invariant
                index <= n,
                n == self.consumed.len(),
                *self == *old(self),
                consumed == self@.consumed_buffers(),
                buffers == self@.buffers(),
                installed(buffers, before.wiring),
                before.wf(),
                n <= messages_consumed.len(),
                out_before.len() == messages_consumed.len(),
                ports@ == before.cleared(consumed.take(index as int)),
                rows(messages_consumed@) == harvested(
                    out_before,
                    consumed.take(index as int),
                    before,
                ),
                did_work == any_pending(before, consumed.take(index as int)),
            decreases n - index,
        {
            let port = TargetPort::Counted(self.consumed[index]);
            let ghost done = consumed.take(index as int);
            let ghost out_mid = rows(messages_consumed@);
            proof {
                assert(buffers[index as int] == port);
                assert(consumed.take(index + 1) =~= done.push(port));
                assert(!done.contains(port)) by {
                    if done.contains(port) {
                        let j = choose|j: int| 0 <= j < done.len() && done[j] == port;
                        assert(buffers[j] == port);
                    }
                }
                lemma_cleared_push(before, done, port);
                lemma_harvested_push(out_before, done, port, before);
                lemma_any_pending_push(before, done, port);
            }
            if ports.pending(port) > 0 {
                did_work = true;
            }
            ports.drain_into(port, &mut messages_consumed[index]);
            proof {
                assert(rows(messages_consumed@) =~= out_mid.update(
                    index as int,
                    out_mid[index as int] + before.counts(port),
                ));
            }
            index = index + 1;
        }
        let output = TargetPort::Tee(self.produced);
        let ghost produced_before = rows(messages_produced@);
        proof {
            assert(consumed.take(n as int) =~= consumed);
            assert(buffers[n as int] == output);
            assert(buffers =~= consumed.push(output));
            assert(!consumed.contains(output));
            lemma_cleared_push(before, consumed, output);
            lemma_any_pending_push(before, consumed, output);
        }
        if ports.pending(output) > 0 {
            did_work = true;
        }
        ports.drain_into(output, &mut messages_produced[0]);
        proof {
            assert(rows(messages_produced@) =~= harvested(
                produced_before,
                self@.produced_buffers(),
                before,
            ));
        }
        did_work
    }

    fn notify_me(&self) -> (notify: bool)
        ensures
            !notify,
    {
        false
    }
}

impl<T, D> GraphView<T, D> {
    /// The graph after the streams `first` and `second` were merged.
    ///
    /// The graph gains a tee, the merged output; two counting ports that
    /// wrap it, one for each input; the merge operator over these three; an
    /// edge from each stream to its input of the operator; and each stream's
    /// tee gains the counting port of its input. All the new count maps are
    /// empty.
    pub open spec fn concatenated(self, first: Stream, second: Stream) -> Self {
        let tee = self.ports.wiring.tees.len() as usize;
        let left = self.ports.wiring.adapters.len() as usize;
        let right = (left + 1) as usize;
        let index = self.scopes.len() as usize;
        GraphView {
            ports: self.ports.with_tee().with_counted(tee).with_counted(tee).with_target(
                first.port,
                TargetPort::Counted(left),
            ).with_target(second.port, TargetPort::Counted(right)),
            scopes: self.scopes.push(ConcatView { consumed: seq![left, right], produced: tee }),
            edges: self.edges.push((first.name, Target::ScopeInput(index, 0))).push(
                (second.name, Target::ScopeInput(index, 1)),
            ),
            inputs: self.inputs,
        }
    }
}

/// Merging two streams of a dataflow into one.
pub trait ConcatExtensionTrait: Sized {
    /// The stream that is merged.
    spec fn stream(&self) -> Stream;

    /// Adds to `graph` a merge operator whose first input is this stream and
    /// whose second input is `other`, and returns the operator's output as a
    /// stream. The operator's index is the number of operators that the
    /// graph had.
    fn concat<T: Copy, D: Copy>(&mut self, other: &mut Self, graph: &mut Graph<T, D>) -> (merged:
        Self)
        requires
            old(graph)@.wf(),
            old(graph)@.has_stream(old(self).stream()),
            old(graph)@.has_stream(old(other).stream()),
        ensures
            final(self).stream() == old(self).stream(),
            final(other).stream() == old(other).stream(),
            merged.stream() == (Stream {
                name: Source::ScopeOutput(old(graph)@.scopes.len() as usize, 0),
                port: old(graph)@.ports.wiring.tees.len() as usize,
            }),
            final(graph)@ == old(graph)@.concatenated(old(self).stream(), old(other).stream()),
            final(graph)@.wf(),
            final(graph)@.has_stream(merged.stream()),
    ;
}

impl ConcatExtensionTrait for Stream {
    open spec fn stream(&self) -> Stream {
        *self
    }

    fn concat<T: Copy, D: Copy>(&mut self, other: &mut Stream, graph: &mut Graph<T, D>) -> (merged:
        Stream) {
        let ghost before = graph@;
        let targets = graph.add_tee();
        let left = graph.add_counted(targets);
        let right = graph.add_counted(targets);
        let mut messages: Vec<usize> = Vec::new();
        messages.push(left);
        messages.push(right);
        let concat = ConcatScope::new(messages, targets);
        proof {
            assert(concat@.consumed =~= seq![left, right]);
            let wiring = graph@.ports.wiring;
            assert forall|a: int|
                0 <= a < wiring.adapters.len() && #[trigger] wiring.adapters[a]
                    == concat@.produced implies concat@.consumed.contains(a as usize) by {
                if a < before.ports.wiring.adapters.len() {
                    assert(before.ports.wiring.adapters[a] < before.ports.wiring.tees.len());
                } else if a == left {
                    assert(concat@.consumed[0] == left);
                } else {
                    assert(concat@.consumed[1] == right);
                }
            }
        }
        let index = graph.add_scope(concat);
        let first = graph.connect(self.name, Target::ScopeInput(index, 0));
        let second = graph.connect(other.name, Target::ScopeInput(index, 1));
        assert(first is Ok && second is Ok);
        graph.add_target(self.port, TargetPort::Counted(left));
        graph.add_target(other.port, TargetPort::Counted(right));
        proof {
            assert(graph@ =~~= before.concatenated(*old(self), *old(other)));
        }
        self.copy_with(Source::ScopeOutput(index, 0), targets)
    }
}

/// A merge operator starts with nothing to report: right after two streams
/// were merged, the new operator has two inputs and every one of its buffers
/// is empty.
pub proof fn lemma_concat_starts_empty<T, D>(graph: GraphView<T, D>, first: Stream, second: Stream)
    requires
        graph.wf(),
        graph.concatenated(first, second).wf(),
    ensures
        ({
            let after = graph.concatenated(first, second);
            let scope = after.scopes.last();
            &&& scope.consumed.len() == 2
            &&& forall|i: int|
                0 <= i < scope.buffers().len() ==> (#[trigger] after.ports.counts(
                    scope.buffers()[i],
                )).len() == 0
        }),
{
    let after = graph.concatenated(first, second);
    let scope = after.scopes.last();
    assert forall|i: int| 0 <= i < scope.buffers().len() implies (#[trigger] after.ports.counts(
        scope.buffers()[i],
    )).len() == 0 by {
        let tees = graph.ports.wiring.tees.len();
        let adapters = graph.ports.wiring.adapters.len();
        assert(after.ports.wiring.tees.len() == tees + 1);
        assert(after.ports.wiring.adapters.len() == adapters + 2);
        if i < 2 {
            assert(scope.buffers()[i] == TargetPort::Counted(scope.consumed[i]));
            assert(scope.consumed[i] == adapters + i);
        } else {
            assert(scope.buffers()[i] == TargetPort::Tee(scope.produced));
            assert(scope.produced == tees);
        }
    }
}

/// Batch-size fidelity: when a batch of `n` values tagged `time` is delivered
/// into input `input` of a wired merge operator, the count map of that input
/// gains the one pair `(time, n)`, after what it held, the count maps of the
/// other inputs stay as they were, and the count map of the output gains the
/// same pair. At the next harvest the caller's buffer for the input gains
/// what the map held before and then `(time, n)`, which adds `n` to the net
/// count of `time` there.
pub proof fn lemma_batch_size_fidelity<T, D>(
    view: PortsView<T, D>,
    scope: ConcatView,
    input: int,
    time: T,
    data: Seq<D>,
    out: Seq<Seq<(T, i64)>>,
)
    requires
        view.wf(),
        scope.wired(view.wiring),
        0 <= input < scope.consumed.len() <= out.len(),
        data.len() <= i64::MAX,
    ensures
        ({
            let port = TargetPort::Counted(scope.consumed[input]);
            let after = view.delivered(port, time, data);
            let delta = (time, data.len() as i64);
            &&& after.counts(port) == view.counts(port).push(delta)
            &&& forall|other: int|
                0 <= other < scope.consumed.len() && other != input ==> after.counts(
                    #[trigger] scope.consumed_buffers()[other],
                ) == view.counts(scope.consumed_buffers()[other])
            &&& after.counts(TargetPort::Tee(scope.produced)) == view.counts(
                TargetPort::Tee(scope.produced),
            ).push(delta)
            &&& harvested(out, scope.consumed_buffers(), after)[input] == (out[input]
                + view.counts(port)).push(delta)
            &&& net_count(harvested(out, scope.consumed_buffers(), after)[input], time)
                == net_count(harvested(out, scope.consumed_buffers(), view)[input], time)
                + data.len()
        }),
{
    let wiring = view.wiring;
    let adapter = scope.consumed[input];
    let port = TargetPort::Counted(adapter);
    let output = TargetPort::Tee(scope.produced);
    let after = view.delivered(port, time, data);
    let delta = (time, data.len() as i64);
    assert(adapter < wiring.adapters.len() && wiring.adapters[adapter as int] == scope.produced);
    view.lemma_delivery_recorded_once(port, time, data);
    assert forall|other: int|
        0 <= other < scope.consumed.len() && other != input implies after.counts(
        #[trigger] scope.consumed_buffers()[other],
    ) == view.counts(scope.consumed_buffers()[other]) by {
        let sibling = scope.consumed[other];
        assert(sibling < wiring.adapters.len() && wiring.adapters[sibling as int]
            == scope.produced);
        assert(sibling != adapter);
        wiring.lemma_visits_through_counted(adapter, TargetPort::Counted(sibling));
        wiring.lemma_visits_none_above(output, TargetPort::Counted(sibling));
        assert(copies(delta, 0) =~= Seq::<(T, i64)>::empty());
        assert(after.counts(TargetPort::Counted(sibling)) =~= view.counts(
            TargetPort::Counted(sibling),
        ));
    }
    wiring.lemma_visits_through_counted(adapter, output);
    wiring.lemma_visits_entry_once(output);
    assert(copies(delta, 1) =~= seq![delta]);
    assert(after.counts(output) =~= view.counts(output).push(delta));
    assert(harvested(out, scope.consumed_buffers(), after)[input] =~= (out[input] + view.counts(
        port,
    )).push(delta));
    lemma_net_count_push(out[input] + view.counts(port), time, data.len() as i64, time);
}

} // verus!
