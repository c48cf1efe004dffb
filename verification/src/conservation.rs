//! The merge operator neither creates nor drops messages: what it reports as
//! consumed, all inputs and all rounds together, is what it reports as
//! produced.

use vstd::prelude::*;
use vstd::multiset::Multiset;
use vstd::seq_lib::lemma_multiset_commutative;
use crate::concat::ConcatView;
use crate::graph::GraphView;
use crate::ports::{copies, PortsView};
use crate::wiring::{TargetPort, Wiring};
use crate::scope::harvested;

verus! {

/// The pairs that the count maps of the counting ports `consumed` hold, all
/// together and without their order.
pub open spec fn pending_consumed<T, D>(view: PortsView<T, D>, consumed: Seq<usize>) -> Multiset<
    (T, i64),
>
    decreases consumed.len(),
{
    if consumed.len() == 0 {
        Multiset::empty()
    } else {
        pending_consumed(view, consumed.drop_last()).add(
            view.adapter_counts[consumed.last() as int].to_multiset(),
        )
    }
}

/// The pairs that the count map of the operator's output tee holds, without
/// their order.
pub open spec fn pending_produced<T, D>(view: PortsView<T, D>, scope: ConcatView) -> Multiset<
    (T, i64),
> {
    view.tee_counts[scope.produced as int].to_multiset()
}

/// The pairs in the first `upto` of the caller's buffers, all together and
/// without their order.
pub open spec fn reported<T>(out: Seq<Seq<(T, i64)>>, upto: nat) -> Multiset<(T, i64)>
    decreases upto,
{
    if upto == 0 {
        Multiset::empty()
    } else {
        reported(out, (upto - 1) as nat).add(out[upto - 1].to_multiset())
    }
}

/// One thing that happens to a dataflow between its construction and its
/// end.
pub enum Step<T, D> {
    /// A batch, with its timestamp, is delivered into a port.
    Deliver(TargetPort, T, Seq<D>),
    /// A port is flushed.
    Flush(TargetPort),
    /// The merge operator is asked for its progress.
    Harvest,
    /// The count maps of some ports are emptied, as when another operator
    /// or an input of the graph is asked for its progress.
    Clear(Seq<TargetPort>),
}

/// The ports of a dataflow together with the buffers in which the scheduler
/// collects what a merge operator reports, round after round.
pub struct Ledger<T, D> {
    /// The arena of ports.
    pub ports: PortsView<T, D>,
    /// For each input of the operator, everything reported as consumed
    /// there so far.
    pub consumed_out: Seq<Seq<(T, i64)>>,
    /// In its first buffer, everything reported as produced so far.
    pub produced_out: Seq<Seq<(T, i64)>>,
}

impl<T, D> Ledger<T, D> {
    /// The ledger after `step`.
    pub open spec fn step(self, scope: ConcatView, step: Step<T, D>) -> Self {
        match step {
            Step::Deliver(port, time, data) => Ledger {
                ports: self.ports.delivered(port, time, data),
                ..self
            },
            Step::Flush(port) => Ledger { ports: self.ports.flushed(port), ..self },
            Step::Harvest => Ledger {
                ports: self.ports.cleared(scope.buffers()),
                consumed_out: harvested(self.consumed_out, scope.consumed_buffers(), self.ports),
                produced_out: harvested(self.produced_out, scope.produced_buffers(), self.ports),
            },
            Step::Clear(ports) => Ledger { ports: self.ports.cleared(ports), ..self },
        }
    }

    /// The ledger after `steps`, one after the other.
    pub open spec fn run(self, scope: ConcatView, steps: Seq<Step<T, D>>) -> Self
        decreases steps.len(),
    {
        if steps.len() == 0 {
            self
        } else {
            self.run(scope, steps.drop_last()).step(scope, steps.last())
        }
    }

    /// Everything the operator consumed: what was reported for its inputs,
    /// all together, and what its inputs' count maps still hold.
    pub open spec fn consumed(self, scope: ConcatView) -> Multiset<(T, i64)> {
        reported(self.consumed_out, scope.consumed.len()).add(
            pending_consumed(self.ports, scope.consumed),
        )
    }

    /// Everything the operator produced: what was reported for its output
    /// and what its output's count map still holds.
    pub open spec fn produced(self, scope: ConcatView) -> Multiset<(T, i64)> {
        reported(self.produced_out, 1).add(pending_produced(self.ports, scope))
    }

    /// Whether the ledger fits the operator: the ports are well formed and
    /// flat, the operator is wired into them, and there is a buffer for each
    /// input and for the output.
    pub open spec fn fits(self, scope: ConcatView) -> bool {
        &&& self.ports.wf()
        &&& self.ports.wiring.flat()
        &&& scope.wired(self.ports.wiring)
        &&& scope.consumed.len() <= self.consumed_out.len()
        &&& 1 <= self.produced_out.len()
    }
}

/// Whether `step` leaves the operator's accounting to the operator: data
/// reaches the operator's output tee through the operator's inputs only,
/// and nobody else empties the operator's buffers.
pub open spec fn admissible<T, D>(scope: ConcatView, step: Step<T, D>) -> bool {
    match step {
        Step::Deliver(port, _, _) => port != TargetPort::Tee(scope.produced),
        Step::Clear(ports) => forall|i: int|
            0 <= i < scope.buffers().len() ==> !ports.contains(#[trigger] scope.buffers()[i]),
        _ => true,
    }
}

/// Conservation: whatever is delivered and flushed, in whatever order, and
/// whenever the operator is asked, the pairs that the merge operator has
/// consumed on all its inputs together are the pairs that it has produced,
/// timestamp for timestamp and count for count. Right after a harvest
/// nothing is pending, and what was reported as consumed, all inputs and all
/// rounds together, is what was reported as produced.
pub proof fn lemma_conservation<T, D>(
    ledger: Ledger<T, D>,
    scope: ConcatView,
    steps: Seq<Step<T, D>>,
)
    requires
        ledger.fits(scope),
        ledger.consumed(scope) == ledger.produced(scope),
        forall|i: int| 0 <= i < steps.len() ==> admissible(scope, #[trigger] steps[i]),
    ensures
        ledger.run(scope, steps).fits(scope),
        ledger.run(scope, steps).ports.wiring == ledger.ports.wiring,
        ledger.run(scope, steps).consumed(scope) == ledger.run(scope, steps).produced(scope),
        steps.len() > 0 && steps.last() is Harvest ==> reported(
            ledger.run(scope, steps).consumed_out,
            scope.consumed.len(),
        ) == reported(ledger.run(scope, steps).produced_out, 1),
    decreases steps.len(),
{
    if steps.len() > 0 {
        let earlier = steps.drop_last();
        assert forall|i: int| 0 <= i < earlier.len() implies admissible(
            scope,
            #[trigger] earlier[i],
        ) by {
            assert(earlier[i] == steps[i]);
        }
        lemma_conservation(ledger, scope, earlier);
        lemma_step_conserves(ledger.run(scope, earlier), scope, steps.last());
    }
}

/// Conservation in a graph: every merge operator of a well-formed graph
/// conserves, whatever else the graph holds.
pub proof fn lemma_graph_conserves<T, D>(
    graph: GraphView<T, D>,
    index: int,
    consumed_out: Seq<Seq<(T, i64)>>,
    produced_out: Seq<Seq<(T, i64)>>,
    steps: Seq<Step<T, D>>,
)
    requires
        graph.wf(),
        0 <= index < graph.scopes.len(),
        graph.scopes[index].consumed.len() <= consumed_out.len(),
        1 <= produced_out.len(),
        (Ledger { ports: graph.ports, consumed_out, produced_out }).consumed(graph.scopes[index])
            == (Ledger { ports: graph.ports, consumed_out, produced_out }).produced(
            graph.scopes[index],
        ),
        forall|i: int|
            0 <= i < steps.len() ==> admissible(graph.scopes[index], #[trigger] steps[i]),
    ensures
        ({
            let scope = graph.scopes[index];
            let end = (Ledger { ports: graph.ports, consumed_out, produced_out }).run(scope, steps);
            &&& end.consumed(scope) == end.produced(scope)
            &&& steps.len() > 0 && steps.last() is Harvest ==> reported(
                end.consumed_out,
                scope.consumed.len(),
            ) == reported(end.produced_out, 1)
        }),
{
    let scope = graph.scopes[index];
    assert(scope.wired(graph.ports.wiring));
    lemma_conservation(Ledger { ports: graph.ports, consumed_out, produced_out }, scope, steps);
}

/// In a well-formed graph the operators keep apart: the buffers of one are
/// not buffers of another, nor is the tee of an input of the graph. So one
/// operator's accounting is left alone when another operator, or an input,
/// is asked for its progress.
pub proof fn lemma_operators_apart<T, D>(graph: GraphView<T, D>, index: int)
    requires
        graph.wf(),
        0 <= index < graph.scopes.len(),
    ensures
        forall|other: int|
            0 <= other < graph.scopes.len() && other != index ==> admissible(
                graph.scopes[index],
                Step::<T, D>::Clear((#[trigger] graph.scopes[other]).buffers()),
            ),
        forall|input: int|
            0 <= input < graph.inputs.len() ==> admissible(
                graph.scopes[index],
                Step::<T, D>::Clear(seq![TargetPort::Tee(#[trigger] graph.inputs[input])]),
            ),
{
    let scope = graph.scopes[index];
    let wiring = graph.ports.wiring;
    assert(scope.wired(wiring));
    assert forall|other: int|
        0 <= other < graph.scopes.len() && other != index implies admissible(
        scope,
        Step::<T, D>::Clear((#[trigger] graph.scopes[other]).buffers()),
    ) by {
        let theirs = graph.scopes[other];
        assert(theirs.wired(wiring));
        assert(theirs.produced != scope.produced);
        assert forall|i: int| 0 <= i < scope.buffers().len() implies !theirs.buffers().contains(
            #[trigger] scope.buffers()[i],
        ) by {
            if theirs.buffers().contains(scope.buffers()[i]) {
                let j = choose|j: int|
                    0 <= j < theirs.buffers().len() && theirs.buffers()[j] == scope.buffers()[i];
                if i < scope.consumed.len() {
                    assert(wiring.adapters[scope.consumed[i] as int] == scope.produced);
                    if j < theirs.consumed.len() {
                        assert(wiring.adapters[theirs.consumed[j] as int] == theirs.produced);
                    }
                }
            }
        }
    }
    assert forall|input: int| 0 <= input < graph.inputs.len() implies admissible(
        scope,
        Step::<T, D>::Clear(seq![TargetPort::Tee(#[trigger] graph.inputs[input])]),
    ) by {
        let theirs = seq![TargetPort::Tee(graph.inputs[input])];
        assert(scope.produced != graph.inputs[input]);
        assert forall|i: int| 0 <= i < scope.buffers().len() implies !theirs.contains(
            #[trigger] scope.buffers()[i],
        ) by {
            if theirs.contains(scope.buffers()[i]) {
                let j = choose|j: int| 0 <= j < theirs.len() && theirs[j] == scope.buffers()[i];
            }
        }
    }
}

/// A ledger in which nothing was reported and nothing is pending, as it is
/// when the operator was just made, is conserved.
pub proof fn lemma_fresh_ledger<T, D>(ledger: Ledger<T, D>, scope: ConcatView)
    requires
        ledger.fits(scope),
        forall|i: int|
            0 <= i < scope.consumed.len() ==> (#[trigger] ledger.consumed_out[i]).len() == 0,
        ledger.produced_out[0].len() == 0,
        forall|i: int|
            0 <= i < scope.buffers().len() ==> (#[trigger] ledger.ports.counts(
                scope.buffers()[i],
            )).len() == 0,
    ensures
        ledger.consumed(scope) == Multiset::<(T, i64)>::empty(),
        ledger.produced(scope) == Multiset::<(T, i64)>::empty(),
{
    broadcast use vstd::multiset::group_multiset_axioms;

    lemma_nothing_reported(ledger.consumed_out, scope.consumed.len());
    lemma_nothing_reported(ledger.produced_out, 1);
    assert(scope.consumed.take(scope.consumed.len() as int) =~= scope.consumed);
    lemma_nothing_pending(ledger.ports, scope, scope.consumed.len());
    assert(scope.buffers()[scope.consumed.len() as int] == TargetPort::Tee(scope.produced));
    assert(ledger.ports.counts(scope.buffers()[scope.consumed.len() as int]).len() == 0);
    lemma_empty_multiset(ledger.ports.tee_counts[scope.produced as int]);
    assert(ledger.consumed(scope) =~= Multiset::<(T, i64)>::empty());
    assert(ledger.produced(scope) =~= Multiset::<(T, i64)>::empty());
}

/// Conservation, one step at a time: a step that leaves the accounting to
/// the operator adds the same pairs to what the operator consumed as to what
/// it produced.
pub proof fn lemma_step_conserves<T, D>(ledger: Ledger<T, D>, scope: ConcatView, step: Step<T, D>)
    requires
        ledger.fits(scope),
        admissible(scope, step),
        ledger.consumed(scope) == ledger.produced(scope),
    ensures
        ledger.step(scope, step).fits(scope),
        ledger.step(scope, step).ports.wiring == ledger.ports.wiring,
        ledger.step(scope, step).consumed(scope) == ledger.step(scope, step).produced(scope),
        step is Harvest ==> reported(
            ledger.step(scope, step).consumed_out,
            scope.consumed.len(),
        ) == reported(ledger.step(scope, step).produced_out, 1),
{
    broadcast use vstd::multiset::group_multiset_axioms;

    let after = ledger.step(scope, step);
    match step {
        Step::Deliver(port, time, data) => {
            lemma_delivery_conserves(ledger.ports, scope, port, time, data);
            let batch = copies(
                (time, data.len() as i64),
                ledger.ports.wiring.visits(port, TargetPort::Tee(scope.produced)),
            ).to_multiset();
            assert(after.consumed(scope) =~= ledger.consumed(scope).add(batch));
            assert(after.produced(scope) =~= ledger.produced(scope).add(batch));
        },
        Step::Flush(port) => {
            lemma_flush_conserves(ledger.ports, scope, port);
        },
        Step::Clear(ports) => {
            lemma_clear_conserves(ledger.ports, scope, ports);
        },
        Step::Harvest => {
            lemma_harvest_reports(ledger.ports, scope, ledger.consumed_out, ledger.produced_out);
            lemma_harvest_clears(ledger.ports, scope);
            assert(after.consumed(scope) =~= ledger.consumed(scope));
            assert(after.produced(scope) =~= ledger.produced(scope));
            assert(after.consumed(scope) =~= reported(after.consumed_out, scope.consumed.len()));
            assert(after.produced(scope) =~= reported(after.produced_out, 1));
        },
    }
}

/// What one delivery adds to the buffers of a merge operator: the count
/// maps of the inputs, taken together, gain the same pairs as the count map
/// of the output, unless the delivery enters at the output tee itself.
pub proof fn lemma_delivery_conserves<T, D>(
    view: PortsView<T, D>,
    scope: ConcatView,
    entry: TargetPort,
    time: T,
    data: Seq<D>,
)
    requires
        view.wf(),
        view.wiring.flat(),
        scope.wired(view.wiring),
        entry != TargetPort::Tee(scope.produced),
    ensures
        pending_consumed(view.delivered(entry, time, data), scope.consumed) == pending_consumed(
            view,
            scope.consumed,
        ).add(
            copies(
                (time, data.len() as i64),
                view.wiring.visits(entry, TargetPort::Tee(scope.produced)),
            ).to_multiset(),
        ),
        pending_produced(view.delivered(entry, time, data), scope) == pending_produced(
            view,
            scope,
        ).add(
            copies(
                (time, data.len() as i64),
                view.wiring.visits(entry, TargetPort::Tee(scope.produced)),
            ).to_multiset(),
        ),
{
    let delta = (time, data.len() as i64);
    let relayed = view.wiring.visits(entry, TargetPort::Tee(scope.produced));
    lemma_relayed(view.wiring, scope, entry);
    lemma_delivery_consumed(view, scope.consumed, entry, time, data);
    lemma_multiset_commutative(view.tee_counts[scope.produced as int], copies(delta, relayed));
}

/// A flush changes no count map.
pub proof fn lemma_flush_conserves<T, D>(
    view: PortsView<T, D>,
    scope: ConcatView,
    entry: TargetPort,
)
    ensures
        pending_consumed(view.flushed(entry), scope.consumed) == pending_consumed(
            view,
            scope.consumed,
        ),
        pending_produced(view.flushed(entry), scope) == pending_produced(view, scope),
{
    lemma_same_counts(view, view.flushed(entry), scope.consumed);
}

/// Emptying count maps that are not the operator's leaves the operator's
/// buffers as they were.
pub proof fn lemma_clear_conserves<T, D>(
    view: PortsView<T, D>,
    scope: ConcatView,
    ports: Seq<TargetPort>,
)
    requires
        view.wf(),
        scope.wired(view.wiring),
        forall|i: int|
            0 <= i < scope.buffers().len() ==> !ports.contains(#[trigger] scope.buffers()[i]),
    ensures
        pending_consumed(view.cleared(ports), scope.consumed) == pending_consumed(
            view,
            scope.consumed,
        ),
        pending_produced(view.cleared(ports), scope) == pending_produced(view, scope),
{
    assert(scope.consumed.take(scope.consumed.len() as int) =~= scope.consumed);
    lemma_clear_keeps(view, scope, ports, scope.consumed.len());
    assert(scope.buffers()[scope.consumed.len() as int] == TargetPort::Tee(scope.produced));
}

/// What one harvest reports: the caller's buffers for the inputs, taken
/// together, gain what the inputs' count maps held, and the caller's buffer
/// for the output gains what the output's count map held.
pub proof fn lemma_harvest_reports<T, D>(
    view: PortsView<T, D>,
    scope: ConcatView,
    consumed_out: Seq<Seq<(T, i64)>>,
    produced_out: Seq<Seq<(T, i64)>>,
)
    requires
        scope.consumed.len() <= consumed_out.len(),
        1 <= produced_out.len(),
    ensures
        reported(
            harvested(consumed_out, scope.consumed_buffers(), view),
            scope.consumed.len(),
        ) == reported(consumed_out, scope.consumed.len()).add(
            pending_consumed(view, scope.consumed),
        ),
        reported(harvested(produced_out, scope.produced_buffers(), view), 1) == reported(
            produced_out,
            1,
        ).add(pending_produced(view, scope)),
{
    broadcast use vstd::multiset::group_multiset_axioms;

    assert(scope.consumed.take(scope.consumed.len() as int) =~= scope.consumed);
    lemma_harvest_reported(view, scope, consumed_out, scope.consumed.len());
    let after = harvested(produced_out, scope.produced_buffers(), view);
    assert(after[0] == produced_out[0] + view.tee_counts[scope.produced as int]);
    lemma_multiset_commutative(produced_out[0], view.tee_counts[scope.produced as int]);
    assert(reported(after, 0) =~= reported(produced_out, 0));
    assert(reported(after, 1) =~= reported(produced_out, 1).add(pending_produced(view, scope)));
}

/// After a harvest the operator's buffers hold nothing.
pub proof fn lemma_harvest_clears<T, D>(view: PortsView<T, D>, scope: ConcatView)
    requires
        view.wf(),
        scope.wired(view.wiring),
    ensures
        pending_consumed(view.cleared(scope.buffers()), scope.consumed) == Multiset::<
            (T, i64),
        >::empty(),
        pending_produced(view.cleared(scope.buffers()), scope) == Multiset::<(T, i64)>::empty(),
        forall|i: int|
            0 <= i < scope.buffers().len() ==> (#[trigger] view.cleared(scope.buffers()).counts(
                scope.buffers()[i],
            )).len() == 0,
{
    let buffers = scope.buffers();
    let after = view.cleared(buffers);
    assert(scope.consumed.take(scope.consumed.len() as int) =~= scope.consumed);
    lemma_cleared_consumed(view, scope, scope.consumed.len());
    assert(buffers[scope.consumed.len() as int] == TargetPort::Tee(scope.produced));
    assert(after.tee_counts[scope.produced as int] =~= Seq::<(T, i64)>::empty());
    lemma_empty_multiset(after.tee_counts[scope.produced as int]);
    assert forall|i: int| 0 <= i < buffers.len() implies (#[trigger] after.counts(
        buffers[i],
    )).len() == 0 by {
        if i < scope.consumed.len() {
            assert(scope.consumed[i] < view.wiring.adapters.len());
        }
    }
}

/// How often a delivery into `entry` passes through the counting ports
/// `consumed`, all together.
pub open spec fn visits_inputs(wiring: Wiring, entry: TargetPort, consumed: Seq<usize>) -> nat
    decreases consumed.len(),
{
    if consumed.len() == 0 {
        0
    } else {
        visits_inputs(wiring, entry, consumed.drop_last()) + wiring.visits(
            entry,
            TargetPort::Counted(consumed.last()),
        )
    }
}

/// A delivery that enters anywhere but at a merge operator's output tee
/// passes through that tee as often as it passes through the counting ports
/// of the operator's inputs, all together.
pub proof fn lemma_relayed(wiring: Wiring, scope: ConcatView, entry: TargetPort)
    requires
        wiring.wf(),
        wiring.flat(),
        scope.wired(wiring),
        entry != TargetPort::Tee(scope.produced),
    ensures
        visits_inputs(wiring, entry, scope.consumed) == wiring.visits(
            entry,
            TargetPort::Tee(scope.produced),
        ),
    decreases wiring.level(entry), 1nat, 0nat,
{
    let output = TargetPort::Tee(scope.produced);
    match entry {
        TargetPort::Tee(k) => {
            if k < wiring.tees.len() {
                lemma_inputs_of_tee(wiring, k, scope.consumed);
                lemma_relayed_fanout(wiring, scope, k as int, wiring.tees[k as int].len());
            } else {
                lemma_inputs_outside(wiring, entry, scope.consumed);
            }
        },
        TargetPort::Counted(a) => {
            if a < wiring.adapters.len() {
                let tee = wiring.adapters[a as int];
                assert(tee < wiring.tees.len());
                lemma_inputs_of_counted(wiring, a, scope.consumed);
                if tee == scope.produced {
                    assert(scope.consumed.contains(a));
                    assert(scope.consumed.take(scope.consumed.len() as int) =~= scope.consumed);
                    lemma_inputs_none_above(wiring, scope, scope.consumed.len());
                    wiring.lemma_visits_entry_once(output);
                } else {
                    if scope.consumed.contains(a) {
                        let i = choose|i: int|
                            0 <= i < scope.consumed.len() && scope.consumed[i] == a;
                        assert(wiring.adapters[scope.consumed[i] as int] == scope.produced);
                    }
                    lemma_relayed(wiring, scope, TargetPort::Tee(tee));
                }
            } else {
                lemma_inputs_outside(wiring, entry, scope.consumed);
            }
        },
        TargetPort::Queue(q) => {
            lemma_inputs_of_queue(wiring, q, scope.consumed);
        },
    }
}

/// How often a delivery into the first `upto` ports registered with tee
/// `tee` passes through the counting ports `consumed`, all together.
spec fn fanout_inputs(wiring: Wiring, tee: int, upto: nat, consumed: Seq<usize>) -> nat
    decreases consumed.len(),
{
    if consumed.len() == 0 {
        0
    } else {
        fanout_inputs(wiring, tee, upto, consumed.drop_last()) + wiring.visits_fanout(
            tee,
            upto,
            TargetPort::Counted(consumed.last()),
        )
    }
}

proof fn lemma_relayed_fanout(wiring: Wiring, scope: ConcatView, tee: int, upto: nat)
    requires
        wiring.wf(),
        wiring.flat(),
        scope.wired(wiring),
        0 <= tee < wiring.tees.len(),
        upto <= wiring.tees[tee].len(),
    ensures
        fanout_inputs(wiring, tee, upto, scope.consumed) == wiring.visits_fanout(
            tee,
            upto,
            TargetPort::Tee(scope.produced),
        ),
    decreases wiring.level(TargetPort::Tee(tee as usize)), 0nat, upto,
{
    if upto == 0 {
        lemma_fanout_inputs_none(wiring, tee, scope.consumed);
    } else {
        let target = wiring.tees[tee][upto - 1];
        assert(wiring.below(tee, target));
        assert(!(target is Tee));
        lemma_fanout_inputs_step(wiring, tee, upto, scope.consumed);
        lemma_relayed_fanout(wiring, scope, tee, (upto - 1) as nat);
        lemma_relayed(wiring, scope, target);
    }
}

proof fn lemma_inputs_of_tee(wiring: Wiring, tee: usize, consumed: Seq<usize>)
    requires
        tee < wiring.tees.len(),
    ensures
        visits_inputs(wiring, TargetPort::Tee(tee), consumed) == fanout_inputs(
            wiring,
            tee as int,
            wiring.tees[tee as int].len(),
            consumed,
        ),
    decreases consumed.len(),
{
    if consumed.len() > 0 {
        lemma_inputs_of_tee(wiring, tee, consumed.drop_last());
    }
}

proof fn lemma_inputs_of_counted(wiring: Wiring, adapter: usize, consumed: Seq<usize>)
    requires
        wiring.wf(),
        adapter < wiring.adapters.len(),
        consumed.no_duplicates(),
    ensures
        visits_inputs(wiring, TargetPort::Counted(adapter), consumed) == visits_inputs(
            wiring,
            TargetPort::Tee(wiring.adapters[adapter as int]),
            consumed,
        ) + if consumed.contains(adapter) {
            1nat
        } else {
            0nat
        },
    decreases consumed.len(),
{
    if consumed.len() > 0 {
        let rest = consumed.drop_last();
        let last = consumed.last();
        assert(wiring.adapters[adapter as int] < wiring.tees.len());
        assert forall|i: int, j: int|
            0 <= i < rest.len() && 0 <= j < rest.len() && i != j implies rest[i] != rest[j] by {
            assert(consumed[i] != consumed[j]);
        }
        lemma_inputs_of_counted(wiring, adapter, rest);
        if rest.contains(adapter) {
            let j = choose|j: int| 0 <= j < rest.len() && rest[j] == adapter;
            assert(consumed[j] == adapter);
            assert(last != adapter);
        }
        if last == adapter {
            assert(consumed[consumed.len() - 1] == adapter);
        }
        if consumed.contains(adapter) && last != adapter {
            let j = choose|j: int| 0 <= j < consumed.len() && consumed[j] == adapter;
            assert(rest[j] == adapter);
        }
    } else {
        assert(!consumed.contains(adapter));
    }
}

proof fn lemma_inputs_of_queue(wiring: Wiring, queue: usize, consumed: Seq<usize>)
    ensures
        visits_inputs(wiring, TargetPort::Queue(queue), consumed) == 0,
    decreases consumed.len(),
{
    if consumed.len() > 0 {
        lemma_inputs_of_queue(wiring, queue, consumed.drop_last());
    }
}

proof fn lemma_inputs_outside(wiring: Wiring, entry: TargetPort, consumed: Seq<usize>)
    requires
        !wiring.has(entry),
        forall|i: int| 0 <= i < consumed.len() ==> (#[trigger] consumed[i]) < wiring.adapters.len(),
    ensures
        visits_inputs(wiring, entry, consumed) == 0,
    decreases consumed.len(),
{
    if consumed.len() > 0 {
        let rest = consumed.drop_last();
        assert forall|i: int| 0 <= i < rest.len() implies (#[trigger] rest[i])
            < wiring.adapters.len() by {
            assert(rest[i] == consumed[i]);
        }
        lemma_inputs_outside(wiring, entry, rest);
        assert(consumed[consumed.len() - 1] < wiring.adapters.len());
    }
}

proof fn lemma_fanout_inputs_none(wiring: Wiring, tee: int, consumed: Seq<usize>)
    ensures
        fanout_inputs(wiring, tee, 0, consumed) == 0,
    decreases consumed.len(),
{
    if consumed.len() > 0 {
        lemma_fanout_inputs_none(wiring, tee, consumed.drop_last());
    }
}

proof fn lemma_fanout_inputs_step(wiring: Wiring, tee: int, upto: nat, consumed: Seq<usize>)
    requires
        wiring.wf(),
        0 <= tee < wiring.tees.len(),
        0 < upto <= wiring.tees[tee].len(),
    ensures
        fanout_inputs(wiring, tee, upto, consumed) == fanout_inputs(
            wiring,
            tee,
            (upto - 1) as nat,
            consumed,
        ) + visits_inputs(wiring, wiring.tees[tee][upto - 1], consumed),
    decreases consumed.len(),
{
    if consumed.len() > 0 {
        assert(wiring.below(tee, wiring.tees[tee][upto - 1]));
        lemma_fanout_inputs_step(wiring, tee, upto, consumed.drop_last());
    }
}

proof fn lemma_inputs_none_above(wiring: Wiring, scope: ConcatView, upto: nat)
    requires
        wiring.wf(),
        scope.wired(wiring),
        upto <= scope.consumed.len(),
    ensures
        visits_inputs(wiring, TargetPort::Tee(scope.produced), scope.consumed.take(upto as int))
            == 0,
    decreases upto,
{
    let inputs = scope.consumed.take(upto as int);
    if upto > 0 {
        let last = scope.consumed[upto - 1];
        assert(inputs.drop_last() =~= scope.consumed.take(upto - 1));
        lemma_inputs_none_above(wiring, scope, (upto - 1) as nat);
        assert(last < wiring.adapters.len() && wiring.adapters[last as int] == scope.produced);
        wiring.lemma_visits_none_above(
            TargetPort::Tee(scope.produced),
            TargetPort::Counted(last),
        );
    }
}

proof fn lemma_empty_multiset<A>(items: Seq<A>)
    requires
        items.len() == 0,
    ensures
        items.to_multiset() == Multiset::<A>::empty(),
{
    vstd::seq_lib::to_multiset_len(items);
    vstd::multiset::lemma_multiset_empty_len(items.to_multiset());
}

proof fn lemma_copies_multiset<A>(item: A, m: nat, n: nat)
    ensures
        copies(item, m + n).to_multiset() == copies(item, m).to_multiset().add(
            copies(item, n).to_multiset(),
        ),
{
    assert(copies(item, m + n) =~= copies(item, m) + copies(item, n));
    lemma_multiset_commutative(copies(item, m), copies(item, n));
}

proof fn lemma_delivery_consumed<T, D>(
    view: PortsView<T, D>,
    consumed: Seq<usize>,
    entry: TargetPort,
    time: T,
    data: Seq<D>,
)
    requires
        view.wf(),
        forall|i: int|
            0 <= i < consumed.len() ==> (#[trigger] consumed[i]) < view.wiring.adapters.len(),
    ensures
        pending_consumed(view.delivered(entry, time, data), consumed) == pending_consumed(
            view,
            consumed,
        ).add(
            copies(
                (time, data.len() as i64),
                visits_inputs(view.wiring, entry, consumed),
            ).to_multiset(),
        ),
    decreases consumed.len(),
{
    broadcast use vstd::multiset::group_multiset_axioms;

    let delta = (time, data.len() as i64);
    let after = view.delivered(entry, time, data);
    if consumed.len() == 0 {
        lemma_empty_multiset(copies(delta, 0));
        assert(pending_consumed(after, consumed) =~= pending_consumed(view, consumed).add(
            copies(delta, 0).to_multiset(),
        ));
    } else {
        let rest = consumed.drop_last();
        let last = consumed.last();
        assert forall|i: int| 0 <= i < rest.len() implies (#[trigger] rest[i])
            < view.wiring.adapters.len() by {
            assert(rest[i] == consumed[i]);
        }
        lemma_delivery_consumed(view, rest, entry, time, data);
        assert(consumed[consumed.len() - 1] < view.wiring.adapters.len());
        let here = view.wiring.visits(entry, TargetPort::Counted(last));
        let others = visits_inputs(view.wiring, entry, rest);
        assert(after.adapter_counts[last as int] == view.adapter_counts[last as int] + copies(
            delta,
            here,
        ));
        lemma_multiset_commutative(view.adapter_counts[last as int], copies(delta, here));
        lemma_copies_multiset(delta, others, here);
        assert(pending_consumed(after, consumed) =~= pending_consumed(view, consumed).add(
            copies(delta, others + here).to_multiset(),
        ));
    }
}

proof fn lemma_same_counts<T, D>(
    first: PortsView<T, D>,
    second: PortsView<T, D>,
    consumed: Seq<usize>,
)
    requires
        first.adapter_counts == second.adapter_counts,
    ensures
        pending_consumed(first, consumed) == pending_consumed(second, consumed),
    decreases consumed.len(),
{
    if consumed.len() > 0 {
        lemma_same_counts(first, second, consumed.drop_last());
    }
}

proof fn lemma_clear_keeps<T, D>(
    view: PortsView<T, D>,
    scope: ConcatView,
    ports: Seq<TargetPort>,
    upto: nat,
)
    requires
        view.wf(),
        scope.wired(view.wiring),
        upto <= scope.consumed.len(),
        forall|i: int|
            0 <= i < scope.buffers().len() ==> !ports.contains(#[trigger] scope.buffers()[i]),
    ensures
        pending_consumed(view.cleared(ports), scope.consumed.take(upto as int))
            == pending_consumed(view, scope.consumed.take(upto as int)),
    decreases upto,
{
    let inputs = scope.consumed.take(upto as int);
    if upto > 0 {
        let last = scope.consumed[upto - 1];
        assert(inputs.drop_last() =~= scope.consumed.take(upto - 1));
        lemma_clear_keeps(view, scope, ports, (upto - 1) as nat);
        assert(last < view.wiring.adapters.len());
        assert(scope.buffers()[upto - 1] == TargetPort::Counted(last));
    }
}

proof fn lemma_cleared_consumed<T, D>(view: PortsView<T, D>, scope: ConcatView, upto: nat)
    requires
        view.wf(),
        scope.wired(view.wiring),
        upto <= scope.consumed.len(),
    ensures
        pending_consumed(view.cleared(scope.buffers()), scope.consumed.take(upto as int))
            == Multiset::<(T, i64)>::empty(),
    decreases upto,
{
    broadcast use vstd::multiset::group_multiset_axioms;

    let inputs = scope.consumed.take(upto as int);
    let after = view.cleared(scope.buffers());
    if upto > 0 {
        let last = scope.consumed[upto - 1];
        assert(inputs.drop_last() =~= scope.consumed.take(upto - 1));
        lemma_cleared_consumed(view, scope, (upto - 1) as nat);
        assert(last < view.wiring.adapters.len());
        assert(scope.buffers()[upto - 1] == TargetPort::Counted(last));
        assert(after.adapter_counts[last as int] =~= Seq::<(T, i64)>::empty());
        lemma_empty_multiset(after.adapter_counts[last as int]);
        assert(pending_consumed(after, inputs) =~= Multiset::<(T, i64)>::empty());
    }
}

proof fn lemma_harvest_reported<T, D>(
    view: PortsView<T, D>,
    scope: ConcatView,
    out: Seq<Seq<(T, i64)>>,
    upto: nat,
)
    requires
        upto <= scope.consumed.len() <= out.len(),
    ensures
        reported(harvested(out, scope.consumed_buffers(), view), upto) == reported(out, upto).add(
            pending_consumed(view, scope.consumed.take(upto as int)),
        ),
    decreases upto,
{
    broadcast use vstd::multiset::group_multiset_axioms;

    let after = harvested(out, scope.consumed_buffers(), view);
    let inputs = scope.consumed.take(upto as int);
    if upto == 0 {
        assert(reported(after, upto) =~= reported(out, upto).add(
            pending_consumed(view, inputs),
        ));
    } else {
        let last = scope.consumed[upto - 1];
        assert(inputs.drop_last() =~= scope.consumed.take(upto - 1));
        lemma_harvest_reported(view, scope, out, (upto - 1) as nat);
        assert(after[upto - 1] == out[upto - 1] + view.adapter_counts[last as int]);
        lemma_multiset_commutative(out[upto - 1], view.adapter_counts[last as int]);
        assert(reported(after, upto) =~= reported(out, upto).add(
            pending_consumed(view, inputs),
        ));
    }
}

proof fn lemma_nothing_reported<T>(out: Seq<Seq<(T, i64)>>, upto: nat)
    requires
        upto <= out.len(),
        forall|i: int| 0 <= i < upto ==> (#[trigger] out[i]).len() == 0,
    ensures
        reported(out, upto) == Multiset::<(T, i64)>::empty(),
    decreases upto,
{
    broadcast use vstd::multiset::group_multiset_axioms;

    if upto > 0 {
        lemma_nothing_reported(out, (upto - 1) as nat);
        assert(out[upto - 1].len() == 0);
        lemma_empty_multiset(out[upto - 1]);
        assert(reported(out, upto) =~= Multiset::<(T, i64)>::empty());
    }
}

proof fn lemma_nothing_pending<T, D>(view: PortsView<T, D>, scope: ConcatView, upto: nat)
    requires
        upto <= scope.consumed.len(),
        forall|i: int|
            0 <= i < scope.buffers().len() ==> (#[trigger] view.counts(scope.buffers()[i])).len()
                == 0,
    ensures
        pending_consumed(view, scope.consumed.take(upto as int)) == Multiset::<(T, i64)>::empty(),
    decreases upto,
{
    broadcast use vstd::multiset::group_multiset_axioms;

    let inputs = scope.consumed.take(upto as int);
    if upto > 0 {
        let last = scope.consumed[upto - 1];
        assert(inputs.drop_last() =~= scope.consumed.take(upto - 1));
        lemma_nothing_pending(view, scope, (upto - 1) as nat);
        assert(scope.buffers()[upto - 1] == TargetPort::Counted(last));
        assert(view.counts(scope.buffers()[upto - 1]).len() == 0);
        lemma_empty_multiset(view.adapter_counts[last as int]);
        assert(pending_consumed(view, inputs) =~= Multiset::<(T, i64)>::empty());
    }
}

} // verus!
