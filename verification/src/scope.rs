//! The accounting contract that every operator of a dataflow keeps.
//!
//! An operator buffers, in count maps of the port arena, what it consumed on
//! each input and what it produced on each output since it was last asked.
//! Once per round the scheduler asks: the operator appends each buffer to the
//! caller's buffer of the same index and empties it, so that every delta is
//! reported exactly once.

use vstd::prelude::*;
use crate::ports::{Ports, PortsView};
use crate::wiring::{TargetPort, Wiring};

verus! {

/// The contents of a caller's list of buffers.
pub open spec fn rows<T>(buffers: Seq<Vec<(T, i64)>>) -> Seq<Seq<(T, i64)>> {
    Seq::new(buffers.len(), |i: int| buffers[i]@)
}

/// Whether the ports in `buffers` are count-map ports of `wiring`, each named
/// once.
pub open spec fn installed(buffers: Seq<TargetPort>, wiring: Wiring) -> bool {
    &&& buffers.no_duplicates()
    &&& forall|i: int|
        0 <= i < buffers.len() ==> wiring.has(#[trigger] buffers[i]) && !(buffers[i] is Queue)
}

/// The caller's buffers after a harvest: buffer `i` gains what the count map
/// of `buffers[i]` held, and buffers beyond `buffers` stay as they were.
pub open spec fn harvested<T, D>(
    out: Seq<Seq<(T, i64)>>,
    buffers: Seq<TargetPort>,
    view: PortsView<T, D>,
) -> Seq<Seq<(T, i64)>> {
    Seq::new(
        out.len(),
        |i: int|
            if i < buffers.len() {
                out[i] + view.counts(buffers[i])
            } else {
                out[i]
            },
    )
}

/// Whether the count map of some port in `buffers` holds a pair.
pub open spec fn any_pending<T, D>(view: PortsView<T, D>, buffers: Seq<TargetPort>) -> bool {
    exists|i: int| 0 <= i < buffers.len() && (#[trigger] view.counts(buffers[i])).len() > 0
}

/// Emptying the count map of one more port: the arena is as if the port had
/// been in the list, and a port that is not in the list holds what it held.
pub proof fn lemma_cleared_push<T, D>(
    view: PortsView<T, D>,
    done: Seq<TargetPort>,
    port: TargetPort,
)
    requires
        view.wf(),
        view.wiring.has(port),
    ensures
        view.cleared(done).drained(port) == view.cleared(done.push(port)),
        !done.contains(port) ==> view.cleared(done).counts(port) == view.counts(port),
{
    let next = done.push(port);
    assert forall|p: TargetPort| next.contains(p) <==> (done.contains(p) || p == port) by {
        if done.contains(p) {
            let j = choose|j: int| 0 <= j < done.len() && done[j] == p;
            assert(next[j] == p);
        }
        if p == port {
            assert(next[done.len() as int] == p);
        }
    }
    assert(view.cleared(done).drained(port) =~~= view.cleared(next));
}

/// Harvesting one more port: the caller's next buffer gains what the count
/// map of the port holds.
pub proof fn lemma_harvested_push<T, D>(
    out: Seq<Seq<(T, i64)>>,
    done: Seq<TargetPort>,
    port: TargetPort,
    view: PortsView<T, D>,
)
    requires
        done.len() < out.len(),
    ensures
        harvested(out, done.push(port), view) == harvested(out, done, view).update(
            done.len() as int,
            out[done.len() as int] + view.counts(port),
        ),
{
    assert(harvested(out, done.push(port), view) =~= harvested(out, done, view).update(
        done.len() as int,
        out[done.len() as int] + view.counts(port),
    ));
}

/// One more port has something pending if it holds a pair or one of the
/// others does.
pub proof fn lemma_any_pending_push<T, D>(
    view: PortsView<T, D>,
    done: Seq<TargetPort>,
    port: TargetPort,
)
    ensures
        any_pending(view, done.push(port)) == (any_pending(view, done) || view.counts(port).len()
            > 0),
{
    let next = done.push(port);
    if any_pending(view, next) {
        let j = choose|j: int| 0 <= j < next.len() && (#[trigger] view.counts(next[j])).len() > 0;
        if j < done.len() {
            assert(done[j] == next[j]);
        }
    }
    if any_pending(view, done) {
        let j = choose|j: int| 0 <= j < done.len() && (#[trigger] view.counts(done[j])).len() > 0;
        assert(next[j] == done[j]);
    }
    if view.counts(port).len() > 0 {
        assert(next[done.len() as int] == port);
    }
}

/// An operator of the dataflow, as the scheduler sees it.
pub trait Scope {
    /// For each input, the port whose count map buffers what was consumed
    /// there.
    spec fn consumed_buffers(&self) -> Seq<TargetPort>;

    /// For each output, the port whose count map buffers what was produced
    /// there.
    spec fn produced_buffers(&self) -> Seq<TargetPort>;

    /// A name for the kind of operator.
    fn name(&self) -> String;

    /// The number of inputs, fixed when the operator is made.
    fn inputs(&self) -> (n: usize)
        ensures
            n == self.consumed_buffers().len(),
    ;

    /// The number of outputs, fixed when the operator is made.
    fn outputs(&self) -> (n: usize)
        ensures
            n == self.produced_buffers().len(),
    ;

    /// Reports what was consumed and produced since the last call: buffer
    /// `i` of `messages_consumed` gains what input `i` consumed, buffer `j`
    /// of `messages_produced` gains what output `j` produced, and the
    /// operator's own buffers are left empty. Returns whether there was
    /// anything to report.
    fn pull_internal_progress<T: Copy, D: Copy>(
        &mut self,
        ports: &mut Ports<T, D>,
        frontier_progress: &mut Vec<Vec<(T, i64)>>,
        messages_consumed: &mut Vec<Vec<(T, i64)>>,
        messages_produced: &mut Vec<Vec<(T, i64)>>,
    ) -> (did_work: bool)
        requires
            old(ports)@.wf(),
            installed(
                old(self).consumed_buffers() + old(self).produced_buffers(),
                old(ports)@.wiring,
            ),
            old(self).consumed_buffers().len() <= old(messages_consumed).len(),
            old(self).produced_buffers().len() <= old(messages_produced).len(),
        ensures
            final(self).consumed_buffers() == old(self).consumed_buffers(),
            final(self).produced_buffers() == old(self).produced_buffers(),
            rows(final(messages_consumed)@) == harvested(
                rows(old(messages_consumed)@),
                old(self).consumed_buffers(),
                old(ports)@,
            ),
            rows(final(messages_produced)@) == harvested(
                rows(old(messages_produced)@),
                old(self).produced_buffers(),
                old(ports)@,
            ),
            final(ports)@ == old(ports)@.cleared(
                old(self).consumed_buffers() + old(self).produced_buffers(),
            ),
            did_work == any_pending(
                old(ports)@,
                old(self).consumed_buffers() + old(self).produced_buffers(),
            ),
    ;

    /// Whether the scheduler has to ask again even when nothing new was
    /// delivered to the operator.
    fn notify_me(&self) -> bool;
}

/// Exactly once: an operator that is asked again right after it has
/// reported, with nothing delivered in between, has nothing to report. The
/// caller's buffers stay as they are and no work is signalled.
pub proof fn lemma_nothing_to_report_twice<T, D>(
    view: PortsView<T, D>,
    buffers: Seq<TargetPort>,
    out: Seq<Seq<(T, i64)>>,
)
    requires
        view.wf(),
        installed(buffers, view.wiring),
    ensures
        harvested(out, buffers, view.cleared(buffers)) == out,
        !any_pending(view.cleared(buffers), buffers),
        view.cleared(buffers).cleared(buffers) == view.cleared(buffers),
{
    let after = view.cleared(buffers);
    assert forall|i: int| 0 <= i < buffers.len() implies (#[trigger] after.counts(buffers[i])).len()
        == 0 by {
        assert(view.wiring.has(buffers[i]) && !(buffers[i] is Queue));
    }
    assert forall|i: int| 0 <= i < out.len() implies harvested(out, buffers, after)[i]
        =~= out[i] by {
        if i < buffers.len() {
            assert(after.counts(buffers[i]).len() == 0);
        }
    }
    assert(harvested(out, buffers, after) =~= out);
    assert(after.cleared(buffers) =~~= after);
}

} // verus!
