//! Where a delivery goes: facts about how often a delivery into one port
//! passes through another.

use vstd::prelude::*;
use crate::ports::{copies, Event, PortsView};
use crate::wiring::{TargetPort, Wiring};

verus! {

impl Wiring {
    /// A delivery never passes through a port that lies at or above the port
    /// it entered, other than that port itself.
    pub proof fn lemma_visits_none_above(self, entry: TargetPort, node: TargetPort)
        requires
            self.wf(),
            self.level(entry) <= self.level(node),
            entry != node,
        ensures
            self.visits(entry, node) == 0,
        decreases self.level(entry), 1nat, 0nat,
    {
        match entry {
            TargetPort::Tee(k) => {
                if k < self.tees.len() {
                    self.lemma_fanout_none_above(k as int, self.tees[k as int].len(), node);
                }
            },
            TargetPort::Counted(a) => {
                if a < self.adapters.len() {
                    assert(self.adapters[a as int] < self.tees.len());
                    self.lemma_visits_none_above(TargetPort::Tee(self.adapters[a as int]), node);
                }
            },
            TargetPort::Queue(_) => {},
        }
    }

    /// A delivery into the ports registered with a tee never passes through
    /// a port that lies at or above the tee.
    pub proof fn lemma_fanout_none_above(self, tee: int, upto: nat, node: TargetPort)
        requires
            self.wf(),
            0 <= tee < self.tees.len(),
            upto <= self.tees[tee].len(),
            self.level(TargetPort::Tee(tee as usize)) <= self.level(node),
        ensures
            self.visits_fanout(tee, upto, node) == 0,
        decreases self.level(TargetPort::Tee(tee as usize)), 0nat, upto,
    {
        if upto > 0 {
            let target = self.tees[tee][upto - 1];
            assert(self.below(tee, target));
            self.lemma_fanout_none_above(tee, (upto - 1) as nat, node);
            self.lemma_visits_none_above(target, node);
        }
    }

    /// A delivery passes exactly once through the port it entered.
    pub proof fn lemma_visits_entry_once(self, entry: TargetPort)
        requires
            self.wf(),
        ensures
            self.visits(entry, entry) == 1,
    {
        match entry {
            TargetPort::Tee(k) => {
                if k < self.tees.len() {
                    self.lemma_fanout_none_above(k as int, self.tees[k as int].len(), entry);
                }
            },
            TargetPort::Counted(a) => {
                if a < self.adapters.len() {
                    assert(self.adapters[a as int] < self.tees.len());
                    self.lemma_visits_none_above(TargetPort::Tee(self.adapters[a as int]), entry);
                }
            },
            TargetPort::Queue(_) => {},
        }
    }

    /// A delivery into a counting port passes through a port other than the
    /// counting port itself as often as a delivery into the wrapped tee
    /// does.
    pub proof fn lemma_visits_through_counted(self, adapter: usize, node: TargetPort)
        requires
            self.wf(),
            adapter < self.adapters.len(),
            node != TargetPort::Counted(adapter),
        ensures
            self.visits(TargetPort::Counted(adapter), node) == self.visits(
                TargetPort::Tee(self.adapters[adapter as int]),
                node,
            ),
    {
        assert(self.adapters[adapter as int] < self.tees.len());
    }

    /// Whether `next` lies directly behind `port`: it is registered with
    /// the tee `port`, or it is the tee that the counting port `port` wraps.
    pub open spec fn behind(self, port: TargetPort, next: TargetPort) -> bool {
        match port {
            TargetPort::Tee(k) => k < self.tees.len() && self.tees[k as int].contains(next),
            TargetPort::Counted(a) => a < self.adapters.len() && next == TargetPort::Tee(
                self.adapters[a as int],
            ),
            TargetPort::Queue(_) => false,
        }
    }

    /// A delivery passes through a port at least as often as a delivery
    /// into any one of the ports registered with the tee it entered does.
    pub proof fn lemma_fanout_covers(self, tee: int, upto: nat, index: int, node: TargetPort)
        requires
            self.wf(),
            0 <= tee < self.tees.len(),
            0 <= index < upto <= self.tees[tee].len(),
        ensures
            self.visits(self.tees[tee][index], node) <= self.visits_fanout(tee, upto, node),
        decreases upto,
    {
        assert(self.below(tee, self.tees[tee][upto - 1]));
        if index < upto - 1 {
            self.lemma_fanout_covers(tee, (upto - 1) as nat, index, node);
        }
    }

    /// Whatever a delivery into a port would pass through, a delivery into
    /// the port before it passes through as well, and at least as often.
    pub proof fn lemma_visits_behind(self, port: TargetPort, next: TargetPort, node: TargetPort)
        requires
            self.wf(),
            self.behind(port, next),
        ensures
            self.visits(next, node) <= self.visits(port, node),
    {
        match port {
            TargetPort::Tee(k) => {
                let targets = self.tees[k as int];
                let index = choose|i: int| 0 <= i < targets.len() && targets[i] == next;
                self.lemma_fanout_covers(k as int, targets.len(), index, node);
            },
            TargetPort::Counted(a) => {
                assert(self.adapters[a as int] < self.tees.len());
            },
            TargetPort::Queue(_) => {},
        }
    }

    /// A delivery that passes through a port other than the one it entered
    /// gets there through one of the ports directly behind its entry.
    pub proof fn lemma_visits_first_step(self, entry: TargetPort, node: TargetPort) -> (next:
        TargetPort)
        requires
            self.wf(),
            entry != node,
            self.visits(entry, node) > 0,
        ensures
            self.behind(entry, next),
            self.visits(next, node) > 0,
            self.level(next) < self.level(entry),
    {
        match entry {
            TargetPort::Tee(k) => {
                let index = self.lemma_fanout_some(k as int, self.tees[k as int].len(), node);
                assert(self.below(k as int, self.tees[k as int][index]));
                self.tees[k as int][index]
            },
            TargetPort::Counted(a) => {
                assert(self.adapters[a as int] < self.tees.len());
                TargetPort::Tee(self.adapters[a as int])
            },
            TargetPort::Queue(_) => entry,
        }
    }

    proof fn lemma_fanout_some(self, tee: int, upto: nat, node: TargetPort) -> (index: int)
        requires
            self.wf(),
            0 <= tee < self.tees.len(),
            upto <= self.tees[tee].len(),
            self.visits_fanout(tee, upto, node) > 0,
        ensures
            0 <= index < upto,
            self.visits(self.tees[tee][index], node) > 0,
        decreases upto,
    {
        assert(self.below(tee, self.tees[tee][upto - 1]));
        if self.visits(self.tees[tee][upto - 1], node) > 0 {
            upto - 1
        } else {
            self.lemma_fanout_some(tee, (upto - 1) as nat, node)
        }
    }

    /// Reaching carries on: if a delivery into `entry` passes through
    /// `middle`, it also passes through everything that a delivery into
    /// `middle` passes through. So a delivery, or a flush, reaches every
    /// port that can be reached from its entry by following tees to the
    /// ports registered with them and counting ports to the tees they wrap.
    pub proof fn lemma_visits_carry_on(
        self,
        entry: TargetPort,
        middle: TargetPort,
        node: TargetPort,
    )
        requires
            self.wf(),
            self.visits(entry, middle) > 0,
            self.visits(middle, node) > 0,
        ensures
            self.visits(entry, node) > 0,
        decreases self.level(entry),
    {
        if entry != middle {
            let next = self.lemma_visits_first_step(entry, middle);
            self.lemma_visits_carry_on(next, middle, node);
            self.lemma_visits_behind(entry, next, node);
        }
    }

    /// Whether tee `tee` fans out to queues only, each registered once.
    pub open spec fn fans_to_queues(self, tee: int) -> bool {
        &&& self.tees[tee].no_duplicates()
        &&& forall|i: int| 0 <= i < self.tees[tee].len() ==> #[trigger] self.tees[tee][i] is Queue
    }

    /// Where a tee fans out to queues only, each registered once, a delivery
    /// into the first `upto` of them passes once through each of these
    /// queues and through no other port.
    pub proof fn lemma_fanout_to_queues(self, tee: int, upto: nat, node: TargetPort)
        requires
            self.wf(),
            0 <= tee < self.tees.len(),
            upto <= self.tees[tee].len(),
            self.fans_to_queues(tee),
        ensures
            self.visits_fanout(tee, upto, node) == if self.tees[tee].take(upto as int).contains(
                node,
            ) {
                1nat
            } else {
                0nat
            },
        decreases upto,
    {
        let targets = self.tees[tee];
        if upto > 0 {
            let target = targets[upto - 1];
            let before = targets.take(upto - 1);
            let now = targets.take(upto as int);
            assert(self.below(tee, target));
            assert(target is Queue);
            self.lemma_fanout_to_queues(tee, (upto - 1) as nat, node);
            assert(now =~= before.push(target));
            assert(self.visits(target, node) == if target == node {
                1nat
            } else {
                0nat
            });
            assert(self.visits_fanout(tee, upto, node) == self.visits_fanout(
                tee,
                (upto - 1) as nat,
                node,
            ) + self.visits(target, node));
            if before.contains(node) {
                let j = choose|j: int| 0 <= j < before.len() && before[j] == node;
                assert(targets[j] == node);
                assert(now[j] == node);
                assert(target != node);
            }
            if target == node {
                assert(now[upto - 1] == node);
            }
            if now.contains(node) && !before.contains(node) {
                let j = choose|j: int| 0 <= j < now.len() && now[j] == node;
                if j < upto - 1 {
                    assert(before[j] == node);
                }
            }
        } else {
            assert(targets.take(0).len() == 0);
        }
    }
}

impl<T, D> PortsView<T, D> {
    /// A delivery into a tee or a counting port leaves exactly one record,
    /// the batch's timestamp with the batch's length, in the count map of
    /// that port.
    pub proof fn lemma_delivery_recorded_once(self, port: TargetPort, time: T, data: Seq<D>)
        requires
            self.wf(),
            self.wiring.has(port),
            !(port is Queue),
        ensures
            self.delivered(port, time, data).counts(port) == self.counts(port).push(
                (time, data.len() as i64),
            ),
    {
        self.wiring.lemma_visits_entry_once(port);
        assert(copies((time, data.len() as i64), 1) =~= seq![(time, data.len() as i64)]);
        assert(self.delivered(port, time, data).counts(port) =~= self.counts(port).push(
            (time, data.len() as i64),
        ));
    }

    /// A flush leaves its mark, last, in every queue it reaches, leaves the
    /// other queues as they were, and changes no count map.
    pub proof fn lemma_flush_reaches(self, port: TargetPort, queue: usize)
        requires
            self.wf(),
            queue < self.wiring.queues,
        ensures
            ({
                let after = self.flushed(port);
                let passes = self.wiring.visits(port, TargetPort::Queue(queue));
                &&& after.queues[queue as int].len() == self.queues[queue as int].len() + passes
                &&& passes > 0 ==> after.queues[queue as int].last() == Event::<T, D>::Flush
                &&& passes == 0 ==> after.queues[queue as int] == self.queues[queue as int]
                &&& after.tee_counts == self.tee_counts
                &&& after.adapter_counts == self.adapter_counts
            }),
    {
        let after = self.flushed(port);
        let passes = self.wiring.visits(port, TargetPort::Queue(queue));
        if passes == 0 {
            assert(after.queues[queue as int] =~= self.queues[queue as int]);
        }
    }

    /// Fan-out: a delivery into a counting port that wraps a tee with `n`
    /// distinct queues leaves one record in the count map of the counting
    /// port, however large `n` is, and hands the batch once to each of the
    /// `n` queues and to no other queue.
    pub proof fn lemma_fan_out(self, adapter: usize, time: T, data: Seq<D>, queue: usize)
        requires
            self.wf(),
            adapter < self.wiring.adapters.len(),
            self.wiring.fans_to_queues(self.wiring.adapters[adapter as int] as int),
            queue < self.wiring.queues,
        ensures
            ({
                let after = self.delivered(TargetPort::Counted(adapter), time, data);
                let consumers = self.wiring.tees[self.wiring.adapters[adapter as int] as int];
                &&& after.adapter_counts[adapter as int]
                    == self.adapter_counts[adapter as int].push((time, data.len() as i64))
                &&& after.queues[queue as int] == if consumers.contains(TargetPort::Queue(queue)) {
                    self.queues[queue as int].push(Event::Data(time, data))
                } else {
                    self.queues[queue as int]
                }
            }),
    {
        let entry = TargetPort::Counted(adapter);
        let tee = self.wiring.adapters[adapter as int];
        let targets = self.wiring.tees[tee as int];
        let node = TargetPort::Queue(queue);
        let after = self.delivered(entry, time, data);
        self.lemma_delivery_recorded_once(entry, time, data);
        assert(tee < self.wiring.tees.len());
        self.wiring.lemma_fanout_to_queues(tee as int, targets.len(), node);
        assert(targets.take(targets.len() as int) =~= targets);
        assert(self.wiring.visits(entry, node) == self.wiring.visits(TargetPort::Tee(tee), node));
        assert(self.wiring.visits(TargetPort::Tee(tee), node) == self.wiring.visits_fanout(
            tee as int,
            targets.len(),
            node,
        ));
        assert(copies(Event::Data(time, data), 1) =~= seq![Event::Data(time, data)]);
        assert(copies(Event::Data(time, data), 0) =~= Seq::<Event<T, D>>::empty());
        assert(after.queues[queue as int] =~= if targets.contains(node) {
            self.queues[queue as int].push(Event::Data(time, data))
        } else {
            self.queues[queue as int]
        });
    }
}

} // verus!
