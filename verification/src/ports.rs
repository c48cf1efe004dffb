//! Delivery ports: the data plane along which timestamped batches travel.
//!
//! All ports of one dataflow live in one arena, [`Ports`], and are named by
//! handles. A tee records what it is given in a count map of its own and
//! fans it out; a counting port records `(timestamp, batch length)` in a
//! count map of its own and then forwards the batch, unchanged, to the tee
//! it wraps; a queue keeps what it is given. What a delivery does to the
//! arena is stated by counting, for each port, how often the delivery passes
//! through it.

use vstd::prelude::*;
use crate::count_map::CountMap;
use crate::wiring::{TargetPort, Wiring};

verus! {

/// What a queue is handed.
#[derive(Debug, PartialEq, Eq)]
pub enum Message<T, D> {
    /// A batch of values and the timestamp it carries.
    Data(T, Vec<D>),
    /// The end of a batch boundary.
    Flush,
}

/// What a queue was handed, as a mathematical value.
pub enum Event<T, D> {
    /// A batch of values and the timestamp it carried.
    Data(T, Seq<D>),
    /// The end of a batch boundary.
    Flush,
}

impl<T, D> View for Message<T, D> {
    type V = Event<T, D>;

    open spec fn view(&self) -> Event<T, D> {
        match self {
            Message::Data(time, data) => Event::Data(*time, data@),
            Message::Flush => Event::Flush,
        }
    }
}

/// `n` copies of `item`.
pub open spec fn copies<A>(item: A, n: nat) -> Seq<A> {
    Seq::new(n, |i: int| item)
}

/// The contents of an arena of ports, as a mathematical value.
#[verifier::ext_equal]
pub struct PortsView<T, D> {
    /// How the ports are connected.
    pub wiring: Wiring,
    /// For each tee, the pairs recorded since its map was last drained.
    pub tee_counts: Seq<Seq<(T, i64)>>,
    /// For each counting port, the pairs recorded since its map was last
    /// drained.
    pub adapter_counts: Seq<Seq<(T, i64)>>,
    /// For each queue, everything it was handed, oldest first.
    pub queues: Seq<Seq<Event<T, D>>>,
}

impl<T, D> PortsView<T, D> {
    /// The wiring is well formed and every port has its contents.
    pub open spec fn wf(self) -> bool {
        &&& self.wiring.wf()
        &&& self.tee_counts.len() == self.wiring.tees.len()
        &&& self.adapter_counts.len() == self.wiring.adapters.len()
        &&& self.queues.len() == self.wiring.queues
    }

    /// The pairs held by the count map of `port`; a queue has none.
    pub open spec fn counts(self, port: TargetPort) -> Seq<(T, i64)> {
        match port {
            TargetPort::Tee(k) => self.tee_counts[k as int],
            TargetPort::Counted(a) => self.adapter_counts[a as int],
            TargetPort::Queue(_) => Seq::empty(),
        }
    }

    /// Each count map gains `hits` copies of `delta`, `hits` taken at the
    /// port that owns the map.
    pub open spec fn counted(self, delta: (T, i64), hits: spec_fn(TargetPort) -> nat) -> Self {
        PortsView {
            wiring: self.wiring,
            tee_counts: Seq::new(
                self.tee_counts.len(),
                |k: int| self.tee_counts[k] + copies(delta, hits(TargetPort::Tee(k as usize))),
            ),
            adapter_counts: Seq::new(
                self.adapter_counts.len(),
                |a: int|
                    self.adapter_counts[a] + copies(delta, hits(TargetPort::Counted(a as usize))),
            ),
            queues: self.queues,
        }
    }

    /// Each queue gains `hits` copies of `event`, `hits` taken at the queue.
    pub open spec fn queued(self, event: Event<T, D>, hits: spec_fn(TargetPort) -> nat) -> Self {
        PortsView {
            wiring: self.wiring,
            tee_counts: self.tee_counts,
            adapter_counts: self.adapter_counts,
            queues: Seq::new(
                self.queues.len(),
                |q: int| self.queues[q] + copies(event, hits(TargetPort::Queue(q as usize))),
            ),
        }
    }

    /// The arena after the batch `data`, tagged `time`, was delivered into
    /// `port`: every count map that the delivery passes gains
    /// `(time, data.len())` once per pass, every queue gains the batch once
    /// per pass, and the wiring stays.
    pub open spec fn delivered(self, port: TargetPort, time: T, data: Seq<D>) -> Self {
        let hits = |node: TargetPort| self.wiring.visits(port, node);
        self.counted((time, data.len() as i64), hits).queued(Event::Data(time, data), hits)
    }

    /// The arena after `port` was flushed: every queue that the flush
    /// reaches gains a flush mark once per pass, and nothing else changes.
    pub open spec fn flushed(self, port: TargetPort) -> Self {
        self.queued(Event::Flush, |node: TargetPort| self.wiring.visits(port, node))
    }

    /// The arena after the count map of each port in `ports` was emptied.
    pub open spec fn cleared(self, ports: Seq<TargetPort>) -> Self {
        PortsView {
            tee_counts: Seq::new(
                self.tee_counts.len(),
                |k: int|
                    if ports.contains(TargetPort::Tee(k as usize)) {
                        Seq::empty()
                    } else {
                        self.tee_counts[k]
                    },
            ),
            adapter_counts: Seq::new(
                self.adapter_counts.len(),
                |a: int|
                    if ports.contains(TargetPort::Counted(a as usize)) {
                        Seq::empty()
                    } else {
                        self.adapter_counts[a]
                    },
            ),
            ..self
        }
    }

    /// The arena after the count map of `port` was emptied.
    pub open spec fn drained(self, port: TargetPort) -> Self {
        match port {
            TargetPort::Tee(k) => PortsView {
                tee_counts: self.tee_counts.update(k as int, Seq::empty()),
                ..self
            },
            TargetPort::Counted(a) => PortsView {
                adapter_counts: self.adapter_counts.update(a as int, Seq::empty()),
                ..self
            },
            TargetPort::Queue(_) => self,
        }
    }

    /// The arena with one more tee, which has an empty count map and no
    /// port registered with it.
    pub open spec fn with_tee(self) -> Self {
        PortsView {
            wiring: Wiring { tees: self.wiring.tees.push(Seq::empty()), ..self.wiring },
            tee_counts: self.tee_counts.push(Seq::empty()),
            ..self
        }
    }

    /// The arena with one more counting port, which has an empty count map
    /// and wraps tee `tee`.
    pub open spec fn with_counted(self, tee: usize) -> Self {
        PortsView {
            wiring: Wiring { adapters: self.wiring.adapters.push(tee), ..self.wiring },
            adapter_counts: self.adapter_counts.push(Seq::empty()),
            ..self
        }
    }

    /// The arena with one more queue, which is empty.
    pub open spec fn with_queue(self) -> Self {
        PortsView {
            wiring: Wiring { queues: self.wiring.queues + 1, ..self.wiring },
            queues: self.queues.push(Seq::empty()),
            ..self
        }
    }

    /// The arena with `target` registered last with tee `tee`.
    pub open spec fn with_target(self, tee: usize, target: TargetPort) -> Self {
        PortsView {
            wiring: Wiring {
                tees: self.wiring.tees.update(
                    tee as int,
                    self.wiring.tees[tee as int].push(target),
                ),
                ..self.wiring
            },
            ..self
        }
    }
}

struct TeePort<T> {
    updates: CountMap<T>,
    targets: Vec<TargetPort>,
}

struct CountingPort<T> {
    counts: CountMap<T>,
    target: usize,
}

/// The arena that owns every port of one dataflow, with the count maps of
/// the tees and counting ports and the contents of the queues.
pub struct Ports<T, D> {
    tees: Vec<TeePort<T>>,
    adapters: Vec<CountingPort<T>>,
    queues: Vec<Vec<Message<T, D>>>,
}

impl<T, D> View for Ports<T, D> {
    type V = PortsView<T, D>;

    closed spec fn view(&self) -> PortsView<T, D> {
        PortsView {
            wiring: Wiring {
                tees: Seq::new(self.tees.len() as nat, |k: int| self.tees[k].targets@),
                adapters: Seq::new(self.adapters.len() as nat, |a: int| self.adapters[a].target),
                queues: self.queues.len() as nat,
            },
            tee_counts: Seq::new(self.tees.len() as nat, |k: int| self.tees[k].updates@),
            adapter_counts: Seq::new(
                self.adapters.len() as nat,
                |a: int| self.adapters[a].counts@,
            ),
            queues: Seq::new(
                self.queues.len() as nat,
                |q: int| self.queues[q]@.map_values(|message: Message<T, D>| message@),
            ),
        }
    }
}

impl<T: Copy, D: Copy> Ports<T, D> {
    /// An arena without ports.
    pub fn new() -> (ports: Self)
        ensures
            ports@.wf(),
            ports@.wiring.tees.len() == 0,
            ports@.wiring.adapters.len() == 0,
            ports@.wiring.queues == 0,
    {
        Ports { tees: Vec::new(), adapters: Vec::new(), queues: Vec::new() }
    }

    /// Adds a tee with an empty count map and nothing registered with it.
    /// Its index is the number of tees there were.
    pub fn add_tee(&mut self) -> (tee: usize)
        requires
            old(self)@.wf(),
        ensures
            tee == old(self)@.wiring.tees.len(),
            final(self)@ == old(self)@.with_tee(),
            final(self)@.wf(),
    {
        let tee = self.tees.len();
        self.tees.push(TeePort { updates: CountMap::new(), targets: Vec::new() });
        proof {
            let after = old(self)@.with_tee();
            assert(self@.wiring =~~= after.wiring);
            assert(self@.tee_counts =~= after.tee_counts);
            assert(self@.adapter_counts =~= after.adapter_counts);
            assert(self@.queues =~~= after.queues);
            assert(self.tees@.len() <= usize::MAX);
            lemma_with_tee_wf(old(self)@);
        }
        tee
    }

    /// Adds a counting port with an empty count map that wraps tee `tee`.
    /// Its index is the number of counting ports there were.
    pub fn add_counted(&mut self, tee: usize) -> (adapter: usize)
        requires
            old(self)@.wf(),
            tee < old(self)@.wiring.tees.len(),
        ensures
            adapter == old(self)@.wiring.adapters.len(),
            final(self)@ == old(self)@.with_counted(tee),
            final(self)@.wf(),
    {
        let adapter = self.adapters.len();
        self.adapters.push(CountingPort { counts: CountMap::new(), target: tee });
        proof {
            let after = old(self)@.with_counted(tee);
            assert(self@.wiring =~~= after.wiring);
            assert(self@.tee_counts =~= after.tee_counts);
            assert(self@.adapter_counts =~= after.adapter_counts);
            assert(self@.queues =~~= after.queues);
            assert(self.adapters@.len() <= usize::MAX);
            lemma_with_counted_wf(old(self)@, tee);
        }
        adapter
    }

    /// Adds an empty queue. Its index is the number of queues there were.
    pub fn add_queue(&mut self) -> (queue: usize)
        requires
            old(self)@.wf(),
        ensures
            queue == old(self)@.wiring.queues,
            final(self)@ == old(self)@.with_queue(),
            final(self)@.wf(),
    {
        let queue = self.queues.len();
        self.queues.push(Vec::new());
        proof {
            let after = old(self)@.with_queue();
            assert(self@.wiring =~~= after.wiring);
            assert(self@.tee_counts =~= after.tee_counts);
            assert(self@.adapter_counts =~= after.adapter_counts);
            assert(self@.queues =~~= after.queues);
            assert(self.queues@.len() <= usize::MAX);
            lemma_with_queue_wf(old(self)@);
        }
        queue
    }

    /// Registers `target` with tee `tee`, after the ports already
    /// registered there. The target has to lie below the tee.
    pub fn add_target(&mut self, tee: usize, target: TargetPort)
        requires
            old(self)@.wf(),
            tee < old(self)@.wiring.tees.len(),
            old(self)@.wiring.below(tee as int, target),
        ensures
            final(self)@ == old(self)@.with_target(tee, target),
            final(self)@.wf(),
    {
        self.tees[tee].targets.push(target);
        proof {
            let after = old(self)@.with_target(tee, target);
            assert(self@.wiring =~~= after.wiring);
            assert(self@.tee_counts =~= after.tee_counts);
            assert(self@.adapter_counts =~= after.adapter_counts);
            assert(self@.queues =~~= after.queues);
            lemma_with_target_wf(old(self)@, tee, target);
        }
    }

    /// The number of tees.
    pub fn tees(&self) -> (n: usize)
        ensures
            n == self@.wiring.tees.len(),
    {
        self.tees.len()
    }

    /// The number of counting ports.
    pub fn counting_ports(&self) -> (n: usize)
        ensures
            n == self@.wiring.adapters.len(),
    {
        self.adapters.len()
    }

    /// The number of queues.
    pub fn queues(&self) -> (n: usize)
        ensures
            n == self@.wiring.queues,
    {
        self.queues.len()
    }

    /// Whether `port` names a port of this arena.
    pub fn has(&self, port: TargetPort) -> (has: bool)
        ensures
            has == self@.wiring.has(port),
    {
        match port {
            TargetPort::Tee(k) => k < self.tees.len(),
            TargetPort::Counted(a) => a < self.adapters.len(),
            TargetPort::Queue(q) => q < self.queues.len(),
        }
    }

    /// Whether `target` may be registered with tee `tee`: it exists and lies
    /// strictly below the tee.
    pub fn below(&self, tee: usize, target: TargetPort) -> (below: bool)
        ensures
            below == self@.wiring.below(tee as int, target),
    {
        match target {
            TargetPort::Tee(k) => tee < k && k < self.tees.len(),
            TargetPort::Counted(a) => a < self.adapters.len() && tee < self.adapters[a].target
                && self.adapters[a].target < self.tees.len(),
            TargetPort::Queue(q) => q < self.queues.len(),
        }
    }

    /// The ports registered with tee `tee`, in order.
    pub fn targets(&self, tee: usize) -> (targets: &Vec<TargetPort>)
        requires
            tee < self@.wiring.tees.len(),
        ensures
            targets@ == self@.wiring.tees[tee as int],
    {
        &self.tees[tee].targets
    }

    /// The tee that counting port `adapter` wraps.
    pub fn wrapped(&self, adapter: usize) -> (tee: usize)
        requires
            adapter < self@.wiring.adapters.len(),
        ensures
            tee == self@.wiring.adapters[adapter as int],
    {
        self.adapters[adapter].target
    }

    /// Everything queue `queue` was handed, oldest first.
    pub fn queue(&self, queue: usize) -> (messages: &Vec<Message<T, D>>)
        requires
            queue < self@.wiring.queues,
        ensures
            messages@.map_values(|message: Message<T, D>| message@) == self@.queues[queue as int],
    {
        &self.queues[queue]
    }

    /// The number of pairs in the count map of `port`; a queue has none.
    pub fn pending(&self, port: TargetPort) -> (n: usize)
        requires
            self@.wiring.has(port),
        ensures
            n == self@.counts(port).len(),
    {
        match port {
            TargetPort::Tee(k) => self.tees[k].updates.len(),
            TargetPort::Counted(a) => self.adapters[a].counts.len(),
            TargetPort::Queue(_) => 0,
        }
    }

    /// Appends the pairs in the count map of `port` to `out`, in recording
    /// order, and empties the map. A queue has no count map: nothing
    /// happens.
    pub fn drain_into(&mut self, port: TargetPort, out: &mut Vec<(T, i64)>)
        requires
            old(self)@.wiring.has(port),
        ensures
            final(out)@ == old(out)@ + old(self)@.counts(port),
            final(self)@ == old(self)@.drained(port),
            old(self)@.wf() ==> final(self)@.wf(),
    {
        match port {
            TargetPort::Tee(k) => {
                self.tees[k].updates.drain_into(out);
            },
            TargetPort::Counted(a) => {
                self.adapters[a].counts.drain_into(out);
            },
            TargetPort::Queue(_) => {
                assert(old(out)@ + Seq::<(T, i64)>::empty() =~= old(out)@);
            },
        }
        proof {
            let after = old(self)@.drained(port);
            assert(self@.wiring =~~= after.wiring);
            assert(self@.tee_counts =~= after.tee_counts);
            assert(self@.adapter_counts =~= after.adapter_counts);
            assert(self@.queues =~~= after.queues);
        }
    }

    /// Delivers the batch `data`, tagged `time`, into `port`.
    ///
    /// A queue keeps a copy of the batch. A counting port records
    /// `(time, data.len())` in its count map and then delivers the batch to
    /// the tee it wraps. A tee records `(time, data.len())` in its count map
    /// and then delivers the batch to every port registered with it, in
    /// order.
    pub fn deliver_data(&mut self, port: TargetPort, time: &T, data: &Vec<D>)
        requires
            old(self)@.wf(),
            old(self)@.wiring.has(port),
            data.len() <= i64::MAX,
        ensures
            final(self)@ == old(self)@.delivered(port, *time, data@),
            final(self)@.wf(),
    {
        self.forward(port, Some((time, data)));
    }

    /// Flushes `port` and every port reachable from it: each queue reached
    /// gets a flush mark, and no count map changes.
    pub fn flush(&mut self, port: TargetPort)
        requires
            old(self)@.wf(),
            old(self)@.wiring.has(port),
        ensures
            final(self)@ == old(self)@.flushed(port),
            final(self)@.wf(),
    {
        self.forward(port, None);
    }

    /// Forwards a batch, or a flush where there is none, into `port` and on
    /// to everything below it.
    fn forward(&mut self, port: TargetPort, batch: Option<(&T, &Vec<D>)>)
        requires
            old(self)@.wf(),
            old(self)@.wiring.has(port),
            batch matches Some((_, data)) ==> data.len() <= i64::MAX,
        ensures
            final(self)@ == old(self)@.forwarded(port, signal(batch)),
            final(self)@.wf(),
        decreases old(self)@.wiring.level(port),
    {
        let ghost before = self@;
        let ghost wiring = self@.wiring;
        let ghost here = |node: TargetPort| if port == node { 1nat } else { 0nat };
        match port {
            TargetPort::Queue(q) => {
                let message = match batch {
                    Some((time, data)) => Message::Data(*time, copy_batch(data)),
                    None => Message::Flush,
                };
                self.queues[q].push(message);
                proof {
                    let hits = |node: TargetPort| wiring.visits(port, node);
                    let after = before.stepped(signal(batch), hits);
                    assert(self@.queues[q as int] =~= after.queues[q as int]);
                    assert(self@ =~~= after);
                }
            },
            TargetPort::Counted(a) => {
                if let Some((time, data)) = batch {
                    self.adapters[a].counts.record(*time, data.len() as i64);
                }
                let tee = self.adapters[a].target;
                let ghost mid = self@;
                proof {
                    let after = before.stepped(signal(batch), here);
                    assert(mid.wiring =~~= after.wiring);
                    assert(mid.tee_counts =~~= after.tee_counts);
                    assert(mid.adapter_counts =~~= after.adapter_counts);
                    assert(mid.queues =~~= after.queues);
                    assert(mid =~~= after);
                }
                self.forward(TargetPort::Tee(tee), batch);
                proof {
                    let below = |node: TargetPort| wiring.visits(TargetPort::Tee(tee), node);
                    lemma_stepped_twice(before, signal(batch), here, below);
                    lemma_stepped_same(
                        before,
                        signal(batch),
                        |node: TargetPort| here(node) + below(node),
                        |node: TargetPort| wiring.visits(port, node),
                    );
                }
            },
            TargetPort::Tee(k) => {
                if let Some((time, data)) = batch {
                    self.tees[k].updates.record(*time, data.len() as i64);
                }
                let n = self.tees[k].targets.len();
                let mut i: usize = 0;
                proof {
                    lemma_stepped_same(
                        before,
                        signal(batch),
                        here,
                        |node: TargetPort| here(node) + wiring.visits_fanout(k as int, 0, node),
                    );
                    let mid = self@;
                    let after = before.stepped(signal(batch), here);
                    assert(mid.wiring =~~= after.wiring);
                    assert(mid.tee_counts =~~= after.tee_counts);
                    assert(mid.adapter_counts =~~= after.adapter_counts);
                    assert(mid.queues =~~= after.queues);
                    assert(mid =~~= after);
                }
                while i < n
                    invariant
                        i <= n,
                        n == wiring.tees[k as int].len(),
                        k < wiring.tees.len(),
                        port == TargetPort::Tee(k),
                        before.wf(),
                        before.wiring == wiring,
                        before == old(self)@,
                        here == |node: TargetPort| if port == node { 1nat } else { 0nat },
                        batch matches Some((_, data)) ==> data.len() <= i64::MAX,
                        self@ == before.stepped(
                            signal(batch),
                            |node: TargetPort|
                                here(node) + wiring.visits_fanout(k as int, i as nat, node),
                        ),
                    decreases n - i,
                {
                    let target = self.tees[k].targets[i];
                    let ghost sofar = |node: TargetPort|
                        here(node) + wiring.visits_fanout(k as int, i as nat, node);
                    proof {
                        assert(wiring.below(k as int, wiring.tees[k as int][i as int]));
                    }
                    self.forward(target, batch);
                    proof {
                        let step = |node: TargetPort| wiring.visits(target, node);
                        lemma_stepped_twice(before, signal(batch), sofar, step);
                        lemma_stepped_same(
                            before,
                            signal(batch),
                            |node: TargetPort| sofar(node) + step(node),
                            |node: TargetPort|
                                here(node) + wiring.visits_fanout(k as int, (i + 1) as nat, node),
                        );
                    }
                    i = i + 1;
                }
                proof {
                    lemma_stepped_same(
                        before,
                        signal(batch),
                        |node: TargetPort|
                            here(node) + wiring.visits_fanout(k as int, i as nat, node),
                        |node: TargetPort| wiring.visits(port, node),
                    );
                }
            },
        }
    }
}

fn copy_batch<D: Copy>(data: &Vec<D>) -> (copy: Vec<D>)
    ensures
        copy@ == data@,
{
    let mut copy: Vec<D> = Vec::new();
    let mut i: usize = 0;
    while i < data.len()
        invariant
            i <= data.len(),
            copy@ == data@.take(i as int),
        decreases data.len() - i,
    {
        copy.push(data[i]);
        assert(data@.take(i as int).push(data@[i as int]) =~= data@.take(i + 1));
        i = i + 1;
    }
    assert(data@.take(data.len() as int) =~= data@);
    copy
}

/// What is forwarded, as a mathematical value: a batch with its timestamp,
/// or nothing for a flush.
spec fn signal<T, D>(batch: Option<(&T, &Vec<D>)>) -> Option<(T, Seq<D>)> {
    match batch {
        Some((time, data)) => Some((*time, data@)),
        None => None,
    }
}

impl<T, D> PortsView<T, D> {
    /// The arena after a batch, or a flush, passed through each port `hits`
    /// times, `hits` taken at that port.
    spec fn stepped(
        self,
        batch: Option<(T, Seq<D>)>,
        hits: spec_fn(TargetPort) -> nat,
    ) -> Self {
        match batch {
            Some((time, data)) => self.counted((time, data.len() as i64), hits).queued(
                Event::Data(time, data),
                hits,
            ),
            None => self.queued(Event::Flush, hits),
        }
    }

    /// The arena after a batch, or a flush, was forwarded into `port`.
    spec fn forwarded(self, port: TargetPort, batch: Option<(T, Seq<D>)>) -> Self {
        match batch {
            Some((time, data)) => self.delivered(port, time, data),
            None => self.flushed(port),
        }
    }
}

proof fn lemma_copies_concat<A>(item: A, m: nat, n: nat)
    ensures
        copies(item, m) + copies(item, n) =~= copies(item, m + n),
{
}

proof fn lemma_stepped_same<T, D>(
    view: PortsView<T, D>,
    batch: Option<(T, Seq<D>)>,
    f: spec_fn(TargetPort) -> nat,
    g: spec_fn(TargetPort) -> nat,
)
    requires
        forall|node: TargetPort| #[trigger] f(node) == g(node),
    ensures
        view.stepped(batch, f) == view.stepped(batch, g),
{
    assert(view.stepped(batch, f) =~~= view.stepped(batch, g));
}

proof fn lemma_stepped_twice<T, D>(
    view: PortsView<T, D>,
    batch: Option<(T, Seq<D>)>,
    f: spec_fn(TargetPort) -> nat,
    g: spec_fn(TargetPort) -> nat,
)
    ensures
        view.stepped(batch, f).stepped(batch, g) == view.stepped(
            batch,
            |node: TargetPort| f(node) + g(node),
        ),
{
    let sum = |node: TargetPort| f(node) + g(node);
    let once = view.stepped(batch, f);
    let twice = once.stepped(batch, g);
    let both = view.stepped(batch, sum);
    assert forall|k: int| 0 <= k < view.tee_counts.len() implies twice.tee_counts[k]
        =~= both.tee_counts[k] by {
        let node = TargetPort::Tee(k as usize);
        if let Some((time, data)) = batch {
            lemma_copies_concat((time, data.len() as i64), f(node), g(node));
        }
    }
    assert forall|a: int| 0 <= a < view.adapter_counts.len() implies twice.adapter_counts[a]
        =~= both.adapter_counts[a] by {
        let node = TargetPort::Counted(a as usize);
        if let Some((time, data)) = batch {
            lemma_copies_concat((time, data.len() as i64), f(node), g(node));
        }
    }
    assert forall|q: int| 0 <= q < view.queues.len() implies twice.queues[q] =~= both.queues[q] by {
        let node = TargetPort::Queue(q as usize);
        match batch {
            Some((time, data)) => lemma_copies_concat(Event::Data(time, data), f(node), g(node)),
            None => lemma_copies_concat(Event::<T, D>::Flush, f(node), g(node)),
        }
    }
    assert(twice =~~= both);
}

/// A new tee lifts every tee and counting port by the same amount, so what
/// lay below still lies below.
proof fn lemma_with_tee_wf<T, D>(view: PortsView<T, D>)
    requires
        view.wf(),
        view.wiring.tees.len() < usize::MAX,
    ensures
        view.with_tee().wf(),
{
    let old_w = view.wiring;
    let new_w = view.with_tee().wiring;
    assert forall|k: int, i: int|
        0 <= k < new_w.tees.len() && 0 <= i < new_w.tees[k].len() implies new_w.below(
        k,
        #[trigger] new_w.tees[k][i],
    ) by {
        assert(k < old_w.tees.len());
        assert(old_w.below(k, old_w.tees[k][i]));
    }
}

proof fn lemma_with_counted_wf<T, D>(view: PortsView<T, D>, tee: usize)
    requires
        view.wf(),
        tee < view.wiring.tees.len(),
        view.wiring.adapters.len() < usize::MAX,
    ensures
        view.with_counted(tee).wf(),
{
    let old_w = view.wiring;
    let new_w = view.with_counted(tee).wiring;
    assert forall|k: int, i: int|
        0 <= k < new_w.tees.len() && 0 <= i < new_w.tees[k].len() implies new_w.below(
        k,
        #[trigger] new_w.tees[k][i],
    ) by {
        assert(old_w.below(k, old_w.tees[k][i]));
    }
}

proof fn lemma_with_queue_wf<T, D>(view: PortsView<T, D>)
    requires
        view.wf(),
        view.wiring.queues < usize::MAX,
    ensures
        view.with_queue().wf(),
{
    let old_w = view.wiring;
    let new_w = view.with_queue().wiring;
    assert forall|k: int, i: int|
        0 <= k < new_w.tees.len() && 0 <= i < new_w.tees[k].len() implies new_w.below(
        k,
        #[trigger] new_w.tees[k][i],
    ) by {
        assert(old_w.below(k, old_w.tees[k][i]));
    }
}

proof fn lemma_with_target_wf<T, D>(view: PortsView<T, D>, tee: usize, target: TargetPort)
    requires
        view.wf(),
        tee < view.wiring.tees.len(),
        view.wiring.below(tee as int, target),
    ensures
        view.with_target(tee, target).wf(),
{
    let old_w = view.wiring;
    let new_w = view.with_target(tee, target).wiring;
    assert forall|k: int, i: int|
        0 <= k < new_w.tees.len() && 0 <= i < new_w.tees[k].len() implies new_w.below(
        k,
        #[trigger] new_w.tees[k][i],
    ) by {
        if k == tee && i == old_w.tees[k].len() {
        } else {
            assert(old_w.below(k, old_w.tees[k][i]));
        }
    }
}

} // verus!
