//! How the ports of a dataflow are connected, and where a delivery goes.
//!
//! There are three kinds of port. A *tee* fans every delivery out to the
//! ports registered with it, in the order of registration. A *counting port*
//! wraps one tee and hands on to it whatever it is given. A *queue* is a
//! consumer's end. A tee only ever gains ports that lie strictly below it, so
//! a delivery always comes to an end; how often it passes through each port
//! on its way is [`Wiring::visits`].

use vstd::prelude::*;

verus! {

/// Handle of a port in a [`Ports`](crate::ports::Ports) arena.
#[derive(Clone, Copy, Debug, PartialEq, Eq, Structural)]
pub enum TargetPort {
    /// The tee with this index.
    Tee(usize),
    /// The counting port with this index.
    Counted(usize),
    /// The queue with this index.
    Queue(usize),
}

/// How the ports of an arena are connected.
#[verifier::ext_equal]
pub struct Wiring {
    /// For each tee, the ports registered with it, in order.
    pub tees: Seq<Seq<TargetPort>>,
    /// For each counting port, the index of the tee it wraps.
    pub adapters: Seq<usize>,
    /// The number of queues.
    pub queues: nat,
}

impl Wiring {
    /// Whether `port` names a port of this wiring.
    pub open spec fn has(self, port: TargetPort) -> bool {
        match port {
            TargetPort::Tee(k) => k < self.tees.len(),
            TargetPort::Counted(a) => a < self.adapters.len(),
            TargetPort::Queue(q) => q < self.queues,
        }
    }

    /// Whether `target` may be registered with tee `tee`: it exists and lies
    /// strictly below the tee. Tees are laid out from the top down, so a
    /// queue lies below every tee, and a tee, or a counting port that wraps
    /// a tee, lies below the tees with a smaller index than that tee.
    pub open spec fn below(self, tee: int, target: TargetPort) -> bool {
        match target {
            TargetPort::Tee(k) => tee < k < self.tees.len(),
            TargetPort::Counted(a) => a < self.adapters.len() && tee < self.adapters[a as int]
                < self.tees.len(),
            TargetPort::Queue(q) => q < self.queues,
        }
    }

    /// How far above the queues `port` lies: a measure that falls with every
    /// step of a delivery.
    pub open spec fn level(self, port: TargetPort) -> nat {
        match port {
            TargetPort::Tee(k) => if k < self.tees.len() {
                (2 * (self.tees.len() - k)) as nat
            } else {
                0
            },
            TargetPort::Counted(a) => if a < self.adapters.len() && self.adapters[a as int]
                < self.tees.len() {
                (2 * (self.tees.len() - self.adapters[a as int]) + 1) as nat
            } else {
                0
            },
            TargetPort::Queue(_) => 0,
        }
    }

    /// Every index fits a handle, every counting port wraps a tee that
    /// exists, and every tee fans out only to ports below it.
    pub open spec fn wf(self) -> bool {
        &&& self.tees.len() <= usize::MAX
        &&& self.adapters.len() <= usize::MAX
        &&& self.queues <= usize::MAX
        &&& forall|a: int|
            0 <= a < self.adapters.len() ==> #[trigger] self.adapters[a] < self.tees.len()
        &&& forall|k: int, i: int|
            0 <= k < self.tees.len() && 0 <= i < self.tees[k].len() ==> self.below(
                k,
                #[trigger] self.tees[k][i],
            )
    }

    /// Whether no tee is registered with a tee: tees fan out to counting
    /// ports and queues only.
    pub open spec fn flat(self) -> bool {
        forall|k: int, i: int|
            0 <= k < self.tees.len() && 0 <= i < self.tees[k].len() ==> !(
            #[trigger] self.tees[k][i] is Tee)
    }

    /// How often a delivery into `entry` passes through `node`: once if the
    /// two are the same port, and then as often as a delivery into what lies
    /// behind `entry` does. Behind a tee lie the ports registered with it,
    /// behind a counting port the tee it wraps, behind a queue nothing.
    pub open spec fn visits(self, entry: TargetPort, node: TargetPort) -> nat
        decreases self.level(entry), 1nat, 0nat,
    {
        let here: nat = if entry == node {
            1
        } else {
            0
        };
        match entry {
            TargetPort::Tee(k) => if k < self.tees.len() {
                here + self.visits_fanout(k as int, self.tees[k as int].len(), node)
            } else {
                here
            },
            TargetPort::Counted(a) => if a < self.adapters.len() && self.adapters[a as int]
                < self.tees.len() {
                here + self.visits(TargetPort::Tee(self.adapters[a as int]), node)
            } else {
                here
            },
            TargetPort::Queue(_) => here,
        }
    }

    /// How often a delivery into the first `upto` ports registered with tee
    /// `tee`, one after the other, passes through `node`. A port that does
    /// not lie below the tee, which a well-formed wiring does not have, is
    /// passed over.
    pub open spec fn visits_fanout(self, tee: int, upto: nat, node: TargetPort) -> nat
        decreases self.level(TargetPort::Tee(tee as usize)), 0nat, upto,
    {
        if upto == 0 || !(0 <= tee < self.tees.len()) || upto > self.tees[tee].len() {
            0
        } else {
            let target = self.tees[tee][upto - 1];
            self.visits_fanout(tee, (upto - 1) as nat, node) + if self.below(tee, target) {
                self.visits(target, node)
            } else {
                0
            }
        }
    }
}

} // verus!
