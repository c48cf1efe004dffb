//! Progress accounting for a dataflow merge operator.
//!
//! A dataflow is a graph of operators that exchange batches of values, each
//! batch tagged with a logical timestamp. Once per round every operator
//! reports how many values it consumed on each input and produced on each
//! output, timestamp by timestamp; from these reports the engine works out
//! which timestamps can still arrive. The reports are only as good as the
//! counting behind them: every value has to be counted exactly once where it
//! is consumed and exactly once where it is produced.
//!
//! - [`count_map`]: the buffer of `(timestamp, delta)` pairs that the
//!   counting fills and a report drains.
//! - [`wiring`]: the ports along which batches travel, how they are
//!   connected, and where a delivery goes.
//! - [`ports`]: the arena that owns the ports, and delivery and flush.
//! - [`routing`]: what holds of every delivery.
//! - [`scope`]: the accounting contract that every operator keeps.
//! - [`concat`]: the merge operator, which relays any number of inputs to
//!   one output, and how two streams are merged.
//! - [`graph`]: the dataflow under construction: operators, edges, streams.
//! - [`conservation`]: the merge operator neither creates nor drops
//!   messages.

pub mod concat;
pub mod conservation;
pub mod count_map;
pub mod graph;
pub mod ports;
pub mod routing;
pub mod scope;
pub mod wiring;
