//! Deferred logging: log calls append rendered text to a fixed-capacity ring
//! buffer, and a later flush drains it to an output sink.

use vstd::prelude::*;

pub mod gate;
pub mod hex;
pub mod logger;
pub mod record;
pub mod render;
pub mod ring;

pub use crate::gate::Gate;
pub use crate::logger::{Delogger, LoggerSlot, State, Statistics, TryLog, TryLogWithStatistics};
pub use crate::record::{Level, LevelFilter, Record};
pub use crate::ring::{AtCapacity, Claim, RingBuffer};

verus! {

/// A way to pass on drained logs, supplied by the user: print them, send
/// them over a serial line, hand them to another task.
pub trait Flusher {
    /// Handle `logs`; it is only borrowed for the call.
    fn flush(&self, logs: &str);
}

/// A way to turn a record into bytes, supplied by the user.
pub trait Renderer {
    /// The bytes this renderer writes for `record` into a buffer of `cap`
    /// bytes; they depend on the record and the capacity alone.
    spec fn rendered(&self, record: &Record, cap: nat) -> Seq<u8>;

    /// Render `record` into the front of `buf` and return how many bytes it used.
    fn render(&self, buf: &mut [u8], record: &Record) -> (n: usize)
        ensures
            final(buf)@.len() == old(buf)@.len(),
            n <= old(buf)@.len(),
            n == self.rendered(record, old(buf)@.len()).len(),
            final(buf)@.take(n as int) == self.rendered(record, old(buf)@.len()),
    ;
}

} // verus!
