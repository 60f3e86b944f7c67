//! Points in time, as they are hashed and sent.

use crate::json::{decimal, write_decimal, write_text};
use vstd::prelude::*;
use vstd::string::*;

verus! {

/// A point in time, counted from the Unix epoch.
#[derive(Clone, Copy, Debug, PartialEq, Eq, Structural)]
pub struct Timestamp {
    pub secs_since_epoch: u64,
    pub nanos_since_epoch: u32,
}

impl Timestamp {
    /// Builds a timestamp from whole seconds and the nanoseconds past them.
    pub fn new(secs_since_epoch: u64, nanos_since_epoch: u32) -> (t: Timestamp)
        ensures
            t.secs_since_epoch == secs_since_epoch,
            t.nanos_since_epoch == nanos_since_epoch,
    {
        Timestamp { secs_since_epoch, nanos_since_epoch }
    }

    /// The canonical bytes of a timestamp: a JSON object with the two counts,
    /// seconds first.
    pub open spec fn encoding(self) -> Seq<u8> {
        "{\"secs_since_epoch\":".spec_bytes() + decimal(self.secs_since_epoch as nat)
            + ",\"nanos_since_epoch\":".spec_bytes() + decimal(self.nanos_since_epoch as nat)
            + "}".spec_bytes()
    }

    /// Appends the canonical bytes of this timestamp to `out`.
    pub fn encode_into(&self, out: &mut Vec<u8>)
        ensures
            final(out)@ == old(out)@ + self.encoding(),
    {
        write_text(out, "{\"secs_since_epoch\":");
        write_decimal(out, self.secs_since_epoch as u128);
        write_text(out, ",\"nanos_since_epoch\":");
        write_decimal(out, self.nanos_since_epoch as u128);
        write_text(out, "}");
    }
}

} // verus!
