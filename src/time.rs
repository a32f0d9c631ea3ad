//! Points in time as the wire carries them.
use crate::codec::{decode_varint, encode_varint, parse_varint_at, varint, CodecError};
use vstd::prelude::*;

verus! {

/// A point in time, as milliseconds since the Unix epoch.
#[derive(Debug, Clone, Copy, PartialEq, Eq, Structural)]
pub struct SystemTime {
    millis: u64,
}

impl View for SystemTime {
    type V = u64;

    closed spec fn view(&self) -> u64 {
        self.millis
    }
}

impl SystemTime {
    /// The time `millis` milliseconds after the epoch.
    pub fn from_millis(millis: u64) -> (r: Self)
        ensures
            r@ == millis,
    {
        SystemTime { millis }
    }

    /// Milliseconds since the epoch.
    pub fn as_millis(&self) -> (r: u64)
        ensures
            r == self@,
    {
        self.millis
    }

    /// Appends the encoding of this time: its milliseconds as a number.
    pub fn encode(&self, out: &mut Vec<u8>)
        ensures
            final(out)@ == old(out)@ + varint(self@),
    {
        encode_varint(self.millis, out);
    }

    /// Reads a time at `pos`.
    pub fn decode(bytes: &[u8], pos: usize) -> (r: Result<(SystemTime, usize), CodecError>)
        requires
            pos <= bytes@.len(),
        ensures
            match parse_varint_at(bytes@, pos as nat) {
                Ok((v, p)) => r matches Ok((t, q)) && t@ == v && q == p,
                Err(e) => r matches Err(f) && f == e,
            },
    {
        match decode_varint(bytes, pos) {
            Ok((v, p)) => Ok((SystemTime { millis: v }, p)),
            Err(e) => Err(e),
        }
    }
}

} // verus!
