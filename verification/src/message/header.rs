//! The fixed 12-byte message header.

use vstd::prelude::*;

verus! {

/// The three big-endian `u32` words that open every encoded message.
#[derive(Debug, Clone)]
pub struct MessageHeader {
    pub msg_type: u32,
    pub seq_num: u32,
    /// Length in bytes of the body alone, excluding header and checksum.
    pub body_length: u32,
}

impl MessageHeader {
    /// Wire width of the header in bytes.
    pub const SIZE: usize = 12;

    pub fn new(msg_type: u32, seq_num: u32, body_length: u32) -> (r: Self)
        ensures
            r.msg_type == msg_type,
            r.seq_num == seq_num,
            r.body_length == body_length,
    {
        Self { msg_type, seq_num, body_length }
    }
}

} // verus!
