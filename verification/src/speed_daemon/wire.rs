use vstd::prelude::*;

use crate::bytes::push_range;
use crate::speed_daemon::engine::{Ticket, TicketView};

verus! {

/// Message type bytes of the server's messages.
pub const ERROR_TYPE: u8 = 0x10;
pub const TICKET_TYPE: u8 = 0x21;
pub const HEARTBEAT_TYPE: u8 = 0x41;

/// Big-endian value of the two bytes of `s` at `at` and `at + 1`.
pub open spec fn be16_at(s: Seq<u8>, at: int) -> int {
    s[at] as int * 256 + s[at + 1] as int
}

/// Big-endian value of the four bytes of `s` from `at` to `at + 3`.
pub open spec fn be32_at(s: Seq<u8>, at: int) -> int {
    s[at] as int * 16777216 + s[at + 1] as int * 65536 + s[at + 2] as int * 256 + s[at + 3] as int
}

/// The two big-endian bytes of `v`.
pub open spec fn be16_bytes(v: u16) -> Seq<u8> {
    seq![(v / 256) as u8, (v % 256) as u8]
}

/// The four big-endian bytes of `v`.
pub open spec fn be32_bytes(v: u32) -> Seq<u8> {
    seq![
        (v / 16777216) as u8,
        ((v / 65536) % 256) as u8,
        ((v / 256) % 256) as u8,
        (v % 256) as u8,
    ]
}

/// Reads a big-endian `u16` at `at`.
pub fn read_u16_be(buf: &[u8], at: usize) -> (v: u16)
    requires
        at + 2 <= buf@.len(),
    ensures
        v == be16_at(buf@, at as int),
{
    (buf[at] as u16) * 256 + (buf[at + 1] as u16)
}

/// Reads a big-endian `u32` at `at`.
pub fn read_u32_be(buf: &[u8], at: usize) -> (v: u32)
    requires
        at + 4 <= buf@.len(),
    ensures
        v == be32_at(buf@, at as int),
{
    (buf[at] as u32) * 16777216 + (buf[at + 1] as u32) * 65536 + (buf[at + 2] as u32) * 256
        + (buf[at + 3] as u32)
}

/// Appends the big-endian bytes of `v`.
pub fn push_u16_be(out: &mut Vec<u8>, v: u16)
    ensures
        final(out)@ == old(out)@ + be16_bytes(v),
{
    out.push((v / 256) as u8);
    out.push((v % 256) as u8);
}

/// Appends the big-endian bytes of `v`.
pub fn push_u32_be(out: &mut Vec<u8>, v: u32)
    ensures
        final(out)@ == old(out)@ + be32_bytes(v),
{
    out.push((v / 16777216) as u8);
    out.push(((v / 65536) % 256) as u8);
    out.push(((v / 256) % 256) as u8);
    out.push((v % 256) as u8);
}

/// Reading back the two bytes written for a `u16` gives the `u16`.
pub proof fn lemma_be16_roundtrip(v: u16)
    ensures
        be16_at(be16_bytes(v), 0) == v,
{
    let b = be16_bytes(v);
    assert(b[0] == v / 256);
    assert(b[1] == v % 256);
}

/// Reading back the four bytes written for a `u32` gives the `u32`.
pub proof fn lemma_be32_roundtrip(v: u32)
    ensures
        be32_at(be32_bytes(v), 0) == v,
{
    let b = be32_bytes(v);
    assert(b[0] == v / 16777216);
    assert(b[1] == (v / 65536) % 256);
    assert(b[2] == (v / 256) % 256);
    assert(b[3] == v % 256);
}

/// The bytes of a Ticket message: its type, the plate with its length in one byte,
/// the road, both observations (mile, then timestamp) and the speed.
pub open spec fn ticket_bytes(t: TicketView) -> Seq<u8> {
    seq![TICKET_TYPE, (t.plate.len() % 256) as u8] + t.plate + be16_bytes(t.road) + be16_bytes(
        t.mile1,
    ) + be32_bytes(t.timestamp1) + be16_bytes(t.mile2) + be32_bytes(t.timestamp2) + be16_bytes(
        t.speed,
    )
}

/// The bytes of an Error message: its type, the length of the text in one byte,
/// and the text.
pub open spec fn error_bytes(text: Seq<u8>) -> Seq<u8> {
    seq![ERROR_TYPE, (text.len() % 256) as u8] + text
}

/// Encodes a ticket for a dispatcher. The plate's length is written in one byte, as the
/// length modulo 256.
pub fn encode_ticket(t: &Ticket) -> (out: Vec<u8>)
    ensures
        out@ == ticket_bytes(t@),
{
    let mut out: Vec<u8> = Vec::new();
    out.push(TICKET_TYPE);
    out.push((t.plate.len() % 256) as u8);
    push_range(&mut out, t.plate.as_slice(), 0, t.plate.len());
    assert(t.plate@.subrange(0, t.plate@.len() as int) =~= t.plate@);
    push_u16_be(&mut out, t.road);
    push_u16_be(&mut out, t.mile1);
    push_u32_be(&mut out, t.timestamp1);
    push_u16_be(&mut out, t.mile2);
    push_u32_be(&mut out, t.timestamp2);
    push_u16_be(&mut out, t.speed);
    out
}

/// Encodes an error report. The text's length is written in one byte, as the length
/// modulo 256.
pub fn encode_error(text: &[u8]) -> (out: Vec<u8>)
    ensures
        out@ == error_bytes(text@),
{
    let mut out: Vec<u8> = Vec::new();
    out.push(ERROR_TYPE);
    out.push((text.len() % 256) as u8);
    push_range(&mut out, text, 0, text.len());
    assert(text@.subrange(0, text@.len() as int) =~= text@);
    out
}

/// Encodes a Heartbeat message.
pub fn encode_heartbeat() -> (out: Vec<u8>)
    ensures
        out@ == seq![HEARTBEAT_TYPE],
{
    let mut out: Vec<u8> = Vec::new();
    out.push(HEARTBEAT_TYPE);
    out
}

} // verus!
