//! The mathematical model of the packet buffer: what a sequence of byte
//! writes does to the 512 bytes and the cursor, and what a read of `n` bytes
//! gives back.  Every reading and writing operation of the library is
//! specified through these functions.

use vstd::prelude::*;
use crate::dns::error::DnsError;

verus! {

/// Size of the buffer, as a mathematical integer.
pub open spec fn packet_size() -> int {
    512
}

/// The position reported, and left in the cursor, when an access starting
/// at `p` runs off the end of the buffer.
pub open spec fn overflow_pos(p: int) -> int {
    if p < packet_size() { packet_size() } else { p }
}

/// The error raised when an access starting at `p` runs off the buffer.
pub open spec fn overflow_error(p: int) -> DnsError {
    DnsError::BufferOverflow(overflow_pos(p) as usize)
}

/// Accessing `n` bytes one at a time from position `p` runs off the buffer.
pub open spec fn overflows(p: int, n: int) -> bool {
    n > 0 && p + n > packet_size()
}

/// The cursor after an access of `n` bytes one at a time from `p`.
pub open spec fn advance(p: int, n: int) -> int {
    if overflows(p, n) { overflow_pos(p) } else { p + n }
}

/// `b` with the bytes of `s` stored from position `p` on; bytes that would
/// fall beyond the end of `b` are dropped.
pub open spec fn written(b: Seq<u8>, p: int, s: Seq<u8>) -> Seq<u8> {
    Seq::new(b.len(), |i: int| if p <= i < p + s.len() { s[i - p] } else { b[i] })
}

/// What an encoder hands to the buffer: bytes to write one after the other,
/// and possibly an error raised once they are written.
#[verifier::ext_equal]
pub struct Emission {
    pub bytes: Seq<u8>,
    pub fail: Option<DnsError>,
}

/// Bytes written with no error after them.
pub open spec fn emit(bytes: Seq<u8>) -> Emission {
    Emission { bytes, fail: None }
}

/// Bytes `x` written before the emission `e`.
pub open spec fn then(x: Seq<u8>, e: Emission) -> Emission {
    Emission { bytes: x + e.bytes, fail: e.fail }
}

/// `e1` followed by `e2`, where an error of `e1` stops everything.
pub open spec fn join(e1: Emission, e2: Emission) -> Emission {
    if e1.fail is Some { e1 } else { then(e1.bytes, e2) }
}

/// The state of the buffer after a sequence of writes.
#[verifier::ext_equal]
pub struct WriteOutcome {
    pub buff: Seq<u8>,
    pub pos: int,
    pub err: Option<DnsError>,
}

/// The effect of performing the emission `e` on the bytes `b` with the
/// cursor at `p`, writing one byte at a time and stopping at the first
/// failing write.
pub open spec fn run(b: Seq<u8>, p: int, e: Emission) -> WriteOutcome {
    WriteOutcome {
        buff: written(b, p, e.bytes),
        pos: advance(p, e.bytes.len() as int),
        err: if overflows(p, e.bytes.len() as int) { Some(overflow_error(p)) } else { e.fail },
    }
}

/// Reading `n` bytes one at a time from position `p` of `b`.
pub open spec fn read_n(b: Seq<u8>, p: int, n: int) -> core::result::Result<Seq<u8>, DnsError> {
    if overflows(p, n) { Err(overflow_error(p)) } else { Ok(b.subrange(p, p + n)) }
}

/// Big-endian value of two bytes.
pub open spec fn be_u16(s: Seq<u8>) -> u16 {
    (s[0] as int * 256 + s[1] as int) as u16
}

/// Big-endian value of four bytes.
pub open spec fn be_u32(s: Seq<u8>) -> u32 {
    (((s[0] as int * 256 + s[1] as int) * 256 + s[2] as int) * 256 + s[3] as int) as u32
}

/// Big-endian bytes of a 16-bit value.
pub open spec fn u16_bytes(v: u16) -> Seq<u8> {
    seq![(v / 256) as u8, (v % 256) as u8]
}

/// Big-endian bytes of a 32-bit value.
pub open spec fn u32_bytes(v: u32) -> Seq<u8> {
    seq![(v / 0x100_0000) as u8, ((v / 0x1_0000) % 256) as u8, ((v / 256) % 256) as u8, (v % 256) as u8]
}

/// Writing `x` and then `e` is writing `x`, then, if that fit, `e` from
/// where `x` ended.
pub proof fn lemma_run_then(b: Seq<u8>, p: int, x: Seq<u8>, e: Emission)
    requires
        b.len() == packet_size(),
        p >= 0,
    ensures
        !overflows(p, x.len() as int) ==> run(b, p, then(x, e)) == run(written(b, p, x), p + x.len(), e),
        overflows(p, x.len() as int) ==> run(b, p, then(x, e)) == run(b, p, emit(x)),
{
    if !overflows(p, x.len() as int) {
        assert(written(b, p, x + e.bytes) =~= written(written(b, p, x), p + x.len(), e.bytes));
        assert(run(b, p, then(x, e)) =~= run(written(b, p, x), p + x.len(), e));
    } else {
        assert(written(b, p, x + e.bytes) =~= written(b, p, x));
        assert(run(b, p, then(x, e)) =~= run(b, p, emit(x)));
    }
}

/// Writing `e1` joined with `e2` is writing `e1`, then, if that succeeded,
/// `e2` from where `e1` ended.
pub proof fn lemma_run_join(b: Seq<u8>, p: int, e1: Emission, e2: Emission)
    requires
        b.len() == packet_size(),
        p >= 0,
    ensures
        run(b, p, e1).err is None ==> run(b, p, join(e1, e2)) == run(run(b, p, e1).buff, run(b, p, e1).pos, e2),
        run(b, p, e1).err is Some ==> run(b, p, join(e1, e2)) == run(b, p, e1),
{
    if e1.fail is None {
        lemma_run_then(b, p, e1.bytes, e2);
        assert(emit(e1.bytes) =~= e1);
    }
}

/// Reading `n1 + n2` bytes is reading `n1` bytes and then `n2` more.
pub proof fn lemma_read_split(b: Seq<u8>, p: int, n1: int, n2: int)
    requires
        b.len() == packet_size(),
        p >= 0,
        n1 > 0,
        n2 > 0,
    ensures
        read_n(b, p, n1) is Err ==> read_n(b, p, n1 + n2) == read_n(b, p, n1)
            && advance(p, n1 + n2) == advance(p, n1),
        read_n(b, p, n1) is Ok ==> advance(p, n1) == p + n1
            && advance(p, n1 + n2) == advance(p + n1, n2)
            && (read_n(b, p + n1, n2) is Err ==> read_n(b, p, n1 + n2) == read_n(b, p + n1, n2))
            && (read_n(b, p + n1, n2) is Ok ==> read_n(b, p, n1 + n2) == Ok::<Seq<u8>, DnsError>(
                read_n(b, p, n1)->Ok_0 + read_n(b, p + n1, n2)->Ok_0)),
{
    if !overflows(p, n1) && !overflows(p + n1, n2) {
        assert(b.subrange(p, p + n1 + n2) =~= b.subrange(p, p + n1) + b.subrange(p + n1, p + n1 + n2));
    }
}

} // verus!
