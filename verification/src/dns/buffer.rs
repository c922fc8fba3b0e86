//! The DNS packet buffer: a fixed array of bytes and a cursor, with checked
//! reads and writes of bytes, big-endian integers and domain names.

use vstd::prelude::*;
use crate::dns::error::{DnsError, Result};
use crate::dns::name::{
    dot, labels_emission, lemma_dot_index_is, name_emission, read_name, scan_name, split_labels,
};
use crate::dns::text::{
    ascii_bytes, ascii_label_text, label_text, lemma_ascii_decode, to_lowercase, utf8_lossy,
};
use vstd::string::StringExecFns;
use vstd::string::StringSliceAdditionalSpecFns;
use crate::dns::wire::{
    Emission, advance, be_u16, be_u32, emit, lemma_read_split, lemma_run_then, read_n, run, then,
    u16_bytes, u32_bytes, written,
};

verus! {

/// Size of a standard DNS packet over UDP.
pub const DNS_PACKET_SIZE: usize = 512;

/// DNS packet buffer.
pub struct BytePacketBuffer {
    /// Container.
    pub buff: [u8; DNS_PACKET_SIZE],
    /// Current parsing position.
    pub pos: usize,
}

/// `r` is the result that reports `err`.
pub open spec fn reports(r: Result<()>, err: Option<DnsError>) -> bool {
    match err {
        None => r is Ok,
        Some(e) => r == Err::<(), DnsError>(e),
    }
}

/// The two bytes that the writer cuts out of a 16-bit value with shifts and
/// masks are its big-endian bytes.
pub(crate) proof fn lemma_u16_split(v: u16)
    ensures
        ((v >> 8u16) & 0xFFu16) as u8 == (v / 256) as u8,
        (v & 0xFFu16) as u8 == (v % 256) as u8,
{
    assert(((v >> 8u16) & 0xFFu16) as u8 == (v / 256) as u8) by (bit_vector);
    assert((v & 0xFFu16) as u8 == (v % 256) as u8) by (bit_vector);
}

/// The four bytes that the writer cuts out of a 32-bit value with shifts and
/// masks are its big-endian bytes.
pub(crate) proof fn lemma_u32_split(v: u32)
    ensures
        ((v >> 24u32) & 0xFFu32) as u8 == (v / 0x100_0000) as u8,
        ((v >> 16u32) & 0xFFu32) as u8 == ((v / 0x1_0000) % 256) as u8,
        ((v >> 8u32) & 0xFFu32) as u8 == ((v / 256) % 256) as u8,
        (v & 0xFFu32) as u8 == (v % 256) as u8,
{
    assert(((v >> 24u32) & 0xFFu32) as u8 == (v / 0x100_0000) as u8) by (bit_vector);
    assert(((v >> 16u32) & 0xFFu32) as u8 == ((v / 0x1_0000) % 256) as u8) by (bit_vector);
    assert(((v >> 8u32) & 0xFFu32) as u8 == ((v / 256) % 256) as u8) by (bit_vector);
    assert((v & 0xFFu32) as u8 == (v % 256) as u8) by (bit_vector);
}

/// Joining two bytes with a shift and an or gives their big-endian value.
pub(crate) proof fn lemma_u16_join(a: u8, b: u8)
    ensures
        ((a as u16) << 8u16) | (b as u16) == (a as int * 256 + b as int) as u16,
{
    assert(((a as u16) << 8u16) | (b as u16) == (a as u16) * 256 + (b as u16)) by (bit_vector);
}

/// Joining four bytes with shifts and ors gives their big-endian value.
pub(crate) proof fn lemma_u32_join(a: u8, b: u8, c: u8, d: u8)
    ensures
        ((a as u32) << 24u32) | ((b as u32) << 16u32) | ((c as u32) << 8u32) | ((d as u32) << 0u32)
            == (((a as int * 256 + b as int) * 256 + c as int) * 256 + d as int) as u32,
{
    assert(((a as u32) << 24u32) | ((b as u32) << 16u32) | ((c as u32) << 8u32) | ((d as u32) << 0u32)
        == (a as u32) * 0x100_0000 + (b as u32) * 0x1_0000 + (c as u32) * 256 + (d as u32)) by (bit_vector);
}

impl BytePacketBuffer {
    /// The buffer `after` is this buffer with the emission `e` performed, and
    /// `result` reports how that ended.
    pub open spec fn wrote(&self, after: &Self, e: Emission, result: Result<()>) -> bool {
        let o = run(self.buff@, self.pos as int, e);
        &&& after.buff@ == o.buff
        &&& after.pos == o.pos
        &&& reports(result, o.err)
    }

    /// The buffer `after` is this buffer after reading `n` bytes: the bytes
    /// are unchanged and the cursor moved.
    pub open spec fn read_moved(&self, after: &Self, n: int) -> bool {
        &&& after.buff == self.buff
        &&& after.pos == advance(self.pos as int, n)
    }

    /// The `n` bytes a read at the cursor gives back, or its error.
    pub open spec fn next_bytes(&self, n: int) -> core::result::Result<Seq<u8>, DnsError> {
        read_n(self.buff@, self.pos as int, n)
    }

    /// Default constructor: all bytes zero, cursor at the start.
    pub fn new() -> (res: BytePacketBuffer)
        ensures
            res.buff@ == Seq::new(512, |i: int| 0u8),
            res.pos == 0,
    {
        let res = BytePacketBuffer { buff: [0; DNS_PACKET_SIZE], pos: 0 };
        assert(res.buff@ =~= Seq::new(512, |i: int| 0u8));
        res
    }

    /// Gets buffer current parsing position.
    pub fn pos(&self) -> (res: usize)
        ensures
            res == self.pos,
    {
        self.pos
    }

    /// Change (with check) buffer current parsing position to provided value.
    fn seek(&mut self, pos: usize) -> (res: Result<()>)
        ensures
            final(self).buff == old(self).buff,
            pos < 512 ==> res is Ok && final(self).pos == pos,
            pos >= 512 ==> res == Err::<(), DnsError>(DnsError::BufferOverflow(pos))
                && final(self).pos == old(self).pos,
    {
        if pos >= DNS_PACKET_SIZE {
            return Err(DnsError::BufferOverflow(pos));
        }
        self.pos = pos;
        Ok(())
    }

    /// Step (with check) the buffer current parsing position forward a
    /// provided number of bytes; the new position must stay inside the buffer.
    pub fn step(&mut self, steps: usize) -> (res: Result<()>)
        ensures
            final(self).buff == old(self).buff,
            old(self).pos + steps < 512 ==> res is Ok && final(self).pos == old(self).pos + steps,
            old(self).pos + steps >= 512 ==> res == Err::<(), DnsError>(DnsError::BufferOverflow(old(self).pos))
                && final(self).pos == old(self).pos,
    {
        if self.pos >= DNS_PACKET_SIZE || steps >= DNS_PACKET_SIZE - self.pos {
            return Err(DnsError::BufferOverflow(self.pos));
        }
        self.pos += steps;
        Ok(())
    }

    /// Get a single byte at a provided position (with check); the cursor is
    /// unchanged.
    fn peek(&self, pos: usize) -> (res: Result<u8>)
        ensures
            pos < 512 ==> res == Ok::<u8, DnsError>(self.buff@[pos as int]),
            pos >= 512 ==> res == Err::<u8, DnsError>(DnsError::BufferOverflow(pos)),
    {
        if pos >= DNS_PACKET_SIZE {
            return Err(DnsError::BufferOverflow(pos));
        }
        Ok(self.buff[pos])
    }

    /// Get `len` bytes from a provided start position (with check); the range
    /// must end before the last byte of the buffer. The cursor is unchanged.
    pub fn get_range(&self, start: usize, len: usize) -> (res: Result<&[u8]>)
        ensures
            start + len < 512 ==> (res matches Ok(s) && s@ == self.buff@.subrange(start as int, start + len)),
            start + len >= 512 ==> (res matches Err(e) && e == DnsError::BufferOverflow(start)),
    {
        if start >= DNS_PACKET_SIZE || len >= DNS_PACKET_SIZE - start {
            return Err(DnsError::BufferOverflow(start));
        }
        Ok(vstd::slice::slice_subrange(self.buff.as_slice(), start, start + len))
    }

    /// Read a single byte (with check) and increment the cursor.
    pub fn read_u8(&mut self) -> (res: Result<u8>)
        ensures
            old(self).read_moved(final(self), 1),
            res == match old(self).next_bytes(1) {
                Ok(s) => Ok::<u8, DnsError>(s[0]),
                Err(e) => Err(e),
            },
    {
        if self.pos >= DNS_PACKET_SIZE {
            return Err(DnsError::BufferOverflow(self.pos));
        }
        let result = self.buff[self.pos];
        self.pos += 1;
        Ok(result)
    }

    /// Read two bytes (big-endian, with check) and advance the cursor.
    pub fn read_u16(&mut self) -> (res: Result<u16>)
        ensures
            old(self).read_moved(final(self), 2),
            res == match old(self).next_bytes(2) {
                Ok(s) => Ok::<u16, DnsError>(be_u16(s)),
                Err(e) => Err(e),
            },
    {
        proof { lemma_read_split(self.buff@, self.pos as int, 1, 1); }
        let hi = self.read_u8()?;
        let lo = self.read_u8()?;
        proof { lemma_u16_join(hi, lo); }
        let result = ((hi as u16) << 8) | (lo as u16);
        Ok(result)
    }

    /// Read four bytes (big-endian, with check) and advance the cursor.
    pub fn read_u32(&mut self) -> (res: Result<u32>)
        ensures
            old(self).read_moved(final(self), 4),
            res == match old(self).next_bytes(4) {
                Ok(s) => Ok::<u32, DnsError>(be_u32(s)),
                Err(e) => Err(e),
            },
    {
        let ghost b = self.buff@;
        let ghost p = self.pos as int;
        proof {
            lemma_read_split(b, p, 1, 1);
            lemma_read_split(b, p, 2, 1);
            lemma_read_split(b, p, 3, 1);
        }
        let b0 = self.read_u8()?;
        let b1 = self.read_u8()?;
        let b2 = self.read_u8()?;
        let b3 = self.read_u8()?;
        proof { lemma_u32_join(b0, b1, b2, b3); }
        let result = ((b0 as u32) << 24) | ((b1 as u32) << 16) | ((b2 as u32) << 8) | ((b3 as u32) << 0);
        Ok(result)
    }

    /// Read a domain name at the cursor, following compression pointers,
    /// and append its labels, decoded and lowercased and separated by dots,
    /// to `outstr`. The cursor moves past the name, or past the first
    /// pointer followed.
    pub fn read_qname(&mut self, outstr: &mut String) -> (res: Result<()>)
        ensures
            final(self).buff == old(self).buff,
            final(self).pos == read_name(old(self).buff@, old(self).pos as int, old(outstr)@).pos,
            final(outstr)@ == read_name(old(self).buff@, old(self).pos as int, old(outstr)@).text,
            reports(res, read_name(old(self).buff@, old(self).pos as int, old(outstr)@).err),
    {
        let ghost b = self.buff@;
        let ghost goal = read_name(old(self).buff@, old(self).pos as int, old(outstr)@);
        let mut pos = self.pos();
        // Track jumps ("compression" for domain names)
        let mut jumped = false;
        let max_jumps = 5u8;
        let mut jump_count = 0u8;

        let mut delim = "";
        proof {
            reveal_strlit("");
        }

        loop
            invariant
                goal == read_name(old(self).buff@, old(self).pos as int, old(outstr)@),
                self.buff == old(self).buff,
                self.buff@ == b,
                b.len() == 512,
                max_jumps == 5,
                jump_count <= 6,
                delim@ == Seq::<char>::empty() || delim@ == seq!['.'],
                scan_name(b, pos as int, jump_count as int, self.pos as int, jumped, delim@, outstr@) == goal,
            decreases 6 - jump_count, 512 - pos,
        {
            proof {
                reveal_strlit(".");
            }
            if jump_count > max_jumps {
                return Err(DnsError::TooManyJumps);
            }

            let len = self.peek(pos)?;
            // Two most-significant bits set indicate jump to some offset in the packet
            assert((len & 0xC0u8 == 0xC0u8) == (len >= 0xC0u8)) by (bit_vector);
            if (len & 0xC0) == 0xC0 {
                // Skip current label
                if !jumped {
                    self.seek(pos + 2)?;
                }

                // Calculate offset and jump
                let byte2 = self.peek(pos + 1)? as u16;
                assert(len >= 0xC0u8 && byte2 < 256u16 ==> (((len as u16) ^ 0xC0u16) << 8u16) | byte2
                    == (len as u16 - 0xC0u16) * 256u16 + byte2) by (bit_vector);
                let offset = (((len as u16) ^ 0xC0) << 8) | byte2;
                pos = offset as usize;

                jumped = true;
                jump_count += 1;
                assert(scan_name(b, pos as int, jump_count as int, self.pos as int, jumped, delim@, outstr@) == goal);

                continue;
            } else {
                let ghost p1 = pos as int;
                let ghost t1 = outstr@;
                let ghost d1 = delim@;
                pos += 1;

                // Empty label of length 0 terminates domain name
                if len == 0 {
                    if !jumped {
                        self.seek(pos)?;
                    }
                    return Ok(());
                }

                // Append ".<DOMAIN_PART>", decoded and lowercased
                outstr.append(delim);
                let str_buffer = self.get_range(pos, len as usize)?;
                let decoded = utf8_lossy(str_buffer);
                let lowered = to_lowercase(decoded.as_str());
                outstr.append(lowered.as_str());

                delim = ".";

                pos += len as usize;
                proof {
                    let bytes = b.subrange(p1 + 1, p1 + 1 + len);
                    reveal(label_text);
                    if ascii_bytes(bytes) {
                        lemma_ascii_decode(bytes);
                        assert(lowered@ =~= ascii_label_text(bytes));
                    }
                    assert(str_buffer@ == b.subrange(p1 + 1, p1 + 1 + len));
                    assert(outstr@ == t1 + d1 + label_text(b.subrange(p1 + 1, p1 + 1 + len)));
                    assert(pos == p1 + 1 + len);
                    assert(delim@ == seq!['.']);
                }
                assert(scan_name(b, pos as int, jump_count as int, self.pos as int, jumped, delim@, outstr@) == goal);
            }
        }
    }

    /// Store two bytes (big-endian, with check) at a provided position; the
    /// cursor is unchanged.
    pub fn set_u16(&mut self, pos: usize, val: u16) -> (res: Result<()>)
        ensures
            final(self).pos == old(self).pos,
            pos + 1 < 512 ==> res is Ok && final(self).buff@ == written(old(self).buff@, pos as int, u16_bytes(val)),
            pos + 1 >= 512 ==> res == Err::<(), DnsError>(DnsError::BufferOverflow(pos))
                && final(self).buff == old(self).buff,
    {
        if pos >= DNS_PACKET_SIZE - 1 {
            return Err(DnsError::BufferOverflow(pos));
        }
        proof { lemma_u16_split(val); }
        let ghost b = self.buff@;
        self.buff[pos] = ((val >> 8) & 0xFF) as u8;
        self.buff[pos + 1] = (val & 0xFF) as u8;
        assert(self.buff@ =~= written(b, pos as int, u16_bytes(val)));
        Ok(())
    }

    /// Write a single byte (with check) and increment the cursor.
    pub fn write_u8(&mut self, val: u8) -> (res: Result<()>)
        ensures
            old(self).wrote(final(self), emit(seq![val]), res),
    {
        if self.pos >= DNS_PACKET_SIZE {
            assert(self.buff@ =~= written(self.buff@, self.pos as int, seq![val]));
            return Err(DnsError::BufferOverflow(self.pos));
        }
        let ghost b = self.buff@;
        self.buff[self.pos] = val;
        self.pos += 1;
        assert(self.buff@ =~= written(b, self.pos - 1, seq![val]));
        Ok(())
    }

    /// Write two bytes (big-endian, with check) and advance the cursor.
    pub fn write_u16(&mut self, val: u16) -> (res: Result<()>)
        ensures
            old(self).wrote(final(self), emit(u16_bytes(val)), res),
    {
        let ghost b = self.buff@;
        let ghost p = self.pos as int;
        proof {
            lemma_u16_split(val);
            assert(u16_bytes(val) =~= seq![(val / 256) as u8] + seq![(val % 256) as u8]);
            lemma_run_then(b, p, seq![(val / 256) as u8], emit(seq![(val % 256) as u8]));
        }
        self.write_u8(((val >> 8) & 0xFF) as u8)?;
        self.write_u8((val & 0xFF) as u8)?;
        Ok(())
    }

    /// Write four bytes (big-endian, with check) and advance the cursor.
    pub fn write_u32(&mut self, val: u32) -> (res: Result<()>)
        ensures
            old(self).wrote(final(self), emit(u32_bytes(val)), res),
    {
        let ghost s = u32_bytes(val);
        proof {
            lemma_u32_split(val);
            assert(s =~= seq![s[0]] + (seq![s[1]] + (seq![s[2]] + seq![s[3]])));
            lemma_run_then(self.buff@, self.pos as int, seq![s[0]], then(seq![s[1]], then(seq![s[2]], emit(seq![s[3]]))));
        }
        self.write_u8(((val >> 24) & 0xFF) as u8)?;
        proof {
            lemma_run_then(self.buff@, self.pos as int, seq![s[1]], then(seq![s[2]], emit(seq![s[3]])));
        }
        self.write_u8(((val >> 16) & 0xFF) as u8)?;
        proof {
            lemma_run_then(self.buff@, self.pos as int, seq![s[2]], emit(seq![s[3]]));
        }
        self.write_u8(((val >> 8) & 0xFF) as u8)?;
        self.write_u8((val & 0xFF) as u8)?;
        Ok(())
    }

    /// Write a dotted domain name as labels: each label as its length byte
    /// and its bytes, then a zero byte. A label longer than 63 bytes is
    /// refused, after the labels before it were written.
    pub fn write_qname(&mut self, qname: &str) -> (res: Result<()>)
        ensures
            old(self).wrote(final(self), name_emission(qname.spec_bytes()), res),
    {
        let ghost b0 = self.buff@;
        let ghost p0 = self.pos as int;
        let bytes = qname.as_bytes();
        let n = bytes.len();
        let mut start: usize = 0;
        assert(bytes@.skip(0) =~= bytes@);

        loop
            invariant
                b0 == old(self).buff@,
                p0 == old(self).pos,
                start <= n,
                n == bytes@.len(),
                bytes@ == qname.spec_bytes(),
                b0.len() == 512,
                self.buff@.len() == 512,
                run(b0, p0, name_emission(bytes@))
                    == run(self.buff@, self.pos as int, labels_emission(split_labels(bytes@.skip(start as int)))),
            decreases n - start,
        {
            let ghost s = bytes@.skip(start as int);
            let mut end = start;
            while end < n && bytes[end] != 0x2E
                invariant
                    start <= end <= n,
                    n == bytes@.len(),
                    s == bytes@.skip(start as int),
                    forall|j: int| start <= j < end ==> bytes@[j] != dot(),
                decreases n - end,
            {
                end += 1;
            }
            proof {
                assert forall|j: int| 0 <= j < end - start implies s[j] != dot() by {
                    assert(s[j] == bytes@[start + j]);
                }
                lemma_dot_index_is(s, end - start);
            }
            let ghost label = bytes@.subrange(start as int, end as int);
            let ghost rest = if end == n {
                labels_emission(Seq::empty())
            } else {
                labels_emission(split_labels(bytes@.skip(end + 1)))
            };
            proof {
                assert(s.take(end - start) =~= label);
                if end < n {
                    assert(s.skip(end - start + 1) =~= bytes@.skip(end + 1));
                    assert(split_labels(s) == seq![label] + split_labels(bytes@.skip(end + 1)));
                    assert((seq![label] + split_labels(bytes@.skip(end + 1))).drop_first()
                        =~= split_labels(bytes@.skip(end + 1)));
                } else {
                    assert(s =~= label);
                    assert(seq![label].drop_first() =~= Seq::<Seq<u8>>::empty());
                }
            }
            let label_len = end - start;
            if label_len > 0x3F {
                proof {
                    assert(self.buff@ =~= written(self.buff@, self.pos as int, Seq::empty()));
                }
                return Err(DnsError::LabelTooLarge(label_len));
            }
            proof {
                assert(labels_emission(split_labels(s)) == then(seq![label_len as u8] + label, rest));
                assert(then(seq![label_len as u8] + label, rest) =~= then(seq![label_len as u8], then(label, rest)));
                lemma_run_then(self.buff@, self.pos as int, seq![label_len as u8], then(label, rest));
            }
            self.write_u8(label_len as u8)?;
            let mut k = start;
            while k < end
                invariant
                    b0 == old(self).buff@,
                    p0 == old(self).pos,
                    bytes@ == qname.spec_bytes(),
                    start <= k <= end,
                    end <= n,
                    n == bytes@.len(),
                    label == bytes@.subrange(start as int, end as int),
                    self.buff@.len() == 512,
                    run(b0, p0, name_emission(bytes@))
                        == run(self.buff@, self.pos as int, then(bytes@.subrange(k as int, end as int), rest)),
                decreases end - k,
            {
                proof {
                    assert(then(bytes@.subrange(k as int, end as int), rest)
                        =~= then(seq![bytes@[k as int]], then(bytes@.subrange(k + 1, end as int), rest)));
                    lemma_run_then(self.buff@, self.pos as int, seq![bytes@[k as int]],
                        then(bytes@.subrange(k + 1, end as int), rest));
                }
                self.write_u8(bytes[k])?;
                k += 1;
            }
            proof {
                assert(then(bytes@.subrange(end as int, end as int), rest) =~= rest);
            }
            if end == n {
                // Label ending.
                proof {
                    assert(rest == emit(seq![0u8]));
                }
                self.write_u8(0u8)?;
                return Ok(());
            }
            start = end + 1;
        }
    }
}

} // verus!
