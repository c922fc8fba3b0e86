//! The DNS header: identifier, control flags and section counts.

use vstd::prelude::*;
use crate::dns::buffer::BytePacketBuffer;
use crate::dns::error::{DnsError, Result};
use crate::dns::wire::{be_u16, emit, lemma_read_split, lemma_run_then, u16_bytes};

verus! {

/// DNS request result code.
#[derive(Copy, Clone, Debug, PartialEq, Eq, Structural)]
pub enum ResultCode {
    /// No error detected.
    NoErr,
    /// Format error.
    FormErr,
    /// Server failure.
    ServFail,
    /// The queried name does not exist.
    NxDomain,
    /// Not implemented error.
    NotImp,
    /// Request refused error.
    Refused,
}

impl ResultCode {
    /// The code that a number denotes; numbers without a code are `NoErr`.
    pub open spec fn spec_from_num(num: u8) -> ResultCode {
        if num == 1 {
            ResultCode::FormErr
        } else if num == 2 {
            ResultCode::ServFail
        } else if num == 3 {
            ResultCode::NxDomain
        } else if num == 4 {
            ResultCode::NotImp
        } else if num == 5 {
            ResultCode::Refused
        } else {
            ResultCode::NoErr
        }
    }

    /// The number of a code on the wire.
    pub open spec fn spec_to_num(self) -> u8 {
        match self {
            ResultCode::NoErr => 0,
            ResultCode::FormErr => 1,
            ResultCode::ServFail => 2,
            ResultCode::NxDomain => 3,
            ResultCode::NotImp => 4,
            ResultCode::Refused => 5,
        }
    }

    /// Number to ResultCode converter.
    pub fn from_num(num: u8) -> (res: ResultCode)
        ensures
            res == ResultCode::spec_from_num(num),
    {
        match num {
            1 => ResultCode::FormErr,
            2 => ResultCode::ServFail,
            3 => ResultCode::NxDomain,
            4 => ResultCode::NotImp,
            5 => ResultCode::Refused,
            _ => ResultCode::NoErr,
        }
    }

    /// ResultCode to number converter.
    pub fn to_num(&self) -> (res: u8)
        ensures
            res == self.spec_to_num(),
    {
        match self {
            ResultCode::NoErr => 0,
            ResultCode::FormErr => 1,
            ResultCode::ServFail => 2,
            ResultCode::NxDomain => 3,
            ResultCode::NotImp => 4,
            ResultCode::Refused => 5,
        }
    }
}

/// DNS header control flags.
#[derive(Copy, Clone, Debug, PartialEq, Eq, Structural)]
pub struct DnsControlFlags {
    // Byte 1
    /// Request recursion hint to server.
    pub recursion_desired: bool,
    /// DNS packet length is larger than standard (512).
    pub truncated_message: bool,
    /// Server ownership of requested domain.
    pub authoritative_answer: bool,
    /// Operation code (typically 0).
    pub operation_code: u8,
    /// Packet is a Query (0) or Response (1).
    pub query_response: bool,
    // Byte 2
    /// Server status of the response.
    pub result_code: ResultCode,
    /// Checking disabled.
    pub check_disable: bool,
    /// Authenticated data.
    pub authoritative_data: bool,
    /// Reserved.
    pub z: bool,
    /// Server indicator if recursion is allowed.
    pub recursion_available: bool,
}

/// Bit `k` of `b` is set.
pub open spec fn bit(b: u8, k: u8) -> bool {
    (b >> k) & 1u8 == 1u8
}

/// `1` for true, `0` for false.
pub open spec fn flag_bit(f: bool) -> u8 {
    if f { 1 } else { 0 }
}

/// The flags that two control bytes denote; the reserved bit is not read,
/// so `z` is kept from the flags read into.
pub open spec fn flags_from_bytes(b1: u8, b2: u8, z: bool) -> DnsControlFlags {
    DnsControlFlags {
        recursion_desired: bit(b1, 0),
        truncated_message: bit(b1, 1),
        authoritative_answer: bit(b1, 2),
        operation_code: (b1 >> 3u8) & 0x0Fu8,
        query_response: bit(b1, 7),
        result_code: ResultCode::spec_from_num(b2 & 0x0Fu8),
        check_disable: bit(b2, 4),
        authoritative_data: bit(b2, 5),
        z,
        recursion_available: bit(b2, 7),
    }
}

/// First control byte written for some flags.
pub open spec fn flags_byte1(f: DnsControlFlags) -> u8 {
    flag_bit(f.recursion_desired) | (flag_bit(f.truncated_message) << 1u8) | (flag_bit(
        f.authoritative_answer,
    ) << 2u8) | (f.operation_code << 3u8) | (flag_bit(f.query_response) << 7u8)
}

/// Second control byte written for some flags; the reserved bit is always 0.
pub open spec fn flags_byte2(f: DnsControlFlags) -> u8 {
    f.result_code.spec_to_num() | (flag_bit(f.check_disable) << 4u8) | (flag_bit(f.authoritative_data)
        << 5u8) | (flag_bit(f.recursion_available) << 7u8)
}

/// The two control bytes written for some flags.
pub open spec fn flags_bytes(f: DnsControlFlags) -> Seq<u8> {
    seq![flags_byte1(f), flags_byte2(f)]
}

proof fn lemma_bit(b: u8, k: u8)
    requires
        k < 8,
    ensures
        ((b & (1u8 << k)) > 0) == bit(b, k),
{
    assert(k < 8 ==> (((b & (1u8 << k)) > 0) == ((b >> k) & 1u8 == 1u8))) by (bit_vector);
}

impl DnsControlFlags {
    /// Position of the "recursion_desired" flag.
    pub const FLAG_RD: u8 = 0u8;
    /// Position of the "truncated_message" flag.
    pub const FLAG_TM: u8 = 1u8;
    /// Position of the "authoritative_answer" flag.
    pub const FLAG_AA: u8 = 2u8;
    /// Position of the "operation_code" field.
    pub const FLAG_OPCODE: u8 = 3u8;
    /// Position of the "query_response" flag.
    pub const FLAG_QR: u8 = 7u8;
    /// Position of the "check_disable" flag.
    pub const FLAG_CD: u8 = 4u8;
    /// Position of the "authoritative_data" flag.
    pub const FLAG_AD: u8 = 5u8;
    /// Position of the "recursion_available" flag.
    pub const FLAG_RA: u8 = 7u8;

    /// All flags cleared.
    pub open spec fn spec_new() -> DnsControlFlags {
        DnsControlFlags {
            recursion_desired: false,
            truncated_message: false,
            authoritative_answer: false,
            operation_code: 0,
            query_response: false,
            result_code: ResultCode::NoErr,
            check_disable: false,
            authoritative_data: false,
            z: false,
            recursion_available: false,
        }
    }

    /// Default constructor.
    pub fn new() -> (res: DnsControlFlags)
        ensures
            res == DnsControlFlags::spec_new(),
    {
        DnsControlFlags {
            recursion_desired: false,
            truncated_message: false,
            authoritative_answer: false,
            operation_code: 0,
            query_response: false,
            result_code: ResultCode::NoErr,
            check_disable: false,
            authoritative_data: false,
            z: false,
            recursion_available: false,
        }
    }

    /// Read control flags out of the packet buffer. On success every flag
    /// but the reserved one is set from the two bytes; on failure the flags
    /// are unchanged.
    pub fn read(&mut self, buffer: &mut BytePacketBuffer) -> (res: Result<()>)
        ensures
            old(buffer).read_moved(final(buffer), 2),
            match old(buffer).next_bytes(2) {
                Ok(s) => res is Ok && *final(self) == flags_from_bytes(s[0], s[1], old(self).z),
                Err(e) => res == Err::<(), DnsError>(e) && *final(self) == *old(self),
            },
    {
        proof { lemma_read_split(buffer.buff@, buffer.pos as int, 1, 1); }
        let flag_byte1 = buffer.read_u8()?;
        let flag_byte2 = buffer.read_u8()?;
        proof {
            lemma_bit(flag_byte1, 0);
            lemma_bit(flag_byte1, 1);
            lemma_bit(flag_byte1, 2);
            lemma_bit(flag_byte1, 7);
            lemma_bit(flag_byte2, 4);
            lemma_bit(flag_byte2, 5);
            lemma_bit(flag_byte2, 7);
        }

        // bit:       0                  1                     2                 3 4 5 6            7
        //   [recursion_desired | truncated_message | authoritative_answer | operation_code | query_response]
        self.recursion_desired = (flag_byte1 & (1 << DnsControlFlags::FLAG_RD)) > 0;
        self.truncated_message = (flag_byte1 & (1 << DnsControlFlags::FLAG_TM)) > 0;
        self.authoritative_answer = (flag_byte1 & (1 << DnsControlFlags::FLAG_AA)) > 0;
        self.operation_code = (flag_byte1 >> DnsControlFlags::FLAG_OPCODE) & 0x0F;
        self.query_response = (flag_byte1 & (1 << DnsControlFlags::FLAG_QR)) > 0;

        // bit: 0 1 2 3          4                  5            6           7
        //   [result_code | check_disable | authoritative_data | z | recursion_available]
        self.result_code = ResultCode::from_num(flag_byte2 & 0x0F);
        self.check_disable = (flag_byte2 & (1 << DnsControlFlags::FLAG_CD)) > 0;
        self.authoritative_data = (flag_byte2 & (1 << DnsControlFlags::FLAG_AD)) > 0;
        self.recursion_available = (flag_byte2 & (1 << DnsControlFlags::FLAG_RA)) > 0;

        Ok(())
    }

    /// Write control flags to the packet buffer as two bytes; the reserved
    /// bit is written as 0.
    pub fn write(&self, buffer: &mut BytePacketBuffer) -> (res: Result<()>)
        ensures
            old(buffer).wrote(final(buffer), emit(flags_bytes(*self)), res),
    {
        proof {
            assert(flags_bytes(*self) =~= seq![flags_byte1(*self)] + seq![flags_byte2(*self)]);
            lemma_run_then(buffer.buff@, buffer.pos as int, seq![flags_byte1(*self)], emit(seq![flags_byte2(*self)]));
        }
        let rd: u8 = if self.recursion_desired { 1 } else { 0 };
        let tm: u8 = if self.truncated_message { 1 } else { 0 };
        let aa: u8 = if self.authoritative_answer { 1 } else { 0 };
        let qr: u8 = if self.query_response { 1 } else { 0 };
        buffer.write_u8(rd | (tm << 1) | (aa << 2) | (self.operation_code << 3) | (qr << 7))?;
        let cd: u8 = if self.check_disable { 1 } else { 0 };
        let ad: u8 = if self.authoritative_data { 1 } else { 0 };
        let ra: u8 = if self.recursion_available { 1 } else { 0 };
        let byte2 = self.result_code.to_num() | (cd << 4) | (ad << 5) | (0u8 << 6) | (ra << 7);
        assert(byte2 == flags_byte2(*self)) by {
            let rc = self.result_code.spec_to_num();
            assert(rc | (cd << 4u8) | (ad << 5u8) | (0u8 << 6u8) | (ra << 7u8) == rc | (cd << 4u8) | (ad << 5u8) | (ra << 7u8)) by (bit_vector);
        }
        buffer.write_u8(byte2)?;

        Ok(())
    }
}

/// DNS header.
#[derive(Copy, Clone, Debug, PartialEq, Eq, Structural)]
pub struct DnsHeader {
    /// Unique random id of the request; should be reused in response.
    pub id: u16,
    /// Control flags structure.
    pub control_flags: DnsControlFlags,
    /// Number of questions in a request.
    pub question_count: u16,
    /// Number of answers in a response.
    pub answer_count: u16,
    /// Number of authority entries in a response.
    pub authority_count: u16,
    /// Number of additional records in a request/response.
    pub additional_count: u16,
}

/// The twelve bytes written for a header.
pub open spec fn header_bytes(h: DnsHeader) -> Seq<u8> {
    u16_bytes(h.id) + flags_bytes(h.control_flags) + u16_bytes(h.question_count) + u16_bytes(
        h.answer_count,
    ) + u16_bytes(h.authority_count) + u16_bytes(h.additional_count)
}

/// The header `h` after reading a header at position `p` of `b`: the fields
/// are read in order, and each one that fits in the buffer is set.
pub open spec fn header_after_read(h: DnsHeader, b: Seq<u8>, p: int) -> DnsHeader {
    DnsHeader {
        id: if p + 2 <= 512 { be_u16(b.subrange(p, p + 2)) } else { h.id },
        control_flags: if p + 4 <= 512 {
            flags_from_bytes(b[p + 2], b[p + 3], h.control_flags.z)
        } else {
            h.control_flags
        },
        question_count: if p + 6 <= 512 { be_u16(b.subrange(p + 4, p + 6)) } else { h.question_count },
        answer_count: if p + 8 <= 512 { be_u16(b.subrange(p + 6, p + 8)) } else { h.answer_count },
        authority_count: if p + 10 <= 512 { be_u16(b.subrange(p + 8, p + 10)) } else { h.authority_count },
        additional_count: if p + 12 <= 512 {
            be_u16(b.subrange(p + 10, p + 12))
        } else {
            h.additional_count
        },
    }
}

impl DnsHeader {
    /// A zero header.
    pub open spec fn spec_new() -> DnsHeader {
        DnsHeader {
            id: 0,
            control_flags: DnsControlFlags::spec_new(),
            question_count: 0,
            answer_count: 0,
            authority_count: 0,
            additional_count: 0,
        }
    }

    /// Default constructor.
    pub fn new() -> (res: DnsHeader)
        ensures
            res == DnsHeader::spec_new(),
    {
        DnsHeader {
            id: 0,
            control_flags: DnsControlFlags::new(),
            question_count: 0,
            answer_count: 0,
            authority_count: 0,
            additional_count: 0,
        }
    }

    /// Read the header from the packet buffer: twelve bytes, the fields in
    /// order; a field is set once its bytes were read.
    pub fn read(&mut self, buffer: &mut BytePacketBuffer) -> (res: Result<()>)
        ensures
            old(buffer).read_moved(final(buffer), 12),
            *final(self) == header_after_read(*old(self), old(buffer).buff@, old(buffer).pos as int),
            res == match old(buffer).next_bytes(12) {
                Ok(_) => Ok::<(), DnsError>(()),
                Err(e) => Err(e),
            },
    {
        let ghost b = buffer.buff@;
        let ghost p = buffer.pos as int;
        proof {
            lemma_read_split(b, p, 2, 2);
            lemma_read_split(b, p, 4, 2);
            lemma_read_split(b, p, 6, 2);
            lemma_read_split(b, p, 8, 2);
            lemma_read_split(b, p, 10, 2);
        }
        self.id = buffer.read_u16()?;
        proof {
            if p + 4 <= 512 {
                assert(b.subrange(p + 2, p + 4)[0] == b[p + 2]);
                assert(b.subrange(p + 2, p + 4)[1] == b[p + 3]);
            }
        }
        self.control_flags.read(buffer)?;
        self.question_count = buffer.read_u16()?;
        self.answer_count = buffer.read_u16()?;
        self.authority_count = buffer.read_u16()?;
        self.additional_count = buffer.read_u16()?;

        Ok(())
    }

    /// Write the header to the packet buffer as twelve bytes.
    pub fn write(&self, buffer: &mut BytePacketBuffer) -> (res: Result<()>)
        ensures
            old(buffer).wrote(final(buffer), emit(header_bytes(*self)), res),
    {
        let ghost s1 = u16_bytes(self.id);
        let ghost s2 = flags_bytes(self.control_flags);
        let ghost s3 = u16_bytes(self.question_count);
        let ghost s4 = u16_bytes(self.answer_count);
        let ghost s5 = u16_bytes(self.authority_count);
        let ghost s6 = u16_bytes(self.additional_count);
        proof {
            assert(header_bytes(*self) =~= s1 + (s2 + (s3 + (s4 + (s5 + s6)))));
            lemma_run_then(buffer.buff@, buffer.pos as int, s1, emit(s2 + (s3 + (s4 + (s5 + s6)))));
        }
        buffer.write_u16(self.id)?;
        proof { lemma_run_then(buffer.buff@, buffer.pos as int, s2, emit(s3 + (s4 + (s5 + s6)))); }
        self.control_flags.write(buffer)?;
        proof { lemma_run_then(buffer.buff@, buffer.pos as int, s3, emit(s4 + (s5 + s6))); }
        buffer.write_u16(self.question_count)?;
        proof { lemma_run_then(buffer.buff@, buffer.pos as int, s4, emit(s5 + s6)); }
        buffer.write_u16(self.answer_count)?;
        proof { lemma_run_then(buffer.buff@, buffer.pos as int, s5, emit(s6)); }
        buffer.write_u16(self.authority_count)?;
        buffer.write_u16(self.additional_count)?;

        Ok(())
    }
}

} // verus!
