//! DNS query types and the question section.

use vstd::prelude::*;
use vstd::utf8::encode_utf8;
use crate::dns::buffer::BytePacketBuffer;
use crate::dns::error::{DnsError, Result};
use crate::dns::name::{name_emission, read_name};
use crate::dns::wire::{Emission, advance, be_u16, emit, join, lemma_read_split, lemma_run_join, lemma_run_then, read_n, u16_bytes};

verus! {

/// DNS query type.
#[derive(PartialEq, Eq, PartialOrd, Ord, Debug, Clone, Hash, Copy, Structural)]
pub enum QueryType {
    UNKNOWN(u16),
    ALIAS,
    NAMESERVER,
    CANONICALNAME,
    MAILEXCHANGE,
    AAAA,  // IPv6 alias
}

impl QueryType {
    /// The number of a query type on the wire.
    pub open spec fn spec_to_num(self) -> u16 {
        match self {
            QueryType::UNKNOWN(x) => x,
            QueryType::ALIAS => 1,
            QueryType::NAMESERVER => 2,
            QueryType::CANONICALNAME => 5,
            QueryType::MAILEXCHANGE => 15,
            QueryType::AAAA => 28,
        }
    }

    /// The query type a number denotes.
    pub open spec fn spec_from_num(num: u16) -> QueryType {
        if num == 1 {
            QueryType::ALIAS
        } else if num == 2 {
            QueryType::NAMESERVER
        } else if num == 5 {
            QueryType::CANONICALNAME
        } else if num == 15 {
            QueryType::MAILEXCHANGE
        } else if num == 28 {
            QueryType::AAAA
        } else {
            QueryType::UNKNOWN(num)
        }
    }

    /// Query type to number converter.
    pub fn to_num(&self) -> (res: u16)
        ensures
            res == self.spec_to_num(),
    {
        match *self {
            QueryType::UNKNOWN(x) => x,
            QueryType::ALIAS => 1,
            QueryType::NAMESERVER => 2,
            QueryType::CANONICALNAME => 5,
            QueryType::MAILEXCHANGE => 15,
            QueryType::AAAA => 28,
        }
    }

    /// Number to query type converter.
    pub fn from_num(num: u16) -> (res: QueryType)
        ensures
            res == QueryType::spec_from_num(num),
    {
        match num {
            1 => QueryType::ALIAS,
            2 => QueryType::NAMESERVER,
            5 => QueryType::CANONICALNAME,
            15 => QueryType::MAILEXCHANGE,
            28 => QueryType::AAAA,
            _ => QueryType::UNKNOWN(num),
        }
    }
}

/// DNS question.
#[derive(Debug, Clone, PartialEq, Eq)]
pub struct DnsQuestion {
    pub name: String,
    pub qtype: QueryType,
}

/// The mathematical value of a question.
pub struct QuestionView {
    pub name: Seq<char>,
    pub qtype: QueryType,
}

impl View for DnsQuestion {
    type V = QuestionView;

    open spec fn view(&self) -> QuestionView {
        QuestionView { name: self.name@, qtype: self.qtype }
    }
}

/// Reading a question at position `p` of `b`: a name, the type and the
/// class (ignored). Gives the question or the error, and the cursor after.
pub open spec fn question_at(b: Seq<u8>, p: int) -> (core::result::Result<QuestionView, DnsError>, int) {
    let n = read_name(b, p, Seq::empty());
    if n.err is Some {
        (Err(n.err->0), n.pos)
    } else {
        match read_n(b, n.pos, 4) {
            Err(e) => (Err(e), advance(n.pos, 4)),
            Ok(s) => (
                Ok(QuestionView { name: n.text, qtype: QueryType::spec_from_num(be_u16(s.subrange(0, 2))) }),
                n.pos + 4,
            ),
        }
    }
}

/// Writing a question: its name, its type and the class 1 (internet).
pub open spec fn question_emission(q: QuestionView) -> Emission {
    join(name_emission(encode_utf8(q.name)), emit(u16_bytes(q.qtype.spec_to_num()) + u16_bytes(1)))
}

impl DnsQuestion {
    /// Constructor.
    pub fn new(name: String, qtype: QueryType) -> (res: DnsQuestion)
        ensures
            res.name == name,
            res.qtype == qtype,
    {
        DnsQuestion { name: name, qtype: qtype }
    }

    /// Read a question from the packet buffer.
    pub fn read(buffer: &mut BytePacketBuffer) -> (res: Result<DnsQuestion>)
        ensures
            final(buffer).buff == old(buffer).buff,
            final(buffer).pos == question_at(old(buffer).buff@, old(buffer).pos as int).1,
            match question_at(old(buffer).buff@, old(buffer).pos as int).0 {
                Ok(v) => res matches Ok(q) && q@ == v,
                Err(e) => res matches Err(e2) && e2 == e,
            },
    {
        let mut name = String::new();
        buffer.read_qname(&mut name)?;

        proof { lemma_read_split(buffer.buff@, buffer.pos as int, 2, 2); }
        let qtype = QueryType::from_num(buffer.read_u16()?);

        let _ = buffer.read_u16()?;  // class

        Ok(DnsQuestion { name: name, qtype: qtype })
    }

    /// Write the question to the packet buffer.
    pub fn write(&self, buffer: &mut BytePacketBuffer) -> (res: Result<()>)
        ensures
            old(buffer).wrote(final(buffer), question_emission(self@), res),
    {
        let ghost tail = u16_bytes(self.qtype.spec_to_num()) + u16_bytes(1);
        proof {
            lemma_run_join(buffer.buff@, buffer.pos as int, name_emission(encode_utf8(self.name@)), emit(tail));
        }
        buffer.write_qname(&self.name)?;
        proof {
            lemma_run_then(buffer.buff@, buffer.pos as int, u16_bytes(self.qtype.spec_to_num()), emit(u16_bytes(1)));
        }
        buffer.write_u16(self.qtype.to_num())?;
        buffer.write_u16(1u16)?;

        Ok(())
    }
}

} // verus!
