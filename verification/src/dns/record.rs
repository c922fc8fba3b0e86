//! DNS resource records.

use vstd::prelude::*;
use vstd::utf8::encode_utf8;
use crate::dns::buffer::{BytePacketBuffer, lemma_u16_join, lemma_u16_split, lemma_u32_join, lemma_u32_split, reports};
use crate::dns::error::{DnsError, Result};
use crate::dns::name::{name_emission, read_name};
use crate::dns::question::QueryType;
use crate::dns::wire::{
    Emission, WriteOutcome, advance, be_u16, be_u32, emit, join, lemma_read_split, lemma_run_join,
    lemma_run_then, read_n, run, then, u16_bytes, u32_bytes, written,
};

verus! {

/// DNS resource record. Addresses are kept as their octets in network
/// order.
#[derive(Debug, Clone, PartialEq, Eq, Hash, PartialOrd, Ord)]
#[allow(inconsistent_fields)]
pub enum DnsRecord {
    /// Generic unknown record type.
    UNKNOWN { domain: String, qtype: QueryType, data_len: u16, ttl: u32 },
    /// IPv4 <-> Name record type.
    ALIAS { domain: String, addr: [u8; 4], ttl: u32 },
    /// DNS Server of a domain record type.
    NAMESERVER { domain: String, host: String, ttl: u32 },
    /// Name <-> Name record type.
    CANONICALNAME { domain: String, host: String, ttl: u32 },
    /// Domain mail host record type.
    MAILEXCHANGE { domain: String, priority: u16, host: String, ttl: u32 },
    /// IPv6 <-> Name record type.
    AAAA { domain: String, addr: [u8; 16], ttl: u32 },
}

/// The mathematical value of a record.
#[allow(inconsistent_fields)]
pub enum RecordView {
    Unknown { domain: Seq<char>, qtype: QueryType, data_len: u16, ttl: u32 },
    Alias { domain: Seq<char>, addr: Seq<u8>, ttl: u32 },
    Nameserver { domain: Seq<char>, host: Seq<char>, ttl: u32 },
    CanonicalName { domain: Seq<char>, host: Seq<char>, ttl: u32 },
    MailExchange { domain: Seq<char>, priority: u16, host: Seq<char>, ttl: u32 },
    Aaaa { domain: Seq<char>, addr: Seq<u8>, ttl: u32 },
}

impl View for DnsRecord {
    type V = RecordView;

    open spec fn view(&self) -> RecordView {
        match self {
            DnsRecord::UNKNOWN { domain, qtype, data_len, ttl } => RecordView::Unknown {
                domain: domain@,
                qtype: *qtype,
                data_len: *data_len,
                ttl: *ttl,
            },
            DnsRecord::ALIAS { domain, addr, ttl } => RecordView::Alias { domain: domain@, addr: addr@, ttl: *ttl },
            DnsRecord::NAMESERVER { domain, host, ttl } => RecordView::Nameserver {
                domain: domain@,
                host: host@,
                ttl: *ttl,
            },
            DnsRecord::CANONICALNAME { domain, host, ttl } => RecordView::CanonicalName {
                domain: domain@,
                host: host@,
                ttl: *ttl,
            },
            DnsRecord::MAILEXCHANGE { domain, priority, host, ttl } => RecordView::MailExchange {
                domain: domain@,
                priority: *priority,
                host: host@,
                ttl: *ttl,
            },
            DnsRecord::AAAA { domain, addr, ttl } => RecordView::Aaaa { domain: domain@, addr: addr@, ttl: *ttl },
        }
    }
}

/// Reading the host name of a name server or alias record at `p`.
pub open spec fn host_record_at(
    b: Seq<u8>,
    p: int,
    make: spec_fn(Seq<char>) -> RecordView,
) -> (core::result::Result<RecordView, DnsError>, int) {
    let h = read_name(b, p, Seq::empty());
    if h.err is Some {
        (Err(h.err->0), h.pos)
    } else {
        (Ok(make(h.text)), h.pos)
    }
}

/// Reading the data of a record of type `qtype` at `p`, once its domain,
/// TTL and data length are known.
pub open spec fn record_data_at(
    b: Seq<u8>,
    p: int,
    domain: Seq<char>,
    qtype: QueryType,
    ttl: u32,
    data_len: u16,
) -> (core::result::Result<RecordView, DnsError>, int) {
    match qtype {
        QueryType::ALIAS => match read_n(b, p, 4) {
            Err(e) => (Err(e), advance(p, 4)),
            Ok(a) => (Ok(RecordView::Alias { domain, addr: a, ttl }), p + 4),
        },
        QueryType::NAMESERVER => host_record_at(
            b,
            p,
            |host: Seq<char>| RecordView::Nameserver { domain, host, ttl },
        ),
        QueryType::CANONICALNAME => host_record_at(
            b,
            p,
            |host: Seq<char>| RecordView::CanonicalName { domain, host, ttl },
        ),
        QueryType::MAILEXCHANGE => match read_n(b, p, 2) {
            Err(e) => (Err(e), advance(p, 2)),
            Ok(pr) => host_record_at(
                b,
                p + 2,
                |host: Seq<char>| RecordView::MailExchange { domain, priority: be_u16(pr), host, ttl },
            ),
        },
        QueryType::AAAA => match read_n(b, p, 16) {
            Err(e) => (Err(e), advance(p, 16)),
            Ok(a) => (Ok(RecordView::Aaaa { domain, addr: a, ttl }), p + 16),
        },
        QueryType::UNKNOWN(_) => if p + data_len < 512 {
            (Ok(RecordView::Unknown { domain, qtype, data_len, ttl }), p + data_len)
        } else {
            (Err(DnsError::BufferOverflow(p as usize)), p)
        },
    }
}

/// Reading a record at position `p` of `b`: the domain, type, class
/// (ignored), TTL and data length, then the data as the type says; the data
/// of unknown types is skipped.
pub open spec fn record_at(b: Seq<u8>, p: int) -> (core::result::Result<RecordView, DnsError>, int) {
    let n = read_name(b, p, Seq::empty());
    if n.err is Some {
        (Err(n.err->0), n.pos)
    } else {
        match read_n(b, n.pos, 10) {
            Err(e) => (Err(e), advance(n.pos, 10)),
            Ok(f) => record_data_at(
                b,
                n.pos + 10,
                n.text,
                QueryType::spec_from_num(be_u16(f.subrange(0, 2))),
                be_u32(f.subrange(4, 8)),
                be_u16(f.subrange(8, 10)),
            ),
        }
    }
}

/// The fields common to all written records: the domain, the type, the
/// class 1 and the TTL.
pub open spec fn record_head(domain: Seq<char>, qtype: u16, ttl: u32) -> Emission {
    join(name_emission(encode_utf8(domain)), emit(u16_bytes(qtype) + u16_bytes(1) + u32_bytes(ttl)))
}

/// The data of a record with a host name: its length, the `prefix` bytes
/// and the host name.
pub open spec fn host_data(len: u16, prefix: Seq<u8>, host: Seq<char>) -> Emission {
    then(u16_bytes(len) + prefix, name_emission(encode_utf8(host)))
}

/// Writing the data of a record with a host name at `p` of `b`: a zero
/// length is written first, and once the data is written it is replaced by
/// the length of what follows it.
pub open spec fn host_data_write(b: Seq<u8>, p: int, prefix: Seq<u8>, host: Seq<char>) -> WriteOutcome {
    let o = run(b, p, host_data(0, prefix, host));
    if o.err is None {
        WriteOutcome { buff: written(o.buff, p, u16_bytes((o.pos - (p + 2)) as u16)), pos: o.pos, err: None }
    } else {
        o
    }
}

/// The effect of writing a record at `p` of `b`. Records of unknown type
/// are skipped.
pub open spec fn record_write(b: Seq<u8>, p: int, r: RecordView) -> WriteOutcome {
    match r {
        RecordView::Alias { domain, addr, ttl } => run(
            b,
            p,
            join(record_head(domain, 1, ttl), emit(u16_bytes(4) + addr)),
        ),
        RecordView::Aaaa { domain, addr, ttl } => run(
            b,
            p,
            join(record_head(domain, 28, ttl), emit(u16_bytes(16) + addr)),
        ),
        RecordView::Nameserver { domain, host, ttl } => {
            let o = run(b, p, record_head(domain, 2, ttl));
            if o.err is Some { o } else { host_data_write(o.buff, o.pos, Seq::empty(), host) }
        },
        RecordView::CanonicalName { domain, host, ttl } => {
            let o = run(b, p, record_head(domain, 5, ttl));
            if o.err is Some { o } else { host_data_write(o.buff, o.pos, Seq::empty(), host) }
        },
        RecordView::MailExchange { domain, priority, host, ttl } => {
            let o = run(b, p, record_head(domain, 15, ttl));
            if o.err is Some { o } else { host_data_write(o.buff, o.pos, u16_bytes(priority), host) }
        },
        RecordView::Unknown { .. } => WriteOutcome { buff: b, pos: p, err: None },
    }
}

/// The bytes written between the data length and the host name.
pub open spec fn priority_bytes(priority: Option<u16>) -> Seq<u8> {
    match priority {
        Some(v) => u16_bytes(v),
        None => Seq::empty(),
    }
}

/// Octets of a 32-bit value in network order.
fn u32_octets(v: u32) -> (res: [u8; 4])
    ensures
        res@ == u32_bytes(v),
{
    proof { lemma_u32_split(v); }
    let res = [((v >> 24) & 0xFF) as u8, ((v >> 16) & 0xFF) as u8, ((v >> 8) & 0xFF) as u8, (v & 0xFF) as u8];
    assert(res@ =~= u32_bytes(v));
    res
}

/// The bytes of a big-endian 32-bit value are the bytes it was read from.
proof fn lemma_u32_roundtrip(s: Seq<u8>)
    requires
        s.len() == 4,
    ensures
        u32_bytes(be_u32(s)) == s,
{
    let (a, b, c, d) = (s[0], s[1], s[2], s[3]);
    lemma_u32_join(a, b, c, d);
    let w = ((a as u32) << 24u32) | ((b as u32) << 16u32) | ((c as u32) << 8u32) | ((d as u32) << 0u32);
    assert((w / 0x100_0000) as u8 == a && ((w / 0x1_0000) % 256) as u8 == b && ((w / 256) % 256) as u8 == c
        && (w % 256) as u8 == d) by (bit_vector)
        requires
            w == ((a as u32) << 24u32) | ((b as u32) << 16u32) | ((c as u32) << 8u32) | ((d as u32) << 0u32);
    assert(u32_bytes(be_u32(s)) =~= s);
}

impl DnsRecord {
    /// Read a resource record from the packet buffer.
    pub fn read(buffer: &mut BytePacketBuffer) -> (res: Result<DnsRecord>)
        ensures
            final(buffer).buff == old(buffer).buff,
            final(buffer).pos == record_at(old(buffer).buff@, old(buffer).pos as int).1,
            match record_at(old(buffer).buff@, old(buffer).pos as int).0 {
                Ok(v) => res matches Ok(r) && r@ == v,
                Err(e) => res matches Err(e2) && e2 == e,
            },
    {
        let ghost b = buffer.buff@;
        let mut domain = String::new();
        buffer.read_qname(&mut domain)?;

        let ghost p1 = buffer.pos as int;
        proof {
            lemma_read_split(b, p1, 2, 2);
            lemma_read_split(b, p1, 4, 4);
            lemma_read_split(b, p1, 8, 2);
        }
        let qtype_num = buffer.read_u16()?;
        let qtype = QueryType::from_num(qtype_num);
        let _ = buffer.read_u16()?;
        let ttl = buffer.read_u32()?;
        let data_len = buffer.read_u16()?;
        let ghost p2 = buffer.pos as int;
        proof {
            let f = b.subrange(p1, p1 + 10);
            assert(f.subrange(0, 2) =~= b.subrange(p1, p1 + 2));
            assert(f.subrange(4, 8) =~= b.subrange(p1 + 4, p1 + 8));
            assert(f.subrange(8, 10) =~= b.subrange(p1 + 8, p1 + 10));
            assert(p2 == p1 + 10);
            assert(record_at(b, old(buffer).pos as int) == record_data_at(b, p2, domain@, qtype, ttl, data_len));
        }

        match qtype {
            QueryType::ALIAS => {
                let raw = buffer.read_u32()?;
                proof { lemma_u32_roundtrip(b.subrange(p2, p2 + 4)); }
                Ok(DnsRecord::ALIAS { domain: domain, addr: u32_octets(raw), ttl: ttl })
            },
            QueryType::NAMESERVER => {
                let mut host = String::new();
                buffer.read_qname(&mut host)?;
                Ok(DnsRecord::NAMESERVER { domain: domain, host: host, ttl: ttl })
            },
            QueryType::CANONICALNAME => {
                let mut host = String::new();
                buffer.read_qname(&mut host)?;
                Ok(DnsRecord::CANONICALNAME { domain: domain, host: host, ttl: ttl })
            },
            QueryType::MAILEXCHANGE => {
                let priority = buffer.read_u16()?;
                let mut host = String::new();
                buffer.read_qname(&mut host)?;
                Ok(DnsRecord::MAILEXCHANGE { domain: domain, priority: priority, host: host, ttl: ttl })
            },
            QueryType::AAAA => {
                let mut addr = [0u8; 16];
                let mut i: usize = 0;
                while i < 8
                    invariant
                        buffer.buff == old(buffer).buff,
                        old(buffer).buff@ == b,
                        record_at(b, old(buffer).pos as int) == record_data_at(b, p2, domain@, QueryType::AAAA, ttl, data_len),
                        p2 >= 0,
                        buffer.buff@ == b,
                        b.len() == 512,
                        i <= 8,
                        p2 + 2 * i <= 512,
                        buffer.pos == p2 + 2 * i,
                        forall|j: int| 0 <= j < 2 * i ==> addr@[j] == b[p2 + j],
                    decreases 8 - i,
                {
                    let seg = buffer.read_u16()?;
                    proof { lemma_u16_split(seg); }
                    addr[2 * i] = ((seg >> 8) & 0xFF) as u8;
                    addr[2 * i + 1] = (seg & 0xFF) as u8;
                    proof {
                        let x = b[p2 + 2 * i];
                        let y = b[p2 + 2 * i + 1];
                        lemma_u16_join(x, y);
                        assert(((((x as u16) << 8u16) | (y as u16)) / 256) as u8 == x
                            && ((((x as u16) << 8u16) | (y as u16)) % 256) as u8 == y) by (bit_vector);
                    }
                    i += 1;
                }
                proof { assert(addr@ =~= b.subrange(p2, p2 + 16)); }
                Ok(DnsRecord::AAAA { domain: domain, addr: addr, ttl: ttl })
            },
            QueryType::UNKNOWN(_) => {
                buffer.step(data_len as usize)?;
                Ok(DnsRecord::UNKNOWN { domain: domain, qtype: qtype, data_len: data_len, ttl: ttl })
            },
        }
    }

    /// Write a resource record to the packet buffer and give back the
    /// number of bytes written. Records of unknown type are skipped.
    pub fn write(&self, buffer: &mut BytePacketBuffer) -> (res: Result<usize>)
        ensures
            ({
                let o = record_write(old(buffer).buff@, old(buffer).pos as int, self@);
                &&& final(buffer).buff@ == o.buff
                &&& final(buffer).pos == o.pos
                &&& match o.err {
                    None => res == Ok::<usize, DnsError>((o.pos - old(buffer).pos) as usize),
                    Some(e) => res == Err::<usize, DnsError>(e),
                }
            }),
    {
        let start_pos = buffer.pos();
        let ghost b0 = buffer.buff@;

        match self {
            DnsRecord::ALIAS { domain, addr, ttl } => {
                Self::write_fixed(domain, QueryType::ALIAS.to_num(), *ttl, addr.as_slice(), buffer)?;
            },
            DnsRecord::NAMESERVER { domain, host, ttl } => {
                Self::write_head(domain, QueryType::NAMESERVER.to_num(), *ttl, buffer)?;
                Self::write_host(host, None, buffer)?;
            },
            DnsRecord::CANONICALNAME { domain, host, ttl } => {
                Self::write_head(domain, QueryType::CANONICALNAME.to_num(), *ttl, buffer)?;
                Self::write_host(host, None, buffer)?;
            },
            DnsRecord::MAILEXCHANGE { domain, priority, host, ttl } => {
                Self::write_head(domain, QueryType::MAILEXCHANGE.to_num(), *ttl, buffer)?;
                Self::write_host(host, Some(*priority), buffer)?;
            },
            DnsRecord::AAAA { domain, addr, ttl } => {
                Self::write_fixed(domain, QueryType::AAAA.to_num(), *ttl, addr.as_slice(), buffer)?;
            },
            DnsRecord::UNKNOWN { .. } => {
                proof { assert(buffer.buff@ =~= b0); }
            },
        }

        Ok(buffer.pos() - start_pos)
    }

    /// Write the domain, the type, the class 1 and the TTL of a record.
    fn write_head(domain: &str, qtype: u16, ttl: u32, buffer: &mut BytePacketBuffer) -> (res: Result<()>)
        ensures
            old(buffer).wrote(final(buffer), record_head(domain@, qtype, ttl), res),
            res is Ok ==> final(buffer).pos >= old(buffer).pos,
    {
        let ghost n = name_emission(encode_utf8(domain@));
        let ghost h = u16_bytes(qtype) + u16_bytes(1) + u32_bytes(ttl);
        proof { lemma_run_join(buffer.buff@, buffer.pos as int, n, emit(h)); }
        buffer.write_qname(domain)?;
        proof {
            assert(h =~= u16_bytes(qtype) + (u16_bytes(1) + u32_bytes(ttl)));
            lemma_run_then(buffer.buff@, buffer.pos as int, u16_bytes(qtype), emit(u16_bytes(1) + u32_bytes(ttl)));
        }
        buffer.write_u16(qtype)?;
        proof { lemma_run_then(buffer.buff@, buffer.pos as int, u16_bytes(1), emit(u32_bytes(ttl))); }
        buffer.write_u16(1u16)?;
        buffer.write_u32(ttl)?;
        Ok(())
    }

    /// Write a record whose data is a fixed address: the head, the length of
    /// the address and its octets.
    fn write_fixed(domain: &str, qtype: u16, ttl: u32, addr: &[u8], buffer: &mut BytePacketBuffer) -> (res: Result<()>)
        requires
            addr@.len() == 4 || addr@.len() == 16,
        ensures
            old(buffer).wrote(
                final(buffer),
                join(record_head(domain@, qtype, ttl), emit(u16_bytes(addr@.len() as u16) + addr@)),
                res,
            ),
    {
        let ghost d = u16_bytes(addr@.len() as u16) + addr@;
        proof { lemma_run_join(buffer.buff@, buffer.pos as int, record_head(domain@, qtype, ttl), emit(d)); }
        Self::write_head(domain, qtype, ttl, buffer)?;
        proof { lemma_run_then(buffer.buff@, buffer.pos as int, u16_bytes(addr@.len() as u16), emit(addr@)); }
        buffer.write_u16(addr.len() as u16)?;
        let mut i: usize = 0;
        while i < addr.len()
            invariant
                i <= addr@.len(),
                d == u16_bytes(addr@.len() as u16) + addr@,
                buffer.buff@.len() == 512,
                run(old(buffer).buff@, old(buffer).pos as int, join(record_head(domain@, qtype, ttl), emit(d)))
                    == run(buffer.buff@, buffer.pos as int, emit(addr@.subrange(i as int, addr@.len() as int))),
            decreases addr@.len() - i,
        {
            proof {
                assert(addr@.subrange(i as int, addr@.len() as int) =~= seq![addr@[i as int]] + addr@.subrange(i + 1, addr@.len() as int));
                lemma_run_then(buffer.buff@, buffer.pos as int, seq![addr@[i as int]], emit(addr@.subrange(i + 1, addr@.len() as int)));
            }
            buffer.write_u8(addr[i])?;
            i += 1;
        }
        proof {
            assert(addr@.subrange(i as int, addr@.len() as int) =~= Seq::<u8>::empty());
            assert(buffer.buff@ =~= written(buffer.buff@, buffer.pos as int, Seq::empty()));
        }
        Ok(())
    }

    /// Write the data of a record with a host name: a placeholder length,
    /// the priority if there is one and the host name; then store the
    /// length of what follows the placeholder in it.
    fn write_host(host: &str, priority: Option<u16>, buffer: &mut BytePacketBuffer) -> (res: Result<()>)
        ensures
            ({
                let o = host_data_write(old(buffer).buff@, old(buffer).pos as int, priority_bytes(priority), host@);
                &&& final(buffer).buff@ == o.buff
                &&& final(buffer).pos == o.pos
                &&& reports(res, o.err)
            }),
    {
        let ghost b0 = buffer.buff@;
        let ghost p0 = buffer.pos as int;
        let ghost prefix = priority_bytes(priority);
        let ghost n = name_emission(encode_utf8(host@));
        let pos = buffer.pos();
        proof {
            assert(host_data(0, prefix, host@) =~= then(u16_bytes(0), then(prefix, n)));
            lemma_run_then(b0, p0, u16_bytes(0), then(prefix, n));
        }
        buffer.write_u16(0u16)?;

        if let Some(value) = priority {
            proof { lemma_run_then(buffer.buff@, buffer.pos as int, u16_bytes(value), n); }
            buffer.write_u16(value)?;
        } else {
            assert(then(prefix, n) =~= n);
        }

        buffer.write_qname(host)?;

        let ghost o = run(b0, p0, host_data(0, prefix, host@));
        let size = buffer.pos() - (pos + 2);
        buffer.set_u16(pos, size as u16)?;

        Ok(())
    }
}


} // verus!
