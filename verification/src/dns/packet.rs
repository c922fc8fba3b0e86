//! The DNS packet: a header and four sections, read and written through the
//! packet buffer, and the lookups a resolver makes in a response.

use vstd::prelude::*;
use vstd::utf8::encode_utf8;
use crate::dns::buffer::{BytePacketBuffer, reports};
use crate::dns::error::{DnsError, Result};
use crate::dns::header::{DnsHeader, header_after_read, header_bytes};
use crate::dns::question::{DnsQuestion, QuestionView, question_at, question_emission};
use crate::dns::record::{DnsRecord, RecordView, record_at, record_write};
use crate::dns::text::ends_with;
use crate::dns::wire::{WriteOutcome, advance, emit, read_n, run};

verus! {

/// DNS packet.
#[derive(Clone, Debug)]
pub struct DnsPacket {
    /// DNS header.
    pub header: DnsHeader,
    /// DNS question records container.
    pub questions: Vec<DnsQuestion>,
    /// DNS answers records container.
    pub answers: Vec<DnsRecord>,
    /// DNS authorities records container.
    pub authorities: Vec<DnsRecord>,
    /// DNS additional records container.
    pub resources: Vec<DnsRecord>,
}

/// The mathematical value of a packet.
pub struct PacketView {
    pub header: DnsHeader,
    pub questions: Seq<QuestionView>,
    pub answers: Seq<RecordView>,
    pub authorities: Seq<RecordView>,
    pub resources: Seq<RecordView>,
}

/// The values of some questions.
pub open spec fn question_views(qs: Seq<DnsQuestion>) -> Seq<QuestionView> {
    qs.map_values(|q: DnsQuestion| q@)
}

/// The values of some records.
pub open spec fn record_views(rs: Seq<DnsRecord>) -> Seq<RecordView> {
    rs.map_values(|r: DnsRecord| r@)
}

impl View for DnsPacket {
    type V = PacketView;

    open spec fn view(&self) -> PacketView {
        PacketView {
            header: self.header,
            questions: question_views(self.questions@),
            answers: record_views(self.answers@),
            authorities: record_views(self.authorities@),
            resources: record_views(self.resources@),
        }
    }
}

/// Reading `n` questions one after the other from position `p` of `b`.
pub open spec fn questions_at(b: Seq<u8>, p: int, n: nat) -> (core::result::Result<Seq<QuestionView>, DnsError>, int)
    decreases n,
{
    if n == 0 {
        (Ok(Seq::empty()), p)
    } else {
        let (r, p1) = questions_at(b, p, (n - 1) as nat);
        match r {
            Err(e) => (Err(e), p1),
            Ok(qs) => {
                let (q, p2) = question_at(b, p1);
                match q {
                    Err(e) => (Err(e), p2),
                    Ok(v) => (Ok(qs.push(v)), p2),
                }
            },
        }
    }
}

/// Reading `n` records one after the other from position `p` of `b`.
pub open spec fn records_at(b: Seq<u8>, p: int, n: nat) -> (core::result::Result<Seq<RecordView>, DnsError>, int)
    decreases n,
{
    if n == 0 {
        (Ok(Seq::empty()), p)
    } else {
        let (r, p1) = records_at(b, p, (n - 1) as nat);
        match r {
            Err(e) => (Err(e), p1),
            Ok(rs) => {
                let (x, p2) = record_at(b, p1);
                match x {
                    Err(e) => (Err(e), p2),
                    Ok(v) => (Ok(rs.push(v)), p2),
                }
            },
        }
    }
}

/// Reading a packet at position `p` of `b`: the header, then as many
/// questions, answers, authorities and additional records as it counts.
#[verifier::opaque]
pub open spec fn packet_at(b: Seq<u8>, p: int) -> (core::result::Result<PacketView, DnsError>, int) {
    match read_n(b, p, 12) {
        Err(e) => (Err(e), advance(p, 12)),
        Ok(_) => {
            let h = header_after_read(DnsHeader::spec_new(), b, p);
            let (qs, p1) = questions_at(b, p + 12, h.question_count as nat);
            match qs {
                Err(e) => (Err(e), p1),
                Ok(qs) => {
                    let (an, p2) = records_at(b, p1, h.answer_count as nat);
                    match an {
                        Err(e) => (Err(e), p2),
                        Ok(an) => {
                            let (au, p3) = records_at(b, p2, h.authority_count as nat);
                            match au {
                                Err(e) => (Err(e), p3),
                                Ok(au) => {
                                    let (ad, p4) = records_at(b, p3, h.additional_count as nat);
                                    match ad {
                                        Err(e) => (Err(e), p4),
                                        Ok(ad) => (
                                            Ok(
                                                PacketView {
                                                    header: h,
                                                    questions: qs,
                                                    answers: an,
                                                    authorities: au,
                                                    resources: ad,
                                                },
                                            ),
                                            p4,
                                        ),
                                    }
                                },
                            }
                        },
                    }
                },
            }
        },
    }
}

/// Writing questions one after the other at `p` of `b`, stopping at the
/// first error.
pub open spec fn questions_write(b: Seq<u8>, p: int, qs: Seq<QuestionView>) -> WriteOutcome
    decreases qs.len(),
{
    if qs.len() == 0 {
        WriteOutcome { buff: b, pos: p, err: None }
    } else {
        let o = questions_write(b, p, qs.drop_last());
        if o.err is Some { o } else { run(o.buff, o.pos, question_emission(qs.last())) }
    }
}

/// Writing records one after the other at `p` of `b`, stopping at the
/// first error.
pub open spec fn records_write(b: Seq<u8>, p: int, rs: Seq<RecordView>) -> WriteOutcome
    decreases rs.len(),
{
    if rs.len() == 0 {
        WriteOutcome { buff: b, pos: p, err: None }
    } else {
        let o = records_write(b, p, rs.drop_last());
        if o.err is Some { o } else { record_write(o.buff, o.pos, rs.last()) }
    }
}

/// Writing a packet at `p` of `b`: the header, the questions, the answers,
/// the authorities and the additional records, stopping at the first error.
#[verifier::opaque]
pub open spec fn packet_write(b: Seq<u8>, p: int, v: PacketView) -> WriteOutcome {
    let o1 = run(b, p, emit(header_bytes(v.header)));
    if o1.err is Some {
        o1
    } else {
        let o2 = questions_write(o1.buff, o1.pos, v.questions);
        if o2.err is Some {
            o2
        } else {
            let o3 = records_write(o2.buff, o2.pos, v.answers);
            if o3.err is Some {
                o3
            } else {
                let o4 = records_write(o3.buff, o3.pos, v.authorities);
                if o4.err is Some { o4 } else { records_write(o4.buff, o4.pos, v.resources) }
            }
        }
    }
}

/// A packet whose header counts are set from the lengths of its sections.
pub open spec fn with_counts(v: PacketView) -> PacketView {
    PacketView {
        header: DnsHeader {
            question_count: v.questions.len() as u16,
            answer_count: v.answers.len() as u16,
            authority_count: v.authorities.len() as u16,
            additional_count: v.resources.len() as u16,
            ..v.header
        },
        ..v
    }
}


/// The address of the first address record of `rs` at index `i` or after.
pub open spec fn first_alias(rs: Seq<RecordView>, i: int) -> Option<Seq<u8>>
    decreases rs.len() - i,
{
    if i < 0 || i >= rs.len() {
        None
    } else {
        match rs[i] {
            RecordView::Alias { addr, .. } => Some(addr),
            _ => first_alias(rs, i + 1),
        }
    }
}

/// The (domain, host) pairs of the name server records of `rs`, in order,
/// whose domain ends the name `qname` (compared as UTF-8 bytes).
pub open spec fn nameservers(rs: Seq<RecordView>, qname: Seq<char>) -> Seq<(Seq<char>, Seq<char>)>
    decreases rs.len(),
{
    if rs.len() == 0 {
        Seq::empty()
    } else {
        let init = nameservers(rs.drop_last(), qname);
        match rs.last() {
            RecordView::Nameserver { domain, host, .. } => if encode_utf8(domain).is_suffix_of(
                encode_utf8(qname),
            ) {
                init.push((domain, host))
            } else {
                init
            },
            _ => init,
        }
    }
}

/// The address of the first address record of `rs`, at index `i` or
/// after, whose domain is `host`.
pub open spec fn address_of(rs: Seq<RecordView>, host: Seq<char>, i: int) -> Option<Seq<u8>>
    decreases rs.len() - i,
{
    if i < 0 || i >= rs.len() {
        None
    } else {
        match rs[i] {
            RecordView::Alias { domain, addr, .. } => if domain == host {
                Some(addr)
            } else {
                address_of(rs, host, i + 1)
            },
            _ => address_of(rs, host, i + 1),
        }
    }
}

/// Going through the name servers `ns` from index `i` on, the first address
/// that the records `rs` give for one of their hosts.
pub open spec fn resolved_address(ns: Seq<(Seq<char>, Seq<char>)>, rs: Seq<RecordView>, i: int) -> Option<Seq<u8>>
    decreases ns.len() - i,
{
    if i < 0 || i >= ns.len() {
        None
    } else {
        match address_of(rs, ns[i].1, 0) {
            Some(a) => Some(a),
            None => resolved_address(ns, rs, i + 1),
        }
    }
}

/// The values of (domain, host) pairs.
pub open spec fn pair_views(v: Seq<(&String, &String)>) -> Seq<(Seq<char>, Seq<char>)> {
    v.map_values(|pr: (&String, &String)| (pr.0@, pr.1@))
}

impl DnsPacket {
    /// An empty packet with a zero header.
    pub open spec fn spec_new() -> PacketView {
        PacketView {
            header: DnsHeader::spec_new(),
            questions: Seq::empty(),
            answers: Seq::empty(),
            authorities: Seq::empty(),
            resources: Seq::empty(),
        }
    }

    /// Default constructor.
    pub fn new() -> (res: DnsPacket)
        ensures
            res@ == DnsPacket::spec_new(),
    {
        let res = DnsPacket {
            header: DnsHeader::new(),
            questions: Vec::new(),
            answers: Vec::new(),
            authorities: Vec::new(),
            resources: Vec::new(),
        };
        assert(res@.questions =~= Seq::<QuestionView>::empty());
        assert(res@.answers =~= Seq::<RecordView>::empty());
        assert(res@.authorities =~= Seq::<RecordView>::empty());
        assert(res@.resources =~= Seq::<RecordView>::empty());
        res
    }

    /// Read a DNS packet from the packet buffer.
    pub fn from_buffer(buffer: &mut BytePacketBuffer) -> (res: Result<DnsPacket>)
        ensures
            final(buffer).buff == old(buffer).buff,
            final(buffer).pos == packet_at(old(buffer).buff@, old(buffer).pos as int).1,
            match packet_at(old(buffer).buff@, old(buffer).pos as int).0 {
                Ok(v) => res matches Ok(pk) && pk@ == v,
                Err(e) => res matches Err(e2) && e2 == e,
            },
    {
        proof { reveal(packet_at); }
        let ghost b = buffer.buff@;
        let ghost p = buffer.pos as int;
        let mut result = DnsPacket::new();

        result.header.read(buffer)?;

        let mut i: u16 = 0;
        assert(question_views(result.questions@) =~= Seq::<QuestionView>::empty());
        while i < result.header.question_count
            invariant
                buffer.buff == old(buffer).buff,
                b == old(buffer).buff@,
                p == old(buffer).pos,
                read_n(b, p, 12) is Ok,
                result.header == header_after_read(DnsHeader::spec_new(), b, p),
                result@.answers == Seq::<RecordView>::empty(),
                result@.authorities == Seq::<RecordView>::empty(),
                result@.resources == Seq::<RecordView>::empty(),
                i <= result.header.question_count,
                questions_at(b, p + 12, i as nat) == (Ok::<Seq<QuestionView>, DnsError>(question_views(result.questions@)), buffer.pos as int),
            decreases result.header.question_count - i,
        {
            let elem = match DnsQuestion::read(buffer) {
                Ok(elem) => elem,
                Err(e) => {
                    proof {
                        reveal(packet_at);
                        lemma_questions_err(b, p + 12, (i + 1) as nat, result.header.question_count as nat);
                    }
                    return Err(e);
                },
            };
            let ghost before = result.questions@;
            result.questions.push(elem);
            proof { assert(question_views(result.questions@) =~= question_views(before).push(elem@)); }
            i += 1;
        }
        result.answers = read_records(buffer, result.header.answer_count)?;
        result.authorities = read_records(buffer, result.header.authority_count)?;
        result.resources = read_records(buffer, result.header.additional_count)?;

        Ok(result)
    }

    /// Write the DNS packet to the packet buffer, first setting the header
    /// counts to the lengths of the sections.
    pub fn to_buffer(&mut self, buffer: &mut BytePacketBuffer) -> (res: Result<()>)
        ensures
            final(self)@ == with_counts(old(self)@),
            ({
                let o = packet_write(old(buffer).buff@, old(buffer).pos as int, with_counts(old(self)@));
                &&& final(buffer).buff@ == o.buff
                &&& final(buffer).pos == o.pos
                &&& reports(res, o.err)
            }),
    {
        proof { reveal(packet_write); }
        self.header.question_count = self.questions.len() as u16;
        self.header.answer_count = self.answers.len() as u16;
        self.header.authority_count = self.authorities.len() as u16;
        self.header.additional_count = self.resources.len() as u16;
        assert(self@ == with_counts(old(self)@));
        self.header.write(buffer)?;

        let ghost b1 = buffer.buff@;
        let ghost p1 = buffer.pos as int;
        let ghost qs = question_views(self.questions@);
        let mut i: usize = 0;
        assert(qs.take(0) =~= Seq::<QuestionView>::empty());
        while i < self.questions.len()
            invariant
                self@ == with_counts(old(self)@),
                run(old(buffer).buff@, old(buffer).pos as int, emit(header_bytes(self.header)))
                    == (WriteOutcome { buff: b1, pos: p1, err: None }),
                qs == question_views(self.questions@),
                i <= self.questions.len(),
                questions_write(b1, p1, qs.take(i as int)) == (WriteOutcome { buff: buffer.buff@, pos: buffer.pos as int, err: None }),
            decreases self.questions.len() - i,
        {
            proof { assert(qs.take(i + 1).drop_last() =~= qs.take(i as int)); }
            match self.questions[i].write(buffer) {
                Ok(_) => {},
                Err(e) => {
                    proof {
                        reveal(packet_write);
                        lemma_questions_write_err(b1, p1, qs, i + 1);
                    }
                    return Err(e);
                },
            }
            i += 1;
        }
        proof { assert(qs.take(i as int) =~= qs); }
        write_records(&self.answers, buffer)?;
        write_records(&self.authorities, buffer)?;
        write_records(&self.resources, buffer)?;

        Ok(())
    }
    /// The address of the first address record among the answers.
    pub fn get_random_alias(&self) -> (res: Option<[u8; 4]>)
        ensures
            match first_alias(self@.answers, 0) {
                Some(a) => res matches Some(x) && x@ == a,
                None => res is None,
            },
    {
        let ghost rs = self@.answers;
        let mut i: usize = 0;
        while i < self.answers.len()
            invariant
                rs == self@.answers,
                i <= self.answers.len(),
                first_alias(rs, 0) == first_alias(rs, i as int),
            decreases self.answers.len() - i,
        {
            match &self.answers[i] {
                DnsRecord::ALIAS { addr, .. } => {
                    return Some(*addr);
                },
                _ => {},
            }
            i += 1;
        }
        None
    }

    /// The name server records among the authorities whose domain ends the
    /// name `qname`, as (domain, host) pairs.
    fn get_nameserver<'a>(&'a self, qname: &'a str) -> (res: Vec<(&'a String, &'a String)>)
        ensures
            pair_views(res@) == nameservers(self@.authorities, qname@),
    {
        let ghost rs = self@.authorities;
        let mut out: Vec<(&'a String, &'a String)> = Vec::new();
        let mut i: usize = 0;
        assert(pair_views(out@) =~= nameservers(rs.take(0), qname@));
        while i < self.authorities.len()
            invariant
                rs == self@.authorities,
                i <= self.authorities.len(),
                pair_views(out@) == nameservers(rs.take(i as int), qname@),
            decreases self.authorities.len() - i,
        {
            let ghost before = out@;
            proof { assert(rs.take(i + 1).drop_last() =~= rs.take(i as int)); }
            match &self.authorities[i] {
                DnsRecord::NAMESERVER { domain, host, .. } => {
                    // get only authoritative entries
                    if ends_with(qname, domain.as_str()) {
                        out.push((domain, host));
                        proof { assert(pair_views(out@) =~= pair_views(before).push((domain@, host@))); }
                    }
                },
                _ => {},
            }
            i += 1;
        }
        proof { assert(rs.take(i as int) =~= rs); }
        out
    }

    /// The address, among the additional records, of the first name server
    /// of `qname` that has one.
    pub fn get_resolved_nameserver(&self, qname: &str) -> (res: Option<[u8; 4]>)
        ensures
            match resolved_address(nameservers(self@.authorities, qname@), self@.resources, 0) {
                Some(a) => res matches Some(x) && x@ == a,
                None => res is None,
            },
    {
        let ns = self.get_nameserver(qname);
        let ghost nsv = pair_views(ns@);
        let ghost rs = self@.resources;
        let mut i: usize = 0;
        while i < ns.len()
            invariant
                nsv == pair_views(ns@),
                nsv == nameservers(self@.authorities, qname@),
                rs == self@.resources,
                i <= ns.len(),
                resolved_address(nsv, rs, 0) == resolved_address(nsv, rs, i as int),
            decreases ns.len() - i,
        {
            let host = ns[i].1;
            let mut j: usize = 0;
            while j < self.resources.len()
                invariant
                    nsv == pair_views(ns@),
                    nsv == nameservers(self@.authorities, qname@),
                    rs == self@.resources,
                    i < ns.len(),
                    host@ == nsv[i as int].1,
                    j <= self.resources.len(),
                    resolved_address(nsv, rs, 0) == resolved_address(nsv, rs, i as int),
                    address_of(rs, host@, 0) == address_of(rs, host@, j as int),
                decreases self.resources.len() - j,
            {
                match &self.resources[j] {
                    // pick where domain matches NS record host currently in processing
                    DnsRecord::ALIAS { domain, addr, .. } => {
                        if *domain == *host {
                            proof {
                                assert(rs[j as int] == self.resources@[j as int]@);
                                assert(address_of(rs, host@, j as int) == Some(addr@));
                                assert(address_of(rs, nsv[i as int].1, 0) == Some(addr@));
                            }
                            return Some(*addr);
                        }
                    },
                    _ => {},
                }
                j += 1;
            }
            i += 1;
        }
        None
    }

    /// The host of the first name server of `qname` among the authorities.
    pub fn get_unresolved_nameserver<'a>(&'a self, qname: &'a str) -> (res: Option<&'a str>)
        ensures
            nameservers(self@.authorities, qname@).len() > 0 ==> (res matches Some(h) && h@
                == nameservers(self@.authorities, qname@)[0].1),
            nameservers(self@.authorities, qname@).len() == 0 ==> res is None,
    {
        let ns = self.get_nameserver(qname);
        if ns.len() > 0 {
            let host: &'a String = ns[0].1;
            Some(host.as_str())
        } else {
            None
        }
    }

}

/// Once reading questions failed, reading more of them fails the same way.
proof fn lemma_questions_err(b: Seq<u8>, p: int, i: nat, n: nat)
    requires
        i <= n,
        questions_at(b, p, i).0 is Err,
    ensures
        questions_at(b, p, n) == questions_at(b, p, i),
    decreases n,
{
    if n > i {
        lemma_questions_err(b, p, i, (n - 1) as nat);
    }
}

/// Once reading records failed, reading more of them fails the same way.
proof fn lemma_records_err(b: Seq<u8>, p: int, i: nat, n: nat)
    requires
        i <= n,
        records_at(b, p, i).0 is Err,
    ensures
        records_at(b, p, n) == records_at(b, p, i),
    decreases n,
{
    if n > i {
        lemma_records_err(b, p, i, (n - 1) as nat);
    }
}

/// Once writing some of the questions failed, writing all of them fails the
/// same way.
proof fn lemma_questions_write_err(b: Seq<u8>, p: int, qs: Seq<QuestionView>, i: int)
    requires
        0 <= i <= qs.len(),
        questions_write(b, p, qs.take(i)).err is Some,
    ensures
        questions_write(b, p, qs) == questions_write(b, p, qs.take(i)),
    decreases qs.len() - i,
{
    if i < qs.len() {
        assert(qs.take(i + 1).drop_last() =~= qs.take(i));
        lemma_questions_write_err(b, p, qs, i + 1);
    } else {
        assert(qs.take(i) =~= qs);
    }
}

/// Once writing some of the records failed, writing all of them fails the
/// same way.
proof fn lemma_records_write_err(b: Seq<u8>, p: int, rs: Seq<RecordView>, i: int)
    requires
        0 <= i <= rs.len(),
        records_write(b, p, rs.take(i)).err is Some,
    ensures
        records_write(b, p, rs) == records_write(b, p, rs.take(i)),
    decreases rs.len() - i,
{
    if i < rs.len() {
        assert(rs.take(i + 1).drop_last() =~= rs.take(i));
        lemma_records_write_err(b, p, rs, i + 1);
    } else {
        assert(rs.take(i) =~= rs);
    }
}

/// Read `count` records one after the other.
fn read_records(buffer: &mut BytePacketBuffer, count: u16) -> (res: Result<Vec<DnsRecord>>)
    ensures
        final(buffer).buff == old(buffer).buff,
        final(buffer).pos == records_at(old(buffer).buff@, old(buffer).pos as int, count as nat).1,
        match records_at(old(buffer).buff@, old(buffer).pos as int, count as nat).0 {
            Ok(v) => res matches Ok(rs) && record_views(rs@) == v,
            Err(e) => res matches Err(e2) && e2 == e,
        },
{
    let ghost b = buffer.buff@;
    let ghost p = buffer.pos as int;
    let mut out: Vec<DnsRecord> = Vec::new();
    let mut i: u16 = 0;
    assert(record_views(out@) =~= Seq::<RecordView>::empty());
    while i < count
        invariant
            buffer.buff == old(buffer).buff,
            b == old(buffer).buff@,
            p == old(buffer).pos,
            i <= count,
            records_at(b, p, i as nat) == (Ok::<Seq<RecordView>, DnsError>(record_views(out@)), buffer.pos as int),
        decreases count - i,
    {
        let elem = match DnsRecord::read(buffer) {
            Ok(elem) => elem,
            Err(e) => {
                proof { lemma_records_err(b, p, (i + 1) as nat, count as nat); }
                return Err(e);
            },
        };
        let ghost before = out@;
        out.push(elem);
        proof { assert(record_views(out@) =~= record_views(before).push(elem@)); }
        i += 1;
    }
    Ok(out)
}

/// Write records one after the other.
fn write_records(records: &Vec<DnsRecord>, buffer: &mut BytePacketBuffer) -> (res: Result<()>)
    ensures
        ({
            let o = records_write(old(buffer).buff@, old(buffer).pos as int, record_views(records@));
            &&& final(buffer).buff@ == o.buff
            &&& final(buffer).pos == o.pos
            &&& reports(res, o.err)
        }),
{
    let ghost b = buffer.buff@;
    let ghost p = buffer.pos as int;
    let ghost vs = record_views(records@);
    let mut i: usize = 0;
    assert(vs.take(0) =~= Seq::<RecordView>::empty());
    while i < records.len()
        invariant
            b == old(buffer).buff@,
            p == old(buffer).pos,
            vs == record_views(records@),
            i <= records.len(),
            records_write(b, p, vs.take(i as int)) == (WriteOutcome { buff: buffer.buff@, pos: buffer.pos as int, err: None }),
        decreases records.len() - i,
    {
        proof { assert(vs.take(i + 1).drop_last() =~= vs.take(i as int)); }
        match records[i].write(buffer) {
            Ok(_) => {},
            Err(e) => {
                proof { lemma_records_write_err(b, p, vs, i + 1); }
                return Err(e);
            },
        }
        i += 1;
    }
    proof { assert(vs.take(i as int) =~= vs); }
    Ok(())
}


} // verus!
