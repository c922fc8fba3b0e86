//! What the reading, writing and resolving functions do, stated in fixed
//! terms: which bit of the flag bytes each flag is, where the cursor stops
//! after a compression pointer, which responses end a lookup, what a query
//! looks like, and which name servers serve a name.

use vstd::prelude::*;
use vstd::utf8::encode_utf8;
use crate::dns::header::{
    DnsControlFlags, DnsHeader, ResultCode, flags_byte1, flags_byte2, flags_from_bytes, header_after_read,
    header_bytes,
};
use crate::dns::error::DnsError;
use crate::dns::name::{read_name, scan_name};
use crate::dns::packet::{PacketView, address_of, first_alias, nameservers, resolved_address};
use crate::dns::question::{QueryType, QuestionView, question_at, question_emission};
use crate::dns::record::{RecordView, record_at};
use crate::dns::name::{labels_emission, lemma_dot_index_is, name_emission, split_labels};
use crate::dns::resolver::{is_final, query_view, response_flags};

verus! {

/// Once a pointer was followed, the cursor that reading a name ends with is
/// the one it had then, whatever the rest of the name holds (labels, more
/// pointers, or an error).
proof fn lemma_scan_after_jump(
    b: Seq<u8>,
    pos: int,
    jumps: int,
    cursor: int,
    delim: Seq<char>,
    text: Seq<char>,
)
    ensures
        scan_name(b, pos, jumps, cursor, true, delim, text).pos == cursor,
    decreases 5 + 1 - jumps, 512 - pos,
{
    if jumps > 5 {
    } else if pos >= 512 || pos < 0 {
    } else {
        let len = b[pos];
        if len >= 0xC0 {
            if pos + 1 < 512 {
                let offset = (len - 0xC0) * 256 + b[pos + 1];
                lemma_scan_after_jump(b, offset, jumps + 1, cursor, delim, text);
            }
        } else if len != 0 {
            let text1 = text + delim;
            if pos + 1 + len < 512 {
                lemma_scan_after_jump(
                    b,
                    pos + 1 + len,
                    jumps,
                    cursor,
                    seq!['.'],
                    text1 + crate::dns::text::label_text(b.subrange(pos + 1, pos + 1 + len)),
                );
            }
        }
    }
}

/// Reading a name never leaves the cursor before the start of the buffer.
proof fn lemma_scan_pos_nonneg(
    b: Seq<u8>,
    pos: int,
    jumps: int,
    cursor: int,
    jumped: bool,
    delim: Seq<char>,
    text: Seq<char>,
)
    requires
        cursor >= 0,
    ensures
        scan_name(b, pos, jumps, cursor, jumped, delim, text).pos >= 0,
    decreases 5 + 1 - jumps, 512 - pos,
{
    if jumps > 5 {
    } else if pos >= 512 || pos < 0 {
    } else {
        let len = b[pos];
        if len >= 0xC0 {
            if pos + 1 < 512 {
                let offset = (len - 0xC0) * 256 + b[pos + 1];
                let cursor2 = if jumped { cursor } else { pos + 2 };
                lemma_scan_pos_nonneg(b, offset, jumps + 1, cursor2, true, delim, text);
            }
        } else if len != 0 {
            let text1 = text + delim;
            if pos + 1 + len < 512 {
                lemma_scan_pos_nonneg(
                    b,
                    pos + 1 + len,
                    jumps,
                    cursor,
                    jumped,
                    seq!['.'],
                    text1 + crate::dns::text::label_text(b.subrange(pos + 1, pos + 1 + len)),
                );
            }
        }
    }
}

/// A name that starts with a compression pointer at `p` leaves the cursor
/// just past the pointer's two bytes, at `p + 2`, whatever the name pointed
/// to holds, further pointers included, and whether or not the reading
/// then succeeds.
pub proof fn law_pointer_cursor(b: Seq<u8>, p: int, text: Seq<char>)
    requires
        b.len() == 512,
        0 <= p,
        p + 2 < 512,
        b[p] >= 0xC0,
    ensures
        read_name(b, p, text).pos == p + 2,
{
    let offset = (b[p] - 0xC0) * 256 + b[p + 1];
    lemma_scan_after_jump(b, offset, 1, p + 2, Seq::empty(), text);
}

/// Reading two flag bytes: `recursion_desired` is bit 0 (0x01) of the first
/// byte, `truncated_message` bit 1 (0x02), `authoritative_answer` bit 2
/// (0x04), the operation code bits 3 to 6, `query_response` bit 7 (0x80);
/// the result code is the low four bits of the second byte,
/// `check_disable` its bit 4 (0x10), `authoritative_data` bit 5 (0x20),
/// `recursion_available` bit 7 (0x80); the reserved flag is kept.
pub proof fn law_flags_read_bits(b1: u8, b2: u8, z: bool)
    ensures
        flags_from_bytes(b1, b2, z).recursion_desired == (b1 & 0x01 != 0),
        flags_from_bytes(b1, b2, z).truncated_message == (b1 & 0x02 != 0),
        flags_from_bytes(b1, b2, z).authoritative_answer == (b1 & 0x04 != 0),
        flags_from_bytes(b1, b2, z).operation_code == (b1 / 8) % 16,
        flags_from_bytes(b1, b2, z).query_response == (b1 & 0x80 != 0),
        flags_from_bytes(b1, b2, z).result_code == ResultCode::spec_from_num(b2 % 16),
        flags_from_bytes(b1, b2, z).check_disable == (b2 & 0x10 != 0),
        flags_from_bytes(b1, b2, z).authoritative_data == (b2 & 0x20 != 0),
        flags_from_bytes(b1, b2, z).recursion_available == (b2 & 0x80 != 0),
        flags_from_bytes(b1, b2, z).z == z,
{
    let f = flags_from_bytes(b1, b2, z);
    assert(((b1 >> 0u8) & 1u8 == 1u8) == (b1 & 0x01 != 0)) by (bit_vector);
    assert(((b1 >> 1u8) & 1u8 == 1u8) == (b1 & 0x02 != 0)) by (bit_vector);
    assert(((b1 >> 2u8) & 1u8 == 1u8) == (b1 & 0x04 != 0)) by (bit_vector);
    assert((b1 >> 3u8) & 0x0Fu8 == (b1 / 8) % 16) by (bit_vector);
    assert(((b1 >> 7u8) & 1u8 == 1u8) == (b1 & 0x80 != 0)) by (bit_vector);
    assert(b2 & 0x0Fu8 == b2 % 16) by (bit_vector);
    assert(((b2 >> 4u8) & 1u8 == 1u8) == (b2 & 0x10 != 0)) by (bit_vector);
    assert(((b2 >> 5u8) & 1u8 == 1u8) == (b2 & 0x20 != 0)) by (bit_vector);
    assert(((b2 >> 7u8) & 1u8 == 1u8) == (b2 & 0x80 != 0)) by (bit_vector);
}

/// Writing flags: the first byte has bit 0 (0x01) set exactly when
/// `recursion_desired`, bit 1 (0x02) when `truncated_message`, bit 2 (0x04)
/// when `authoritative_answer`, bit 7 (0x80) when `query_response`, and the
/// operation code in bits 3 to 6; the second byte holds the result code's
/// number in its low four bits, bit 4 (0x10) when `check_disable`, bit 5
/// (0x20) when `authoritative_data`, bit 7 (0x80) when
/// `recursion_available`, and never bit 6. This holds when the operation
/// code fits in its four bits.
pub proof fn law_flags_write_bits(f: DnsControlFlags)
    requires
        f.operation_code <= 15,
    ensures
        (flags_byte1(f) & 0x01 != 0) == f.recursion_desired,
        (flags_byte1(f) & 0x02 != 0) == f.truncated_message,
        (flags_byte1(f) & 0x04 != 0) == f.authoritative_answer,
        (flags_byte1(f) / 8) % 16 == f.operation_code,
        (flags_byte1(f) & 0x80 != 0) == f.query_response,
        flags_byte2(f) % 16 == f.result_code.spec_to_num(),
        (flags_byte2(f) & 0x10 != 0) == f.check_disable,
        (flags_byte2(f) & 0x20 != 0) == f.authoritative_data,
        flags_byte2(f) & 0x40 == 0,
        (flags_byte2(f) & 0x80 != 0) == f.recursion_available,
{
    let rd: u8 = if f.recursion_desired { 1 } else { 0 };
    let tm: u8 = if f.truncated_message { 1 } else { 0 };
    let aa: u8 = if f.authoritative_answer { 1 } else { 0 };
    let qr: u8 = if f.query_response { 1 } else { 0 };
    let op = f.operation_code;
    let x = rd | (tm << 1u8) | (aa << 2u8) | (op << 3u8) | (qr << 7u8);
    assert(x == flags_byte1(f));
    assert(rd <= 1 && tm <= 1 && aa <= 1 && qr <= 1 && op <= 15 && x == rd | (tm << 1u8) | (aa << 2u8) | (op << 3u8)
        | (qr << 7u8) ==> (x & 0x01 != 0) == (rd == 1) && (x & 0x02 != 0) == (tm == 1) && (x & 0x04 != 0) == (aa
        == 1) && (x / 8) % 16 == op && (x & 0x80 != 0) == (qr == 1)) by (bit_vector);
    let rc = f.result_code.spec_to_num();
    let cd: u8 = if f.check_disable { 1 } else { 0 };
    let ad: u8 = if f.authoritative_data { 1 } else { 0 };
    let ra: u8 = if f.recursion_available { 1 } else { 0 };
    let y = rc | (cd << 4u8) | (ad << 5u8) | (ra << 7u8);
    assert(y == flags_byte2(f));
    assert(rc <= 15);
    assert(rc <= 15 && cd <= 1 && ad <= 1 && ra <= 1 && y == rc | (cd << 4u8) | (ad << 5u8) | (ra << 7u8) ==> y % 16
        == rc && (y & 0x10 != 0) == (cd == 1) && (y & 0x20 != 0) == (ad == 1) && y & 0x40 == 0 && (y & 0x80 != 0)
        == (ra == 1)) by (bit_vector);
}

/// A response that answers with at least one record and no error ends a
/// lookup, whatever its authority and additional sections hold; so does
/// one that says the name does not exist.
pub proof fn law_final_responses(v: PacketView)
    ensures
        v.answers.len() > 0 && v.header.control_flags.result_code == ResultCode::NoErr ==> is_final(v),
        v.header.control_flags.result_code == ResultCode::NxDomain ==> is_final(v),
        v.answers.len() == 0 && v.header.control_flags.result_code != ResultCode::NxDomain ==> !is_final(v),
{
}

/// The query a resolver sends is a query (`query_response` clear) that asks
/// for recursion, with every other flag cleared, the operation code 0 and
/// the result code `NoErr`, one question (`qname`, `qtype`) counted in the
/// header, and no records.
pub proof fn law_query_shape(id: u16, qname: Seq<char>, qtype: QueryType)
    ensures
        query_view(id, qname, qtype).header.id == id,
        !query_view(id, qname, qtype).header.control_flags.query_response,
        query_view(id, qname, qtype).header.control_flags.recursion_desired,
        !query_view(id, qname, qtype).header.control_flags.truncated_message,
        !query_view(id, qname, qtype).header.control_flags.authoritative_answer,
        query_view(id, qname, qtype).header.control_flags.operation_code == 0,
        query_view(id, qname, qtype).header.control_flags.result_code == ResultCode::NoErr,
        !query_view(id, qname, qtype).header.control_flags.check_disable,
        !query_view(id, qname, qtype).header.control_flags.authoritative_data,
        !query_view(id, qname, qtype).header.control_flags.z,
        !query_view(id, qname, qtype).header.control_flags.recursion_available,
        query_view(id, qname, qtype).header.question_count == 1,
        query_view(id, qname, qtype).header.answer_count == 0,
        query_view(id, qname, qtype).header.authority_count == 0,
        query_view(id, qname, qtype).header.additional_count == 0,
        query_view(id, qname, qtype).questions.len() == 1,
        query_view(id, qname, qtype).questions[0].name == qname,
        query_view(id, qname, qtype).questions[0].qtype == qtype,
        query_view(id, qname, qtype).answers.len() == 0,
        query_view(id, qname, qtype).authorities.len() == 0,
        query_view(id, qname, qtype).resources.len() == 0,
{
}

/// The name servers of `qname` among the records `rs` are exactly the name
/// server records whose domain's bytes end those of `qname` (the domain
/// equal to `qname` included), as (domain, host) pairs, in their order.
pub proof fn law_nameservers_members(rs: Seq<RecordView>, qname: Seq<char>)
    ensures
        forall|i: int|
            0 <= i < rs.len() ==> (#[trigger] rs[i] matches RecordView::Nameserver { domain, host, .. }
                ==> (encode_utf8(domain).is_suffix_of(encode_utf8(qname)) ==> nameservers(rs, qname).contains(
                (domain, host),
            ))),
        forall|k: int|
            #![trigger nameservers(rs, qname)[k]]
            0 <= k < nameservers(rs, qname).len() ==> exists|i: int|
                0 <= i < rs.len() && (#[trigger] rs[i] matches RecordView::Nameserver { domain, host, .. }
                    && domain == nameservers(rs, qname)[k].0 && host == nameservers(rs, qname)[k].1
                    && encode_utf8(domain).is_suffix_of(encode_utf8(qname))),
    decreases rs.len(),
{
    if rs.len() > 0 {
        let init = rs.drop_last();
        law_nameservers_members(init, qname);
        let ns0 = nameservers(init, qname);
        let ns = nameservers(rs, qname);
        assert forall|i: int|
            0 <= i < rs.len() implies (#[trigger] rs[i] matches RecordView::Nameserver { domain, host, .. }
                ==> (encode_utf8(domain).is_suffix_of(encode_utf8(qname)) ==> ns.contains((domain, host)))) by {
            if i < rs.len() - 1 {
                assert(rs[i] == init[i]);
                if let RecordView::Nameserver { domain, host, .. } = rs[i] {
                    if encode_utf8(domain).is_suffix_of(encode_utf8(qname)) {
                        let j = choose|j: int| 0 <= j < ns0.len() && ns0[j] == (domain, host);
                        assert(ns[j] == (domain, host));
                    }
                }
            } else {
                if let RecordView::Nameserver { domain, host, .. } = rs[i] {
                    if encode_utf8(domain).is_suffix_of(encode_utf8(qname)) {
                        assert(ns[ns.len() - 1] == (domain, host));
                    }
                }
            }
        }
        assert forall|k: int| #![trigger ns[k]] 0 <= k < ns.len() implies exists|i: int|
            0 <= i < rs.len() && (#[trigger] rs[i] matches RecordView::Nameserver { domain, host, .. } && domain
                == ns[k].0 && host == ns[k].1 && encode_utf8(domain).is_suffix_of(encode_utf8(qname))) by {
            if k < ns0.len() {
                assert(ns[k] == ns0[k]);
                let i = choose|i: int|
                    0 <= i < init.len() && (#[trigger] init[i] matches RecordView::Nameserver { domain, host, .. }
                        && domain == ns0[k].0 && host == ns0[k].1 && encode_utf8(domain).is_suffix_of(
                        encode_utf8(qname),
                    ));
                assert(rs[i] == init[i]);
            } else {
                assert(rs[rs.len() - 1] == rs.last());
            }
        }
    }
}

/// A name server record whose domain is `qname` itself is among the name
/// servers of `qname`.
pub proof fn law_nameserver_of_itself(rs: Seq<RecordView>, qname: Seq<char>, i: int)
    requires
        0 <= i < rs.len(),
        rs[i] matches RecordView::Nameserver { domain, .. } && domain == qname,
    ensures
        rs[i] matches RecordView::Nameserver { domain, host, .. } && nameservers(rs, qname).contains((domain, host)),
        nameservers(rs, qname).len() > 0,
{
    law_nameservers_members(rs, qname);
    assert(encode_utf8(qname).subrange(0, encode_utf8(qname).len() as int) =~= encode_utf8(qname));
    if let RecordView::Nameserver { domain, host, .. } = rs[i] {
        assert(nameservers(rs, qname).contains((domain, host)));
    }
}

/// The numbers of the query types on the wire: `ALIAS` is 1, `NAMESERVER`
/// 2, `CANONICALNAME` 5, `MAILEXCHANGE` 15, `AAAA` 28, and an unknown type
/// keeps its number; every other number is read as an unknown type.
pub proof fn law_query_type_numbers(n: u16)
    ensures
        QueryType::ALIAS.spec_to_num() == 1,
        QueryType::NAMESERVER.spec_to_num() == 2,
        QueryType::CANONICALNAME.spec_to_num() == 5,
        QueryType::MAILEXCHANGE.spec_to_num() == 15,
        QueryType::AAAA.spec_to_num() == 28,
        QueryType::UNKNOWN(n).spec_to_num() == n,
        QueryType::spec_from_num(1) == QueryType::ALIAS,
        QueryType::spec_from_num(2) == QueryType::NAMESERVER,
        QueryType::spec_from_num(5) == QueryType::CANONICALNAME,
        QueryType::spec_from_num(15) == QueryType::MAILEXCHANGE,
        QueryType::spec_from_num(28) == QueryType::AAAA,
        n != 1 && n != 2 && n != 5 && n != 15 && n != 28 ==> QueryType::spec_from_num(n) == QueryType::UNKNOWN(n),
{
}

/// The numbers of the result codes: `NoErr` 0, `FormErr` 1, `ServFail` 2,
/// `NxDomain` 3, `NotImp` 4, `Refused` 5; a number above 5 is read as
/// `NoErr`.
pub proof fn law_result_code_numbers(n: u8)
    ensures
        ResultCode::NoErr.spec_to_num() == 0,
        ResultCode::FormErr.spec_to_num() == 1,
        ResultCode::ServFail.spec_to_num() == 2,
        ResultCode::NxDomain.spec_to_num() == 3,
        ResultCode::NotImp.spec_to_num() == 4,
        ResultCode::Refused.spec_to_num() == 5,
        n <= 5 ==> ResultCode::spec_from_num(n).spec_to_num() == n,
        n > 5 ==> ResultCode::spec_from_num(n) == ResultCode::NoErr,
{
}

/// The twelve header bytes: the identifier, the two flag bytes, then the
/// question, answer, authority and additional counts, each 16-bit value
/// big-endian.
pub proof fn law_header_layout(h: DnsHeader)
    ensures
        header_bytes(h).len() == 12,
        header_bytes(h)[0] == h.id / 256 && header_bytes(h)[1] == h.id % 256,
        header_bytes(h)[2] == flags_byte1(h.control_flags),
        header_bytes(h)[3] == flags_byte2(h.control_flags),
        header_bytes(h)[4] == h.question_count / 256 && header_bytes(h)[5] == h.question_count % 256,
        header_bytes(h)[6] == h.answer_count / 256 && header_bytes(h)[7] == h.answer_count % 256,
        header_bytes(h)[8] == h.authority_count / 256 && header_bytes(h)[9] == h.authority_count % 256,
        header_bytes(h)[10] == h.additional_count / 256 && header_bytes(h)[11] == h.additional_count % 256,
{
}

/// Reading a header from twelve bytes at `p`: the identifier from bytes
/// 0 and 1, the flags from bytes 2 and 3 (the reserved flag kept), the
/// question, answer, authority and additional counts from bytes 4 to 11,
/// each 16-bit value big-endian.
pub proof fn law_header_read_layout(h: DnsHeader, b: Seq<u8>, p: int)
    requires
        b.len() == 512,
        0 <= p,
        p + 12 <= 512,
    ensures
        header_after_read(h, b, p).id == b[p] * 256 + b[p + 1],
        header_after_read(h, b, p).control_flags == flags_from_bytes(b[p + 2], b[p + 3], h.control_flags.z),
        header_after_read(h, b, p).question_count == b[p + 4] * 256 + b[p + 5],
        header_after_read(h, b, p).answer_count == b[p + 6] * 256 + b[p + 7],
        header_after_read(h, b, p).authority_count == b[p + 8] * 256 + b[p + 9],
        header_after_read(h, b, p).additional_count == b[p + 10] * 256 + b[p + 11],
{
    let r = header_after_read(h, b, p);
    assert(r.id == (b[p] * 256 + b[p + 1]) as u16);
    assert(r.question_count == (b[p + 4] * 256 + b[p + 5]) as u16);
    assert(r.answer_count == (b[p + 6] * 256 + b[p + 7]) as u16);
    assert(r.authority_count == (b[p + 8] * 256 + b[p + 9]) as u16);
    assert(r.additional_count == (b[p + 10] * 256 + b[p + 11]) as u16);
}

/// The flags of a server's response: a response (`query_response`) that
/// says recursion was desired and is available, with the result code
/// `rc` and every other flag cleared.
pub proof fn law_response_flags(rc: ResultCode)
    ensures
        response_flags(rc).query_response,
        response_flags(rc).recursion_desired,
        response_flags(rc).recursion_available,
        response_flags(rc).result_code == rc,
        !response_flags(rc).truncated_message,
        !response_flags(rc).authoritative_answer,
        response_flags(rc).operation_code == 0,
        !response_flags(rc).check_disable,
        !response_flags(rc).authoritative_data,
        !response_flags(rc).z,
{
}

/// The first address record from index `i` on: its address is that of an
/// address record at some index `j >= i` with none before it; there is none
/// exactly when no record from `i` on is an address record.
pub proof fn law_first_alias(rs: Seq<RecordView>, i: int)
    requires
        0 <= i,
    ensures
        first_alias(rs, i) is None <==> (forall|j: int| i <= j < rs.len() ==> !(#[trigger] rs[j] is Alias)),
        first_alias(rs, i) matches Some(a) ==> exists|j: int|
            i <= j < rs.len() && (#[trigger] rs[j] matches RecordView::Alias { addr, .. } && addr == a) && forall|
                k: int,
            | i <= k < j ==> !(#[trigger] rs[k] is Alias),
    decreases rs.len() - i,
{
    if i < rs.len() {
        law_first_alias(rs, i + 1);
        if !(rs[i] is Alias) {
            if let Some(a) = first_alias(rs, i + 1) {
                let j = choose|j: int|
                    i + 1 <= j < rs.len() && (#[trigger] rs[j] matches RecordView::Alias { addr, .. } && addr == a)
                        && forall|k: int| i + 1 <= k < j ==> !(#[trigger] rs[k] is Alias);
                assert(forall|k: int| i <= k < j ==> !(#[trigger] rs[k] is Alias));
            }
        }
    }
}

/// An address found for a host is that of an address record for the host;
/// there is none exactly when no address record is for the host.
proof fn lemma_address_of(rs: Seq<RecordView>, host: Seq<char>, i: int)
    requires
        0 <= i,
    ensures
        address_of(rs, host, i) is None <==> (forall|j: int|
            i <= j < rs.len() ==> !(#[trigger] rs[j] matches RecordView::Alias { domain, .. } && domain == host)),
        address_of(rs, host, i) matches Some(a) ==> exists|j: int|
            i <= j < rs.len() && (#[trigger] rs[j] matches RecordView::Alias { domain, addr, .. } && domain == host
                && addr == a),
    decreases rs.len() - i,
{
    if i < rs.len() {
        lemma_address_of(rs, host, i + 1);
    }
}

/// The address a referral resolves to, going through the name servers `ns`
/// from index `i` on: it is the address of an address record for the host
/// of one of them; there is none exactly when no address record is for the
/// host of any of them.
pub proof fn law_resolved_address(ns: Seq<(Seq<char>, Seq<char>)>, rs: Seq<RecordView>, i: int)
    requires
        0 <= i,
    ensures
        resolved_address(ns, rs, i) is None <==> (forall|k: int, j: int|
            i <= k < ns.len() && 0 <= j < rs.len() ==> !(#[trigger] rs[j] matches RecordView::Alias { domain, .. }
                && domain == #[trigger] ns[k].1)),
        resolved_address(ns, rs, i) matches Some(a) ==> exists|k: int, j: int|
            i <= k < ns.len() && 0 <= j < rs.len() && (#[trigger] rs[j] matches RecordView::Alias { domain, addr, .. }
                && domain == #[trigger] ns[k].1 && addr == a),
    decreases ns.len() - i,
{
    if i < ns.len() {
        law_resolved_address(ns, rs, i + 1);
        lemma_address_of(rs, ns[i].1, 0);
        if let Some(a) = address_of(rs, ns[i].1, 0) {
            let j = choose|j: int|
                0 <= j < rs.len() && (#[trigger] rs[j] matches RecordView::Alias { domain, addr, .. } && domain
                    == ns[i].1 && addr == a);
            assert(rs[j] matches RecordView::Alias { domain, addr, .. } && domain == ns[i].1 && addr == a);
        } else if resolved_address(ns, rs, i + 1) is None {
            assert forall|k: int, j: int|
                i <= k < ns.len() && 0 <= j < rs.len() implies !(#[trigger] rs[j] matches RecordView::Alias {
                domain,
                ..
            } && domain == #[trigger] ns[k].1) by {
                if k == i {
                    assert(!(rs[j] matches RecordView::Alias { domain, .. } && domain == ns[i].1));
                }
            }
        }
    }
}

/// The big-endian value of four bytes fits in 32 bits.
proof fn lemma_be32_fits(a: u8, b: u8, c: u8, d: u8)
    ensures
        0 <= a as int * 0x100_0000 + b as int * 0x1_0000 + c as int * 0x100 + d as int <= 0xFFFF_FFFF,
        ((a as int * 256 + b as int) * 256 + c as int) * 256 + d as int == a as int * 0x100_0000 + b as int
            * 0x1_0000 + c as int * 0x100 + d as int,
{
    assert(0 <= a as int * 0x100_0000 + b as int * 0x1_0000 + c as int * 0x100 + d as int <= 0xFFFF_FFFF)
        by (nonlinear_arith)
        requires
            a <= 255,
            b <= 255,
            c <= 255,
            d <= 255,
    ;
    assert(((a as int * 256 + b as int) * 256 + c as int) * 256 + d as int == a as int * 0x100_0000 + b as int
        * 0x1_0000 + c as int * 0x100 + d as int) by (nonlinear_arith);
}

/// Reading a record at `p` whose domain reads without error and ends at
/// `q`: bytes `q`, `q + 1` are the type number, `q + 2`, `q + 3` the class
/// (ignored), `q + 4` to `q + 7` the TTL, `q + 8`, `q + 9` the data length,
/// all big-endian, and the data starts at `q + 10`. An address record (type
/// 1) holds the four bytes there, an IPv6 one (type 28) the sixteen bytes
/// there; a mail exchange (type 15) holds the priority there and its host
/// after it; a name server (type 2) or canonical name (type 5) its host
/// there; a record of another type is skipped by its data length.
pub proof fn law_record_read_layout(b: Seq<u8>, p: int)
    requires
        b.len() == 512,
        0 <= p,
        read_name(b, p, Seq::empty()).err is None,
        read_name(b, p, Seq::empty()).pos + 10 <= 512,
    ensures
        ({
            let n = read_name(b, p, Seq::empty());
            let q = n.pos;
            let t = b[q] * 256 + b[q + 1];
            let ttl = b[q + 4] * 0x100_0000 + b[q + 5] * 0x1_0000 + b[q + 6] * 0x100 + b[q + 7];
            let len = b[q + 8] * 256 + b[q + 9];
            &&& (t == 1 && q + 14 <= 512 ==> record_at(b, p) == (Ok::<RecordView, DnsError>(
                RecordView::Alias { domain: n.text, addr: b.subrange(q + 10, q + 14), ttl: ttl as u32 },
            ), q + 14))
            &&& (t == 28 && q + 26 <= 512 ==> record_at(b, p) == (Ok::<RecordView, DnsError>(
                RecordView::Aaaa { domain: n.text, addr: b.subrange(q + 10, q + 26), ttl: ttl as u32 },
            ), q + 26))
            &&& (t == 2 && read_name(b, q + 10, Seq::empty()).err is None ==> record_at(b, p) == (Ok::<
                RecordView,
                DnsError,
            >(
                RecordView::Nameserver {
                    domain: n.text,
                    host: read_name(b, q + 10, Seq::empty()).text,
                    ttl: ttl as u32,
                },
            ), read_name(b, q + 10, Seq::empty()).pos))
            &&& (t == 5 && read_name(b, q + 10, Seq::empty()).err is None ==> record_at(b, p) == (Ok::<
                RecordView,
                DnsError,
            >(
                RecordView::CanonicalName {
                    domain: n.text,
                    host: read_name(b, q + 10, Seq::empty()).text,
                    ttl: ttl as u32,
                },
            ), read_name(b, q + 10, Seq::empty()).pos))
            &&& (t == 15 && q + 12 <= 512 && read_name(b, q + 12, Seq::empty()).err is None ==> record_at(b, p) == (
            Ok::<RecordView, DnsError>(
                RecordView::MailExchange {
                    domain: n.text,
                    priority: (b[q + 10] * 256 + b[q + 11]) as u16,
                    host: read_name(b, q + 12, Seq::empty()).text,
                    ttl: ttl as u32,
                },
            ), read_name(b, q + 12, Seq::empty()).pos))
            &&& (t != 1 && t != 2 && t != 5 && t != 15 && t != 28 && q + 10 + len < 512 ==> record_at(b, p) == (Ok::<
                RecordView,
                DnsError,
            >(
                RecordView::Unknown {
                    domain: n.text,
                    qtype: QueryType::UNKNOWN(t as u16),
                    data_len: len as u16,
                    ttl: ttl as u32,
                },
            ), q + 10 + len))
        }),
{
    let n = read_name(b, p, Seq::empty());
    let q = n.pos;
    lemma_scan_pos_nonneg(b, p, 0, p, false, Seq::empty(), Seq::empty());
    let f = b.subrange(q, q + 10);
    lemma_be32_fits(b[q + 4], b[q + 5], b[q + 6], b[q + 7]);
    assert(f.subrange(0, 2)[0] == b[q] && f.subrange(0, 2)[1] == b[q + 1]);
    assert(f.subrange(4, 8)[0] == b[q + 4] && f.subrange(4, 8)[1] == b[q + 5] && f.subrange(4, 8)[2] == b[q + 6]
        && f.subrange(4, 8)[3] == b[q + 7]);
    assert(f.subrange(8, 10)[0] == b[q + 8] && f.subrange(8, 10)[1] == b[q + 9]);
    assert(0 <= b[q] * 256 + b[q + 1] <= 0xFFFF);
    assert(0 <= b[q + 8] * 256 + b[q + 9] <= 0xFFFF);
    assert(0 <= b[q + 10] * 256 + b[q + 11] <= 0xFFFF);
    if q + 12 <= 512 {
        assert(b.subrange(q + 10, q + 12)[0] == b[q + 10] && b.subrange(q + 10, q + 12)[1] == b[q + 11]);
    }
}

/// How a dotted name is cut into labels: at every `.` byte (0x2E). A name
/// with no dot is one label; a name that is a label with no dot, a dot and
/// a rest is that label followed by the labels of the rest.
pub proof fn law_split_at_dots(x: Seq<u8>, rest: Seq<u8>)
    requires
        forall|j: int| 0 <= j < x.len() ==> x[j] != 0x2Eu8,
    ensures
        split_labels(x) == seq![x],
        split_labels(x + seq![0x2Eu8] + rest) == seq![x] + split_labels(rest),
{
    lemma_dot_index_is(x, x.len() as int);
    let s = x + seq![0x2Eu8] + rest;
    assert forall|j: int| 0 <= j < x.len() implies s[j] != 0x2Eu8 by {
        assert(s[j] == x[j]);
    }
    lemma_dot_index_is(s, x.len() as int);
    assert(s.take(x.len() as int) =~= x);
    assert(s.skip(x.len() as int + 1) =~= rest);
}

/// Writing a dotted name: each label as its length byte followed by its
/// bytes, then a zero byte; a label of more than 63 bytes is refused with
/// its length, and nothing of it is written. Stated for a name of one label
/// and for a label followed by a dot and a name of one label.
pub proof fn law_name_bytes(x: Seq<u8>, y: Seq<u8>)
    requires
        forall|j: int| 0 <= j < x.len() ==> x[j] != 0x2Eu8,
        forall|j: int| 0 <= j < y.len() ==> y[j] != 0x2Eu8,
    ensures
        x.len() <= 63 ==> name_emission(x) == (crate::dns::wire::Emission {
            bytes: seq![x.len() as u8] + x + seq![0u8],
            fail: None,
        }),
        x.len() > 63 ==> name_emission(x) == (crate::dns::wire::Emission {
            bytes: Seq::empty(),
            fail: Some(DnsError::LabelTooLarge(x.len() as usize)),
        }),
        x.len() <= 63 && y.len() <= 63 ==> name_emission(x + seq![0x2Eu8] + y) == (crate::dns::wire::Emission {
            bytes: seq![x.len() as u8] + x + seq![y.len() as u8] + y + seq![0u8],
            fail: None,
        }),
{
    law_split_at_dots(x, y);
    law_split_at_dots(y, Seq::empty());
    assert(seq![x].drop_first() =~= Seq::<Seq<u8>>::empty());
    assert(seq![y].drop_first() =~= Seq::<Seq<u8>>::empty());
    assert((seq![x] + seq![y]).drop_first() =~= seq![y]);
    assert((seq![x] + seq![y])[0] == x);
    assert(seq![x] + split_labels(y) =~= seq![x] + seq![y]);
    assert(labels_emission(Seq::<Seq<u8>>::empty()).bytes =~= seq![0u8]);
    assert(seq![x.len() as u8] + x + seq![0u8] =~= seq![x.len() as u8] + x + labels_emission(
        Seq::<Seq<u8>>::empty(),
    ).bytes);
    assert(seq![x.len() as u8] + x + (seq![y.len() as u8] + y + seq![0u8]) =~= seq![x.len() as u8] + x
        + seq![y.len() as u8] + y + seq![0u8]);
    if x.len() <= 63 && y.len() <= 63 {
        let ls = seq![x] + seq![y];
        assert(labels_emission(seq![y]).bytes == seq![y.len() as u8] + y + labels_emission(
            Seq::<Seq<u8>>::empty(),
        ).bytes);
        assert(labels_emission(ls).bytes == seq![x.len() as u8] + x + labels_emission(ls.drop_first()).bytes);
        assert(labels_emission(ls).fail is None);
        assert(name_emission(x + seq![0x2Eu8] + y) == labels_emission(ls));
    }
}

/// Reading a question at `p` whose name reads without error and ends at
/// `q`: the type is the big-endian number in bytes `q`, `q + 1`, the class
/// in bytes `q + 2`, `q + 3` is passed over, and the cursor ends at `q + 4`.
pub proof fn law_question_read_layout(b: Seq<u8>, p: int)
    requires
        b.len() == 512,
        0 <= p,
        read_name(b, p, Seq::empty()).err is None,
        read_name(b, p, Seq::empty()).pos + 4 <= 512,
    ensures
        question_at(b, p) == (Ok::<QuestionView, DnsError>(
            QuestionView {
                name: read_name(b, p, Seq::empty()).text,
                qtype: QueryType::spec_from_num(
                    (b[read_name(b, p, Seq::empty()).pos] * 256 + b[read_name(b, p, Seq::empty()).pos + 1]) as u16,
                ),
            },
        ), read_name(b, p, Seq::empty()).pos + 4),
{
    let q = read_name(b, p, Seq::empty()).pos;
    lemma_scan_pos_nonneg(b, p, 0, p, false, Seq::empty(), Seq::empty());
    let f = b.subrange(q, q + 4);
    assert(f.subrange(0, 2)[0] == b[q] && f.subrange(0, 2)[1] == b[q + 1]);
}

/// A question is written as its name, then its type's number and the class
/// 1, each big-endian.
pub proof fn law_question_bytes(q: QuestionView)
    ensures
        question_emission(q).fail == name_emission(encode_utf8(q.name)).fail,
        name_emission(encode_utf8(q.name)).fail is None ==> question_emission(q).bytes == name_emission(
            encode_utf8(q.name),
        ).bytes + seq![
            (q.qtype.spec_to_num() / 256) as u8,
            (q.qtype.spec_to_num() % 256) as u8,
            0u8,
            1u8,
        ],
{
    assert(crate::dns::wire::u16_bytes(q.qtype.spec_to_num()) + crate::dns::wire::u16_bytes(1) =~= seq![
        (q.qtype.spec_to_num() / 256) as u8,
        (q.qtype.spec_to_num() % 256) as u8,
        0u8,
        1u8,
    ]);
}

} // verus!
