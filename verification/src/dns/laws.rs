//! Properties of the library as a whole: what reading gives back of what
//! writing stored, and how the number conversions undo each other.

use vstd::prelude::*;
use vstd::utf8::{encode_utf8, is_ascii_chars, is_ascii_chars_encode_utf8};
use crate::dns::buffer::lemma_u32_join;
use crate::dns::error::DnsError;
use crate::dns::header::{
    DnsControlFlags, DnsHeader, ResultCode, bit, flag_bit, flags_byte1, flags_byte2, flags_from_bytes,
    header_after_read, header_bytes,
};
use crate::dns::name::{
    NameScan, dot_index, labels_emission, lemma_dot_index, max_label_len, name_emission, read_name, scan_name,
    split_labels,
};
use crate::dns::packet::{PacketView, packet_at, packet_write, questions_at, questions_write, records_at, records_write, with_counts};
use crate::dns::question::{QueryType, QuestionView, question_at, question_emission};
use crate::dns::record::{RecordView, host_data, host_data_write, record_at, record_head, record_write};
use crate::dns::text::{ascii_bytes, ascii_label_text, ascii_lower, ascii_lowercase, label_text};
use crate::dns::wire::{
    Emission, WriteOutcome, be_u16, be_u32, emit, join, overflows, read_n, run, u16_bytes, u32_bytes, written,
};

verus! {

/// The bytes `s` stand at position `p` of `b`.
pub open spec fn holds_at(b: Seq<u8>, p: int, s: Seq<u8>) -> bool {
    &&& 0 <= p
    &&& p + s.len() <= b.len()
    &&& b.subrange(p, p + s.len()) == s
}

/// Every label is 1 to 63 bytes long.
pub open spec fn labels_fit(labels: Seq<Seq<u8>>) -> bool {
    forall|i: int| 0 <= i < labels.len() ==> 1 <= #[trigger] labels[i].len() <= max_label_len()
}

/// A name can be written and read back: its labels are 1 to 63 bytes long.
pub open spec fn name_fits(name: Seq<char>) -> bool {
    labels_fit(split_labels(encode_utf8(name)))
}

/// The text of labels as a reader builds it: `delim` before the first,
/// dots between them.
pub open spec fn labels_text(labels: Seq<Seq<u8>>, delim: Seq<char>) -> Seq<char>
    decreases labels.len(),
{
    if labels.len() == 0 {
        Seq::empty()
    } else {
        delim + label_text(labels[0]) + labels_text(labels.drop_first(), seq!['.'])
    }
}

/// The text a written name is read back as: its labels, each decoded and
/// lowercased, joined by dots.
pub open spec fn name_read_back(name: Seq<char>) -> Seq<char> {
    labels_text(split_labels(encode_utf8(name)), Seq::empty())
}

/// Performing an emission with no error that fits leaves its bytes at its
/// position.
proof fn lemma_run_fits(b: Seq<u8>, p: int, e: Emission)
    requires
        b.len() == 512,
        0 <= p,
        p + e.bytes.len() <= 512,
        e.fail is None,
    ensures
        run(b, p, e) == (WriteOutcome { buff: written(b, p, e.bytes), pos: p + e.bytes.len(), err: None }),
        holds_at(run(b, p, e).buff, p, e.bytes),
{
    assert(written(b, p, e.bytes).subrange(p, p + e.bytes.len()) =~= e.bytes);
}

/// Bytes standing at a position are what a read there gives.
proof fn lemma_read_holds(b: Seq<u8>, p: int, s: Seq<u8>)
    requires
        b.len() == 512,
        holds_at(b, p, s),
        s.len() > 0,
    ensures
        read_n(b, p, s.len() as int) == Ok::<Seq<u8>, DnsError>(s),
{
}

/// Bytes standing at a position also stand there piece by piece.
proof fn lemma_holds_split(b: Seq<u8>, p: int, s1: Seq<u8>, s2: Seq<u8>)
    requires
        holds_at(b, p, s1 + s2),
    ensures
        holds_at(b, p, s1),
        holds_at(b, p + s1.len(), s2),
{
    let whole = b.subrange(p, p + s1.len() + s2.len());
    assert(b.subrange(p, p + s1.len()) =~= whole.subrange(0, s1.len() as int));
    assert((s1 + s2).subrange(0, s1.len() as int) =~= s1);
    assert(b.subrange(p + s1.len(), p + s1.len() + s2.len()) =~= whole.subrange(
        s1.len() as int,
        whole.len() as int,
    ));
    assert((s1 + s2).subrange(s1.len() as int, (s1 + s2).len() as int) =~= s2);
}

/// Labels that fit are written with no error, as at least their final zero
/// byte.
proof fn lemma_labels_emission_fits(labels: Seq<Seq<u8>>)
    requires
        labels_fit(labels),
    ensures
        labels_emission(labels).fail is None,
        labels_emission(labels).bytes.len() >= 1,
    decreases labels.len(),
{
    if labels.len() > 0 {
        assert(labels_fit(labels.drop_first())) by {
            assert forall|i: int| 0 <= i < labels.drop_first().len() implies 1 <= #[trigger] labels.drop_first()[i].len()
                <= max_label_len() by {
                assert(labels.drop_first()[i] == labels[i + 1]);
            }
        }
        lemma_labels_emission_fits(labels.drop_first());
    }
}

/// Reading labels that were written (and end before the last byte of the
/// buffer) gives their text; the cursor moves past them, unless a pointer
/// was followed before.
proof fn lemma_scan_labels(
    b: Seq<u8>,
    q: int,
    labels: Seq<Seq<u8>>,
    jumps: int,
    cursor: int,
    jumped: bool,
    delim: Seq<char>,
    text: Seq<char>,
)
    requires
        b.len() == 512,
        0 <= jumps <= 5,
        labels_fit(labels),
        holds_at(b, q, labels_emission(labels).bytes),
        q + labels_emission(labels).bytes.len() < 512,
    ensures
        scan_name(b, q, jumps, cursor, jumped, delim, text) == (NameScan {
            text: text + labels_text(labels, delim),
            pos: if jumped { cursor } else { q + labels_emission(labels).bytes.len() },
            err: None,
        }),
    decreases labels.len(),
{
    let e = labels_emission(labels);
    if labels.len() == 0 {
        assert(e.bytes == seq![0u8]);
        assert(b[q] == b.subrange(q, q + 1)[0]);
        assert(text + labels_text(labels, delim) =~= text);
    } else {
        let l0 = labels[0];
        let rest = labels.drop_first();
        let er = labels_emission(rest);
        assert(labels_fit(rest)) by {
            assert forall|i: int| 0 <= i < rest.len() implies 1 <= #[trigger] rest[i].len() <= max_label_len() by {
                assert(rest[i] == labels[i + 1]);
            }
        }
        lemma_labels_emission_fits(rest);
        assert(e.bytes == seq![l0.len() as u8] + l0 + er.bytes);
        assert(e.bytes =~= seq![l0.len() as u8] + (l0 + er.bytes));
        lemma_holds_split(b, q, seq![l0.len() as u8], l0 + er.bytes);
        lemma_holds_split(b, q + 1, l0, er.bytes);
        assert(b[q] == b.subrange(q, q + 1)[0]);
        assert(b[q] == l0.len() as u8);
        let q1 = q + 1 + l0.len();
        lemma_scan_labels(b, q1, rest, jumps, cursor, jumped, seq!['.'], text + delim + label_text(l0));
        assert(text + delim + label_text(l0) + labels_text(rest, seq!['.']) =~= text + labels_text(labels, delim));
    }
}

/// A dotted name whose labels fit is written as two bytes more than it has:
/// a length byte for each label in place of the dot after it, and the final
/// zero byte.
proof fn lemma_name_emission_len(s: Seq<u8>)
    requires
        labels_fit(split_labels(s)),
    ensures
        labels_emission(split_labels(s)).bytes.len() == s.len() + 2,
    decreases s.len(),
{
    let i = dot_index(s);
    lemma_dot_index(s);
    if i >= s.len() {
        assert(split_labels(s) == seq![s]);
        assert(seq![s].drop_first() =~= Seq::<Seq<u8>>::empty());
        assert(seq![s][0].len() <= max_label_len());
        assert(labels_emission(Seq::<Seq<u8>>::empty()).bytes.len() == 1);
        assert(labels_emission(seq![s]).bytes == seq![s.len() as u8] + s + labels_emission(
            Seq::<Seq<u8>>::empty(),
        ).bytes);
    } else {
        let l = s.take(i);
        let r = s.skip(i + 1);
        let ls = seq![l] + split_labels(r);
        assert(split_labels(s) == ls);
        assert(ls.drop_first() =~= split_labels(r));
        assert(ls[0] == l);
        assert(labels_fit(split_labels(r))) by {
            assert forall|k: int| 0 <= k < split_labels(r).len() implies 1 <= #[trigger] split_labels(r)[k].len()
                <= max_label_len() by {
                assert(split_labels(r)[k] == ls[k + 1]);
            }
        }
        lemma_name_emission_len(r);
        assert(ls[0].len() <= max_label_len());
        assert(labels_emission(ls).bytes == seq![l.len() as u8] + l + labels_emission(split_labels(r)).bytes);
    }
}

/// No character of `s` is an ASCII uppercase letter.
pub open spec fn no_ascii_upper(s: Seq<char>) -> bool {
    forall|i: int| 0 <= i < s.len() ==> !(0x41 <= #[trigger] s[i] as u32 <= 0x5A)
}

/// A name of ASCII characters with no uppercase letter.
pub open spec fn lowercase_ascii(s: Seq<char>) -> bool {
    is_ascii_chars(s) && no_ascii_upper(s)
}

/// The labels of ASCII bytes are read back as the bytes' characters,
/// lowercased, after `delim`.
proof fn lemma_ascii_labels_text(s: Seq<u8>, delim: Seq<char>)
    requires
        ascii_bytes(s),
    ensures
        labels_text(split_labels(s), delim) == delim + ascii_label_text(s),
    decreases s.len(),
{
    let i = dot_index(s);
    lemma_dot_index(s);
    reveal(label_text);
    if i >= s.len() {
        assert(split_labels(s) == seq![s]);
        assert(seq![s].drop_first() =~= Seq::<Seq<u8>>::empty());
        assert(labels_text(Seq::<Seq<u8>>::empty(), seq!['.']) == Seq::<char>::empty());
        assert(labels_text(seq![s], delim) == delim + label_text(s) + Seq::<char>::empty());
        assert(delim + label_text(s) + Seq::<char>::empty() =~= delim + ascii_label_text(s));
    } else {
        let l = s.take(i);
        let r = s.skip(i + 1);
        assert(ascii_bytes(l)) by {
            assert forall|j: int| 0 <= j < l.len() implies l[j] < 128 by {
                assert(l[j] == s[j]);
            }
        }
        assert(ascii_bytes(r)) by {
            assert forall|j: int| 0 <= j < r.len() implies r[j] < 128 by {
                assert(r[j] == s[j + i + 1]);
            }
        }
        lemma_ascii_labels_text(r, seq!['.']);
        assert((seq![l] + split_labels(r)).drop_first() =~= split_labels(r));
        assert((seq![l] + split_labels(r))[0] == l);
        assert(split_labels(s) == seq![l] + split_labels(r));
        assert(ascii_lower(s[i] as char) == '.');
        assert(ascii_label_text(s) =~= ascii_label_text(l) + seq!['.'] + ascii_label_text(r));
        assert(delim + label_text(l) + (seq!['.'] + ascii_label_text(r)) =~= delim + ascii_label_text(s));
    }
}

/// A name of ASCII characters is read back as itself with `A`..`Z`
/// lowercased; one with no uppercase letter is read back as itself.
pub proof fn law_ascii_name_read_back(name: Seq<char>)
    requires
        is_ascii_chars(name),
    ensures
        name_read_back(name) == ascii_lowercase(name),
        no_ascii_upper(name) ==> name_read_back(name) == name,
{
    let bytes = encode_utf8(name);
    is_ascii_chars_encode_utf8(name);
    assert forall|i: int| 0 <= i < bytes.len() implies bytes[i] < 128 && (bytes[i] as char) == name[i] by {
        assert(name[i] as u8 == bytes[i]);
        assert('\0' <= name[i] <= '\u{7f}');
    }
    lemma_ascii_labels_text(bytes, Seq::empty());
    assert(Seq::<char>::empty() + ascii_label_text(bytes) =~= ascii_lowercase(name));
    if no_ascii_upper(name) {
        assert(ascii_lowercase(name) =~= name);
    }
}

/// A name written at `p` and read back at `p` gives its labels, each
/// decoded and lowercased, joined by dots, and the cursor moves past it; this
/// holds for every name whose labels are 1 to 63 bytes long and that ends
/// before the last byte of the buffer. The written name takes two bytes more
/// than its text, and a name of ASCII characters with no uppercase letter is
/// read back as itself.
pub proof fn law_name_roundtrip(b: Seq<u8>, p: int, name: Seq<char>, text: Seq<char>)
    requires
        b.len() == 512,
        0 <= p,
        name_fits(name),
        p + name_emission(encode_utf8(name)).bytes.len() < 512,
    ensures
        run(b, p, name_emission(encode_utf8(name))).err is None,
        read_name(run(b, p, name_emission(encode_utf8(name))).buff, p, text) == (NameScan {
            text: text + name_read_back(name),
            pos: p + name_emission(encode_utf8(name)).bytes.len(),
            err: None,
        }),
        lowercase_ascii(name) ==> read_name(run(b, p, name_emission(encode_utf8(name))).buff, p, text).text
            == text + name,
        name_emission(encode_utf8(name)).bytes.len() == encode_utf8(name).len() + 2,
{
    lemma_name_emission_len(encode_utf8(name));
    if is_ascii_chars(name) {
        law_ascii_name_read_back(name);
    }
    let e = name_emission(encode_utf8(name));
    lemma_labels_emission_fits(split_labels(encode_utf8(name)));
    lemma_run_fits(b, p, e);
    lemma_scan_labels(run(b, p, e).buff, p, split_labels(encode_utf8(name)), 0, p, false, Seq::empty(), text);
}

/// A 16-bit value written at `p` and read back at `p` is the same value.
pub proof fn law_u16_roundtrip(b: Seq<u8>, p: int, v: u16)
    requires
        b.len() == 512,
        0 <= p,
        p + 2 <= 512,
    ensures
        run(b, p, emit(u16_bytes(v))).err is None,
        read_n(run(b, p, emit(u16_bytes(v))).buff, p, 2) matches Ok(s) && be_u16(s) == v,
{
    lemma_run_fits(b, p, emit(u16_bytes(v)));
    lemma_read_holds(run(b, p, emit(u16_bytes(v))).buff, p, u16_bytes(v));
    lemma_be_u16_bytes(v);
}

/// A 32-bit value written at `p` and read back at `p` is the same value.
pub proof fn law_u32_roundtrip(b: Seq<u8>, p: int, v: u32)
    requires
        b.len() == 512,
        0 <= p,
        p + 4 <= 512,
    ensures
        run(b, p, emit(u32_bytes(v))).err is None,
        read_n(run(b, p, emit(u32_bytes(v))).buff, p, 4) matches Ok(s) && be_u32(s) == v,
{
    lemma_run_fits(b, p, emit(u32_bytes(v)));
    lemma_read_holds(run(b, p, emit(u32_bytes(v))).buff, p, u32_bytes(v));
    lemma_be_u32_bytes(v);
}

/// The big-endian value of the bytes of a 16-bit value is that value.
proof fn lemma_be_u16_bytes(v: u16)
    ensures
        be_u16(u16_bytes(v)) == v,
{
    assert((((v / 256) as u8) as int * 256 + ((v % 256) as u8) as int) as u16 == v) by (nonlinear_arith);
}

/// The big-endian value of the bytes of a 32-bit value is that value.
proof fn lemma_be_u32_bytes(v: u32)
    ensures
        be_u32(u32_bytes(v)) == v,
{
    let a = (v / 0x100_0000) as u8;
    let b = ((v / 0x1_0000) % 256) as u8;
    let c = ((v / 256) % 256) as u8;
    let d = (v % 256) as u8;
    lemma_u32_join(a, b, c, d);
    assert(((((v / 0x100_0000) as u8) as u32) << 24u32) | (((((v / 0x1_0000) % 256) as u8) as u32) << 16u32)
        | (((((v / 256) % 256) as u8) as u32) << 8u32) | ((((v % 256) as u8) as u32) << 0u32) == v) by (bit_vector);
}

/// Converting a query type to its number and back gives it again, unless it
/// is an unknown type carrying the number of a known one.
pub proof fn law_query_type_roundtrip(t: QueryType)
    requires
        !(t matches QueryType::UNKNOWN(n) && (n == 1 || n == 2 || n == 5 || n == 15 || n == 28)),
    ensures
        QueryType::spec_from_num(t.spec_to_num()) == t,
{
}

/// Converting a number to a query type and back gives it again.
pub proof fn law_query_type_number_roundtrip(n: u16)
    ensures
        QueryType::spec_from_num(n).spec_to_num() == n,
{
}

/// Converting a result code to its number and back gives it again.
pub proof fn law_result_code_roundtrip(rc: ResultCode)
    ensures
        ResultCode::spec_from_num(rc.spec_to_num()) == rc,
{
}

/// Flags written as two bytes and read back from them are the same flags,
/// but for the reserved bit, which a read leaves as it was; this holds when
/// the operation code fits in its four bits.
pub proof fn law_flags_roundtrip(f: DnsControlFlags, z: bool)
    requires
        f.operation_code <= 15,
    ensures
        flags_from_bytes(flags_byte1(f), flags_byte2(f), z) == (DnsControlFlags { z, ..f }),
{
    let x0 = flag_bit(f.recursion_desired);
    let x1 = flag_bit(f.truncated_message);
    let x2 = flag_bit(f.authoritative_answer);
    let x3 = flag_bit(f.query_response);
    let op = f.operation_code;
    let b1 = flags_byte1(f);
    assert(b1 == x0 | (x1 << 1u8) | (x2 << 2u8) | (op << 3u8) | (x3 << 7u8));
    assert(((b1 >> 0u8) & 1u8) == x0 && ((b1 >> 1u8) & 1u8) == x1 && ((b1 >> 2u8) & 1u8) == x2
        && ((b1 >> 3u8) & 0x0Fu8) == op && ((b1 >> 7u8) & 1u8) == x3) by (bit_vector)
        requires
            x0 <= 1u8,
            x1 <= 1u8,
            x2 <= 1u8,
            x3 <= 1u8,
            op <= 15u8,
            b1 == x0 | (x1 << 1u8) | (x2 << 2u8) | (op << 3u8) | (x3 << 7u8);
    let r = f.result_code.spec_to_num();
    let y0 = flag_bit(f.check_disable);
    let y1 = flag_bit(f.authoritative_data);
    let y2 = flag_bit(f.recursion_available);
    let b2 = flags_byte2(f);
    assert(b2 == r | (y0 << 4u8) | (y1 << 5u8) | (y2 << 7u8));
    assert((b2 & 0x0Fu8) == r && ((b2 >> 4u8) & 1u8) == y0 && ((b2 >> 5u8) & 1u8) == y1 && ((b2 >> 7u8) & 1u8)
        == y2) by (bit_vector)
        requires
            r <= 15u8,
            y0 <= 1u8,
            y1 <= 1u8,
            y2 <= 1u8,
            b2 == r | (y0 << 4u8) | (y1 << 5u8) | (y2 << 7u8);
}

/// A header written at `p` and read back at `p` is the same header, but
/// for the reserved flag, which a read leaves as it was; this holds when it
/// fits in the buffer and its operation code fits in four bits.
pub proof fn law_header_roundtrip(b: Seq<u8>, p: int, h: DnsHeader, before: DnsHeader)
    requires
        b.len() == 512,
        0 <= p,
        p + 12 <= 512,
        h.control_flags.operation_code <= 15,
    ensures
        run(b, p, emit(header_bytes(h))).err is None,
        read_n(run(b, p, emit(header_bytes(h))).buff, p, 12) is Ok,
        header_after_read(before, run(b, p, emit(header_bytes(h))).buff, p) == (DnsHeader {
            control_flags: DnsControlFlags { z: before.control_flags.z, ..h.control_flags },
            ..h
        }),
{
    let e = emit(header_bytes(h));
    lemma_run_fits(b, p, e);
    lemma_header_holds(run(b, p, e).buff, p, h, before);
}

/// Reading a header where its bytes stand gives it back (see
/// `law_header_roundtrip`).
proof fn lemma_header_holds(b: Seq<u8>, p: int, h: DnsHeader, before: DnsHeader)
    requires
        b.len() == 512,
        holds_at(b, p, header_bytes(h)),
        h.control_flags.operation_code <= 15,
    ensures
        read_n(b, p, 12) is Ok,
        header_after_read(before, b, p) == (DnsHeader {
            control_flags: DnsControlFlags { z: before.control_flags.z, ..h.control_flags },
            ..h
        }),
{
    let s = header_bytes(h);
    let (i0, i1) = (u16_bytes(h.id)[0], u16_bytes(h.id)[1]);
    let (q0, q1) = (u16_bytes(h.question_count)[0], u16_bytes(h.question_count)[1]);
    let (a0, a1) = (u16_bytes(h.answer_count)[0], u16_bytes(h.answer_count)[1]);
    let (u0, u1) = (u16_bytes(h.authority_count)[0], u16_bytes(h.authority_count)[1]);
    let (d0, d1) = (u16_bytes(h.additional_count)[0], u16_bytes(h.additional_count)[1]);
    assert(s =~= seq![i0, i1, flags_byte1(h.control_flags), flags_byte2(h.control_flags), q0, q1, a0, a1, u0, u1, d0, d1]);
    let w = b.subrange(p, p + 12);
    assert(w == s);
    assert(b.subrange(p, p + 2) =~= u16_bytes(h.id));
    assert(b.subrange(p + 4, p + 6) =~= u16_bytes(h.question_count));
    assert(b.subrange(p + 6, p + 8) =~= u16_bytes(h.answer_count));
    assert(b.subrange(p + 8, p + 10) =~= u16_bytes(h.authority_count));
    assert(b.subrange(p + 10, p + 12) =~= u16_bytes(h.additional_count));
    assert(b[p + 2] == w[2] && b[p + 3] == w[3]);
    assert(w[2] == flags_byte1(h.control_flags) && w[3] == flags_byte2(h.control_flags));
    lemma_be_u16_bytes(h.id);
    lemma_be_u16_bytes(h.question_count);
    lemma_be_u16_bytes(h.answer_count);
    lemma_be_u16_bytes(h.authority_count);
    lemma_be_u16_bytes(h.additional_count);
    law_flags_roundtrip(h.control_flags, before.control_flags.z);
}

/// A question as it is read back after being written: its name decoded and
/// lowercased label by label, its type through its number.
pub open spec fn question_read_back(q: QuestionView) -> QuestionView {
    QuestionView { name: name_read_back(q.name), qtype: QueryType::spec_from_num(q.qtype.spec_to_num()) }
}

/// Reading a question where its bytes stand gives it back.
proof fn lemma_question_holds(b: Seq<u8>, p: int, q: QuestionView)
    requires
        b.len() == 512,
        name_fits(q.name),
        holds_at(b, p, question_emission(q).bytes),
    ensures
        question_emission(q).fail is None,
        question_at(b, p) == (Ok::<QuestionView, DnsError>(question_read_back(q)), p + question_emission(q).bytes.len()),
{
    let labels = split_labels(encode_utf8(q.name));
    let n = name_emission(encode_utf8(q.name));
    let t = u16_bytes(q.qtype.spec_to_num()) + u16_bytes(1);
    lemma_labels_emission_fits(labels);
    assert(question_emission(q).bytes == n.bytes + t);
    lemma_holds_split(b, p, n.bytes, t);
    lemma_scan_labels(b, p, labels, 0, p, false, Seq::empty(), Seq::empty());
    assert(Seq::<char>::empty() + labels_text(labels, Seq::empty()) =~= name_read_back(q.name));
    lemma_read_holds(b, p + n.bytes.len(), t);
    assert(t.subrange(0, 2) =~= u16_bytes(q.qtype.spec_to_num()));
    lemma_be_u16_bytes(q.qtype.spec_to_num());
}

/// A question written at `p` and read back at `p` gives back its name
/// decoded and lowercased label by label, and its type through its number,
/// and the cursor moves past it; this holds when its name's labels are 1 to
/// 63 bytes long and it fits in the buffer. The written question takes six
/// bytes more than its name's text, and one whose name is ASCII with no
/// uppercase letter, and whose type its number gives back, is read back as
/// itself.
pub proof fn law_question_roundtrip(b: Seq<u8>, p: int, q: QuestionView)
    requires
        b.len() == 512,
        0 <= p,
        name_fits(q.name),
        p + question_emission(q).bytes.len() <= 512,
    ensures
        run(b, p, question_emission(q)).err is None,
        question_at(run(b, p, question_emission(q)).buff, p) == (Ok::<QuestionView, DnsError>(
            question_read_back(q),
        ), p + question_emission(q).bytes.len()),
        lowercase_ascii(q.name) && QueryType::spec_from_num(q.qtype.spec_to_num()) == q.qtype ==> question_read_back(q)
            == q,
        question_emission(q).bytes.len() == encode_utf8(q.name).len() + 6,
{
    lemma_name_emission_len(encode_utf8(q.name));
    if is_ascii_chars(q.name) {
        law_ascii_name_read_back(q.name);
    }
    lemma_labels_emission_fits(split_labels(encode_utf8(q.name)));
    lemma_run_fits(b, p, question_emission(q));
    lemma_question_holds(run(b, p, question_emission(q)).buff, p, q);
}

/// Writing `x` and then `y` after it stores `x + y`.
proof fn lemma_written_concat(b: Seq<u8>, p: int, x: Seq<u8>, y: Seq<u8>)
    ensures
        written(written(b, p, x), p + x.len(), y) == written(b, p, x + y),
{
    assert(written(written(b, p, x), p + x.len(), y) =~= written(b, p, x + y));
}

/// Overwriting the first bytes of what was stored with as many others is
/// storing the others in their place.
proof fn lemma_written_overwrite(b: Seq<u8>, p: int, x: Seq<u8>, x2: Seq<u8>, y: Seq<u8>)
    requires
        x.len() == x2.len(),
    ensures
        written(written(b, p, x + y), p, x2) == written(b, p, x2 + y),
{
    assert(written(written(b, p, x + y), p, x2) =~= written(b, p, x2 + y));
}

/// A record can be written and read back: it has a known type, its names'
/// labels are 1 to 63 bytes long, and its address has the length of its
/// kind.
pub open spec fn record_fits(r: RecordView) -> bool {
    match r {
        RecordView::Alias { domain, addr, .. } => name_fits(domain) && addr.len() == 4,
        RecordView::Aaaa { domain, addr, .. } => name_fits(domain) && addr.len() == 16,
        RecordView::Nameserver { domain, host, .. } => name_fits(domain) && name_fits(host),
        RecordView::CanonicalName { domain, host, .. } => name_fits(domain) && name_fits(host),
        RecordView::MailExchange { domain, host, .. } => name_fits(domain) && name_fits(host),
        RecordView::Unknown { .. } => false,
    }
}

/// The length stored before the data of a record with a host name.
pub open spec fn host_len(prefix: Seq<u8>, host: Seq<char>) -> u16 {
    (prefix.len() + name_emission(encode_utf8(host)).bytes.len()) as u16
}

/// The bytes a record is written as when the writing succeeds.
pub open spec fn record_emission(r: RecordView) -> Emission {
    match r {
        RecordView::Alias { domain, addr, ttl } => join(record_head(domain, 1, ttl), emit(u16_bytes(4) + addr)),
        RecordView::Aaaa { domain, addr, ttl } => join(record_head(domain, 28, ttl), emit(u16_bytes(16) + addr)),
        RecordView::Nameserver { domain, host, ttl } => join(
            record_head(domain, 2, ttl),
            host_data(host_len(Seq::empty(), host), Seq::empty(), host),
        ),
        RecordView::CanonicalName { domain, host, ttl } => join(
            record_head(domain, 5, ttl),
            host_data(host_len(Seq::empty(), host), Seq::empty(), host),
        ),
        RecordView::MailExchange { domain, priority, host, ttl } => join(
            record_head(domain, 15, ttl),
            host_data(host_len(u16_bytes(priority), host), u16_bytes(priority), host),
        ),
        RecordView::Unknown { .. } => emit(Seq::empty()),
    }
}

/// A record as it is read back after being written: its names decoded and
/// lowercased label by label.
pub open spec fn record_read_back(r: RecordView) -> RecordView {
    match r {
        RecordView::Alias { domain, addr, ttl } => RecordView::Alias { domain: name_read_back(domain), addr, ttl },
        RecordView::Aaaa { domain, addr, ttl } => RecordView::Aaaa { domain: name_read_back(domain), addr, ttl },
        RecordView::Nameserver { domain, host, ttl } => RecordView::Nameserver {
            domain: name_read_back(domain),
            host: name_read_back(host),
            ttl,
        },
        RecordView::CanonicalName { domain, host, ttl } => RecordView::CanonicalName {
            domain: name_read_back(domain),
            host: name_read_back(host),
            ttl,
        },
        RecordView::MailExchange { domain, priority, host, ttl } => RecordView::MailExchange {
            domain: name_read_back(domain),
            priority,
            host: name_read_back(host),
            ttl,
        },
        RecordView::Unknown { .. } => r,
    }
}

/// The names of a record are ASCII with no uppercase letter.
pub open spec fn record_names_lowercase(r: RecordView) -> bool {
    match r {
        RecordView::Alias { domain, .. } => lowercase_ascii(domain),
        RecordView::Aaaa { domain, .. } => lowercase_ascii(domain),
        RecordView::Nameserver { domain, host, .. } => lowercase_ascii(domain) && lowercase_ascii(host),
        RecordView::CanonicalName { domain, host, .. } => lowercase_ascii(domain) && lowercase_ascii(host),
        RecordView::MailExchange { domain, host, .. } => lowercase_ascii(domain) && lowercase_ascii(host),
        RecordView::Unknown { .. } => true,
    }
}

/// A record whose names are lowercase ASCII is read back as itself.
proof fn lemma_record_names_read_back(r: RecordView)
    ensures
        record_names_lowercase(r) ==> record_read_back(r) == r,
{
    if record_names_lowercase(r) {
        match r {
            RecordView::Alias { domain, .. } => law_ascii_name_read_back(domain),
            RecordView::Aaaa { domain, .. } => law_ascii_name_read_back(domain),
            RecordView::Nameserver { domain, host, .. } => {
                law_ascii_name_read_back(domain);
                law_ascii_name_read_back(host);
            },
            RecordView::CanonicalName { domain, host, .. } => {
                law_ascii_name_read_back(domain);
                law_ascii_name_read_back(host);
            },
            RecordView::MailExchange { domain, host, .. } => {
                law_ascii_name_read_back(domain);
                law_ascii_name_read_back(host);
            },
            RecordView::Unknown { .. } => {},
        }
    }
}

/// The head of a record whose domain fits is written with no error.
proof fn lemma_record_head_fits(domain: Seq<char>, qtype: u16, ttl: u32)
    requires
        name_fits(domain),
    ensures
        record_head(domain, qtype, ttl).fail is None,
        record_head(domain, qtype, ttl).bytes == name_emission(encode_utf8(domain)).bytes + (u16_bytes(qtype)
            + u16_bytes(1) + u32_bytes(ttl)),
{
    lemma_labels_emission_fits(split_labels(encode_utf8(domain)));
}

/// Writing the data of a record with a host name, when everything fits,
/// stores the data with its true length.
proof fn lemma_host_data_fits(b: Seq<u8>, q: int, prefix: Seq<u8>, host: Seq<char>)
    requires
        b.len() == 512,
        0 <= q,
        name_fits(host),
        q + host_data(host_len(prefix, host), prefix, host).bytes.len() <= 512,
    ensures
        host_data_write(b, q, prefix, host) == run(b, q, host_data(host_len(prefix, host), prefix, host)),
        run(b, q, host_data(host_len(prefix, host), prefix, host)).err is None,
{
    let n = name_emission(encode_utf8(host));
    lemma_labels_emission_fits(split_labels(encode_utf8(host)));
    let e0 = host_data(0, prefix, host);
    let e1 = host_data(host_len(prefix, host), prefix, host);
    lemma_run_fits(b, q, e0);
    lemma_run_fits(b, q, e1);
    assert(e0.bytes == u16_bytes(0) + (prefix + n.bytes));
    assert(e1.bytes == u16_bytes(host_len(prefix, host)) + (prefix + n.bytes));
    assert(e0.bytes =~= u16_bytes(0) + (prefix + n.bytes));
    assert(e1.bytes =~= u16_bytes(host_len(prefix, host)) + (prefix + n.bytes));
    lemma_written_overwrite(b, q, u16_bytes(0), u16_bytes(host_len(prefix, host)), prefix + n.bytes);
    assert(run(b, q, e0).pos - (q + 2) == prefix.len() + n.bytes.len());
}

/// Writing a record that fits, when everything fits in the buffer, stores
/// its bytes with no error.
proof fn lemma_record_write_fits(b: Seq<u8>, p: int, r: RecordView)
    requires
        b.len() == 512,
        0 <= p,
        record_fits(r),
        p + record_emission(r).bytes.len() <= 512,
    ensures
        record_emission(r).fail is None,
        record_write(b, p, r) == run(b, p, record_emission(r)),
        run(b, p, record_emission(r)).err is None,
{
    match r {
        RecordView::Alias { domain, addr, ttl } => {
            lemma_record_head_fits(domain, 1, ttl);
            lemma_run_fits(b, p, record_emission(r));
        },
        RecordView::Aaaa { domain, addr, ttl } => {
            lemma_record_head_fits(domain, 28, ttl);
            lemma_run_fits(b, p, record_emission(r));
        },
        RecordView::Nameserver { domain, host, ttl } => {
            lemma_record_host_write_fits(b, p, domain, 2, ttl, Seq::empty(), host);
        },
        RecordView::CanonicalName { domain, host, ttl } => {
            lemma_record_host_write_fits(b, p, domain, 5, ttl, Seq::empty(), host);
        },
        RecordView::MailExchange { domain, priority, host, ttl } => {
            lemma_record_host_write_fits(b, p, domain, 15, ttl, u16_bytes(priority), host);
        },
        RecordView::Unknown { .. } => {},
    }
}

/// Writing the head of a record with a host name and then its data, when
/// everything fits, stores the bytes with the data's true length.
proof fn lemma_record_host_write_fits(
    b: Seq<u8>,
    p: int,
    domain: Seq<char>,
    qtype: u16,
    ttl: u32,
    prefix: Seq<u8>,
    host: Seq<char>,
)
    requires
        b.len() == 512,
        0 <= p,
        name_fits(domain),
        name_fits(host),
        p + join(record_head(domain, qtype, ttl), host_data(host_len(prefix, host), prefix, host)).bytes.len() <= 512,
    ensures
        join(record_head(domain, qtype, ttl), host_data(host_len(prefix, host), prefix, host)).fail is None,
        ({
            let o = run(b, p, record_head(domain, qtype, ttl));
            &&& o.err is None
            &&& host_data_write(o.buff, o.pos, prefix, host) == run(
                b,
                p,
                join(record_head(domain, qtype, ttl), host_data(host_len(prefix, host), prefix, host)),
            )
        }),
        run(b, p, join(record_head(domain, qtype, ttl), host_data(host_len(prefix, host), prefix, host))).err is None,
{
    let h = record_head(domain, qtype, ttl);
    let d = host_data(host_len(prefix, host), prefix, host);
    lemma_record_head_fits(domain, qtype, ttl);
    lemma_labels_emission_fits(split_labels(encode_utf8(host)));
    lemma_run_fits(b, p, h);
    let o = run(b, p, h);
    lemma_host_data_fits(o.buff, o.pos, prefix, host);
    lemma_run_fits(o.buff, o.pos, d);
    lemma_run_fits(b, p, join(h, d));
    lemma_written_concat(b, p, h.bytes, d.bytes);
}

/// Reading the head of a record where its bytes stand, followed by data
/// that starts with a length, gives its domain, type, TTL and that length.
proof fn lemma_record_head_holds(b: Seq<u8>, p: int, domain: Seq<char>, qtype: u16, ttl: u32, data: Seq<u8>)
    requires
        b.len() == 512,
        name_fits(domain),
        data.len() >= 2,
        holds_at(b, p, record_head(domain, qtype, ttl).bytes + data),
        p + record_head(domain, qtype, ttl).bytes.len() + data.len() < 512,
    ensures
        ({
            let p1 = p + name_emission(encode_utf8(domain)).bytes.len();
            &&& read_name(b, p, Seq::empty()) == (NameScan { text: name_read_back(domain), pos: p1, err: None })
            &&& read_n(b, p1, 10) matches Ok(f) && be_u16(f.subrange(0, 2)) == qtype && be_u32(f.subrange(4, 8))
                == ttl && be_u16(f.subrange(8, 10)) == be_u16(data.subrange(0, 2))
            &&& holds_at(b, p1 + 10, data.subrange(2, data.len() as int))
        }),
{
    let labels = split_labels(encode_utf8(domain));
    let n = name_emission(encode_utf8(domain));
    let fixed = u16_bytes(qtype) + u16_bytes(1) + u32_bytes(ttl);
    lemma_record_head_fits(domain, qtype, ttl);
    let p1 = p + n.bytes.len();
    let whole = n.bytes + (fixed + data);
    assert(record_head(domain, qtype, ttl).bytes + data =~= whole);
    lemma_holds_split(b, p, n.bytes, fixed + data);
    let ten = fixed + data.subrange(0, 2);
    assert(fixed + data =~= ten + data.subrange(2, data.len() as int));
    lemma_holds_split(b, p1, ten, data.subrange(2, data.len() as int));
    lemma_scan_labels(b, p, labels, 0, p, false, Seq::empty(), Seq::empty());
    assert(Seq::<char>::empty() + labels_text(labels, Seq::empty()) =~= name_read_back(domain));
    lemma_read_holds(b, p1, ten);
    assert(ten.subrange(0, 2) =~= u16_bytes(qtype));
    assert(ten.subrange(4, 8) =~= u32_bytes(ttl));
    assert(ten.subrange(8, 10) =~= data.subrange(0, 2));
    lemma_be_u16_bytes(qtype);
    lemma_be_u32_bytes(ttl);
}

/// Reading a record where the bytes of a record that fits stand, ending
/// before the last byte of the buffer, gives it back.
proof fn lemma_record_holds(b: Seq<u8>, p: int, r: RecordView)
    requires
        b.len() == 512,
        record_fits(r),
        holds_at(b, p, record_emission(r).bytes),
        p + record_emission(r).bytes.len() < 512,
    ensures
        record_emission(r).fail is None,
        record_at(b, p) == (Ok::<RecordView, DnsError>(record_read_back(r)), p + record_emission(r).bytes.len()),
{
    match r {
        RecordView::Alias { domain, addr, ttl } => lemma_alias_holds(b, p, domain, addr, ttl),
        RecordView::Aaaa { domain, addr, ttl } => lemma_aaaa_holds(b, p, domain, addr, ttl),
        RecordView::Nameserver { domain, host, ttl } => lemma_nameserver_holds(b, p, domain, host, ttl),
        RecordView::CanonicalName { domain, host, ttl } => lemma_canonical_holds(b, p, domain, host, ttl),
        RecordView::MailExchange { domain, priority, host, ttl } => lemma_mail_holds(b, p, domain, priority, host, ttl),
        RecordView::Unknown { .. } => {},
    }
}

proof fn lemma_alias_holds(b: Seq<u8>, p: int, domain: Seq<char>, addr: Seq<u8>, ttl: u32)
    requires
        b.len() == 512,
        record_fits(RecordView::Alias { domain, addr, ttl }),
        holds_at(b, p, record_emission(RecordView::Alias { domain, addr, ttl }).bytes),
        p + record_emission(RecordView::Alias { domain, addr, ttl }).bytes.len() < 512,
    ensures
        record_emission(RecordView::Alias { domain, addr, ttl }).fail is None,
        record_at(b, p) == (Ok::<RecordView, DnsError>(record_read_back(RecordView::Alias { domain, addr, ttl })), p + record_emission(RecordView::Alias { domain, addr, ttl }).bytes.len()),
{
    lemma_record_head_fits(domain, 1, ttl);
    let data = u16_bytes(4) + addr;
    lemma_record_head_holds(b, p, domain, 1, ttl, data);
    let p2 = p + name_emission(encode_utf8(domain)).bytes.len() + 10;
    assert(data.subrange(2, data.len() as int) =~= addr);
    lemma_read_holds(b, p2, addr);
}

proof fn lemma_aaaa_holds(b: Seq<u8>, p: int, domain: Seq<char>, addr: Seq<u8>, ttl: u32)
    requires
        b.len() == 512,
        record_fits(RecordView::Aaaa { domain, addr, ttl }),
        holds_at(b, p, record_emission(RecordView::Aaaa { domain, addr, ttl }).bytes),
        p + record_emission(RecordView::Aaaa { domain, addr, ttl }).bytes.len() < 512,
    ensures
        record_emission(RecordView::Aaaa { domain, addr, ttl }).fail is None,
        record_at(b, p) == (Ok::<RecordView, DnsError>(record_read_back(RecordView::Aaaa { domain, addr, ttl })), p + record_emission(RecordView::Aaaa { domain, addr, ttl }).bytes.len()),
{
    lemma_record_head_fits(domain, 28, ttl);
    let data = u16_bytes(16) + addr;
    lemma_record_head_holds(b, p, domain, 28, ttl, data);
    let p2 = p + name_emission(encode_utf8(domain)).bytes.len() + 10;
    assert(data.subrange(2, data.len() as int) =~= addr);
    lemma_read_holds(b, p2, addr);
}

proof fn lemma_nameserver_holds(b: Seq<u8>, p: int, domain: Seq<char>, host: Seq<char>, ttl: u32)
    requires
        b.len() == 512,
        record_fits(RecordView::Nameserver { domain, host, ttl }),
        holds_at(b, p, record_emission(RecordView::Nameserver { domain, host, ttl }).bytes),
        p + record_emission(RecordView::Nameserver { domain, host, ttl }).bytes.len() < 512,
    ensures
        record_emission(RecordView::Nameserver { domain, host, ttl }).fail is None,
        record_at(b, p) == (Ok::<RecordView, DnsError>(record_read_back(RecordView::Nameserver { domain, host, ttl })), p + record_emission(RecordView::Nameserver { domain, host, ttl }).bytes.len()),
{
    lemma_record_host_holds(b, p, domain, 2, ttl, Seq::empty(), host);
}

proof fn lemma_canonical_holds(b: Seq<u8>, p: int, domain: Seq<char>, host: Seq<char>, ttl: u32)
    requires
        b.len() == 512,
        record_fits(RecordView::CanonicalName { domain, host, ttl }),
        holds_at(b, p, record_emission(RecordView::CanonicalName { domain, host, ttl }).bytes),
        p + record_emission(RecordView::CanonicalName { domain, host, ttl }).bytes.len() < 512,
    ensures
        record_emission(RecordView::CanonicalName { domain, host, ttl }).fail is None,
        record_at(b, p) == (Ok::<RecordView, DnsError>(record_read_back(RecordView::CanonicalName { domain, host, ttl })), p + record_emission(RecordView::CanonicalName { domain, host, ttl }).bytes.len()),
{
    lemma_record_host_holds(b, p, domain, 5, ttl, Seq::empty(), host);
}

proof fn lemma_mail_holds(b: Seq<u8>, p: int, domain: Seq<char>, priority: u16, host: Seq<char>, ttl: u32)
    requires
        b.len() == 512,
        record_fits(RecordView::MailExchange { domain, priority, host, ttl }),
        holds_at(b, p, record_emission(RecordView::MailExchange { domain, priority, host, ttl }).bytes),
        p + record_emission(RecordView::MailExchange { domain, priority, host, ttl }).bytes.len() < 512,
    ensures
        record_emission(RecordView::MailExchange { domain, priority, host, ttl }).fail is None,
        record_at(b, p) == (Ok::<RecordView, DnsError>(record_read_back(RecordView::MailExchange { domain, priority, host, ttl })), p + record_emission(RecordView::MailExchange { domain, priority, host, ttl }).bytes.len()),
{
    lemma_record_host_holds(b, p, domain, 15, ttl, u16_bytes(priority), host);
    lemma_be_u16_bytes(priority);
}

/// Reading the bytes of a record with a host name: the domain, the fixed
/// fields, then the `prefix` and the host name.
proof fn lemma_record_host_holds(
    b: Seq<u8>,
    p: int,
    domain: Seq<char>,
    qtype: u16,
    ttl: u32,
    prefix: Seq<u8>,
    host: Seq<char>,
)
    requires
        b.len() == 512,
        name_fits(domain),
        name_fits(host),
        prefix.len() == 0 || prefix.len() == 2,
        holds_at(b, p, join(record_head(domain, qtype, ttl), host_data(host_len(prefix, host), prefix, host)).bytes),
        p + join(record_head(domain, qtype, ttl), host_data(host_len(prefix, host), prefix, host)).bytes.len() < 512,
    ensures
        join(record_head(domain, qtype, ttl), host_data(host_len(prefix, host), prefix, host)).fail is None,
        ({
            let p2 = p + name_emission(encode_utf8(domain)).bytes.len() + 10;
            let nh = name_emission(encode_utf8(host));
            &&& read_name(b, p, Seq::empty()) == (NameScan {
                text: name_read_back(domain),
                pos: p2 - 10,
                err: None,
            })
            &&& read_n(b, p2 - 10, 10) matches Ok(f) && be_u16(f.subrange(0, 2)) == qtype && be_u32(
                f.subrange(4, 8),
            ) == ttl
            &&& (prefix.len() == 2 ==> read_n(b, p2, 2) == Ok::<Seq<u8>, DnsError>(prefix))
            &&& read_name(b, p2 + prefix.len(), Seq::empty()) == (NameScan {
                text: name_read_back(host),
                pos: p2 + prefix.len() + nh.bytes.len(),
                err: None,
            })
            &&& p2 + prefix.len() + nh.bytes.len() == p + join(
                record_head(domain, qtype, ttl),
                host_data(host_len(prefix, host), prefix, host),
            ).bytes.len()
        }),
{
    let labels = split_labels(encode_utf8(host));
    let nh = name_emission(encode_utf8(host));
    lemma_labels_emission_fits(labels);
    lemma_record_head_fits(domain, qtype, ttl);
    let data = u16_bytes(host_len(prefix, host)) + prefix + nh.bytes;
    assert(host_data(host_len(prefix, host), prefix, host).bytes == data);
    lemma_record_head_holds(b, p, domain, qtype, ttl, data);
    let p2 = p + name_emission(encode_utf8(domain)).bytes.len() + 10;
    assert(data.subrange(2, data.len() as int) =~= prefix + nh.bytes);
    lemma_holds_split(b, p2, prefix, nh.bytes);
    if prefix.len() == 2 {
        lemma_read_holds(b, p2, prefix);
    }
    lemma_scan_labels(b, p2 + prefix.len(), labels, 0, p2 + prefix.len(), false, Seq::empty(), Seq::empty());
    assert(Seq::<char>::empty() + labels_text(labels, Seq::empty()) =~= name_read_back(host));
}

/// A record of known type written at `p` and read back at `p` gives it
/// back with its names decoded and lowercased label by label, and the cursor
/// moves past it; this holds when its names' labels are 1 to 63 bytes long
/// and it ends before the last byte of the buffer. A record whose names are
/// ASCII with no uppercase letter is read back as itself.
pub proof fn law_record_roundtrip(b: Seq<u8>, p: int, r: RecordView)
    requires
        b.len() == 512,
        0 <= p,
        record_fits(r),
        p + record_emission(r).bytes.len() < 512,
    ensures
        record_write(b, p, r).err is None,
        record_write(b, p, r).pos == p + record_emission(r).bytes.len(),
        record_at(record_write(b, p, r).buff, p) == (Ok::<RecordView, DnsError>(record_read_back(r)), p
            + record_emission(r).bytes.len()),
        record_names_lowercase(r) ==> record_read_back(r) == r,
{
    lemma_record_names_read_back(r);
    lemma_record_write_fits(b, p, r);
    lemma_run_fits(b, p, record_emission(r));
    lemma_record_holds(record_write(b, p, r).buff, p, r);
}

/// The bytes of questions written one after the other.
pub open spec fn questions_bytes(qs: Seq<QuestionView>) -> Seq<u8>
    decreases qs.len(),
{
    if qs.len() == 0 {
        Seq::empty()
    } else {
        questions_bytes(qs.drop_last()) + question_emission(qs.last()).bytes
    }
}

/// The bytes of records written one after the other.
pub open spec fn records_bytes(rs: Seq<RecordView>) -> Seq<u8>
    decreases rs.len(),
{
    if rs.len() == 0 {
        Seq::empty()
    } else {
        records_bytes(rs.drop_last()) + record_emission(rs.last()).bytes
    }
}

/// Every question's name has labels of 1 to 63 bytes.
pub open spec fn questions_fit(qs: Seq<QuestionView>) -> bool {
    forall|i: int| 0 <= i < qs.len() ==> name_fits(#[trigger] qs[i].name)
}

/// Every record can be written and read back.
pub open spec fn records_fit(rs: Seq<RecordView>) -> bool {
    forall|i: int| 0 <= i < rs.len() ==> record_fits(#[trigger] rs[i])
}

/// A packet can be written and read back: its operation code fits in four
/// bits, and its questions and records can be written and read back.
pub open spec fn packet_fits(v: PacketView) -> bool {
    &&& v.header.control_flags.operation_code <= 15
    &&& questions_fit(v.questions)
    &&& records_fit(v.answers)
    &&& records_fit(v.authorities)
    &&& records_fit(v.resources)
}

/// A packet as it is read back after being written: the reserved flag
/// cleared, and its questions and records read back.
pub open spec fn packet_read_back(v: PacketView) -> PacketView {
    PacketView {
        header: DnsHeader { control_flags: DnsControlFlags { z: false, ..v.header.control_flags }, ..v.header },
        questions: v.questions.map_values(|q: QuestionView| question_read_back(q)),
        answers: v.answers.map_values(|r: RecordView| record_read_back(r)),
        authorities: v.authorities.map_values(|r: RecordView| record_read_back(r)),
        resources: v.resources.map_values(|r: RecordView| record_read_back(r)),
    }
}

/// A question whose name fits is written as its name and four bytes.
proof fn lemma_question_emission_fits(q: QuestionView)
    requires
        name_fits(q.name),
    ensures
        question_emission(q).fail is None,
        question_emission(q).bytes.len() >= 5,
{
    lemma_labels_emission_fits(split_labels(encode_utf8(q.name)));
}

/// A record that can be written is written, with no error, only when its
/// bytes fit, and it has at least one byte.
proof fn lemma_record_write_ok_fits(b: Seq<u8>, p: int, r: RecordView)
    requires
        b.len() == 512,
        0 <= p,
        record_fits(r),
        record_write(b, p, r).err is None,
    ensures
        p + record_emission(r).bytes.len() <= 512,
        record_emission(r).bytes.len() >= 1,
{
    match r {
        RecordView::Alias { domain, addr, ttl } => {
            lemma_record_head_fits(domain, 1, ttl);
        },
        RecordView::Aaaa { domain, addr, ttl } => {
            lemma_record_head_fits(domain, 28, ttl);
        },
        RecordView::Nameserver { domain, host, ttl } => {
            lemma_host_write_ok_fits(b, p, domain, 2, ttl, Seq::empty(), host);
        },
        RecordView::CanonicalName { domain, host, ttl } => {
            lemma_host_write_ok_fits(b, p, domain, 5, ttl, Seq::empty(), host);
        },
        RecordView::MailExchange { domain, priority, host, ttl } => {
            lemma_host_write_ok_fits(b, p, domain, 15, ttl, u16_bytes(priority), host);
        },
        RecordView::Unknown { .. } => {},
    }
}

/// A record with a host name is written, with no error, only when its
/// bytes fit.
proof fn lemma_host_write_ok_fits(
    b: Seq<u8>,
    p: int,
    domain: Seq<char>,
    qtype: u16,
    ttl: u32,
    prefix: Seq<u8>,
    host: Seq<char>,
)
    requires
        b.len() == 512,
        0 <= p,
        name_fits(domain),
        name_fits(host),
        ({
            let o = run(b, p, record_head(domain, qtype, ttl));
            o.err is None && host_data_write(o.buff, o.pos, prefix, host).err is None
        }),
    ensures
        p + join(record_head(domain, qtype, ttl), host_data(host_len(prefix, host), prefix, host)).bytes.len() <= 512,
        join(record_head(domain, qtype, ttl), host_data(host_len(prefix, host), prefix, host)).bytes.len() >= 1,
{
    lemma_record_head_fits(domain, qtype, ttl);
    lemma_labels_emission_fits(split_labels(encode_utf8(host)));
    let h = record_head(domain, qtype, ttl);
    let o = run(b, p, h);
    assert(o.pos == p + h.bytes.len());
    let d0 = host_data(0, prefix, host);
    assert(run(o.buff, o.pos, d0).err is None);
    assert(o.pos + d0.bytes.len() <= 512);
}

/// Questions written with no error are their bytes, one byte at least for
/// each.
proof fn lemma_questions_write_ok(b: Seq<u8>, p: int, qs: Seq<QuestionView>)
    requires
        b.len() == 512,
        0 <= p <= 512,
        questions_fit(qs),
        questions_write(b, p, qs).err is None,
    ensures
        questions_write(b, p, qs) == (WriteOutcome {
            buff: written(b, p, questions_bytes(qs)),
            pos: p + questions_bytes(qs).len(),
            err: None,
        }),
        p + questions_bytes(qs).len() <= 512,
        questions_bytes(qs).len() >= qs.len(),
    decreases qs.len(),
{
    if qs.len() == 0 {
        assert(written(b, p, Seq::empty()) =~= b);
    } else {
        let init = qs.drop_last();
        assert(questions_fit(init)) by {
            assert forall|i: int| 0 <= i < init.len() implies name_fits(#[trigger] init[i].name) by {
                assert(init[i] == qs[i]);
            }
        }
        assert(name_fits(qs[qs.len() - 1].name));
        lemma_questions_write_ok(b, p, init);
        let e = question_emission(qs.last());
        lemma_question_emission_fits(qs.last());
        let o = questions_write(b, p, init);
        assert(o.err is None);
        assert(questions_write(b, p, qs) == run(o.buff, o.pos, e));
        assert(!overflows(o.pos, e.bytes.len() as int));
        lemma_written_concat(b, p, questions_bytes(init), e.bytes);
    }
}

/// Records written with no error are their bytes, one byte at least for
/// each.
proof fn lemma_records_write_ok(b: Seq<u8>, p: int, rs: Seq<RecordView>)
    requires
        b.len() == 512,
        0 <= p <= 512,
        records_fit(rs),
        records_write(b, p, rs).err is None,
    ensures
        records_write(b, p, rs) == (WriteOutcome {
            buff: written(b, p, records_bytes(rs)),
            pos: p + records_bytes(rs).len(),
            err: None,
        }),
        p + records_bytes(rs).len() <= 512,
        records_bytes(rs).len() >= rs.len(),
    decreases rs.len(),
{
    if rs.len() == 0 {
        assert(written(b, p, Seq::empty()) =~= b);
    } else {
        let init = rs.drop_last();
        assert(records_fit(init)) by {
            assert forall|i: int| 0 <= i < init.len() implies record_fits(#[trigger] init[i]) by {
                assert(init[i] == rs[i]);
            }
        }
        assert(record_fits(rs[rs.len() - 1]));
        lemma_records_write_ok(b, p, init);
        let o = records_write(b, p, init);
        assert(o.err is None);
        assert(records_write(b, p, rs) == record_write(o.buff, o.pos, rs.last()));
        lemma_record_write_ok_fits(o.buff, o.pos, rs.last());
        lemma_record_write_fits(o.buff, o.pos, rs.last());
        lemma_run_fits(o.buff, o.pos, record_emission(rs.last()));
        lemma_written_concat(b, p, records_bytes(init), record_emission(rs.last()).bytes);
    }
}

/// Reading questions where their bytes stand gives them back.
proof fn lemma_questions_holds(b: Seq<u8>, q: int, qs: Seq<QuestionView>)
    requires
        b.len() == 512,
        questions_fit(qs),
        holds_at(b, q, questions_bytes(qs)),
    ensures
        questions_at(b, q, qs.len()) == (Ok::<Seq<QuestionView>, DnsError>(
            qs.map_values(|x: QuestionView| question_read_back(x)),
        ), q + questions_bytes(qs).len()),
    decreases qs.len(),
{
    if qs.len() == 0 {
        assert(qs.map_values(|x: QuestionView| question_read_back(x)) =~= Seq::<QuestionView>::empty());
    } else {
        let init = qs.drop_last();
        assert(questions_fit(init)) by {
            assert forall|i: int| 0 <= i < init.len() implies name_fits(#[trigger] init[i].name) by {
                assert(init[i] == qs[i]);
            }
        }
        assert(name_fits(qs[qs.len() - 1].name));
        lemma_holds_split(b, q, questions_bytes(init), question_emission(qs.last()).bytes);
        lemma_questions_holds(b, q, init);
        lemma_question_holds(b, q + questions_bytes(init).len(), qs.last());
        assert(qs.map_values(|x: QuestionView| question_read_back(x)) =~= init.map_values(
            |x: QuestionView| question_read_back(x),
        ).push(question_read_back(qs.last())));
    }
}

/// Reading records where their bytes stand, ending before the last byte of
/// the buffer, gives them back.
proof fn lemma_records_holds(b: Seq<u8>, q: int, rs: Seq<RecordView>)
    requires
        b.len() == 512,
        records_fit(rs),
        holds_at(b, q, records_bytes(rs)),
        q + records_bytes(rs).len() < 512,
    ensures
        records_at(b, q, rs.len()) == (Ok::<Seq<RecordView>, DnsError>(
            rs.map_values(|x: RecordView| record_read_back(x)),
        ), q + records_bytes(rs).len()),
    decreases rs.len(),
{
    if rs.len() == 0 {
        assert(rs.map_values(|x: RecordView| record_read_back(x)) =~= Seq::<RecordView>::empty());
    } else {
        let init = rs.drop_last();
        assert(records_fit(init)) by {
            assert forall|i: int| 0 <= i < init.len() implies record_fits(#[trigger] init[i]) by {
                assert(init[i] == rs[i]);
            }
        }
        assert(record_fits(rs[rs.len() - 1]));
        lemma_holds_split(b, q, records_bytes(init), record_emission(rs.last()).bytes);
        lemma_records_holds(b, q, init);
        lemma_record_holds(b, q + records_bytes(init).len(), rs.last());
        assert(rs.map_values(|x: RecordView| record_read_back(x)) =~= init.map_values(
            |x: RecordView| record_read_back(x),
        ).push(record_read_back(rs.last())));
    }
}

/// Writing a packet, with no error and ending before the last byte of the
/// buffer, stores the bytes of its header and sections one after the other.
#[verifier::spinoff_prover]
proof fn lemma_packet_write_ok(b: Seq<u8>, p: int, v: PacketView)
    requires
        b.len() == 512,
        0 <= p,
        packet_fits(v),
        packet_write(b, p, v).err is None,
    ensures
        ({
            let hb = header_bytes(v.header);
            let qb = questions_bytes(v.questions);
            let ab = records_bytes(v.answers);
            let ub = records_bytes(v.authorities);
            let rb = records_bytes(v.resources);
            let all = hb + qb + ab + ub + rb;
            &&& packet_write(b, p, v) == (WriteOutcome { buff: written(b, p, all), pos: p + all.len(), err: None })
            &&& p + all.len() <= 512
            &&& qb.len() >= v.questions.len()
            &&& ab.len() >= v.answers.len()
            &&& ub.len() >= v.authorities.len()
            &&& rb.len() >= v.resources.len()
        }),
{
    reveal(packet_write);
    let hb = header_bytes(v.header);
    let qb = questions_bytes(v.questions);
    let ab = records_bytes(v.answers);
    let ub = records_bytes(v.authorities);
    let rb = records_bytes(v.resources);
    let o1 = run(b, p, emit(hb));
    assert(o1.err is None);
    lemma_run_fits(b, p, emit(hb));
    let o2 = questions_write(o1.buff, o1.pos, v.questions);
    assert(o2.err is None);
    lemma_questions_write_ok(o1.buff, o1.pos, v.questions);
    let o3 = records_write(o2.buff, o2.pos, v.answers);
    assert(o3.err is None);
    lemma_records_write_ok(o2.buff, o2.pos, v.answers);
    let o4 = records_write(o3.buff, o3.pos, v.authorities);
    assert(o4.err is None);
    lemma_records_write_ok(o3.buff, o3.pos, v.authorities);
    lemma_records_write_ok(o4.buff, o4.pos, v.resources);
    lemma_written_concat(b, p, hb, qb);
    lemma_written_concat(b, p, hb + qb, ab);
    lemma_written_concat(b, p, hb + qb + ab, ub);
    lemma_written_concat(b, p, hb + qb + ab + ub, rb);
}

/// Reading a packet where the bytes of its header and sections stand one
/// after the other gives it back.
proof fn lemma_packet_holds(bb: Seq<u8>, p: int, w: PacketView)
    requires
        bb.len() == 512,
        packet_fits(w),
        w.header.question_count as nat == w.questions.len(),
        w.header.answer_count as nat == w.answers.len(),
        w.header.authority_count as nat == w.authorities.len(),
        w.header.additional_count as nat == w.resources.len(),
        holds_at(bb, p, header_bytes(w.header)),
        holds_at(bb, p + 12, questions_bytes(w.questions)),
        holds_at(bb, p + 12 + questions_bytes(w.questions).len(), records_bytes(w.answers)),
        holds_at(
            bb,
            p + 12 + questions_bytes(w.questions).len() + records_bytes(w.answers).len(),
            records_bytes(w.authorities),
        ),
        holds_at(
            bb,
            p + 12 + questions_bytes(w.questions).len() + records_bytes(w.answers).len() + records_bytes(
                w.authorities,
            ).len(),
            records_bytes(w.resources),
        ),
        p + 12 + questions_bytes(w.questions).len() + records_bytes(w.answers).len() + records_bytes(
            w.authorities,
        ).len() + records_bytes(w.resources).len() < 512,
    ensures
        packet_at(bb, p) == (Ok::<PacketView, DnsError>(packet_read_back(w)), p + 12 + questions_bytes(
            w.questions,
        ).len() + records_bytes(w.answers).len() + records_bytes(w.authorities).len() + records_bytes(
            w.resources,
        ).len()),
{
    reveal(packet_at);
    let h = w.header;
    let p1 = p + 12;
    let p2 = p1 + questions_bytes(w.questions).len();
    let p3 = p2 + records_bytes(w.answers).len();
    let p4 = p3 + records_bytes(w.authorities).len();
    lemma_header_holds(bb, p, h, DnsHeader::spec_new());
    let hr = header_after_read(DnsHeader::spec_new(), bb, p);
    assert(hr == packet_read_back(w).header);
    lemma_questions_holds(bb, p1, w.questions);
    lemma_records_holds(bb, p2, w.answers);
    lemma_records_holds(bb, p3, w.authorities);
    lemma_records_holds(bb, p4, w.resources);
    let qs = questions_at(bb, p + 12, hr.question_count as nat);
    assert(qs.0 == Ok::<Seq<QuestionView>, DnsError>(packet_read_back(w).questions));
    let an = records_at(bb, qs.1, hr.answer_count as nat);
    assert(an.0 == Ok::<Seq<RecordView>, DnsError>(packet_read_back(w).answers));
    let au = records_at(bb, an.1, hr.authority_count as nat);
    assert(au.0 == Ok::<Seq<RecordView>, DnsError>(packet_read_back(w).authorities));
    let ad = records_at(bb, au.1, hr.additional_count as nat);
    assert(ad.0 == Ok::<Seq<RecordView>, DnsError>(packet_read_back(w).resources));
}

/// A packet written at `p` (its header counting its sections) and read back
/// at `p` gives back the same packet, with the reserved flag cleared and its
/// names decoded and lowercased label by label, and the cursor moves past
/// it; this holds when the writing succeeded and ended before the last byte
/// of the buffer, its operation code fits in four bits, its names' labels
/// are 1 to 63 bytes long and its records have known types.
#[verifier::rlimit(40)]
pub proof fn law_packet_roundtrip(b: Seq<u8>, p: int, v: PacketView)
    requires
        b.len() == 512,
        0 <= p,
        packet_fits(v),
        packet_write(b, p, with_counts(v)).err is None,
        packet_write(b, p, with_counts(v)).pos < 512,
    ensures
        packet_at(packet_write(b, p, with_counts(v)).buff, p) == (Ok::<PacketView, DnsError>(
            packet_read_back(with_counts(v)),
        ), packet_write(b, p, with_counts(v)).pos),
{
    let w = with_counts(v);
    let hb = header_bytes(w.header);
    let qb = questions_bytes(w.questions);
    let ab = records_bytes(w.answers);
    let ub = records_bytes(w.authorities);
    let rb = records_bytes(w.resources);
    let all = hb + qb + ab + ub + rb;
    let bb = written(b, p, all);
    assert(packet_fits(w)) by {
        assert(w.questions == v.questions && w.answers == v.answers);
    }
    assert(packet_write(b, p, w) == (WriteOutcome { buff: bb, pos: p + all.len(), err: None })
        && qb.len() >= w.questions.len() && ab.len() >= w.answers.len() && ub.len() >= w.authorities.len()
        && rb.len() >= w.resources.len()) by {
        lemma_packet_write_ok(b, p, w);
    }
    assert(holds_at(bb, p, hb) && holds_at(bb, p + 12, qb) && holds_at(bb, p + 12 + qb.len(), ab) && holds_at(
        bb,
        p + 12 + qb.len() + ab.len(),
        ub,
    ) && holds_at(bb, p + 12 + qb.len() + ab.len() + ub.len(), rb)) by {
        assert(bb.subrange(p, p + all.len()) =~= all);
        assert(all =~= hb + (qb + (ab + (ub + rb))));
        lemma_holds_split(bb, p, hb, qb + (ab + (ub + rb)));
        lemma_holds_split(bb, p + 12, qb, ab + (ub + rb));
        lemma_holds_split(bb, p + 12 + qb.len(), ab, ub + rb);
        lemma_holds_split(bb, p + 12 + qb.len() + ab.len(), ub, rb);
    }
    lemma_packet_holds(bb, p, w);
}

/// A compression pointer at `p` to a name that stands, with no pointer, at
/// `offset` is read as that name, and the cursor moves past the pointer's two
/// bytes; this holds for names whose labels are 1 to 63 bytes long and end
/// before the last byte of the buffer, and pointers that end before it.
pub proof fn law_pointer_read(b: Seq<u8>, p: int, offset: int, labels: Seq<Seq<u8>>, text: Seq<char>)
    requires
        b.len() == 512,
        0 <= p,
        p + 2 < 512,
        0 <= offset < 0x4000,
        b[p] == 0xC0 + offset / 256,
        b[p + 1] == offset % 256,
        labels_fit(labels),
        holds_at(b, offset, labels_emission(labels).bytes),
        offset + labels_emission(labels).bytes.len() < 512,
    ensures
        read_name(b, p, text) == (NameScan { text: text + labels_text(labels, Seq::empty()), pos: p + 2, err: None }),
{
    assert((b[p] - 0xC0) * 256 + b[p + 1] == offset);
    lemma_scan_labels(b, offset, labels, 1, p + 2, true, Seq::empty(), text);
}

} // verus!
