//! The model of domain names on the wire: how a name is read (with
//! compression pointers) and how a dotted name is encoded as labels.

use vstd::prelude::*;
use crate::dns::error::DnsError;
use crate::dns::text::label_text;
use crate::dns::wire::{Emission, emit, then};

verus! {

/// The most compression pointers a name may follow.
pub open spec fn max_jumps() -> int {
    5
}

/// The outcome of reading a name: the text built, the cursor of the buffer
/// afterwards, and the error that stopped the reading, if any.
pub struct NameScan {
    pub text: Seq<char>,
    pub pos: int,
    pub err: Option<DnsError>,
}

/// Reading a name from the bytes `b`: the next length byte is at `pos`,
/// `jumps` pointers were followed so far, `cursor` is the buffer's cursor,
/// `jumped` tells whether a pointer was followed, `delim` is what goes before
/// the next label and `text` what was read so far.
///
/// A length byte with both high bits set is a pointer: on the first one the
/// cursor moves past its two bytes, and reading goes on at the 14-bit offset.
/// A zero byte ends the name; with no pointer followed, the cursor then moves
/// past it. Any other byte is the length of a label whose text is appended.
/// The range of a label must end before the last byte of the buffer.
pub open spec fn scan_name(
    b: Seq<u8>,
    pos: int,
    jumps: int,
    cursor: int,
    jumped: bool,
    delim: Seq<char>,
    text: Seq<char>,
) -> NameScan
    decreases max_jumps() + 1 - jumps, 512 - pos,
{
    if jumps > max_jumps() {
        NameScan { text, pos: cursor, err: Some(DnsError::TooManyJumps) }
    } else if pos >= 512 || pos < 0 {
        NameScan { text, pos: cursor, err: Some(DnsError::BufferOverflow(pos as usize)) }
    } else {
        let len = b[pos];
        if len >= 0xC0 {
            if !jumped && pos + 2 >= 512 {
                NameScan { text, pos: cursor, err: Some(DnsError::BufferOverflow((pos + 2) as usize)) }
            } else {
                let cursor2 = if jumped { cursor } else { pos + 2 };
                if pos + 1 >= 512 {
                    NameScan { text, pos: cursor2, err: Some(DnsError::BufferOverflow((pos + 1) as usize)) }
                } else {
                    let offset = (len - 0xC0) * 256 + b[pos + 1];
                    scan_name(b, offset, jumps + 1, cursor2, true, delim, text)
                }
            }
        } else if len == 0 {
            if jumped {
                NameScan { text, pos: cursor, err: None }
            } else if pos + 1 >= 512 {
                NameScan { text, pos: cursor, err: Some(DnsError::BufferOverflow((pos + 1) as usize)) }
            } else {
                NameScan { text, pos: pos + 1, err: None }
            }
        } else {
            let text1 = text + delim;
            if pos + 1 + len >= 512 {
                NameScan { text: text1, pos: cursor, err: Some(DnsError::BufferOverflow((pos + 1) as usize)) }
            } else {
                scan_name(
                    b,
                    pos + 1 + len,
                    jumps,
                    cursor,
                    jumped,
                    seq!['.'],
                    text1 + label_text(b.subrange(pos + 1, pos + 1 + len)),
                )
            }
        }
    }
}

/// Reading a name at position `p` of `b`, appending to `text`.
pub open spec fn read_name(b: Seq<u8>, p: int, text: Seq<char>) -> NameScan {
    scan_name(b, p, 0, p, false, Seq::empty(), text)
}

/// The byte that separates labels in a dotted name.
pub open spec fn dot() -> u8 {
    0x2E
}

/// Index of the first dot in `s`, or its length if there is none.
pub open spec fn dot_index(s: Seq<u8>) -> int
    decreases s.len(),
{
    if s.len() == 0 {
        0
    } else if s[0] == dot() {
        0
    } else {
        1 + dot_index(s.drop_first())
    }
}

/// `dot_index` is the position of the first dot.
pub proof fn lemma_dot_index(s: Seq<u8>)
    ensures
        0 <= dot_index(s) <= s.len(),
        forall|j: int| 0 <= j < dot_index(s) ==> s[j] != dot(),
        dot_index(s) < s.len() ==> s[dot_index(s)] == dot(),
    decreases s.len(),
{
    if s.len() > 0 && s[0] != dot() {
        lemma_dot_index(s.drop_first());
        assert forall|j: int| 0 <= j < dot_index(s) implies s[j] != dot() by {
            if j > 0 {
                assert(s[j] == s.drop_first()[j - 1]);
            }
        }
    }
}

/// Any index up to which there is no dot, and at which there is a dot or
/// the end, is `dot_index`.
pub proof fn lemma_dot_index_is(s: Seq<u8>, i: int)
    requires
        0 <= i <= s.len(),
        forall|j: int| 0 <= j < i ==> s[j] != dot(),
        i < s.len() ==> s[i] == dot(),
    ensures
        dot_index(s) == i,
{
    lemma_dot_index(s);
    if dot_index(s) < i {
        assert(s[dot_index(s)] == dot());
    }
    if i < dot_index(s) {
        assert(s[i] != dot());
    }
}

/// The labels of a dotted name, as `str::split('.')` gives them: always at
/// least one, empty ones included.
pub open spec fn split_labels(s: Seq<u8>) -> Seq<Seq<u8>>
    decreases s.len(),
{
    let i = dot_index(s);
    if i >= s.len() {
        seq![s]
    } else {
        proof { lemma_dot_index(s); }
        seq![s.take(i)] + split_labels(s.skip(i + 1))
    }
}

/// Longest label that can be written.
pub open spec fn max_label_len() -> int {
    0x3F
}

/// Writing labels: each as its length byte and its bytes, then a zero byte.
/// A label longer than 63 bytes stops the writing with an error, after the
/// labels before it.
pub open spec fn labels_emission(labels: Seq<Seq<u8>>) -> Emission
    decreases labels.len(),
{
    if labels.len() == 0 {
        emit(seq![0u8])
    } else if labels[0].len() > max_label_len() {
        Emission { bytes: Seq::empty(), fail: Some(DnsError::LabelTooLarge(labels[0].len() as usize)) }
    } else {
        then(seq![labels[0].len() as u8] + labels[0], labels_emission(labels.drop_first()))
    }
}

/// Writing a dotted name given by its bytes.
pub open spec fn name_emission(name: Seq<u8>) -> Emission {
    labels_emission(split_labels(name))
}

} // verus!
