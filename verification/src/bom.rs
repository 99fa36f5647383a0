//! Byte-order marks at the head of a document part.
//!
//! The XML tokenizer is handed the bytes of a part without their byte-order mark. A mark is
//! looked for at the head of the bytes only, and counts only where it is there whole: two
//! bytes that are the UTF-16 mark are that mark, whatever longer mark they might begin.

use vstd::prelude::*;
use vstd::slice::slice_subrange;

verus! {

/// A recognized byte-order mark.
#[derive(Clone, Copy, Debug, PartialEq, Eq, Structural)]
pub enum Bom {
    Utf8,
    Utf16Be,
    Utf16Le,
    Utf32Be,
    Utf32Le,
}

impl Bom {
    /// The bytes that make up the mark.
    pub open spec fn mark(self) -> Seq<u8> {
        match self {
            Bom::Utf8 => seq![0xefu8, 0xbbu8, 0xbfu8],
            Bom::Utf16Be => seq![0xfeu8, 0xffu8],
            Bom::Utf16Le => seq![0xffu8, 0xfeu8],
            Bom::Utf32Be => seq![0x00u8, 0x00u8, 0xfeu8, 0xffu8],
            Bom::Utf32Le => seq![0xffu8, 0xfeu8, 0x00u8, 0x00u8],
        }
    }

    /// Number of bytes in the mark.
    pub fn len(self) -> (n: usize)
        ensures
            n == self.mark().len(),
            2 <= n <= 4,
    {
        match self {
            Bom::Utf8 => 3,
            Bom::Utf16Be => 2,
            Bom::Utf16Le => 2,
            Bom::Utf32Be => 4,
            Bom::Utf32Le => 4,
        }
    }
}

/// Whether `bytes` begin with the bytes of `bom`: the mark is there whole.
pub open spec fn begins_with(bytes: Seq<u8>, bom: Bom) -> bool {
    bom.mark().is_prefix_of(bytes)
}

/// The mark that `bytes` begin with: a four-byte mark where there is one, else the
/// three-byte mark, else a two-byte mark, else none.
pub open spec fn detected_bom(bytes: Seq<u8>) -> Option<Bom> {
    if begins_with(bytes, Bom::Utf32Be) {
        Some(Bom::Utf32Be)
    } else if begins_with(bytes, Bom::Utf32Le) {
        Some(Bom::Utf32Le)
    } else if begins_with(bytes, Bom::Utf8) {
        Some(Bom::Utf8)
    } else if begins_with(bytes, Bom::Utf16Be) {
        Some(Bom::Utf16Be)
    } else if begins_with(bytes, Bom::Utf16Le) {
        Some(Bom::Utf16Le)
    } else {
        None
    }
}

/// How far the read position moves past the head of `bytes`: the length of the detected
/// mark, or zero.
pub open spec fn bom_len(bytes: Seq<u8>) -> nat {
    match detected_bom(bytes) {
        Some(bom) => bom.mark().len(),
        None => 0,
    }
}

/// What the tokenizer is handed: `bytes` from the read position on.
pub open spec fn after_bom(bytes: Seq<u8>) -> Seq<u8> {
    bytes.skip(bom_len(bytes) as int)
}

/// The detected mark is the longest recognized mark that the bytes begin with, and the
/// only one of its length: a two-byte mark never hides a four-byte mark that extends it.
pub proof fn lemma_detected_bom_is_longest(bytes: Seq<u8>, other: Bom)
    requires
        begins_with(bytes, other),
    ensures
        detected_bom(bytes) matches Some(bom) && begins_with(bytes, bom) && bom.mark().len()
            >= other.mark().len() && (bom.mark().len() == other.mark().len() ==> bom == other),
{
    lemma_begins_with_bytes(bytes);
}

/// The read position is 0, 2, 3 or 4 and never lies past the end of the bytes; what is
/// skipped is the detected mark, and what is handed on is the rest.
pub proof fn lemma_bom_is_within_bytes(bytes: Seq<u8>)
    ensures
        bom_len(bytes) == 0 || bom_len(bytes) == 2 || bom_len(bytes) == 3 || bom_len(bytes) == 4,
        bom_len(bytes) <= bytes.len(),
        after_bom(bytes).len() == bytes.len() - bom_len(bytes),
        detected_bom(bytes) matches Some(bom) ==> bytes == bom.mark() + after_bom(bytes),
{
    match detected_bom(bytes) {
        Some(bom) => {
            assert(begins_with(bytes, bom));
            assert(bytes =~= bom.mark() + after_bom(bytes));
        },
        None => {},
    }
}

/// Without a detected mark the bytes are handed on whole.
pub proof fn lemma_no_bom_keeps_bytes(bytes: Seq<u8>)
    requires
        detected_bom(bytes) is None,
    ensures
        after_bom(bytes) == bytes,
{
}

/// `begins_with`, mark by mark, as comparisons of single bytes.
proof fn lemma_begins_with_bytes(bytes: Seq<u8>)
    ensures
        begins_with(bytes, Bom::Utf32Be) <==> bytes.len() >= 4 && bytes[0] == 0x00 && bytes[1]
            == 0x00 && bytes[2] == 0xfe && bytes[3] == 0xff,
        begins_with(bytes, Bom::Utf32Le) <==> bytes.len() >= 4 && bytes[0] == 0xff && bytes[1]
            == 0xfe && bytes[2] == 0x00 && bytes[3] == 0x00,
        begins_with(bytes, Bom::Utf8) <==> bytes.len() >= 3 && bytes[0] == 0xef && bytes[1] == 0xbb
            && bytes[2] == 0xbf,
        begins_with(bytes, Bom::Utf16Be) <==> bytes.len() >= 2 && bytes[0] == 0xfe && bytes[1]
            == 0xff,
        begins_with(bytes, Bom::Utf16Le) <==> bytes.len() >= 2 && bytes[0] == 0xff && bytes[1]
            == 0xfe,
{
    lemma_begins_with_one(bytes, Bom::Utf32Be);
    lemma_begins_with_one(bytes, Bom::Utf32Le);
    lemma_begins_with_one(bytes, Bom::Utf8);
    lemma_begins_with_one(bytes, Bom::Utf16Be);
    lemma_begins_with_one(bytes, Bom::Utf16Le);
}

/// `begins_with` for one mark, over the indices of that mark.
proof fn lemma_begins_with_one(bytes: Seq<u8>, bom: Bom)
    ensures
        begins_with(bytes, bom) <==> bytes.len() >= bom.mark().len() && bytes[0] == bom.mark()[0]
            && bytes[1] == bom.mark()[1] && (bom.mark().len() > 2 ==> bytes[2] == bom.mark()[2])
            && (bom.mark().len() > 3 ==> bytes[3] == bom.mark()[3]),
{
    let m = bom.mark();
    assert(2 <= m.len() <= 4);
    if begins_with(bytes, bom) {
        let head = bytes.subrange(0, m.len() as int);
        assert(head[0] == m[0] && head[1] == m[1]);
        if m.len() > 2 {
            assert(head[2] == m[2]);
        }
        if m.len() > 3 {
            assert(head[3] == m[3]);
        }
    } else if bytes.len() >= m.len() {
        let head = bytes.subrange(0, m.len() as int);
        if bytes[0] == m[0] && bytes[1] == m[1] && (m.len() > 2 ==> bytes[2] == m[2]) && (m.len()
            > 3 ==> bytes[3] == m[3]) {
            assert(m =~= head);
        }
    }
}

/// Looks for a byte-order mark at the head of `bytes`. A mark counts only where all of
/// its bytes are there.
pub fn detect_bom(bytes: &[u8]) -> (found: Option<Bom>)
    ensures
        found == detected_bom(bytes@),
{
    let n = bytes.len();
    proof {
        lemma_begins_with_bytes(bytes@);
    }
    if n >= 4 && bytes[0] == 0x00 && bytes[1] == 0x00 && bytes[2] == 0xfe && bytes[3] == 0xff {
        Some(Bom::Utf32Be)
    } else if n >= 4 && bytes[0] == 0xff && bytes[1] == 0xfe && bytes[2] == 0x00 && bytes[3]
        == 0x00 {
        Some(Bom::Utf32Le)
    } else if n >= 3 && bytes[0] == 0xef && bytes[1] == 0xbb && bytes[2] == 0xbf {
        Some(Bom::Utf8)
    } else if n >= 2 && bytes[0] == 0xfe && bytes[1] == 0xff {
        Some(Bom::Utf16Be)
    } else if n >= 2 && bytes[0] == 0xff && bytes[1] == 0xfe {
        Some(Bom::Utf16Le)
    } else {
        None
    }
}

/// The read position after the byte-order mark of `bytes`: 4, 3 or 2 past a mark, 0
/// without one, and never past the end.
pub fn skip_bom(bytes: &[u8]) -> (position: usize)
    ensures
        position == bom_len(bytes@),
        position == 0 || position == 2 || position == 3 || position == 4,
        position <= bytes@.len(),
{
    proof {
        lemma_bom_is_within_bytes(bytes@);
    }
    match detect_bom(bytes) {
        Some(bom) => bom.len(),
        None => 0,
    }
}

/// The bytes of a part as the tokenizer reads them: all that follows the byte-order mark.
pub fn strip_bom(bytes: &[u8]) -> (rest: &[u8])
    ensures
        rest@ == after_bom(bytes@),
{
    let position = skip_bom(bytes);
    slice_subrange(bytes, position, bytes.len())
}

} // verus!
