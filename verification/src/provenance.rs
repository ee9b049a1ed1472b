//! Offline source provenance: the source system, its revision and the files
//! with their SHA-256 digests. Text is UTF-8; these checks read its bytes.
use crate::text::{is_ascii_whitespace, is_lower_hex};
use vstd::prelude::*;

verus! {

/// The source systems a pin can name. These are identities, not claims of
/// implemented game conversion.
#[derive(Clone, Copy, Debug, PartialEq, Eq, Structural)]
pub enum ExternalSourceSystem {
    PathOfBuilding1,
    PathOfBuilding2,
}

#[derive(Debug)]
pub struct SourceFilePin {
    pub path: Vec<u8>,
    pub sha256: Vec<u8>,
}

#[derive(Debug)]
pub struct SourcePin {
    pub system: ExternalSourceSystem,
    pub revision: Vec<u8>,
    pub files: Vec<SourceFilePin>,
}

/// A control character at `i`: C0, DEL, or a C1 character, whose UTF-8
/// encoding starts with 0xC2.
pub open spec fn control_at(s: Seq<u8>, i: int) -> bool {
    ||| s[i] < 0x20u8
    ||| s[i] == 0x7Fu8
    ||| (s[i] == 0xC2u8 && i + 1 < s.len() && 0x80u8 <= s[i + 1] <= 0x9Fu8)
}

/// UTF-8 text holds a control character.
pub open spec fn has_control(s: Seq<u8>) -> bool {
    exists|i: int| 0 <= i < s.len() && #[trigger] control_at(s, i)
}

pub fn has_control_exec(s: &[u8]) -> (r: bool)
    ensures
        r == has_control(s@),
{
    let mut i: usize = 0;
    while i < s.len()
        invariant
            i <= s@.len(),
            forall|j: int| 0 <= j < i ==> !#[trigger] control_at(s@, j),
        decreases s@.len() - i,
    {
        let b = s[i];
        if b < 0x20u8 || b == 0x7Fu8 || (b == 0xC2u8 && i + 1 < s.len() && 0x80u8 <= s[i + 1] && s[i + 1] <= 0x9Fu8) {
            assert(control_at(s@, i as int));
            return true;
        }
        i = i + 1;
    }
    false
}

/// Byte length of the Unicode whitespace character encoded at `i`, or 0.
pub open spec fn white_len(s: Seq<u8>, i: int) -> nat {
    let b0 = s[i];
    let has2 = s.len() - i > 1;
    let has3 = s.len() - i > 2;
    if b0 == 0x09u8 || b0 == 0x0Au8 || b0 == 0x0Bu8 || b0 == 0x0Cu8 || b0 == 0x0Du8 || b0 == 0x20u8 {
        1
    } else if b0 == 0xC2u8 && has2 && (s[i + 1] == 0x85u8 || s[i + 1] == 0xA0u8) {
        2
    } else if b0 == 0xE1u8 && has3 && s[i + 1] == 0x9Au8 && s[i + 2] == 0x80u8 {
        3
    } else if b0 == 0xE2u8 && has3 && s[i + 1] == 0x80u8 && ((0x80u8 <= s[i + 2] <= 0x8Au8) || s[i + 2]
        == 0xA8u8 || s[i + 2] == 0xA9u8 || s[i + 2] == 0xAFu8) {
        3
    } else if b0 == 0xE2u8 && has3 && s[i + 1] == 0x81u8 && s[i + 2] == 0x9Fu8 {
        3
    } else if b0 == 0xE3u8 && has3 && s[i + 1] == 0x80u8 && s[i + 2] == 0x80u8 {
        3
    } else {
        0
    }
}

/// From `i` on, the text is only Unicode whitespace.
pub open spec fn blank_from(s: Seq<u8>, i: int) -> bool
    decreases s.len() - i,
{
    if i < 0 || i >= s.len() {
        true
    } else if white_len(s, i) == 0 {
        false
    } else {
        blank_from(s, i + white_len(s, i))
    }
}

/// The text trims to nothing.
pub open spec fn is_blank(s: Seq<u8>) -> bool {
    blank_from(s, 0)
}

fn white_len_exec(s: &[u8], i: usize) -> (r: usize)
    requires
        i < s@.len(),
    ensures
        r == white_len(s@, i as int),
{
    let b0 = s[i];
    let has2 = s.len() - i > 1;
    let has3 = s.len() - i > 2;
    if b0 == 0x09u8 || b0 == 0x0Au8 || b0 == 0x0Bu8 || b0 == 0x0Cu8 || b0 == 0x0Du8 || b0 == 0x20u8 {
        1
    } else if b0 == 0xC2u8 && has2 && (s[i + 1] == 0x85u8 || s[i + 1] == 0xA0u8) {
        2
    } else if b0 == 0xE1u8 && has3 && s[i + 1] == 0x9Au8 && s[i + 2] == 0x80u8 {
        3
    } else if b0 == 0xE2u8 && has3 && s[i + 1] == 0x80u8 && ((0x80u8 <= s[i + 2] && s[i + 2] <= 0x8Au8)
        || s[i + 2] == 0xA8u8 || s[i + 2] == 0xA9u8 || s[i + 2] == 0xAFu8) {
        3
    } else if b0 == 0xE2u8 && has3 && s[i + 1] == 0x81u8 && s[i + 2] == 0x9Fu8 {
        3
    } else if b0 == 0xE3u8 && has3 && s[i + 1] == 0x80u8 && s[i + 2] == 0x80u8 {
        3
    } else {
        0
    }
}

pub fn is_blank_exec(s: &[u8]) -> (r: bool)
    ensures
        r == is_blank(s@),
{
    let mut i: usize = 0;
    while i < s.len()
        invariant
            i <= s@.len(),
            is_blank(s@) == blank_from(s@, i as int),
        decreases s@.len() - i,
    {
        let w = white_len_exec(s, i);
        if w == 0 {
            return false;
        }
        i = i + w;
    }
    true
}

/// Exactly 64 lowercase hex digits.
pub open spec fn sha256_hex_ok(s: Seq<u8>) -> bool {
    s.len() == 64 && forall|i: int| 0 <= i < s.len() ==> #[trigger] is_lower_hex(s[i])
}

pub fn sha256_hex_ok_exec(s: &[u8]) -> (r: bool)
    ensures
        r == sha256_hex_ok(s@),
{
    if s.len() != 64 {
        return false;
    }
    let mut i: usize = 0;
    while i < s.len()
        invariant
            i <= s@.len(),
            s@.len() == 64,
            forall|j: int| 0 <= j < i ==> #[trigger] is_lower_hex(s@[j]),
        decreases s@.len() - i,
    {
        let b = s[i];
        if !((0x30u8 <= b && b <= 0x39u8) || (0x61u8 <= b && b <= 0x66u8)) {
            assert(!is_lower_hex(s@[i as int]));
            return false;
        }
        i = i + 1;
    }
    true
}

/// Position of the next `/` at or after `i`, or the length.
pub open spec fn next_slash(s: Seq<u8>, i: int) -> int
    decreases s.len() - i,
{
    if i < 0 || i >= s.len() {
        s.len() as int
    } else if s[i] == 0x2Fu8 {
        i
    } else {
        next_slash(s, i + 1)
    }
}

proof fn lemma_next_slash(s: Seq<u8>, i: int)
    requires
        0 <= i <= s.len(),
    ensures
        i <= next_slash(s, i) <= s.len(),
    decreases s.len() - i,
{
    if i < s.len() && s[i] != 0x2Fu8 {
        lemma_next_slash(s, i + 1);
    }
}

/// A path segment is neither empty nor `.` nor `..`.
pub open spec fn segment_ok(seg: Seq<u8>) -> bool {
    seg.len() > 0 && seg != seq![0x2Eu8] && seg != seq![0x2Eu8, 0x2Eu8]
}

/// Every `/`-separated segment of `s` from `start` on is acceptable.
pub open spec fn segments_ok_from(s: Seq<u8>, start: int) -> bool
    decreases s.len() + 1 - start,
    via segments_ok_decreases
{
    if start < 0 || start > s.len() {
        true
    } else {
        let e = next_slash(s, start);
        segment_ok(s.subrange(start, e)) && (e >= s.len() || segments_ok_from(s, e + 1))
    }
}

#[via_fn]
proof fn segments_ok_decreases(s: Seq<u8>, start: int) {
    if 0 <= start <= s.len() {
        lemma_next_slash(s, start);
    }
}

/// A relative source path: nonempty, without backslash, colon or control
/// characters, and with no empty, `.` or `..` segment.
pub open spec fn source_path_ok(p: Seq<u8>) -> bool {
    &&& p.len() > 0
    &&& forall|i: int| 0 <= i < p.len() ==> #[trigger] p[i] != 0x5Cu8 && p[i] != 0x3Au8
    &&& !has_control(p)
    &&& segments_ok_from(p, 0)
}

#[verifier::loop_isolation(false)]
pub fn source_path_ok_exec(p: &[u8]) -> (r: bool)
    ensures
        r == source_path_ok(p@),
{
    if p.len() == 0 {
        return false;
    }
    let mut i: usize = 0;
    while i < p.len()
        invariant
            i <= p@.len(),
            forall|j: int| 0 <= j < i ==> #[trigger] p@[j] != 0x5Cu8 && p@[j] != 0x3Au8,
        decreases p@.len() - i,
    {
        if p[i] == 0x5Cu8 || p[i] == 0x3Au8 {
            return false;
        }
        i = i + 1;
    }
    if has_control_exec(p) {
        return false;
    }
    let mut start: usize = 0;
    while start <= p.len()
        invariant
            start <= p@.len() + 1,
            segments_ok_from(p@, 0) == segments_ok_from(p@, start as int),
        decreases p@.len() + 1 - start,
    {
        let mut e: usize = start;
        while e < p.len() && p[e] != 0x2Fu8
            invariant
                start <= e <= p@.len(),
                next_slash(p@, start as int) == next_slash(p@, e as int),
            decreases p@.len() - e,
        {
            e = e + 1;
        }
        let len = e - start;
        let bad = len == 0 || (len == 1 && p[start] == 0x2Eu8) || (len == 2 && p[start] == 0x2Eu8 && p[start
            + 1] == 0x2Eu8);
        let ghost seg = p@.subrange(start as int, e as int);
        assert(bad == !segment_ok(seg)) by {
            let one = seq![0x2Eu8];
            let two = seq![0x2Eu8, 0x2Eu8];
            assert(one.len() == 1 && one[0] == 0x2Eu8);
            assert(two.len() == 2 && two[0] == 0x2Eu8 && two[1] == 0x2Eu8);
            if len == 1 {
                assert(seg.len() == 1 && seg[0] == p@[start as int]);
                if p@[start as int] == 0x2Eu8 {
                    assert(seg =~= one);
                } else {
                    assert(seg[0] != one[0]);
                }
                assert(seg.len() != two.len());
            }
            if len == 2 {
                assert(seg[0] == p@[start as int] && seg[1] == p@[start + 1]);
                if p@[start as int] == 0x2Eu8 && p@[start + 1] == 0x2Eu8 {
                    assert(seg =~= two);
                } else {
                    assert(seg[0] != two[0] || seg[1] != two[1]);
                }
                assert(seg.len() != one.len());
            }
            if len > 2 {
                assert(seg.len() != one.len() && seg.len() != two.len());
            }
        }
        if bad {
            return false;
        }
        if e >= p.len() {
            return true;
        }
        start = e + 1;
    }
    true
}

} // verus!
