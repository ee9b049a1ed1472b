//! Byte-string primitives shared by the policy checkers: exact comparison,
//! prefix tests, left-to-right substring search and ASCII trimming.
use vstd::prelude::*;
use vstd::slice::slice_subrange;

verus! {

/// `needle` occurs in `hay` at byte offset `i`.
pub open spec fn occurs_at(hay: Seq<u8>, needle: Seq<u8>, i: int) -> bool {
    0 <= i && i + needle.len() <= hay.len() && hay.subrange(i, i + needle.len()) == needle
}

/// The first offset at or after `from` where `needle` occurs, if any.
pub open spec fn find_from(hay: Seq<u8>, needle: Seq<u8>, from: int) -> Option<int>
    decreases hay.len() + 1 - from,
{
    if from < 0 || from > hay.len() {
        None
    } else if occurs_at(hay, needle, from) {
        Some(from)
    } else {
        find_from(hay, needle, from + 1)
    }
}

pub open spec fn is_prefix(prefix: Seq<u8>, s: Seq<u8>) -> bool {
    prefix.len() <= s.len() && s.subrange(0, prefix.len() as int) == prefix
}

pub open spec fn is_ascii_whitespace(b: u8) -> bool {
    b == 0x20u8 || b == 0x09u8 || b == 0x0Au8 || b == 0x0Cu8 || b == 0x0Du8
}

pub open spec fn is_ascii_digit(b: u8) -> bool {
    0x30u8 <= b <= 0x39u8
}

pub open spec fn is_lower_hex(b: u8) -> bool {
    is_ascii_digit(b) || (0x61u8 <= b <= 0x66u8)
}

pub open spec fn is_ascii_control(b: u8) -> bool {
    b < 0x20u8 || b == 0x7Fu8
}

/// Offset of the first non-whitespace byte at or after `i`.
pub open spec fn skip_ws(s: Seq<u8>, i: int) -> int
    decreases s.len() - i,
{
    if i < 0 || i >= s.len() {
        if i < 0 { 0 } else { s.len() as int }
    } else if is_ascii_whitespace(s[i]) {
        skip_ws(s, i + 1)
    } else {
        i
    }
}

/// End offset after dropping trailing whitespace, never below `lo`.
pub open spec fn trim_end(s: Seq<u8>, lo: int, j: int) -> int
    decreases j - lo,
{
    if j <= lo {
        lo
    } else if is_ascii_whitespace(s[j - 1]) {
        trim_end(s, lo, j - 1)
    } else {
        j
    }
}

/// `s` without leading and trailing ASCII whitespace.
pub open spec fn trim_ascii(s: Seq<u8>) -> Seq<u8> {
    let a = skip_ws(s, 0);
    s.subrange(a, trim_end(s, a, s.len() as int))
}

pub open spec fn contains_byte(s: Seq<u8>, b: u8) -> bool {
    exists|i: int| 0 <= i < s.len() && s[i] == b
}

proof fn lemma_skip_ws_bounds(s: Seq<u8>, i: int)
    requires
        0 <= i <= s.len(),
    ensures
        i <= skip_ws(s, i) <= s.len(),
    decreases s.len() - i,
{
    if i < s.len() && is_ascii_whitespace(s[i]) {
        lemma_skip_ws_bounds(s, i + 1);
    }
}

proof fn lemma_trim_end_bounds(s: Seq<u8>, lo: int, j: int)
    requires
        0 <= lo <= j <= s.len(),
    ensures
        lo <= trim_end(s, lo, j) <= j,
    decreases j - lo,
{
    if j > lo && is_ascii_whitespace(s[j - 1]) {
        lemma_trim_end_bounds(s, lo, j - 1);
    }
}

/// Exact byte equality.
pub fn bytes_eq(a: &[u8], b: &[u8]) -> (r: bool)
    ensures
        r == (a@ == b@),
{
    if a.len() != b.len() {
        return false;
    }
    let mut i: usize = 0;
    while i < a.len()
        invariant
            a@.len() == b@.len(),
            i <= a@.len(),
            forall|k: int| 0 <= k < i ==> a@[k] == b@[k],
        decreases a@.len() - i,
    {
        if a[i] != b[i] {
            return false;
        }
        i = i + 1;
    }
    assert(a@ =~= b@);
    true
}

/// A fresh owned copy of the bytes.
pub fn copy_bytes(a: &[u8]) -> (r: Vec<u8>)
    ensures
        r@ == a@,
{
    let mut r: Vec<u8> = Vec::new();
    let mut i: usize = 0;
    while i < a.len()
        invariant
            i <= a@.len(),
            r@ == a@.subrange(0, i as int),
        decreases a@.len() - i,
    {
        r.push(a[i]);
        i = i + 1;
        assert(r@ =~= a@.subrange(0, i as int));
    }
    assert(a@.subrange(0, a@.len() as int) =~= a@);
    r
}

/// Whether `hay` begins with `prefix`.
pub fn starts_with(hay: &[u8], prefix: &[u8]) -> (r: bool)
    ensures
        r == is_prefix(prefix@, hay@),
{
    if prefix.len() > hay.len() {
        return false;
    }
    let head = slice_subrange(hay, 0, prefix.len());
    bytes_eq(head, prefix)
}

/// Whether `needle` occurs at offset `at` of `hay`.
pub fn occurs_at_exec(hay: &[u8], needle: &[u8], at: usize) -> (r: bool)
    ensures
        r == occurs_at(hay@, needle@, at as int),
{
    if at > hay.len() || needle.len() > hay.len() - at {
        return false;
    }
    let window = slice_subrange(hay, at, at + needle.len());
    bytes_eq(window, needle)
}

/// The first occurrence of `needle` at or after `from`.
pub fn find_from_exec(hay: &[u8], needle: &[u8], from: usize) -> (r: Option<usize>)
    ensures
        match r {
            Some(i) => find_from(hay@, needle@, from as int) == Some(i as int),
            None => find_from(hay@, needle@, from as int) is None,
        },
{
    if from > hay.len() {
        return None;
    }
    let mut i: usize = from;
    while i <= hay.len()
        invariant
            from <= i <= hay@.len() + 1,
            from <= hay@.len(),
            find_from(hay@, needle@, from as int) == find_from(hay@, needle@, i as int),
        decreases hay@.len() + 1 - i,
    {
        if occurs_at_exec(hay, needle, i) {
            return Some(i);
        }
        if i == hay.len() {
            assert(find_from(hay@, needle@, i + 1) is None);
            return None;
        }
        i = i + 1;
    }
    None
}

/// Whether the byte occurs anywhere in `s`.
pub fn contains_byte_exec(s: &[u8], b: u8) -> (r: bool)
    ensures
        r == contains_byte(s@, b),
{
    let mut i: usize = 0;
    while i < s.len()
        invariant
            i <= s@.len(),
            forall|k: int| 0 <= k < i ==> s@[k] != b,
        decreases s@.len() - i,
    {
        if s[i] == b {
            return true;
        }
        i = i + 1;
    }
    false
}

/// Whether `c` is an ASCII whitespace byte.
pub fn ascii_whitespace(c: u8) -> (r: bool)
    ensures
        r == is_ascii_whitespace(c),
{
    c == 0x20u8 || c == 0x09u8 || c == 0x0Au8 || c == 0x0Cu8 || c == 0x0Du8
}

/// Offsets `(start, end)` of `s` without leading and trailing ASCII whitespace.
pub fn trim_ascii_bounds(s: &[u8]) -> (r: (usize, usize))
    ensures
        r.0 == skip_ws(s@, 0),
        r.1 == trim_end(s@, r.0 as int, s@.len() as int),
        r.0 <= r.1 <= s@.len(),
{
    let mut a: usize = 0;
    while a < s.len() && ascii_whitespace(s[a])
        invariant
            a <= s@.len(),
            skip_ws(s@, 0) == skip_ws(s@, a as int),
        decreases s@.len() - a,
    {
        a = a + 1;
    }
    let mut b: usize = s.len();
    proof {
        lemma_skip_ws_bounds(s@, 0);
    }
    while b > a && ascii_whitespace(s[b - 1])
        invariant
            a <= b <= s@.len(),
            a == skip_ws(s@, 0),
            trim_end(s@, a as int, s@.len() as int) == trim_end(s@, a as int, b as int),
        decreases b - a,
    {
        b = b - 1;
    }
    (a, b)
}

/// `s` without leading and trailing ASCII whitespace.
pub fn trim_ascii_exec(s: &[u8]) -> (r: &[u8])
    ensures
        r@ == trim_ascii(s@),
{
    let (a, b) = trim_ascii_bounds(s);
    slice_subrange(s, a, b)
}

} // verus!
