//! Byte-level reading of UTF-8 text: whitespace, lines, searches.
//!
//! Everything the scanner decides is decided on the bytes of a `&str`, with
//! offsets that are byte offsets, exactly as `str` slicing uses them. A
//! character's whitespace-ness is read from its encoding: Unicode's
//! `White_Space` characters (what `char::is_whitespace` answers for) encode
//! to the byte patterns below, and no other character's encoding starts
//! with one of them.

use vstd::prelude::*;
use vstd::string::StringSliceAdditionalSpecFns;
use vstd::utf8::{encode_utf8_valid_utf8, is_char_boundary, length_of_first_scalar, pop_first_scalar, valid_utf8};

verus! {

/// The byte length of the whitespace character that starts at `i`, or 0
/// when the character there is not whitespace (or `i` is out of range).
///
/// U+0009..U+000D and U+0020 are one byte; U+0085 and U+00A0 are two;
/// U+1680, U+2000..U+200A, U+2028, U+2029, U+202F, U+205F and U+3000 are
/// three.
pub open spec fn ws_len(t: Seq<u8>, i: int) -> int {
    if 0 <= i < t.len() {
        let b = t[i];
        if b == 0x20u8 || (0x09u8 <= b && b <= 0x0du8) {
            1
        } else if b == 0xc2u8 && i + 1 < t.len() && (t[i + 1] == 0x85u8 || t[i + 1] == 0xa0u8) {
            2
        } else if i + 2 < t.len() && ((b == 0xe1u8 && t[i + 1] == 0x9au8 && t[i + 2] == 0x80u8)
            || (b == 0xe2u8 && t[i + 1] == 0x80u8 && ((0x80u8 <= t[i + 2] && t[i + 2] <= 0x8au8)
            || t[i + 2] == 0xa8u8 || t[i + 2] == 0xa9u8 || t[i + 2] == 0xafu8)) || (b == 0xe2u8
            && t[i + 1] == 0x81u8 && t[i + 2] == 0x9fu8) || (b == 0xe3u8 && t[i + 1] == 0x80u8
            && t[i + 2] == 0x80u8)) {
            3
        } else {
            0
        }
    } else {
        0
    }
}

/// The byte length of the whitespace character that ends at `i`, or 0.
pub open spec fn ws_before(t: Seq<u8>, i: int) -> int {
    if i >= 1 && ws_len(t, i - 1) == 1 {
        1
    } else if i >= 2 && ws_len(t, i - 2) == 2 {
        2
    } else if i >= 3 && ws_len(t, i - 3) == 3 {
        3
    } else {
        0
    }
}

/// How many bytes of whitespace characters `t` starts with (what
/// `trim_start` removes).
pub open spec fn lead_ws(t: Seq<u8>) -> int
    decreases t.len(),
{
    let w = ws_len(t, 0);
    if w > 0 && w <= t.len() {
        w + lead_ws(t.subrange(w, t.len() as int))
    } else {
        0
    }
}

/// Whether `t` is nothing but whitespace (what `trim().is_empty()` asks).
pub open spec fn all_ws(t: Seq<u8>) -> bool {
    lead_ws(t) == t.len()
}

/// How many copies of byte `c` start at `i`.
pub open spec fn run_len(t: Seq<u8>, i: int, c: u8) -> int
    decreases t.len() - i,
{
    if 0 <= i < t.len() && t[i] == c {
        1 + run_len(t, i + 1, c)
    } else {
        0
    }
}

/// The first index at or after `i` holding byte `c`, if any.
pub open spec fn find_byte(t: Seq<u8>, i: int, c: u8) -> Option<int>
    decreases t.len() - i,
{
    if i < 0 || i >= t.len() {
        None
    } else if t[i] == c {
        Some(i)
    } else {
        find_byte(t, i + 1, c)
    }
}

/// Whether `pat` occurs in `t` at `i`.
pub open spec fn occurs_at(t: Seq<u8>, i: int, pat: Seq<u8>) -> bool {
    0 <= i && i + pat.len() <= t.len() && t.subrange(i, i + pat.len()) == pat
}

/// The first index at or after `i` where `pat` occurs, if any (what
/// `str::find` answers over `t[i..]`).
pub open spec fn find_seq(t: Seq<u8>, i: int, pat: Seq<u8>) -> Option<int>
    decreases t.len() + 1 - i,
{
    if i < 0 || i + pat.len() > t.len() {
        None
    } else if occurs_at(t, i, pat) {
        Some(i)
    } else {
        find_seq(t, i + 1, pat)
    }
}

/// The offset where the line holding offset `o` ends: the next newline at
/// or after `o`, or the end of the text.
pub open spec fn line_end_of(t: Seq<u8>, o: int) -> int {
    match find_byte(t, o, 0x0au8) {
        Some(n) => n,
        None => t.len() as int,
    }
}

/// The offset where the line holding offset `o` starts: one past the last
/// newline before `o`, or 0.
pub open spec fn line_start_of(t: Seq<u8>, o: int) -> int
    decreases o,
{
    if o <= 0 {
        0
    } else if t[o - 1] == 0x0au8 {
        o
    } else {
        line_start_of(t, o - 1)
    }
}

// ---------------------------------------------------------------- exec

/// `ws_len` on a slice.
pub fn ws_len_at(t: &[u8], i: usize) -> (w: usize)
    ensures
        w == ws_len(t@, i as int),
        w <= 3,
{
    let n = t.len();
    if i >= n {
        return 0;
    }
    let b = t[i];
    if b == 0x20 || (0x09 <= b && b <= 0x0d) {
        1
    } else if b == 0xc2 && n - i > 1 && (t[i + 1] == 0x85 || t[i + 1] == 0xa0) {
        2
    } else if n - i > 2 && ((b == 0xe1 && t[i + 1] == 0x9a && t[i + 2] == 0x80) || (b == 0xe2
        && t[i + 1] == 0x80 && ((0x80 <= t[i + 2] && t[i + 2] <= 0x8a) || t[i + 2] == 0xa8 || t[i
        + 2] == 0xa9 || t[i + 2] == 0xaf)) || (b == 0xe2 && t[i + 1] == 0x81 && t[i + 2] == 0x9f)
        || (b == 0xe3 && t[i + 1] == 0x80 && t[i + 2] == 0x80)) {
        3
    } else {
        0
    }
}

/// `ws_before` on a slice.
pub fn ws_before_at(t: &[u8], i: usize) -> (w: usize)
    ensures
        w == ws_before(t@, i as int),
{
    if i >= 1 && ws_len_at(t, i - 1) == 1 {
        1
    } else if i >= 2 && ws_len_at(t, i - 2) == 2 {
        2
    } else if i >= 3 && ws_len_at(t, i - 3) == 3 {
        3
    } else {
        0
    }
}


/// Reading `ws_len` through a suffix is reading it in place.
pub proof fn lemma_ws_len_suffix(t: Seq<u8>, p: int, j: int)
    requires
        0 <= p <= t.len(),
        0 <= j,
    ensures
        ws_len(t.subrange(p, t.len() as int), j) == ws_len(t, p + j),
{
}

/// `lead_ws` of a suffix whose head is whitespace.
pub proof fn lemma_lead_ws_step(t: Seq<u8>, p: int)
    requires
        0 <= p <= t.len(),
    ensures
        ({
            let s = t.subrange(p, t.len() as int);
            let w = ws_len(t, p);
            lead_ws(s) == if w > 0 && p + w <= t.len() {
                w + lead_ws(t.subrange(p + w, t.len() as int))
            } else {
                0
            }
        }),
{
    let s = t.subrange(p, t.len() as int);
    lemma_ws_len_suffix(t, p, 0);
    let w = ws_len(t, p);
    if w > 0 && p + w <= t.len() {
        assert(s.subrange(w, s.len() as int) =~= t.subrange(p + w, t.len() as int));
    }
}

/// `lead_ws` never exceeds the length.
pub proof fn lemma_lead_ws_bound(t: Seq<u8>)
    ensures
        0 <= lead_ws(t) <= t.len(),
    decreases t.len(),
{
    let w = ws_len(t, 0);
    if w > 0 && w <= t.len() {
        lemma_lead_ws_bound(t.subrange(w, t.len() as int));
    }
}

/// How many bytes of whitespace `t` starts with.
pub fn lead_ws_exec(t: &[u8]) -> (n: usize)
    ensures
        n == lead_ws(t@),
        n <= t@.len(),
{
    let mut p: usize = 0;
    proof {
        assert(t@.subrange(0, t@.len() as int) =~= t@);
    }
    while p < t.len()
        invariant
            p <= t@.len(),
            lead_ws(t@) == p + lead_ws(t@.subrange(p as int, t@.len() as int)),
        decreases t@.len() - p,
    {
        let w = ws_len_at(t, p);
        proof {
            lemma_lead_ws_step(t@, p as int);
        }
        if w == 0 || w > t.len() - p {
            return p;
        }
        p = p + w;
    }
    proof {
        lemma_lead_ws_step(t@, p as int);
    }
    p
}

/// How many copies of `c` start at `i`.
pub fn run_len_exec(t: &[u8], i: usize, c: u8) -> (n: usize)
    requires
        i <= t@.len(),
    ensures
        n == run_len(t@, i as int, c),
        i + n <= t@.len(),
{
    let mut p = i;
    while p < t.len() && t[p] == c
        invariant
            i <= p <= t@.len(),
            run_len(t@, i as int, c) == (p - i) + run_len(t@, p as int, c),
        decreases t@.len() - p,
    {
        p = p + 1;
    }
    p - i
}

/// The first `c` at or after `i`.
pub fn find_byte_exec(t: &[u8], i: usize, c: u8) -> (r: Option<usize>)
    ensures
        find_byte(t@, i as int, c) == (match r {
            Some(k) => Some(k as int),
            None => None::<int>,
        }),
        r matches Some(k) ==> i <= k < t@.len() && t@[k as int] == c,
{
    let mut p = i;
    while p < t.len()
        invariant
            i <= p,
            find_byte(t@, i as int, c) == find_byte(t@, p as int, c),
        decreases t@.len() - p,
    {
        if t[p] == c {
            return Some(p);
        }
        p = p + 1;
    }
    None
}

/// The marker that is `c` once, or twice when `two`.
pub open spec fn marker(c: u8, two: bool) -> Seq<u8> {
    if two {
        seq![c, c]
    } else {
        seq![c]
    }
}

/// Whether the marker occurs at `i`.
pub fn marker_at(t: &[u8], i: usize, c: u8, two: bool) -> (b: bool)
    ensures
        b == occurs_at(t@, i as int, marker(c, two)),
{
    let m: usize = if two { 2 } else { 1 };
    if i > t.len() || t.len() - i < m {
        proof {
            assert(!occurs_at(t@, i as int, marker(c, two)));
        }
        return false;
    }
    let b = t[i] == c && (!two || t[i + 1] == c);
    proof {
        let sub = t@.subrange(i as int, i + m);
        if b {
            assert(sub =~= marker(c, two));
        } else {
            if two {
                assert(sub[0] != c || sub[1] != c);
            } else {
                assert(sub[0] != c);
            }
            assert(sub != marker(c, two));
        }
    }
    b
}

/// The first occurrence of the marker at or after `i`.
pub fn find_marker(t: &[u8], i: usize, c: u8, two: bool) -> (r: Option<usize>)
    ensures
        find_seq(t@, i as int, marker(c, two)) == (match r {
            Some(k) => Some(k as int),
            None => None::<int>,
        }),
        r matches Some(k) ==> i <= k && k + marker(c, two).len() <= t@.len(),
{
    let m: usize = if two { 2 } else { 1 };
    let mut p = i;
    while p <= t.len() && t.len() - p >= m
        invariant
            i <= p,
            m == marker(c, two).len(),
            find_seq(t@, i as int, marker(c, two)) == find_seq(t@, p as int, marker(c, two)),
        decreases t@.len() + 1 - p,
    {
        if marker_at(t, p, c, two) {
            return Some(p);
        }
        p = p + 1;
    }
    None
}


/// How many bytes of whitespace characters `t` ends with (what `trim_end`
/// removes).
pub open spec fn trail_ws(t: Seq<u8>) -> int
    decreases t.len(),
{
    let w = ws_before(t, t.len() as int);
    if w > 0 && w <= t.len() {
        w + trail_ws(t.subrange(0, t.len() - w))
    } else {
        0
    }
}

/// `t` with leading and trailing whitespace removed (what `str::trim`
/// gives).
pub open spec fn trimmed(t: Seq<u8>) -> Seq<u8> {
    let u = t.subrange(lead_ws(t), t.len() as int);
    u.subrange(0, u.len() - trail_ws(u))
}

/// The character after a boundary ends at a boundary.
pub proof fn lemma_next_boundary(t: Seq<u8>, i: int)
    requires
        valid_utf8(t),
        0 <= i < t.len(),
        is_char_boundary(t, i),
    ensures
        1 <= length_of_first_scalar(t.subrange(i, t.len() as int)) <= t.len() - i,
        is_char_boundary(t, i + length_of_first_scalar(t.subrange(i, t.len() as int))),
    decreases t.len(),
{
    reveal_with_fuel(is_char_boundary, 2);
    let w0 = length_of_first_scalar(t);
    let rest = pop_first_scalar(t);
    if i == 0 {
        assert(t.subrange(0, t.len() as int) =~= t);
        assert(is_char_boundary(rest, 0));
    } else {
        assert(rest.subrange(i - w0, rest.len() as int) =~= t.subrange(i, t.len() as int));
        lemma_next_boundary(rest, i - w0);
    }
}

/// A whitespace character that starts at a boundary ends at one.
pub proof fn lemma_ws_boundary_after(t: Seq<u8>, i: int)
    requires
        valid_utf8(t),
        0 <= i < t.len(),
        is_char_boundary(t, i),
        ws_len(t, i) > 0,
    ensures
        is_char_boundary(t, i + ws_len(t, i)),
{
    lemma_next_boundary(t, i);
    assert(t.subrange(i, t.len() as int)[0] == t[i]);
}

/// A whitespace character that ends at `e` starts at a boundary.
pub proof fn lemma_ws_boundary_before(t: Seq<u8>, e: int)
    requires
        valid_utf8(t),
        0 < e <= t.len(),
        ws_before(t, e) > 0,
    ensures
        is_char_boundary(t, e - ws_before(t, e)),
{
    vstd::utf8::is_char_boundary_iff_not_is_continuation_byte(t, e - ws_before(t, e));
}

/// `trail_ws` never exceeds the length.
pub proof fn lemma_trail_ws_bound(t: Seq<u8>)
    ensures
        0 <= trail_ws(t) <= t.len(),
    decreases t.len(),
{
    let w = ws_before(t, t.len() as int);
    if w > 0 && w <= t.len() {
        lemma_trail_ws_bound(t.subrange(0, t.len() - w));
    }
}

/// Leading whitespace ends at a boundary.
pub proof fn lemma_lead_ws_boundary(t: Seq<u8>, p: int)
    requires
        valid_utf8(t),
        0 <= p <= t.len(),
        is_char_boundary(t, p),
    ensures
        is_char_boundary(t, p + lead_ws(t.subrange(p, t.len() as int))),
    decreases t.len() - p,
{
    lemma_lead_ws_step(t, p);
    let w = ws_len(t, p);
    if w > 0 && p + w <= t.len() {
        lemma_ws_boundary_after(t, p);
        lemma_lead_ws_boundary(t, p + w);
    } else {
        assert(lead_ws(t.subrange(p, t.len() as int)) == 0);
    }
}

/// Trailing whitespace starts at a boundary.
pub proof fn lemma_trail_ws_boundary(t: Seq<u8>, e: int)
    requires
        valid_utf8(t),
        0 <= e <= t.len(),
        is_char_boundary(t, e),
    ensures
        is_char_boundary(t, e - trail_ws(t.subrange(0, e))),
    decreases e,
{
    let u = t.subrange(0, e);
    let w = ws_before(u, e);
    assert(w == ws_before(t, e));
    if w > 0 && w <= e {
        lemma_ws_boundary_before(t, e);
        assert(u.subrange(0, e - w) =~= t.subrange(0, e - w));
        lemma_trail_ws_boundary(t, e - w);
    }
}

/// How many bytes of whitespace `t` ends with.
pub fn trail_ws_exec(t: &[u8]) -> (n: usize)
    ensures
        n == trail_ws(t@),
        n <= t@.len(),
{
    let mut e: usize = t.len();
    proof {
        assert(t@.subrange(0, t@.len() as int) =~= t@);
    }
    while e > 0
        invariant
            e <= t@.len(),
            trail_ws(t@) == (t@.len() - e) + trail_ws(t@.subrange(0, e as int)),
        decreases e,
    {
        let w = ws_before_at(t, e);
        proof {
            assert(ws_before(t@.subrange(0, e as int), e as int) == ws_before(t@, e as int));
        }
        if w == 0 || w > e {
            return t.len() - e;
        }
        proof {
            assert(t@.subrange(0, e as int).subrange(0, e - w) =~= t@.subrange(0, e - w));
        }
        e = e - w;
    }
    t.len()
}

/// `s` with leading and trailing whitespace removed.
pub fn trim(s: &str) -> (r: &str)
    ensures
        r.spec_bytes() == trimmed(s.spec_bytes()),
{
    let t = s.as_bytes();
    let ghost tv = t@;
    proof {
        encode_utf8_valid_utf8(s@);
        assert(tv == vstd::utf8::encode_utf8(s@));
        vstd::utf8::is_char_boundary_start_end_of_seq(tv);
        assert(tv.subrange(0, tv.len() as int) =~= tv);
        lemma_lead_ws_boundary(tv, 0);
    }
    let p = lead_ws_exec(t);
    let (_, u) = s.split_at(p);
    let ghost uv = u.spec_bytes();
    proof {
        vstd::utf8::valid_utf8_split(tv, p as int);
        vstd::utf8::is_char_boundary_start_end_of_seq(uv);
        assert(uv.subrange(0, uv.len() as int) =~= uv);
        lemma_trail_ws_boundary(uv, uv.len() as int);
    }
    let ub = u.as_bytes();
    let k = trail_ws_exec(ub);
    let (r, _) = u.split_at(ub.len() - k);
    proof {
        assert(r.spec_bytes() =~= trimmed(tv));
    }
    r
}

} // verus!
