//! Slash tokens and `@` mentions.
//!
//! Both are "a trigger character, then everything up to whitespace", and
//! both are styled from the trigger onwards before the rest of the token
//! exists. What separates a token from prose is only where the trigger
//! sits:
//!
//! - `/` has to be the first non-whitespace character of its line, so
//!   `crates/knot/src` is a path and not three tokens.
//! - `@` has to follow whitespace or begin the line, so the `@` in
//!   `paul@example.com` is part of an address.
//!
//! A backslash escapes the character after it, so a path holding a space
//! stays one token when the space is escaped; [`escape_token`] writes what
//! the scanner reads back as one token.

use crate::composer_scan::span::{shift_all, views, Construct, Span, SpanV};
use crate::text::{lead_ws, lead_ws_exec, ws_before, ws_before_at, ws_len, ws_len_at};
use crate::strings::{lemma_ascii_valid, string_from_utf8};
use crate::text::lemma_ws_len_suffix;
use crate::composer_scan::lines::{clamp, line_end, line_start, piece_end};
use crate::text::{line_end_of, line_start_of};
use vstd::prelude::*;
use vstd::slice::slice_subrange;
use vstd::string::StringSliceAdditionalSpecFns;
use vstd::utf8::{encode_utf8, length_of_first_scalar, pop_first_scalar, take_first_scalar, valid_first_scalar, valid_utf8, valid_utf8_concat};

verus! {

pub const AT: u8 = 0x40;
pub const SLASH: u8 = 0x2f;
pub const BACKSLASH: u8 = 0x5c;

/// Where a token that has reached `p` in line `l` stops: at the first
/// unescaped whitespace, or at the end of the line.
pub open spec fn token_stop(l: Seq<u8>, p: int) -> int
    decreases l.len() - p,
{
    if p < 0 || p >= l.len() {
        l.len() as int
    } else if l[p] == BACKSLASH && p + 1 < l.len() {
        let w = ws_len(l, p + 1);
        let next = p + 1 + if w > 0 { w } else { 1 };
        if next <= l.len() {
            token_stop(l, next)
        } else {
            l.len() as int
        }
    } else if ws_len(l, p) > 0 {
        p
    } else {
        token_stop(l, p + 1)
    }
}

/// One past the token whose trigger is at `o`.
pub open spec fn token_end_of(l: Seq<u8>, o: int) -> int {
    token_stop(l, o + 1)
}

/// The leading `/command` of line `l`, if it has one.
pub open spec fn slash_spans(l: Seq<u8>) -> Seq<SpanV> {
    let i = lead_ws(l);
    if 0 <= i < l.len() && l[i] == SLASH {
        seq![(i, token_end_of(l, i), Construct::SlashToken)]
    } else {
        Seq::empty()
    }
}

/// Whether the `@` at `o` begins a word: nothing before it, or whitespace.
pub open spec fn word_boundary(l: Seq<u8>, o: int) -> bool {
    o == 0 || ws_before(l, o) > 0
}

/// Every `@mention` of line `l` from `o` on.
pub open spec fn mention_spans(l: Seq<u8>, o: int) -> Seq<SpanV>
    decreases l.len() - o,
{
    if o < 0 || o >= l.len() {
        Seq::empty()
    } else if l[o] == AT && word_boundary(l, o) {
        seq![(o, token_end_of(l, o), Construct::Mention)] + mention_spans(l, o + 1)
    } else {
        mention_spans(l, o + 1)
    }
}

/// The tokens of one line, at offsets relative to the line's start.
pub open spec fn token_line_spans(l: Seq<u8>) -> Seq<SpanV> {
    slash_spans(l) + mention_spans(l, 0)
}

pub proof fn lemma_token_stop_bound(l: Seq<u8>, p: int)
    requires
        0 <= p,
    ensures
        p <= token_stop(l, p) <= l.len() || (p > l.len() && token_stop(l, p) == l.len()),
    decreases l.len() - p,
{
    if p < l.len() {
        if l[p] == BACKSLASH && p + 1 < l.len() {
            let w = ws_len(l, p + 1);
            let next = p + 1 + if w > 0 { w } else { 1 };
            if next <= l.len() {
                lemma_token_stop_bound(l, next);
            }
        } else if ws_len(l, p) > 0 {
        } else {
            lemma_token_stop_bound(l, p + 1);
        }
    }
}

/// One past the token whose trigger is at `o`.
pub fn token_end(l: &[u8], o: usize) -> (e: usize)
    requires
        o < l@.len(),
    ensures
        e == token_end_of(l@, o as int),
        o < e <= l@.len(),
{
    proof {
        lemma_token_stop_bound(l@, o + 1);
    }
    let n = l.len();
    let mut p = o + 1;
    while p < n
        invariant
            n == l@.len(),
            o < p <= n,
            token_stop(l@, o + 1) == token_stop(l@, p as int),
        decreases n - p,
    {
        if l[p] == BACKSLASH && p + 1 < n {
            let w = ws_len_at(l, p + 1);
            let next = p + 1 + if w > 0 { w } else { 1 };
            if next > n {
                return n;
            }
            p = next;
        } else if ws_len_at(l, p) > 0 {
            return p;
        } else {
            p = p + 1;
        }
    }
    n
}

/// Whether the trigger at `o` begins a word: nothing before it, or
/// whitespace.
pub fn at_word_boundary(l: &[u8], o: usize) -> (r: bool)
    ensures
        r == word_boundary(l@, o as int),
{
    o == 0 || ws_before_at(l, o) > 0
}

/// The leading `/command` of line `l`, if it has one, pushed at `start`.
pub fn scan_slash(l: &[u8], start: usize, spans: &mut Vec<Span>)
    requires
        start + l@.len() <= usize::MAX,
    ensures
        views(final(spans)@) == views(old(spans)@) + shift_all(slash_spans(l@), start as int),
{
    let ghost s0 = views(spans@);
    let n = l.len();
    let indent = lead_ws_exec(l);
    if indent < n && l[indent] == SLASH {
        let e = token_end(l, indent);
        spans.push(Span::new(start + indent..start + e, Construct::SlashToken));
    }
    proof {
        assert(views(spans@) =~= s0 + shift_all(slash_spans(l@), start as int));
    }
}

/// Every `@mention` of line `l`, pushed at `start`.
pub fn scan_mentions(l: &[u8], start: usize, spans: &mut Vec<Span>)
    requires
        start + l@.len() <= usize::MAX,
    ensures
        views(final(spans)@) == views(old(spans)@) + shift_all(mention_spans(l@, 0), start as int),
{
    let ghost s1 = views(spans@);
    let n = l.len();
    let mut o: usize = 0;
    let ghost got: Seq<SpanV> = Seq::empty();
    while o < n
        invariant
            n == l@.len(),
            o <= n,
            start + n <= usize::MAX,
            mention_spans(l@, 0) == got + mention_spans(l@, o as int),
            views(spans@) == s1 + shift_all(got, start as int),
            s1 == views(old(spans)@),
        decreases n - o,
    {
        if l[o] == AT && at_word_boundary(l, o) {
            let e = token_end(l, o);
            let ghost before = views(spans@);
            spans.push(Span::new(start + o..start + e, Construct::Mention));
            proof {
                let s: SpanV = (o as int, e as int, Construct::Mention);
                assert(got + mention_spans(l@, o as int) =~= (got + seq![s]) + mention_spans(l@, o + 1));
                got = got + seq![s];
                assert(views(spans@) =~= before + seq![(start + o, start + e, Construct::Mention)]);
                assert(shift_all(got, start as int) =~= shift_all(got.drop_last(), start as int) + seq![(start + o, start + e, Construct::Mention)]);
                assert(got.drop_last() =~= got.subrange(0, got.len() - 1));
            }
        }
        o = o + 1;
    }
    proof {
        assert(got + Seq::<SpanV>::empty() =~= got);
    }
}

/// The tokens of line `l`, which sits at `start` in the buffer.
pub fn scan_line_tokens(l: &[u8], start: usize, spans: &mut Vec<Span>)
    requires
        start + l@.len() <= usize::MAX,
    ensures
        views(final(spans)@) == views(old(spans)@) + shift_all(token_line_spans(l@), start as int),
{
    let ghost s0 = views(spans@);
    scan_slash(l, start, spans);
    scan_mentions(l, start, spans);
    proof {
        crate::composer_scan::inline::lemma_shift_concat(slash_spans(l@), mention_spans(l@, 0), start as int);
        assert(views(spans@) =~= s0 + shift_all(token_line_spans(l@), start as int));
    }
}

/// Whether the character at the head of `p` has to be escaped: a backslash,
/// or whitespace.
pub open spec fn needs_escape(p: Seq<u8>) -> bool {
    p.len() > 0 && (p[0] == BACKSLASH || ws_len(p, 0) > 0)
}

/// `p` with a backslash before every backslash and every whitespace
/// character, read one UTF-8 character at a time.
pub open spec fn escaped(p: Seq<u8>) -> Seq<u8>
    decreases p.len(),
{
    if p.len() == 0 {
        Seq::empty()
    } else {
        let w = length_of_first_scalar(p);
        if w < 1 || w > p.len() {
            p
        } else {
            (if needs_escape(p) {
                seq![BACKSLASH]
            } else {
                Seq::empty()
            }) + p.subrange(0, w) + escaped(p.subrange(w, p.len() as int))
        }
    }
}

/// The head character of valid UTF-8 is valid UTF-8 on its own.
proof fn lemma_first_scalar_valid(p: Seq<u8>)
    requires
        valid_utf8(p),
        p.len() > 0,
    ensures
        1 <= length_of_first_scalar(p) <= p.len(),
        valid_utf8(take_first_scalar(p)),
        valid_utf8(pop_first_scalar(p)),
{
    let c = take_first_scalar(p);
    assert(valid_first_scalar(c));
    reveal_with_fuel(valid_utf8, 2);
    assert(pop_first_scalar(c) =~= Seq::<u8>::empty());
}

/// Escaping keeps UTF-8 valid.
pub proof fn lemma_escaped_valid(p: Seq<u8>)
    requires
        valid_utf8(p),
    ensures
        valid_utf8(escaped(p)),
    decreases p.len(),
{
    if p.len() > 0 {
        lemma_first_scalar_valid(p);
        let w = length_of_first_scalar(p);
        let c = p.subrange(0, w);
        let rest = p.subrange(w, p.len() as int);
        lemma_escaped_valid(rest);
        valid_utf8_concat(c, escaped(rest));
        if needs_escape(p) {
            lemma_ascii_valid(BACKSLASH);
            valid_utf8_concat(seq![BACKSLASH], c + escaped(rest));
            assert(seq![BACKSLASH] + c + escaped(rest) =~= seq![BACKSLASH] + (c + escaped(rest)));
        } else {
            assert(Seq::<u8>::empty() + c + escaped(rest) =~= c + escaped(rest));
        }
    }
}

/// The length of the UTF-8 character whose first byte is `b`.
fn scalar_len(b: u8) -> (w: usize)
    ensures
        forall|p: Seq<u8>| p.len() > 0 && p[0] == b ==> length_of_first_scalar(p) == w,
{
    if b <= 0x7f {
        1
    } else if 0xc0 <= b && b <= 0xdf {
        2
    } else if 0xe0 <= b && b <= 0xef {
        3
    } else {
        4
    }
}

/// `path` written so the scanner reads it back as one token: every
/// backslash and every whitespace character gets a backslash before it.
pub fn escape_token(path: &str) -> (r: String)
    ensures
        encode_utf8(r@) == escaped(path.spec_bytes()),
{
    let t = path.as_bytes();
    let ghost p = t@;
    proof {
        vstd::utf8::encode_utf8_valid_utf8(path@);
    }
    let n = t.len();
    let mut out: Vec<u8> = Vec::new();
    let mut i: usize = 0;
    proof {
        assert(p.subrange(0, n as int) =~= p);
    }
    while i < n
        invariant
            n == p.len(),
            p == t@,
            i <= n,
            valid_utf8(p.subrange(i as int, n as int)),
            escaped(p) == out@ + escaped(p.subrange(i as int, n as int)),
        decreases n - i,
    {
        let ghost sub = p.subrange(i as int, n as int);
        proof {
            lemma_first_scalar_valid(sub);
        }
        let w = scalar_len(t[i]);
        proof {
            lemma_ws_len_suffix(p, i as int, 0);
            assert(sub.subrange(w as int, sub.len() as int) =~= p.subrange(i + w, n as int));
            assert(pop_first_scalar(sub) == p.subrange(i + w, n as int));
        }
        let ghost before = out@;
        if t[i] == BACKSLASH || ws_len_at(t, i) > 0 {
            out.push(BACKSLASH);
        }
        let mut k: usize = 0;
        while k < w
            invariant
                i + w <= n,
                n == p.len(),
                p == t@,
                k <= w,
                out@ == before + (if needs_escape(sub) { seq![BACKSLASH] } else { Seq::empty() })
                    + p.subrange(i as int, i + k),
            decreases w - k,
        {
            out.push(t[i + k]);
            proof {
                assert(p.subrange(i as int, i + k + 1) =~= p.subrange(i as int, i + k).push(p[i + k]));
            }
            k = k + 1;
        }
        proof {
            assert(sub.subrange(0, w as int) =~= p.subrange(i as int, i + w));
            let head = (if needs_escape(sub) { seq![BACKSLASH] } else { Seq::<u8>::empty() }) + p.subrange(i as int, i + w);
            assert(escaped(sub) == head + escaped(p.subrange(i + w, n as int)));
            assert(before + (head + escaped(p.subrange(i + w, n as int))) =~= (before + head) + escaped(p.subrange(i + w, n as int)));
        }
        i = i + w;
    }
    proof {
        assert(p.subrange(n as int, n as int) =~= Seq::<u8>::empty());
        assert(out@ + Seq::<u8>::empty() =~= out@);
        lemma_escaped_valid(p);
    }
    string_from_utf8(out)
}

/// The tokens of the lines from `p` to `e`.
pub open spec fn tok_lines(t: Seq<u8>, p: int, e: int) -> Seq<SpanV>
    decreases t.len() - p,
{
    if p < 0 || p > e || e > t.len() {
        Seq::empty()
    } else {
        let le = piece_end(t, p, e);
        let here = shift_all(token_line_spans(t.subrange(p, le)), p);
        if le >= e || le < p {
            here
        } else {
            here + tok_lines(t, le + 1, e)
        }
    }
}

/// Every token whose line lies within `[rs, re)`.
pub open spec fn tok_range(t: Seq<u8>, rs: int, re: int) -> Seq<SpanV> {
    let s = line_start_of(t, clamp(t, rs));
    let e = line_end_of(t, clamp(t, re));
    if s > e {
        Seq::empty()
    } else {
        tok_lines(t, s, e)
    }
}

/// Tokens of `t` within `[rs, re)`, pushed onto `spans`.
pub fn scan(t: &[u8], rs: usize, re: usize, spans: &mut Vec<Span>)
    ensures
        views(final(spans)@) == views(old(spans)@) + tok_range(t@, rs as int, re as int),
{
    let ghost s0 = views(spans@);
    let n = t.len();
    let s = line_start(t, if rs < n { rs } else { n });
    let e = line_end(t, if re < n { re } else { n });
    if s > e {
        proof {
            assert(views(spans@) =~= s0 + tok_range(t@, rs as int, re as int));
        }
        return;
    }
    let mut p = s;
    let ghost got: Seq<SpanV> = Seq::empty();
    loop
        invariant
            s <= p <= e <= t@.len(),
            n == t@.len(),
            s == line_start_of(t@, clamp(t@, rs as int)),
            e == line_end_of(t@, clamp(t@, re as int)),
            tok_lines(t@, s as int, e as int) == got + tok_lines(t@, p as int, e as int),
            views(spans@) == s0 + got,
            s0 == views(old(spans)@),
        decreases t@.len() - p,
    {
        let le0 = line_end(t, p);
        let le = if le0 > e { e } else { le0 };
        let ghost before = views(spans@);
        let line = slice_subrange(t, p, le);
        scan_line_tokens(line, p, spans);
        let ghost here: Seq<SpanV> = shift_all(token_line_spans(t@.subrange(p as int, le as int)), p as int);
        if le >= e {
            proof {
                assert(tok_lines(t@, s as int, e as int) == got + here);
                assert(views(spans@) =~= s0 + tok_range(t@, rs as int, re as int));
            }
            return;
        }
        proof {
            assert(tok_lines(t@, p as int, e as int) == here + tok_lines(t@, le + 1, e as int));
            assert(got + (here + tok_lines(t@, le + 1, e as int)) =~= (got + here) + tok_lines(t@, le + 1, e as int));
            got = got + here;
        }
        p = le + 1;
    }
}


} // verus!
