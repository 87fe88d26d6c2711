//! Markdown as the composer sees it: enough to tell one construct from
//! another while it is being typed, and no more.
//!
//! Two rules shape everything here:
//!
//! - **A construct that has not closed is prose**, except a fence, which
//!   styles what follows it.
//! - **Only fences cross lines.** Everything else is decided by its own line,
//!   which is what bounds the incremental path.

use crate::composer_scan::inline::{inline_spans, lemma_shift_concat, scan_inline};
use crate::composer_scan::span::{shift_all, views, Construct, Span, SpanV};
use crate::text::{all_ws, lead_ws, lead_ws_exec, lemma_lead_ws_bound, run_len, run_len_exec};
use vstd::prelude::*;
use crate::composer_scan::lines::{blocks_of, clamp, fenced_blocks, in_blocks, line_end, line_start, piece_end};
use crate::text::{line_end_of, line_start_of};
use vstd::slice::slice_subrange;

verus! {

pub const HASH: u8 = 0x23;
pub const GREATER: u8 = 0x3e;
pub const SPACE: u8 = 0x20;
pub const DASH: u8 = 0x2d;
pub const ASTERISK: u8 = 0x2a;
pub const PLUS: u8 = 0x2b;
pub const DOT: u8 = 0x2e;
pub const RPAREN: u8 = 0x29;

/// Whether `body` is an ATX heading: one to six `#`, then a space or the
/// end of the line (so `#hashtag` is not one).
pub open spec fn is_heading(body: Seq<u8>) -> bool {
    let h = run_len(body, 0, HASH);
    1 <= h <= 6 && (h == body.len() || body[h] == SPACE)
}

pub open spec fn is_digit(c: u8) -> bool {
    0x30u8 <= c <= 0x39u8
}

/// How many ASCII digits start at `i`.
pub open spec fn digit_run(t: Seq<u8>, i: int) -> int
    decreases t.len() - i,
{
    if 0 <= i < t.len() && is_digit(t[i]) {
        1 + digit_run(t, i + 1)
    } else {
        0
    }
}

/// The length of the list marker at the head of `body`, the space after it
/// included: `- `, `* `, `+ `, or one to nine digits then `. ` or `) `.
pub open spec fn list_marker_len(body: Seq<u8>) -> Option<int> {
    if body.len() >= 2 && (body[0] == DASH || body[0] == ASTERISK || body[0] == PLUS) && body[1] == SPACE {
        Some(2)
    } else {
        let d = digit_run(body, 0);
        if 1 <= d <= 9 && d + 1 < body.len() && (body[d] == DOT || body[d] == RPAREN) && body[d + 1] == SPACE {
            Some(d + 2)
        } else {
            None
        }
    }
}

/// The constructs on one line `l` that is not inside a fence, at offsets
/// relative to the line's start.
pub open spec fn line_spans(l: Seq<u8>) -> Seq<SpanV> {
    if all_ws(l) {
        Seq::empty()
    } else {
        let indent = lead_ws(l);
        if indent > 3 {
            // An indented code block: one code treatment, like a fence.
            seq![(0, l.len() as int, Construct::CodeFence)]
        } else {
            let body = l.subrange(indent, l.len() as int);
            if is_heading(body) {
                seq![(0, l.len() as int, Construct::Heading)] + shift_all(inline_spans(body), indent)
            } else if body.len() > 0 && body[0] == GREATER {
                let q = run_len(body, 0, GREATER);
                seq![(0, l.len() as int, Construct::BlockQuote)] + shift_all(
                    inline_spans(body.subrange(q, body.len() as int)),
                    indent + q,
                )
            } else {
                match list_marker_len(body) {
                    Some(k) => seq![(indent, indent + k, Construct::ListMarker)] + shift_all(
                        inline_spans(body.subrange(k, body.len() as int)),
                        indent + k,
                    ),
                    None => shift_all(inline_spans(body), indent),
                }
            }
        }
    }
}

/// A bullet is a list marker: on a line indented at most three columns
/// whose text starts with `-`, `*` or `+` and a space, those two bytes are
/// read as a list item's marker, and the line yields a ListMarker span over
/// exactly them.
pub proof fn lemma_bullet_is_a_list_marker(l: Seq<u8>)
    requires
        lead_ws(l) <= 3,
        lead_ws(l) + 2 <= l.len(),
        l[lead_ws(l)] == 0x2du8 || l[lead_ws(l)] == 0x2au8 || l[lead_ws(l)] == 0x2bu8,
        l[lead_ws(l) + 1] == 0x20u8,
    ensures
        list_marker_len(l.subrange(lead_ws(l), l.len() as int)) == Some(2int),
        line_spans(l).contains((lead_ws(l), lead_ws(l) + 2, Construct::ListMarker)),
{
    lemma_lead_ws_bound(l);
    let indent = lead_ws(l);
    let body = l.subrange(indent, l.len() as int);
    assert(body[0] == l[indent] && body[1] == l[indent + 1]);
    assert(!all_ws(l));
    assert(run_len(body, 0, HASH) == 0);
    assert(!is_heading(body));
    let y = (indent, indent + 2, Construct::ListMarker);
    let rest = shift_all(inline_spans(body.subrange(2, body.len() as int)), indent + 2);
    assert(line_spans(l) == seq![y] + rest);
    assert((seq![y] + rest)[0] == y);
}

/// Shifting twice is shifting once by the sum.
pub proof fn lemma_shift_shift(s: Seq<SpanV>, a: int, b: int)
    ensures
        shift_all(shift_all(s, a), b) == shift_all(s, a + b),
{
    assert(shift_all(shift_all(s, a), b) =~= shift_all(s, a + b));
}

pub fn digit_run_exec(t: &[u8]) -> (n: usize)
    ensures
        n == digit_run(t@, 0),
        n <= t@.len(),
{
    let mut p: usize = 0;
    while p < t.len() && 0x30 <= t[p] && t[p] <= 0x39
        invariant
            p <= t@.len(),
            digit_run(t@, 0) == p + digit_run(t@, p as int),
        decreases t@.len() - p,
    {
        p = p + 1;
    }
    p
}

pub fn list_marker(body: &[u8]) -> (r: Option<usize>)
    ensures
        list_marker_len(body@) == (match r {
            Some(k) => Some(k as int),
            None => None::<int>,
        }),
        r matches Some(k) ==> k <= body@.len(),
{
    let n = body.len();
    if n >= 2 && (body[0] == DASH || body[0] == ASTERISK || body[0] == PLUS) && body[1] == SPACE {
        return Some(2);
    }
    let d = digit_run_exec(body);
    if 1 <= d && d <= 9 && d + 1 < n && (body[d] == DOT || body[d] == RPAREN) && body[d + 1] == SPACE {
        Some(d + 2)
    } else {
        None
    }
}

proof fn lemma_run_len_le(b: Seq<u8>, i: int, c: u8)
    requires
        0 <= i <= b.len(),
    ensures
        0 <= run_len(b, i, c) <= b.len() - i,
    decreases b.len() - i,
{
    if i < b.len() && b[i] == c {
        lemma_run_len_le(b, i + 1, c);
    }
}

/// The heading level of `body`, if it is an ATX heading.
pub fn heading_level(body: &[u8]) -> (r: Option<usize>)
    ensures
        r is Some <==> is_heading(body@),
        r matches Some(h) ==> h == run_len(body@, 0, HASH),
{
    let h = run_len_exec(body, 0, HASH);
    if 1 <= h && h <= 6 && (h == body.len() || body[h] == SPACE) {
        Some(h)
    } else {
        None
    }
}

/// The constructs on one line `l`, which sits at `start` in the buffer.
pub fn scan_line(l: &[u8], start: usize, spans: &mut Vec<Span>)
    requires
        start + l@.len() <= usize::MAX,
    ensures
        views(final(spans)@) == views(old(spans)@) + shift_all(line_spans(l@), start as int),
{
    let ghost s0 = views(spans@);
    let n = l.len();
    let indent = lead_ws_exec(l);
    if indent == n {
        assert(shift_all(Seq::<SpanV>::empty(), start as int) =~= Seq::<SpanV>::empty());
        assert(s0 + Seq::<SpanV>::empty() =~= s0);
        return;
    }
    if indent > 3 {
        spans.push(Span::new(start..start + n, Construct::CodeFence));
        assert(views(spans@) =~= s0 + shift_all(line_spans(l@), start as int));
        return;
    }
    let body = slice_subrange(l, indent, n);
    let d = start + indent;
    if heading_level(body).is_some() {
        spans.push(Span::new(start..start + n, Construct::Heading));
        let ghost s1 = views(spans@);
        scan_inline(body, d, spans);
        proof {
            let line = seq![(0int, n as int, Construct::Heading)];
            lemma_shift_shift(inline_spans(body@), indent as int, start as int);
            lemma_shift_concat(line, shift_all(inline_spans(body@), indent as int), start as int);
            assert(s1 =~= s0 + shift_all(line, start as int));
            assert(views(spans@) =~= s0 + shift_all(line_spans(l@), start as int));
        }
        return;
    }
    if body.len() > 0 && body[0] == GREATER {
        spans.push(Span::new(start..start + n, Construct::BlockQuote));
        let ghost s1 = views(spans@);
        let q = run_len_exec(body, 0, GREATER);
        let quoted = slice_subrange(body, q, body.len());
        scan_inline(quoted, d + q, spans);
        proof {
            let line = seq![(0int, n as int, Construct::BlockQuote)];
            lemma_shift_shift(inline_spans(quoted@), indent + q, start as int);
            lemma_shift_concat(line, shift_all(inline_spans(quoted@), indent + q), start as int);
            assert(s1 =~= s0 + shift_all(line, start as int));
            assert(views(spans@) =~= s0 + shift_all(line_spans(l@), start as int));
        }
        return;
    }
    match list_marker(body) {
        Some(k) => {
            spans.push(Span::new(d..d + k, Construct::ListMarker));
            let ghost s1 = views(spans@);
            let item = slice_subrange(body, k, body.len());
            scan_inline(item, d + k, spans);
            proof {
                let line = seq![(indent as int, indent + k, Construct::ListMarker)];
                lemma_shift_shift(inline_spans(item@), indent + k, start as int);
                lemma_shift_concat(line, shift_all(inline_spans(item@), indent + k), start as int);
                assert(s1 =~= s0 + shift_all(line, start as int));
                assert(views(spans@) =~= s0 + shift_all(line_spans(l@), start as int));
            }
        },
        None => {
            scan_inline(body, d, spans);
            proof {
                lemma_shift_shift(inline_spans(body@), indent as int, start as int);
            }
        },
    }
}

/// The fenced blocks, as spans, that meet `[rs, re)`.
pub open spec fn fence_spans(f: Seq<(int, int)>, rs: int, re: int) -> Seq<SpanV>
    decreases f.len(),
{
    if f.len() == 0 {
        Seq::empty()
    } else {
        let b = f.last();
        let upper = if re > rs { re } else { rs };
        fence_spans(f.drop_last(), rs, re) + if b.0 < upper && rs <= b.1 {
            seq![(b.0, b.1, Construct::CodeFence)]
        } else {
            Seq::empty()
        }
    }
}

/// The markdown constructs of the lines from `p` to `e`, skipping the
/// lines inside one of the blocks `f`.
pub open spec fn md_lines(t: Seq<u8>, f: Seq<(int, int)>, p: int, e: int) -> Seq<SpanV>
    decreases t.len() - p,
{
    if p < 0 || p > e || e > t.len() {
        Seq::empty()
    } else {
        let le = piece_end(t, p, e);
        let here = if in_blocks(f, p) {
            Seq::empty()
        } else {
            shift_all(line_spans(t.subrange(p, le)), p)
        };
        if le >= e || le < p {
            here
        } else {
            here + md_lines(t, f, le + 1, e)
        }
    }
}

/// Every markdown construct whose line lies within `[rs, re)`, plus the
/// fenced blocks that meet it.
pub open spec fn md_range(t: Seq<u8>, rs: int, re: int) -> Seq<SpanV> {
    let f = blocks_of(t);
    let s = line_start_of(t, clamp(t, rs));
    let e = line_end_of(t, clamp(t, re));
    fence_spans(f, rs, re) + if s > e {
        Seq::empty()
    } else {
        md_lines(t, f, s, e)
    }
}

fn in_blocks_exec(f: &Vec<(usize, usize)>, p: usize) -> (r: bool)
    ensures
        r == in_blocks(f@.map_values(|b: (usize, usize)| (b.0 as int, b.1 as int)), p as int),
{
    let ghost g = f@.map_values(|b: (usize, usize)| (b.0 as int, b.1 as int));
    let mut i: usize = 0;
    while i < f.len()
        invariant
            i <= f@.len(),
            g == f@.map_values(|b: (usize, usize)| (b.0 as int, b.1 as int)),
            forall|j: int| 0 <= j < i ==> !(g[j].0 <= p && p < g[j].1),
        decreases f@.len() - i,
    {
        let (a, b) = f[i];
        if a <= p && p < b {
            proof {
                assert(g[i as int].0 <= p && p < g[i as int].1);
            }
            return true;
        }
        i = i + 1;
    }
    false
}

/// Markdown constructs of `t` within `[rs, re)`, pushed onto `spans`.
pub fn scan(t: &[u8], rs: usize, re: usize, spans: &mut Vec<Span>)
    ensures
        views(final(spans)@) == views(old(spans)@) + md_range(t@, rs as int, re as int),
{
    let ghost s0 = views(spans@);
    let fences = fenced_blocks(t);
    let ghost f = fences@.map_values(|b: (usize, usize)| (b.0 as int, b.1 as int));
    let upper = if re > rs { re } else { rs };
    let mut i: usize = 0;
    while i < fences.len()
        invariant
            i <= fences@.len(),
            f == fences@.map_values(|b: (usize, usize)| (b.0 as int, b.1 as int)),
            f == blocks_of(t@),
            upper == (if re > rs { re } else { rs }),
            views(spans@) == s0 + fence_spans(f.take(i as int), rs as int, re as int),
        decreases fences@.len() - i,
    {
        let (a, b) = fences[i];
        let ghost before = views(spans@);
        if a < upper && rs <= b {
            spans.push(Span::new(a..b, Construct::CodeFence));
            proof {
                assert(views(spans@) =~= before + seq![(a as int, b as int, Construct::CodeFence)]);
            }
        }
        proof {
            assert(f[i as int] == (a as int, b as int));
            assert(f.take(i + 1).drop_last() =~= f.take(i as int));
            assert(f.take(i + 1).last() == f[i as int]);
            assert(views(spans@) =~= s0 + fence_spans(f.take(i + 1), rs as int, re as int));
        }
        i = i + 1;
    }
    proof {
        assert(f.take(fences@.len() as int) =~= f);
    }
    let n = t.len();
    let s = line_start(t, if rs < n { rs } else { n });
    let e = line_end(t, if re < n { re } else { n });
    let ghost s1 = views(spans@);
    if s > e {
        proof {
            assert(views(spans@) =~= s0 + md_range(t@, rs as int, re as int));
        }
        return;
    }
    let mut p = s;
    let ghost got: Seq<SpanV> = Seq::empty();
    loop
        invariant
            s <= p <= e <= t@.len(),
            n == t@.len(),
            f == fences@.map_values(|b: (usize, usize)| (b.0 as int, b.1 as int)),
            f == blocks_of(t@),
            s1 == s0 + fence_spans(f, rs as int, re as int),
            s0 == views(old(spans)@),
            s == line_start_of(t@, clamp(t@, rs as int)),
            e == line_end_of(t@, clamp(t@, re as int)),
            md_lines(t@, f, s as int, e as int) == got + md_lines(t@, f, p as int, e as int),
            views(spans@) == s1 + got,
        decreases t@.len() - p,
    {
        let le0 = line_end(t, p);
        let le = if le0 > e { e } else { le0 };
        let ghost before = views(spans@);
        let inside = in_blocks_exec(&fences, p);
        if !inside {
            let line = slice_subrange(t, p, le);
            scan_line(line, p, spans);
        }
        let ghost here: Seq<SpanV> = if inside {
            Seq::empty()
        } else {
            shift_all(line_spans(t@.subrange(p as int, le as int)), p as int)
        };
        proof {
            assert(views(spans@) =~= before + here);
        }
        if le >= e {
            proof {
                assert(md_lines(t@, f, p as int, e as int) == here);
                assert(md_lines(t@, f, s as int, e as int) == got + here);
                assert(views(spans@) =~= s0 + md_range(t@, rs as int, re as int));
            }
            return;
        }
        proof {
            assert(md_lines(t@, f, p as int, e as int) == here + md_lines(t@, f, le + 1, e as int));
            assert(got + (here + md_lines(t@, f, le + 1, e as int)) =~= (got + here) + md_lines(t@, f, le + 1, e as int));
            got = got + here;
        }
        p = le + 1;
    }
}

} // verus!
