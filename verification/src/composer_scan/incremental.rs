//! What the scanner's passes find, read line by line, and how an edit
//! relates the old buffer to the new one.
//!
//! Everything outside a fenced block is decided by its own line, and
//! every construct is a non-empty run inside that line, so a scan is
//! characterized by what each line holds. An edit leaves the lines before
//! it in place and moves the lines after it; the spans a rescan keeps are
//! the old ones moved the same way. When the edit dirties the whole
//! buffer, a rescan is a fresh scan.

use crate::composer_scan::dirty::{dirty, enclosing_from, is_fence_line, touches_fence_from};
use crate::composer_scan::inline::{
    closer_from, code_spans, delim_spans, inline_spans, lemma_closing_run_bound, lemma_find_closer_bound,
    lemma_find_seq_bound, lemma_run_len_bound, link_at, link_spans, unclaimed, BACKTICK_BYTE,
};
use crate::composer_scan::lines::{blocks_of, clamp, fence_of, fences_from, lemma_line_end, piece_end, NEWLINE};
use crate::composer_scan::markdown::{fence_spans, line_spans, list_marker_len, md_lines, md_range};
use crate::composer_scan::order::same_members;
use crate::composer_scan::scan::{all_spans, chip_spans, kept, occurrences, overlaps_range, rescan_spans, shifted};
use crate::composer_scan::span::{shift_all, Construct, SpanV};
use crate::composer_scan::tokens::{lemma_token_stop_bound, mention_spans, tok_lines, tok_range, token_line_spans};
use crate::text::{lead_ws, lemma_lead_ws_bound, line_end_of, line_start_of};
use vstd::prelude::*;
use vstd::seq_lib::lemma_seq_concat_contains_all_elements;

verus! {

broadcast use lemma_seq_concat_contains_all_elements;

/// Every span of `s` is a non-empty run within `[lo, hi]`, and none is an
/// attachment chip.
pub open spec fn fits(s: Seq<SpanV>, lo: int, hi: int) -> bool {
    forall|x: SpanV| #[trigger] s.contains(x) ==> lo <= x.0 < x.1 <= hi && x.2 != Construct::Attachment
}

pub proof fn lemma_fits_one(y: SpanV, lo: int, hi: int)
    requires
        lo <= y.0 < y.1 <= hi,
        y.2 != Construct::Attachment,
    ensures
        fits(seq![y], lo, hi),
{
    assert forall|x: SpanV| #[trigger] seq![y].contains(x) implies lo <= x.0 < x.1 <= hi && x.2
        != Construct::Attachment by {
        let i = choose|i: int| 0 <= i < 1 && seq![y][i] == x;
        assert(x == y);
    }
}

/// A span is in `shift_all(s, d)` exactly when it moved there from `s`.
pub proof fn lemma_shift_contains(s: Seq<SpanV>, d: int, x: SpanV)
    ensures
        shift_all(s, d).contains(x) <==> s.contains((x.0 - d, x.1 - d, x.2)),
{
    if shift_all(s, d).contains(x) {
        let i = choose|i: int| 0 <= i < shift_all(s, d).len() && shift_all(s, d)[i] == x;
        assert(s[i] == (x.0 - d, x.1 - d, x.2));
    }
    if s.contains((x.0 - d, x.1 - d, x.2)) {
        let i = choose|i: int| 0 <= i < s.len() && s[i] == (x.0 - d, x.1 - d, x.2);
        assert(shift_all(s, d)[i] == x);
    }
}

pub proof fn lemma_fits_shift(s: Seq<SpanV>, lo: int, hi: int, d: int)
    requires
        fits(s, lo, hi),
    ensures
        fits(shift_all(s, d), lo + d, hi + d),
{
    assert forall|x: SpanV| #[trigger] shift_all(s, d).contains(x) implies lo + d <= x.0 < x.1 <= hi + d
        && x.2 != Construct::Attachment by {
        lemma_shift_contains(s, d, x);
    }
}

pub proof fn lemma_code_fits(b: Seq<u8>, i: int)
    requires
        0 <= i,
    ensures
        fits(code_spans(b, i), i, b.len() as int),
    decreases b.len() - i,
{
    if i < b.len() {
        if b[i] != BACKTICK_BYTE {
            lemma_code_fits(b, i + 1);
        } else {
            lemma_run_len_bound(b, i, BACKTICK_BYTE);
            let run = crate::text::run_len(b, i, BACKTICK_BYTE);
            let after = i + run;
            lemma_closing_run_bound(b, after, run);
            match crate::composer_scan::inline::closing_run(b, after, run) {
                Some(end) => if i < end <= b.len() {
                    lemma_code_fits(b, end);
                    lemma_fits_one((i, end, Construct::InlineCode), i, b.len() as int);
                },
                None => if i < after <= b.len() {
                    lemma_code_fits(b, after);
                },
            }
        }
    }
}

pub proof fn lemma_link_fits(b: Seq<u8>, i: int, taken: Seq<bool>)
    requires
        0 <= i,
    ensures
        fits(link_spans(b, i, taken), i, b.len() as int),
    decreases b.len() - i,
{
    if i < b.len() {
        if b[i] != crate::composer_scan::inline::OPEN_BRACKET || !crate::composer_scan::inline::is_free(taken, i, i + 1) {
            lemma_link_fits(b, i + 1, taken);
        } else {
            match link_at(b, i) {
                None => lemma_link_fits(b, i + 1, taken),
                Some(Err(_)) => {},
                Some(Ok(end)) => if i < end <= b.len() {
                    if crate::composer_scan::inline::is_free(taken, i, end) {
                        lemma_link_fits(b, end, crate::composer_scan::inline::claimed(taken, i, end));
                        lemma_fits_one((i, end, Construct::Link), i, b.len() as int);
                    } else {
                        lemma_link_fits(b, end, taken);
                    }
                },
            }
        }
    }
}

pub proof fn lemma_delim_fits(b: Seq<u8>, i: int, m: Seq<u8>, c: Construct, taken: Seq<bool>)
    requires
        0 <= i,
        c != Construct::Attachment,
    ensures
        fits(delim_spans(b, i, m, c, taken), i, b.len() as int),
    decreases b.len() - i,
{
    if i <= b.len() && m.len() > 0 {
        lemma_find_seq_bound(b, i, m);
        match crate::text::find_seq(b, i, m) {
            None => {},
            Some(open) => {
                let after_open = open + m.len();
                if i < after_open <= b.len() {
                    if !crate::composer_scan::inline::is_free(taken, open, after_open)
                        || !crate::composer_scan::inline::can_open(b, after_open, m[0]) {
                        lemma_delim_fits(b, after_open, m, c, taken);
                    } else {
                        lemma_find_closer_bound(b, after_open, m, taken, after_open);
                        match closer_from(b, after_open, m, taken, after_open) {
                            None => {},
                            Some(close) => {
                                let end = close + m.len();
                                if i < end <= b.len() {
                                    lemma_delim_fits(b, end, m, c, crate::composer_scan::inline::claimed(taken, open, end));
                                    lemma_fits_one((open, end, c), i, b.len() as int);
                                }
                            },
                        }
                    }
                }
            },
        }
    }
}

/// Every inline construct of `b` is a non-empty run within it.
pub proof fn lemma_inline_fits(b: Seq<u8>)
    ensures
        fits(inline_spans(b), 0, b.len() as int),
{
    let t1 = crate::composer_scan::inline::code_taken(b, 0, unclaimed(b.len()));
    let t2 = crate::composer_scan::inline::link_taken(b, 0, t1);
    let t3 = crate::composer_scan::inline::delim_taken(b, 0, crate::text::marker(crate::composer_scan::inline::STAR, true), t2);
    let t4 = crate::composer_scan::inline::delim_taken(b, 0, crate::text::marker(crate::composer_scan::inline::UNDERSCORE, true), t3);
    let t5 = crate::composer_scan::inline::delim_taken(b, 0, crate::text::marker(crate::composer_scan::inline::STAR, false), t4);
    lemma_code_fits(b, 0);
    lemma_link_fits(b, 0, t1);
    lemma_delim_fits(b, 0, crate::text::marker(crate::composer_scan::inline::STAR, true), Construct::Strong, t2);
    lemma_delim_fits(b, 0, crate::text::marker(crate::composer_scan::inline::UNDERSCORE, true), Construct::Strong, t3);
    lemma_delim_fits(b, 0, crate::text::marker(crate::composer_scan::inline::STAR, false), Construct::Emphasis, t4);
    lemma_delim_fits(b, 0, crate::text::marker(crate::composer_scan::inline::UNDERSCORE, false), Construct::Emphasis, t5);
}

/// Every markdown construct of a line is a non-empty run within it.
pub proof fn lemma_line_spans_fit(l: Seq<u8>)
    ensures
        fits(line_spans(l), 0, l.len() as int),
{
    lemma_lead_ws_bound(l);
    if !crate::text::all_ws(l) {
        let indent = lead_ws(l);
        let body = l.subrange(indent, l.len() as int);
        if indent > 3 {
            lemma_fits_one((0, l.len() as int, Construct::CodeFence), 0, l.len() as int);
        } else if crate::composer_scan::markdown::is_heading(body) {
            lemma_fits_one((0, l.len() as int, Construct::Heading), 0, l.len() as int);
            lemma_inline_fits(body);
            lemma_fits_shift(inline_spans(body), 0, body.len() as int, indent);
        } else if body.len() > 0 && body[0] == crate::composer_scan::markdown::GREATER {
            let q = crate::text::run_len(body, 0, crate::composer_scan::markdown::GREATER);
            lemma_run_len_bound(body, 0, crate::composer_scan::markdown::GREATER);
            let rest = body.subrange(q, body.len() as int);
            lemma_fits_one((0, l.len() as int, Construct::BlockQuote), 0, l.len() as int);
            lemma_inline_fits(rest);
            lemma_fits_shift(inline_spans(rest), 0, rest.len() as int, indent + q);
        } else {
            match list_marker_len(body) {
                Some(k) => {
                    let rest = body.subrange(k, body.len() as int);
                    lemma_fits_one((indent, indent + k, Construct::ListMarker), 0, l.len() as int);
                    lemma_inline_fits(rest);
                    lemma_fits_shift(inline_spans(rest), 0, rest.len() as int, indent + k);
                },
                None => {
                    lemma_inline_fits(body);
                    lemma_fits_shift(inline_spans(body), 0, body.len() as int, indent);
                },
            }
        }
    }
}

pub proof fn lemma_mentions_fit(l: Seq<u8>, o: int)
    requires
        0 <= o,
    ensures
        fits(mention_spans(l, o), o, l.len() as int),
    decreases l.len() - o,
{
    if o < l.len() {
        lemma_mentions_fit(l, o + 1);
        if l[o] == crate::composer_scan::tokens::AT && crate::composer_scan::tokens::word_boundary(l, o) {
            lemma_token_stop_bound(l, o + 1);
            lemma_fits_one((o, crate::composer_scan::tokens::token_end_of(l, o), Construct::Mention), o, l.len() as int);
        }
    }
}

/// Every token of a line is a non-empty run within it.
pub proof fn lemma_token_spans_fit(l: Seq<u8>)
    ensures
        fits(token_line_spans(l), 0, l.len() as int),
{
    lemma_lead_ws_bound(l);
    let i = lead_ws(l);
    if 0 <= i < l.len() && l[i] == crate::composer_scan::tokens::SLASH {
        lemma_token_stop_bound(l, i + 1);
        lemma_fits_one((i, crate::composer_scan::tokens::token_end_of(l, i), Construct::SlashToken), 0, l.len() as int);
    }
    lemma_mentions_fit(l, 0);
}

// ---------------------------------------------------------------- lines

/// `q` begins a line of `t`.
pub open spec fn is_line_start(t: Seq<u8>, q: int) -> bool {
    0 <= q <= t.len() && (q == 0 || t[q - 1] == NEWLINE)
}

/// `e` ends a line of `t`: a newline is there, or the text ends there.
pub open spec fn is_line_end(t: Seq<u8>, e: int) -> bool {
    0 <= e <= t.len() && (e == t.len() || t[e] == NEWLINE)
}

/// The line of `t` that starts at `q`, without its newline.
pub open spec fn line_at(t: Seq<u8>, q: int) -> Seq<u8> {
    t.subrange(q, line_end_of(t, q))
}

/// The markdown constructs of the line starting at `q`, in buffer offsets.
pub open spec fn local_md(t: Seq<u8>, q: int) -> Seq<SpanV> {
    shift_all(line_spans(line_at(t, q)), q)
}

/// The tokens of the line starting at `q`, in buffer offsets.
pub open spec fn local_tok(t: Seq<u8>, q: int) -> Seq<SpanV> {
    shift_all(token_line_spans(line_at(t, q)), q)
}

/// Inside a line, the line start is where the line begins.
pub proof fn lemma_line_start_within(t: Seq<u8>, p: int, o: int)
    requires
        is_line_start(t, p),
        p <= o <= line_end_of(t, p),
    ensures
        line_start_of(t, o) == p,
    decreases o - p,
{
    lemma_line_end(t, p);
    if o > p {
        assert(t[o - 1] != NEWLINE);
        lemma_line_start_within(t, p, o - 1);
    }
}

/// Past a newline, the line start is past it too.
pub proof fn lemma_line_start_after(t: Seq<u8>, n: int, o: int)
    requires
        0 <= n < o <= t.len(),
        t[n] == NEWLINE,
    ensures
        n < line_start_of(t, o) <= o,
        is_line_start(t, line_start_of(t, o)),
    decreases o - n,
{
    if t[o - 1] != NEWLINE {
        lemma_line_start_after(t, n, o - 1);
    }
}

/// Any line start at or before `o` is at or before the start of `o`'s line,
/// which is itself a line start.
pub proof fn lemma_line_start_of(t: Seq<u8>, o: int)
    requires
        0 <= o <= t.len(),
    ensures
        line_start_of(t, o) <= o,
        is_line_start(t, line_start_of(t, o)),
    decreases o,
{
    if o > 0 && t[o - 1] != NEWLINE {
        lemma_line_start_of(t, o - 1);
    }
}

/// The local spans of a line lie within it.
pub proof fn lemma_local_fits(t: Seq<u8>, q: int)
    requires
        is_line_start(t, q),
    ensures
        fits(local_md(t, q), q, line_end_of(t, q)),
        fits(local_tok(t, q), q, line_end_of(t, q)),
{
    lemma_line_end(t, q);
    let l = line_at(t, q);
    lemma_line_spans_fit(l);
    lemma_token_spans_fit(l);
    lemma_fits_shift(line_spans(l), 0, l.len() as int, q);
    lemma_fits_shift(token_line_spans(l), 0, l.len() as int, q);
}

/// The tokens of the lines from `p` to `e` are those whose line, found from
/// their start, lies there.
pub proof fn lemma_tok_lines_contains(t: Seq<u8>, p: int, e: int, x: SpanV)
    requires
        is_line_start(t, p),
        is_line_end(t, e),
        p <= e,
    ensures
        tok_lines(t, p, e).contains(x) <==> (p <= x.0 < e && local_tok(t, line_start_of(t, x.0)).contains(x)),
    decreases t.len() - p,
{
    lemma_line_end(t, p);
    let le = line_end_of(t, p);
    assert(le <= e) by {
        if le > e {
            assert(t[e] == NEWLINE);
        }
    }
    assert(piece_end(t, p, e) == le);
    lemma_local_fits(t, p);
    if local_tok(t, p).contains(x) {
        lemma_line_start_within(t, p, x.0);
    }
    if p <= x.0 < le {
        lemma_line_start_within(t, p, x.0);
    }
    if le < e {
        assert(is_line_start(t, le + 1));
        lemma_tok_lines_contains(t, le + 1, e, x);
        if le + 1 <= x.0 <= t.len() {
            lemma_line_start_after(t, le, x.0);
        }
        if x.0 == le {
            lemma_line_start_within(t, p, le);
        }
    }
}

// ---------------------------------------------------------------- fences

/// No line of `t` is a fence delimiter.
pub open spec fn fence_free(t: Seq<u8>) -> bool {
    forall|q: int| #[trigger] is_line_start(t, q) ==> !is_fence_line(line_at(t, q))
}

pub proof fn lemma_fence_free_no_blocks(t: Seq<u8>, p: int)
    requires
        fence_free(t),
        is_line_start(t, p),
    ensures
        fences_from(t, p, None) == Seq::<(int, int)>::empty(),
    decreases t.len() - p,
{
    lemma_line_end(t, p);
    let e = line_end_of(t, p);
    assert(!is_fence_line(line_at(t, p)));
    assert(fence_of(t.subrange(p, e)) is None);
    if e < t.len() {
        assert(is_line_start(t, e + 1));
        lemma_fence_free_no_blocks(t, e + 1);
        assert(fences_from(t, p, None) =~= Seq::<(int, int)>::empty() + fences_from(t, e + 1, None));
    } else {
        assert(fences_from(t, p, None) =~= Seq::<(int, int)>::empty() + Seq::<(int, int)>::empty());
    }
}

/// A fence-free buffer has no fenced block.
pub proof fn lemma_fence_free_blocks(t: Seq<u8>)
    requires
        fence_free(t),
    ensures
        blocks_of(t) == Seq::<(int, int)>::empty(),
{
    assert(is_line_start(t, 0));
    lemma_fence_free_no_blocks(t, 0);
}

pub proof fn lemma_fence_free_untouched(t: Seq<u8>, p: int, e: int)
    requires
        fence_free(t),
        is_line_start(t, p),
        is_line_end(t, e),
        p <= e,
    ensures
        !touches_fence_from(t, p, e),
    decreases t.len() - p,
{
    lemma_line_end(t, p);
    let le = line_end_of(t, p);
    assert(le <= e) by {
        if le > e {
            assert(t[e] == NEWLINE);
        }
    }
    assert(piece_end(t, p, e) == le);
    assert(!is_fence_line(line_at(t, p)));
    if le < e {
        assert(is_line_start(t, le + 1));
        lemma_fence_free_untouched(t, le + 1, e);
    }
}

pub proof fn lemma_fence_free_unenclosed(t: Seq<u8>, p: int, s: int, e: int)
    requires
        fence_free(t),
        is_line_start(t, p),
    ensures
        enclosing_from(t, p, None, s, e) is None,
    decreases t.len() - p,
{
    lemma_line_end(t, p);
    let le = line_end_of(t, p);
    assert(!is_fence_line(line_at(t, p)));
    if le < t.len() {
        assert(is_line_start(t, le + 1));
        lemma_fence_free_unenclosed(t, le + 1, s, e);
    }
}

/// In a fence-free buffer the dirty range is the edited lines.
pub proof fn lemma_fence_free_dirty(t: Seq<u8>, ts: int, te: int)
    requires
        fence_free(t),
        0 <= ts <= te,
    ensures
        dirty(t, ts, te) == (line_start_of(t, clamp(t, ts)), line_end_of(t, clamp(t, te))),
        is_line_start(t, line_start_of(t, clamp(t, ts))),
        is_line_end(t, line_end_of(t, clamp(t, te))),
        line_start_of(t, clamp(t, ts)) <= clamp(t, ts) <= clamp(t, te) <= line_end_of(t, clamp(t, te)),
{
    let s = line_start_of(t, clamp(t, ts));
    let e = line_end_of(t, clamp(t, te));
    lemma_line_start_of(t, clamp(t, ts));
    lemma_line_end(t, clamp(t, te));
    lemma_fence_free_untouched(t, s, e);
    assert(is_line_start(t, 0));
    lemma_fence_free_unenclosed(t, 0, s, e);
}

// ---------------------------------------------------------------- edits

/// `new` is `old` with `[rs, re)` replaced by `ins` bytes.
pub open spec fn edited(old: Seq<u8>, new: Seq<u8>, rs: int, re: int, ins: int) -> bool {
    &&& 0 <= rs <= re <= old.len()
    &&& 0 <= ins
    &&& new.len() == old.len() - (re - rs) + ins
    &&& new.subrange(0, rs) == old.subrange(0, rs)
    &&& new.subrange(rs + ins, new.len() as int) == old.subrange(re, old.len() as int)
}

/// The bytes an edit leaves alone: those before it in place, those after
/// it moved by the difference in length.
pub proof fn lemma_edited_bytes(old: Seq<u8>, new: Seq<u8>, rs: int, re: int, ins: int)
    requires
        edited(old, new, rs, re, ins),
    ensures
        forall|k: int| 0 <= k < rs ==> #[trigger] new[k] == old[k],
        forall|k: int| rs + ins <= k < new.len() ==> #[trigger] new[k] == old[k - (ins - (re - rs))],
{
    assert forall|k: int| 0 <= k < rs implies #[trigger] new[k] == old[k] by {
        assert(new.subrange(0, rs)[k] == old.subrange(0, rs)[k]);
    }
    assert forall|k: int| rs + ins <= k < new.len() implies #[trigger] new[k] == old[k - (ins - (re - rs))] by {
        assert(new.subrange(rs + ins, new.len() as int)[k - rs - ins] == old.subrange(re, old.len() as int)[k - rs
            - ins]);
    }
}

/// Where the line from `q` ends, told by where its newline is.
pub proof fn lemma_line_end_is(t: Seq<u8>, q: int, k: int)
    requires
        0 <= q <= k <= t.len(),
        k == t.len() || t[k] == NEWLINE,
        forall|j: int| q <= j < k ==> t[j] != NEWLINE,
    ensures
        line_end_of(t, q) == k,
{
    lemma_line_end(t, q);
    let le = line_end_of(t, q);
    if le < k {
        assert(t[le] == NEWLINE);
    }
    if le > k {
        assert(t[k] != NEWLINE);
    }
}

/// Before the edit, lines start where they did.
pub proof fn lemma_prefix_line_start(old: Seq<u8>, new: Seq<u8>, rs: int, re: int, ins: int, o: int)
    requires
        edited(old, new, rs, re, ins),
        0 <= o <= rs,
    ensures
        line_start_of(new, o) == line_start_of(old, o),
    decreases o,
{
    lemma_edited_bytes(old, new, rs, re, ins);
    if o > 0 {
        assert(new[o - 1] == old[o - 1]);
        lemma_prefix_line_start(old, new, rs, re, ins, o - 1);
    }
}

/// A line that ends before the edit ends at the same place in both.
pub proof fn lemma_prefix_line_end(old: Seq<u8>, new: Seq<u8>, rs: int, re: int, ins: int, q: int, k: int)
    requires
        edited(old, new, rs, re, ins),
        0 <= q <= k < rs,
        line_end_of(old, q) == k || line_end_of(new, q) == k,
    ensures
        line_end_of(old, q) == k,
        line_end_of(new, q) == k,
        line_at(old, q) == line_at(new, q),
{
    lemma_edited_bytes(old, new, rs, re, ins);
    lemma_line_end(old, q);
    lemma_line_end(new, q);
    if line_end_of(old, q) == k {
        assert(old[k] == NEWLINE);
        assert forall|j: int| q <= j < k implies new[j] != NEWLINE by {
            assert(old[j] != NEWLINE);
        }
        lemma_line_end_is(new, q, k);
    } else {
        assert(new[k] == NEWLINE);
        assert forall|j: int| q <= j < k implies old[j] != NEWLINE by {
            assert(new[j] != NEWLINE);
        }
        lemma_line_end_is(old, q, k);
    }
    assert(line_at(old, q) =~= line_at(new, q));
}

/// After the edit, a line ends where its old counterpart did, moved.
pub proof fn lemma_suffix_line_end(old: Seq<u8>, new: Seq<u8>, rs: int, re: int, ins: int, o: int)
    requires
        edited(old, new, rs, re, ins),
        rs + ins <= o <= new.len(),
    ensures
        line_end_of(new, o) == line_end_of(old, o - (ins - (re - rs))) + (ins - (re - rs)),
        line_at(new, o) == line_at(old, o - (ins - (re - rs))),
{
    let d = ins - (re - rs);
    lemma_edited_bytes(old, new, rs, re, ins);
    lemma_line_end(old, o - d);
    let k = line_end_of(old, o - d);
    assert forall|j: int| o <= j < k + d implies new[j] != NEWLINE by {
        assert(new[j] == old[j - d]);
    }
    if k < old.len() {
        assert(new[k + d] == old[k]);
    }
    lemma_line_end_is(new, o, k + d);
    assert(line_at(new, o) =~= line_at(old, o - d)) by {
        assert forall|j: int| 0 <= j < k - (o - d) implies line_at(new, o)[j] == line_at(old, o - d)[j] by {
            assert(new[o + j] == old[o + j - d]);
        }
    }
}

/// Past a newline after the edit, lines start where their old
/// counterparts did, moved.
pub proof fn lemma_suffix_line_start(old: Seq<u8>, new: Seq<u8>, rs: int, re: int, ins: int, n: int, o: int)
    requires
        edited(old, new, rs, re, ins),
        rs + ins <= n < o <= new.len(),
        new[n] == NEWLINE,
    ensures
        line_start_of(new, o) == line_start_of(old, o - (ins - (re - rs))) + (ins - (re - rs)),
    decreases o - n,
{
    let d = ins - (re - rs);
    lemma_edited_bytes(old, new, rs, re, ins);
    assert(new[o - 1] == old[o - 1 - d]);
    if new[o - 1] != NEWLINE {
        lemma_suffix_line_start(old, new, rs, re, ins, n, o - 1);
    }
}

// ---------------------------------------------------------------- kept

/// A span is kept exactly when it came from a span of `prev` that is no
/// chip, that the edit moved rather than landed in, and that now lies
/// clear of the dirty range.
pub proof fn lemma_kept_source(prev: Seq<SpanV>, rs: int, re: int, ins: int, ds: int, de: int, y: SpanV) -> (x: SpanV)
    requires
        kept(prev, rs, re, ins, ds, de).contains(y),
    ensures
        prev.contains(x),
        x.2 != Construct::Attachment,
        shifted(x, rs, re, ins) == Some(y),
        !overlaps_range(y, ds, de),
    decreases prev.len(),
{
    let rest = kept(prev.drop_last(), rs, re, ins, ds, de);
    let x = prev.last();
    let tail: Seq<SpanV> = if x.2 != Construct::Attachment {
        match shifted(x, rs, re, ins) {
            Some(z) => if !overlaps_range(z, ds, de) {
                seq![z]
            } else {
                Seq::empty()
            },
            None => Seq::empty(),
        }
    } else {
        Seq::empty()
    };
    assert(kept(prev, rs, re, ins, ds, de) == rest + tail);
    if rest.contains(y) {
        let w = lemma_kept_source(prev.drop_last(), rs, re, ins, ds, de, y);
        let i = choose|i: int| 0 <= i < prev.drop_last().len() && prev.drop_last()[i] == w;
        assert(prev[i] == w);
        w
    } else {
        assert(tail.contains(y));
        let i = choose|i: int| 0 <= i < tail.len() && tail[i] == y;
        assert(prev[prev.len() - 1] == x);
        x
    }
}

pub proof fn lemma_kept_from(prev: Seq<SpanV>, rs: int, re: int, ins: int, ds: int, de: int, x: SpanV, y: SpanV)
    requires
        prev.contains(x),
        x.2 != Construct::Attachment,
        shifted(x, rs, re, ins) == Some(y),
        !overlaps_range(y, ds, de),
    ensures
        kept(prev, rs, re, ins, ds, de).contains(y),
    decreases prev.len(),
{
    let i = choose|i: int| 0 <= i < prev.len() && prev[i] == x;
    let rest = kept(prev.drop_last(), rs, re, ins, ds, de);
    if i == prev.len() - 1 {
        assert(kept(prev, rs, re, ins, ds, de) == rest + seq![y]);
        assert((rest + seq![y])[rest.len() as int] == y);
    } else {
        assert(prev.drop_last()[i] == x);
        lemma_kept_from(prev.drop_last(), rs, re, ins, ds, de, x, y);
    }
}

pub proof fn lemma_occurrences_chips(t: Seq<u8>, r: Seq<u8>, from: int, x: SpanV)
    requires
        occurrences(t, r, from).contains(x),
    ensures
        x.2 == Construct::Attachment,
    decreases t.len() + 1 - from,
{
    if !(r.len() == 0 || from < 0 || from > t.len()) {
        match crate::text::find_seq(t, from, r) {
            None => {},
            Some(st) => if !(st < from || st + r.len() > t.len()) {
                let head = seq![(st, st + r.len(), Construct::Attachment)];
                if !head.contains(x) {
                    lemma_occurrences_chips(t, r, st + r.len(), x);
                } else {
                    let i = choose|i: int| 0 <= i < 1 && head[i] == x;
                }
            },
        }
    }
}

/// Every chip is an attachment.
pub proof fn lemma_chips_are_attachments(t: Seq<u8>, refs: Seq<Seq<u8>>, x: SpanV)
    requires
        chip_spans(t, refs).contains(x),
    ensures
        x.2 == Construct::Attachment,
    decreases refs.len(),
{
    if refs.len() > 0 {
        if chip_spans(t, refs.drop_last()).contains(x) {
            lemma_chips_are_attachments(t, refs.drop_last(), x);
        } else {
            lemma_occurrences_chips(t, refs.last(), 0, x);
        }
    }
}

/// The markdown constructs and tokens of a whole buffer.
pub open spec fn md_tok(t: Seq<u8>) -> Seq<SpanV> {
    md_range(t, 0, t.len() as int) + tok_range(t, 0, t.len() as int)
}

// ---------------------------------------------------------------- the law

// ---------------------------------------------------------------- whole-buffer rescans

/// Every block of `f` is a non-empty run within `[0, n]`.
pub open spec fn blocks_fit(f: Seq<(int, int)>, n: int) -> bool {
    forall|b: (int, int)| #[trigger] f.contains(b) ==> 0 <= b.0 < b.1 <= n
}

pub proof fn lemma_fences_fit(t: Seq<u8>, p: int, open: Option<(int, u8, int)>)
    requires
        0 <= p,
        open matches Some((bs, _m, _k)) ==> 0 <= bs < p,
    ensures
        blocks_fit(fences_from(t, p, open), t.len() as int),
    decreases t.len() - p,
{
    broadcast use lemma_seq_concat_contains_all_elements;

    if p <= t.len() {
        lemma_line_end(t, p);
        let e = line_end_of(t, p);
        let l = t.subrange(p, e);
        let closed: Seq<(int, int)> = match open {
            Some((bs, m, k)) => if crate::composer_scan::lines::closes(l, m, k) {
                seq![(bs, e)]
            } else {
                Seq::empty()
            },
            None => Seq::empty(),
        };
        let still_open: Option<(int, u8, int)> = match open {
            None => match fence_of(l) {
                Some((m, k)) => Some((p, m, k)),
                None => None,
            },
            Some((bs, m, k)) => if crate::composer_scan::lines::closes(l, m, k) {
                None
            } else {
                open
            },
        };
        assert(blocks_fit(closed, t.len() as int)) by {
            assert forall|b: (int, int)| #[trigger] closed.contains(b) implies 0 <= b.0 < b.1 <= t.len() by {
                let i = choose|i: int| 0 <= i < closed.len() && closed[i] == b;
            }
        }
        if open is None && fence_of(l) is Some {
            assert(l.len() > 0);
        }
        if e >= t.len() || e < p {
            let tail: Seq<(int, int)> = match still_open {
                Some((bs, _m, _k)) => seq![(bs, t.len() as int)],
                None => Seq::empty(),
            };
            assert(blocks_fit(tail, t.len() as int)) by {
                assert forall|b: (int, int)| #[trigger] tail.contains(b) implies 0 <= b.0 < b.1 <= t.len() by {
                    let i = choose|i: int| 0 <= i < tail.len() && tail[i] == b;
                }
            }
            assert(fences_from(t, p, open) == closed + tail);
        } else {
            lemma_fences_fit(t, e + 1, still_open);
            assert(fences_from(t, p, open) == closed + fences_from(t, e + 1, still_open));
        }
    }
}

pub proof fn lemma_fence_spans_fit(f: Seq<(int, int)>, rs: int, re: int, n: int)
    requires
        blocks_fit(f, n),
    ensures
        fits(fence_spans(f, rs, re), 0, n),
    decreases f.len(),
{
    if f.len() > 0 {
        let b = f.last();
        assert(f.contains(b)) by {
            assert(f[f.len() - 1] == b);
        }
        assert(blocks_fit(f.drop_last(), n)) by {
            assert forall|c: (int, int)| #[trigger] f.drop_last().contains(c) implies 0 <= c.0 < c.1 <= n by {
                let i = choose|i: int| 0 <= i < f.drop_last().len() && f.drop_last()[i] == c;
                assert(f[i] == c);
                assert(f.contains(c));
            }
        }
        lemma_fence_spans_fit(f.drop_last(), rs, re, n);
        lemma_fits_one((b.0, b.1, Construct::CodeFence), 0, n);
    }
}

pub proof fn lemma_md_lines_fit(t: Seq<u8>, f: Seq<(int, int)>, p: int, e: int)
    requires
        0 <= p,
        e <= t.len(),
    ensures
        fits(md_lines(t, f, p, e), 0, t.len() as int),
    decreases t.len() - p,
{
    if p <= e {
        lemma_line_end(t, p);
        let le = piece_end(t, p, e);
        let l = t.subrange(p, le);
        lemma_line_spans_fit(l);
        lemma_fits_shift(line_spans(l), 0, l.len() as int, p);
        if le < e && le >= p {
            lemma_md_lines_fit(t, f, le + 1, e);
        }
    }
}

pub proof fn lemma_tok_lines_fit(t: Seq<u8>, p: int, e: int)
    requires
        0 <= p,
        e <= t.len(),
    ensures
        fits(tok_lines(t, p, e), 0, t.len() as int),
    decreases t.len() - p,
{
    if p <= e {
        lemma_line_end(t, p);
        let le = piece_end(t, p, e);
        let l = t.subrange(p, le);
        lemma_token_spans_fit(l);
        lemma_fits_shift(token_line_spans(l), 0, l.len() as int, p);
        if le < e && le >= p {
            lemma_tok_lines_fit(t, le + 1, e);
        }
    }
}

/// Every construct a scan finds, chips aside, is a non-empty run within
/// the buffer.
pub proof fn lemma_md_tok_fits(t: Seq<u8>)
    ensures
        fits(md_tok(t), 0, t.len() as int),
{
    lemma_fences_fit(t, 0, None);
    lemma_fence_spans_fit(blocks_of(t), 0, t.len() as int, t.len() as int);
    let s = line_start_of(t, clamp(t, 0));
    let e = line_end_of(t, clamp(t, t.len() as int));
    lemma_line_start_of(t, clamp(t, 0));
    lemma_line_end(t, clamp(t, t.len() as int));
    lemma_md_lines_fit(t, blocks_of(t), s, e);
    lemma_tok_lines_fit(t, s, e);
}

/// When the dirty range is the whole buffer - an edited line is a fence
/// delimiter now, or the edit sits in a block that runs to the end - a
/// rescan finds exactly what a fresh scan finds, whatever the old buffer
/// held.
pub proof fn lemma_rescan_agrees_on_fence_edit(
    old: Seq<u8>,
    new: Seq<u8>,
    old_refs: Seq<Seq<u8>>,
    refs: Seq<Seq<u8>>,
    prev: Seq<SpanV>,
    rs: int,
    re: int,
    ins: int,
)
    requires
        edited(old, new, rs, re, ins),
        same_members(prev, all_spans(old, old_refs)),
        dirty(new, rs, rs + ins) == (0int, new.len() as int),
    ensures
        same_members(rescan_spans(new, refs, prev, rs, re, ins), all_spans(new, refs)),
{
    let n = new.len() as int;
    let kept_part = kept(prev, rs, re, ins, 0, n);
    let rescanned = rescan_spans(new, refs, prev, rs, re, ins);
    let fresh = all_spans(new, refs);
    assert(rescanned == kept_part + md_range(new, 0, n) + tok_range(new, 0, n) + chip_spans(new, refs));
    lemma_md_tok_fits(old);
    assert forall|y: SpanV| !#[trigger] kept_part.contains(y) by {
        if kept_part.contains(y) {
            let x = lemma_kept_source(prev, rs, re, ins, 0, n, y);
            assert(all_spans(old, old_refs).contains(x));
            if chip_spans(old, old_refs).contains(x) {
                lemma_chips_are_attachments(old, old_refs, x);
            }
            assert(md_tok(old).contains(x));
            assert(overlaps_range(y, 0, n));
        }
    }
    assert forall|y: SpanV| rescanned.contains(y) <==> fresh.contains(y) by {
        assert(!kept_part.contains(y));
    }
}

} // verus!
