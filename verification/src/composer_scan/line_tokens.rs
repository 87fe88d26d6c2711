//! Why `tokens_on_line` can stand in for a scan when only the caret's line
//! matters: the tokens of a line are exactly the scan's tokens that start
//! on it. The markdown pass finds no tokens and the token pass nothing
//! else, which is what lets the two be told apart by construct.

use crate::composer_scan::incremental::{
    is_line_end, is_line_start, lemma_line_start_of, lemma_line_start_within, lemma_shift_contains,
    lemma_tok_lines_contains, local_tok,
};
use crate::composer_scan::inline::{
    closer_from, code_spans, delim_spans, inline_spans, link_at, link_spans, unclaimed, BACKTICK_BYTE,
};
use crate::composer_scan::lines::{clamp, lemma_line_end, piece_end};
use crate::composer_scan::markdown::{fence_spans, line_spans, list_marker_len, md_lines, md_range};
use crate::composer_scan::scan::{all_spans, chip_spans};
use crate::composer_scan::order::{lemma_sorted_unique_eq, same_members};
use crate::composer_scan::span::{shift_all, sorted_unique, span_lt, Construct, SpanV};
use crate::composer_scan::tokens::{mention_spans, token_line_spans, tok_range};
use crate::text::{lead_ws, line_end_of, line_start_of};
use vstd::prelude::*;
use vstd::seq_lib::lemma_seq_concat_contains_all_elements;

verus! {

broadcast use lemma_seq_concat_contains_all_elements;

/// A slash command or a mention.
pub open spec fn is_token(c: Construct) -> bool {
    c == Construct::SlashToken || c == Construct::Mention
}

/// Every span of `s` is a token.
pub open spec fn all_tokens(s: Seq<SpanV>) -> bool {
    forall|x: SpanV| #[trigger] s.contains(x) ==> is_token(x.2)
}

/// No span of `s` is a token.
pub open spec fn no_tokens(s: Seq<SpanV>) -> bool {
    forall|x: SpanV| #[trigger] s.contains(x) ==> !is_token(x.2)
}

proof fn lemma_no_tokens_one(y: SpanV)
    requires
        !is_token(y.2),
    ensures
        no_tokens(seq![y]),
{
    assert forall|x: SpanV| #[trigger] seq![y].contains(x) implies !is_token(x.2) by {
        let i = choose|i: int| 0 <= i < 1 && seq![y][i] == x;
    }
}

proof fn lemma_no_tokens_shift(s: Seq<SpanV>, d: int)
    requires
        no_tokens(s),
    ensures
        no_tokens(shift_all(s, d)),
{
    assert forall|x: SpanV| #[trigger] shift_all(s, d).contains(x) implies !is_token(x.2) by {
        lemma_shift_contains(s, d, x);
    }
}

proof fn lemma_all_tokens_shift(s: Seq<SpanV>, d: int)
    requires
        all_tokens(s),
    ensures
        all_tokens(shift_all(s, d)),
{
    assert forall|x: SpanV| #[trigger] shift_all(s, d).contains(x) implies is_token(x.2) by {
        lemma_shift_contains(s, d, x);
    }
}

proof fn lemma_code_no_tokens(b: Seq<u8>, i: int)
    ensures
        no_tokens(code_spans(b, i)),
    decreases b.len() - i,
{
    if 0 <= i < b.len() {
        if b[i] != BACKTICK_BYTE {
            lemma_code_no_tokens(b, i + 1);
        } else {
            let run = crate::text::run_len(b, i, BACKTICK_BYTE);
            let after = i + run;
            match crate::composer_scan::inline::closing_run(b, after, run) {
                Some(end) => if i < end <= b.len() {
                    lemma_code_no_tokens(b, end);
                    lemma_no_tokens_one((i, end, Construct::InlineCode));
                },
                None => if i < after <= b.len() {
                    lemma_code_no_tokens(b, after);
                },
            }
        }
    }
}

proof fn lemma_link_no_tokens(b: Seq<u8>, i: int, taken: Seq<bool>)
    ensures
        no_tokens(link_spans(b, i, taken)),
    decreases b.len() - i,
{
    if 0 <= i < b.len() {
        if b[i] != crate::composer_scan::inline::OPEN_BRACKET || !crate::composer_scan::inline::is_free(taken, i, i + 1) {
            lemma_link_no_tokens(b, i + 1, taken);
        } else {
            match link_at(b, i) {
                None => lemma_link_no_tokens(b, i + 1, taken),
                Some(Err(_)) => {},
                Some(Ok(end)) => if i < end <= b.len() {
                    if crate::composer_scan::inline::is_free(taken, i, end) {
                        lemma_link_no_tokens(b, end, crate::composer_scan::inline::claimed(taken, i, end));
                        lemma_no_tokens_one((i, end, Construct::Link));
                    } else {
                        lemma_link_no_tokens(b, end, taken);
                    }
                },
            }
        }
    }
}

proof fn lemma_delim_no_tokens(b: Seq<u8>, i: int, m: Seq<u8>, c: Construct, taken: Seq<bool>)
    requires
        !is_token(c),
    ensures
        no_tokens(delim_spans(b, i, m, c, taken)),
    decreases b.len() - i,
{
    if 0 <= i <= b.len() && m.len() > 0 {
        crate::composer_scan::inline::lemma_find_seq_bound(b, i, m);
        match crate::text::find_seq(b, i, m) {
            None => {},
            Some(open) => {
                let after_open = open + m.len();
                if i < after_open <= b.len() {
                    if !crate::composer_scan::inline::is_free(taken, open, after_open)
                        || !crate::composer_scan::inline::can_open(b, after_open, m[0]) {
                        lemma_delim_no_tokens(b, after_open, m, c, taken);
                    } else {
                        match closer_from(b, after_open, m, taken, after_open) {
                            None => {},
                            Some(close) => {
                                let end = close + m.len();
                                if i < end <= b.len() {
                                    lemma_delim_no_tokens(b, end, m, c, crate::composer_scan::inline::claimed(taken, open, end));
                                    lemma_no_tokens_one((open, end, c));
                                }
                            },
                        }
                    }
                }
            },
        }
    }
}

proof fn lemma_inline_no_tokens(b: Seq<u8>)
    ensures
        no_tokens(inline_spans(b)),
{
    let t1 = crate::composer_scan::inline::code_taken(b, 0, unclaimed(b.len()));
    let t2 = crate::composer_scan::inline::link_taken(b, 0, t1);
    let t3 = crate::composer_scan::inline::delim_taken(b, 0, crate::text::marker(crate::composer_scan::inline::STAR, true), t2);
    let t4 = crate::composer_scan::inline::delim_taken(b, 0, crate::text::marker(crate::composer_scan::inline::UNDERSCORE, true), t3);
    let t5 = crate::composer_scan::inline::delim_taken(b, 0, crate::text::marker(crate::composer_scan::inline::STAR, false), t4);
    lemma_code_no_tokens(b, 0);
    lemma_link_no_tokens(b, 0, t1);
    lemma_delim_no_tokens(b, 0, crate::text::marker(crate::composer_scan::inline::STAR, true), Construct::Strong, t2);
    lemma_delim_no_tokens(b, 0, crate::text::marker(crate::composer_scan::inline::UNDERSCORE, true), Construct::Strong, t3);
    lemma_delim_no_tokens(b, 0, crate::text::marker(crate::composer_scan::inline::STAR, false), Construct::Emphasis, t4);
    lemma_delim_no_tokens(b, 0, crate::text::marker(crate::composer_scan::inline::UNDERSCORE, false), Construct::Emphasis, t5);
}

proof fn lemma_line_no_tokens(l: Seq<u8>)
    ensures
        no_tokens(line_spans(l)),
{
    if !crate::text::all_ws(l) {
        let indent = lead_ws(l);
        let body = l.subrange(indent, l.len() as int);
        if indent > 3 {
            lemma_no_tokens_one((0, l.len() as int, Construct::CodeFence));
        } else if crate::composer_scan::markdown::is_heading(body) {
            lemma_no_tokens_one((0, l.len() as int, Construct::Heading));
            lemma_inline_no_tokens(body);
            lemma_no_tokens_shift(inline_spans(body), indent);
        } else if body.len() > 0 && body[0] == crate::composer_scan::markdown::GREATER {
            let q = crate::text::run_len(body, 0, crate::composer_scan::markdown::GREATER);
            let rest = body.subrange(q, body.len() as int);
            lemma_no_tokens_one((0, l.len() as int, Construct::BlockQuote));
            lemma_inline_no_tokens(rest);
            lemma_no_tokens_shift(inline_spans(rest), indent + q);
        } else {
            match list_marker_len(body) {
                Some(k) => {
                    let rest = body.subrange(k, body.len() as int);
                    lemma_no_tokens_one((indent, indent + k, Construct::ListMarker));
                    lemma_inline_no_tokens(rest);
                    lemma_no_tokens_shift(inline_spans(rest), indent + k);
                },
                None => {
                    lemma_inline_no_tokens(body);
                    lemma_no_tokens_shift(inline_spans(body), indent);
                },
            }
        }
    }
}

proof fn lemma_md_lines_no_tokens(t: Seq<u8>, f: Seq<(int, int)>, p: int, e: int)
    ensures
        no_tokens(md_lines(t, f, p, e)),
    decreases t.len() - p,
{
    if 0 <= p <= e && e <= t.len() {
        let le = piece_end(t, p, e);
        let l = t.subrange(p, le);
        lemma_line_no_tokens(l);
        lemma_no_tokens_shift(line_spans(l), p);
        if le < e && le >= p {
            lemma_md_lines_no_tokens(t, f, le + 1, e);
        }
    }
}

/// The markdown pass finds no tokens.
proof fn lemma_md_range_no_tokens(t: Seq<u8>, rs: int, re: int)
    ensures
        no_tokens(md_range(t, rs, re)),
{
    let f = crate::composer_scan::lines::blocks_of(t);
    assert forall|x: SpanV| #[trigger] fence_spans(f, rs, re).contains(x) implies !is_token(x.2) by {
        crate::composer_scan::fenced::lemma_fence_spans_contains(f, rs, re, x);
    }
    let s = line_start_of(t, clamp(t, rs));
    let e = line_end_of(t, clamp(t, re));
    lemma_md_lines_no_tokens(t, f, s, e);
}

proof fn lemma_mentions_are_tokens(l: Seq<u8>, o: int)
    ensures
        all_tokens(mention_spans(l, o)),
    decreases l.len() - o,
{
    if 0 <= o < l.len() {
        lemma_mentions_are_tokens(l, o + 1);
        let y = (o, crate::composer_scan::tokens::token_end_of(l, o), Construct::Mention);
        assert forall|x: SpanV| #[trigger] seq![y].contains(x) implies is_token(x.2) by {
            let i = choose|i: int| 0 <= i < 1 && seq![y][i] == x;
        }
    }
}

/// The token pass finds nothing but tokens.
proof fn lemma_line_tokens_are_tokens(l: Seq<u8>)
    ensures
        all_tokens(token_line_spans(l)),
{
    lemma_mentions_are_tokens(l, 0);
    let s = crate::composer_scan::tokens::slash_spans(l);
    assert forall|x: SpanV| #[trigger] s.contains(x) implies is_token(x.2) by {
        let i = choose|i: int| 0 <= i < s.len() && s[i] == x;
    }
}

/// The tokens of the line holding `o` are exactly the tokens a scan of the
/// whole buffer finds that start on that line: those of the scan's spans
/// that are slash commands or mentions and start at or after the line's
/// start and before its end.
pub proof fn lemma_line_tokens_are_scan_tokens(t: Seq<u8>, o: int, x: SpanV)
    requires
        0 <= o <= t.len(),
    ensures
        tok_range(t, o, o).contains(x) <==> (all_spans(t, Seq::empty()).contains(x) && is_token(x.2)
            && line_start_of(t, o) <= x.0 < line_end_of(t, o)),
{
    let ls = line_start_of(t, o);
    let le = line_end_of(t, o);
    lemma_line_start_of(t, o);
    lemma_line_end(t, o);
    assert(clamp(t, o) == o);
    assert(clamp(t, 0) == 0);
    assert(clamp(t, t.len() as int) == t.len());
    assert(is_line_start(t, ls));
    assert(is_line_end(t, le)) by {
        lemma_line_end(t, o);
    }
    assert(line_start_of(t, 0) == 0);
    lemma_line_end(t, t.len() as int);
    assert(line_end_of(t, t.len() as int) == t.len());
    assert(is_line_start(t, 0));
    assert(is_line_end(t, t.len() as int));
    lemma_tok_lines_contains(t, ls, le, x);
    lemma_tok_lines_contains(t, 0, t.len() as int, x);
    lemma_md_range_no_tokens(t, 0, t.len() as int);
    assert(chip_spans(t, Seq::<Seq<u8>>::empty()) =~= Seq::<SpanV>::empty());
    let all = all_spans(t, Seq::empty());
    assert(all == md_range(t, 0, t.len() as int) + tok_range(t, 0, t.len() as int) + chip_spans(t, Seq::empty()));
    if tok_range(t, o, o).contains(x) {
        let q = line_start_of(t, x.0);
        lemma_line_tokens_are_tokens(line_at_of(t, q));
        lemma_all_tokens_shift(token_line_spans(line_at_of(t, q)), q);
        assert(local_tok(t, q) == shift_all(token_line_spans(line_at_of(t, q)), q));
        assert(tok_range(t, 0, t.len() as int).contains(x));
    }
    if all.contains(x) && is_token(x.2) && ls <= x.0 < le {
        assert(!md_range(t, 0, t.len() as int).contains(x));
        assert(tok_range(t, 0, t.len() as int).contains(x));
        lemma_no_newline_in_line(t, o);
        crate::composer_scan::incremental::lemma_line_end_is(t, ls, le);
        lemma_line_start_within(t, ls, x.0);
    }
}

/// No newline lies between a line's start and an offset on it.
proof fn lemma_no_newline_in_line(t: Seq<u8>, o: int)
    requires
        0 <= o <= t.len(),
    ensures
        forall|j: int| line_start_of(t, o) <= j < o ==> t[j] != crate::composer_scan::lines::NEWLINE,
    decreases o,
{
    if o > 0 && t[o - 1] != crate::composer_scan::lines::NEWLINE {
        lemma_no_newline_in_line(t, o - 1);
    }
}

/// The line of `t` starting at `q`.
pub open spec fn line_at_of(t: Seq<u8>, q: int) -> Seq<u8> {
    t.subrange(q, line_end_of(t, q))
}

/// Whether a span is a token starting on the line holding `o`.
pub open spec fn token_on_line(t: Seq<u8>, o: int) -> spec_fn(SpanV) -> bool {
    |x: SpanV| is_token(x.2) && line_start_of(t, o) <= x.0 < line_end_of(t, o)
}

/// Keeping some spans of a sorted sequence keeps them sorted.
proof fn lemma_filter_sorted(s: Seq<SpanV>, pred: spec_fn(SpanV) -> bool)
    requires
        sorted_unique(s),
    ensures
        sorted_unique(s.filter(pred)),
        forall|x: SpanV| #[trigger] s.filter(pred).contains(x) ==> s.contains(x),
    decreases s.len(),
{
    reveal_with_fuel(Seq::<SpanV>::filter, 1);
    if s.len() > 0 {
        let d = s.drop_last();
        assert(sorted_unique(d)) by {
            assert forall|i: int, j: int| 0 <= i < j < d.len() implies span_lt(#[trigger] d[i], #[trigger] d[j]) by {
                assert(d[i] == s[i] && d[j] == s[j]);
            }
        }
        lemma_filter_sorted(d, pred);
        let f0 = d.filter(pred);
        let last = s.last();
        assert forall|x: SpanV| #[trigger] f0.contains(x) implies span_lt(x, last) && s.contains(x) by {
            let k = choose|k: int| 0 <= k < d.len() && d[k] == x;
            assert(s[k] == x);
            assert(span_lt(s[k], s[s.len() - 1]));
        }
        if pred(last) {
            let f = f0.push(last);
            assert(s.filter(pred) == f);
            assert forall|i: int, j: int| 0 <= i < j < f.len() implies span_lt(#[trigger] f[i], #[trigger] f[j]) by {
                if j == f.len() - 1 {
                    assert(f0.contains(f[i]));
                } else {
                    assert(f[i] == f0[i] && f[j] == f0[j]);
                }
            }
            assert forall|x: SpanV| #[trigger] f.contains(x) implies s.contains(x) by {
                let k = choose|k: int| 0 <= k < f.len() && f[k] == x;
                if k < f0.len() {
                    assert(f0[k] == x);
                    assert(f0.contains(x));
                } else {
                    assert(s[s.len() - 1] == x);
                }
            }
        } else {
            assert(s.filter(pred) == f0);
        }
    }
}

/// What `tokens_on_line` returns is what a scan of the whole buffer
/// returns, cut down to the tokens starting on the line of `o`, in the
/// scan's order: `line` and `whole` are any results the two can give.
pub proof fn lemma_line_tokens_in_scan_order(t: Seq<u8>, o: int, line: Seq<SpanV>, whole: Seq<SpanV>)
    requires
        0 <= o <= t.len(),
        sorted_unique(line),
        same_members(line, tok_range(t, o, o)),
        sorted_unique(whole),
        same_members(whole, all_spans(t, Seq::empty())),
    ensures
        line == whole.filter(token_on_line(t, o)),
{
    let pred = token_on_line(t, o);
    let f = whole.filter(pred);
    lemma_filter_sorted(whole, pred);
    assert forall|x: SpanV| line.contains(x) <==> f.contains(x) by {
        lemma_line_tokens_are_scan_tokens(t, o, x);
        if f.contains(x) {
            let k = choose|k: int| 0 <= k < f.len() && f[k] == x;
            whole.lemma_filter_pred(pred, k);
        }
        if line.contains(x) {
            assert(whole.contains(x));
            let k = choose|k: int| 0 <= k < whole.len() && whole[k] == x;
            whole.lemma_filter_contains(pred, k);
        }
    }
    lemma_sorted_unique_eq(line, f);
}

} // verus!
