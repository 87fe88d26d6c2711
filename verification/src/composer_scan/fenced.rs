//! Rescans of buffers that hold fenced blocks.
//!
//! When no line the edit touches is a fence delimiter, before or after
//! the edit, the buffer's blocks are the old ones moved past the edit, and
//! every line outside the edited ones is inside a block exactly when its
//! old counterpart was - so a rescan of the dirty range, which always
//! holds the edited lines, finds what a fresh scan finds.

use crate::composer_scan::dirty::{dirty, enclosing_from, is_fence_line, touches_fence_from};
use crate::composer_scan::incremental::{
    blocks_fit, edited, fence_free, is_line_end, is_line_start, lemma_chips_are_attachments, lemma_edited_bytes,
    lemma_fence_free_blocks, lemma_fences_fit, lemma_kept_from, lemma_kept_source, lemma_line_end_is,
    lemma_line_start_after, lemma_line_start_of, lemma_line_start_within, lemma_local_fits, lemma_prefix_line_end,
    lemma_prefix_line_start, lemma_shift_contains, lemma_suffix_line_end, lemma_suffix_line_start,
    lemma_tok_lines_contains, line_at, local_md, local_tok, md_tok,
};
use crate::composer_scan::inline::BACKTICK_BYTE;
use crate::composer_scan::lines::{
    blocks_of, clamp, closes, fence_of, fences_from, in_blocks, lemma_line_end, piece_end, NEWLINE, TILDE,
};
use crate::composer_scan::markdown::{fence_spans, line_spans, md_lines, md_range};
use crate::composer_scan::order::same_members;
use crate::composer_scan::scan::{all_spans, chip_spans, kept, overlaps_range, rescan_spans, shifted};
use crate::composer_scan::span::{Construct, SpanV};
use crate::composer_scan::tokens::{tok_range, token_line_spans};
use crate::text::{lead_ws, line_end_of, line_start_of, ws_len};
use vstd::prelude::*;
use vstd::seq_lib::lemma_seq_concat_contains_all_elements;

verus! {

/// An open block's marker is a fence character, at least three long.
pub open spec fn open_ok(o: Option<(int, u8, int)>) -> bool {
    o matches Some((_bs, m, k)) ==> (m == BACKTICK_BYTE || m == TILDE) && k >= 3
}

/// No line of `t` starting within `[a, b]` is a fence delimiter.
pub open spec fn plain_lines(t: Seq<u8>, a: int, b: int) -> bool {
    forall|q: int| #[trigger] is_line_start(t, q) && a <= q <= b ==> !is_fence_line(line_at(t, q))
}

/// The block a still-open fence makes when the buffer ends at `n`.
pub open spec fn tail_block(o: Option<(int, u8, int)>, n: int) -> Seq<(int, int)> {
    match o {
        Some((bs, _m, _k)) => seq![(bs, n)],
        None => Seq::empty(),
    }
}

/// Where offset `p` of the old buffer is after an edit at `rs` that
/// changed the length by `d`.
pub open spec fn moved(p: int, rs: int, d: int) -> int {
    if p < rs {
        p
    } else {
        p + d
    }
}

/// Blocks moved by an edit.
pub open spec fn moved_blocks(f: Seq<(int, int)>, rs: int, d: int) -> Seq<(int, int)> {
    f.map_values(|b: (int, int)| (moved(b.0, rs, d), moved(b.1, rs, d)))
}

/// An open fence moved by an edit.
pub open spec fn moved_open(o: Option<(int, u8, int)>, rs: int, d: int) -> Option<(int, u8, int)> {
    match o {
        Some((bs, m, k)) => Some((moved(bs, rs, d), m, k)),
        None => None,
    }
}

/// A line that closes a block is itself a fence delimiter.
pub proof fn lemma_closes_is_fence(l: Seq<u8>, m: u8, k: int)
    requires
        m == BACKTICK_BYTE || m == TILDE,
        k >= 3,
        closes(l, m, k),
    ensures
        fence_of(l) is Some,
{
    assert(ws_len(l, 0) == 0);
    assert(lead_ws(l) == 0);
}

/// Lines that are no fence delimiter change no block: the walk passes them
/// with the same block open.
pub proof fn lemma_skip_plain_lines(t: Seq<u8>, p: int, b: int, o: Option<(int, u8, int)>)
    requires
        is_line_start(t, p),
        is_line_end(t, b),
        p <= b,
        plain_lines(t, p, b),
        open_ok(o),
    ensures
        fences_from(t, p, o) == if b < t.len() {
            fences_from(t, b + 1, o)
        } else {
            tail_block(o, t.len() as int)
        },
    decreases b - p,
{
    lemma_line_end(t, p);
    let e = line_end_of(t, p);
    let l = t.subrange(p, e);
    assert(e <= b) by {
        if e > b {
            assert(t[b] == NEWLINE);
        }
    }
    assert(is_line_start(t, p) && p <= p <= b);
    assert(!is_fence_line(line_at(t, p)));
    assert(fence_of(l) is None);
    match o {
        Some((bs, m, k)) => {
            if closes(l, m, k) {
                lemma_closes_is_fence(l, m, k);
            }
        },
        None => {},
    }
    if e < t.len() {
        assert(fences_from(t, p, o) =~= Seq::<(int, int)>::empty() + fences_from(t, e + 1, o));
        if e < b {
            assert(is_line_start(t, e + 1));
            assert(plain_lines(t, e + 1, b));
            lemma_skip_plain_lines(t, e + 1, b, o);
        }
    } else {
        assert(fences_from(t, p, o) =~= Seq::<(int, int)>::empty() + tail_block(o, t.len() as int));
    }
}

proof fn lemma_moved_blocks_concat(a: Seq<(int, int)>, b: Seq<(int, int)>, rs: int, d: int)
    ensures
        moved_blocks(a + b, rs, d) == moved_blocks(a, rs, d) + moved_blocks(b, rs, d),
{
    assert(moved_blocks(a + b, rs, d) =~= moved_blocks(a, rs, d) + moved_blocks(b, rs, d));
}

/// After the edit, every line is an old line moved, so the blocks found
/// from there are the old ones moved.
proof fn lemma_suffix_blocks(old: Seq<u8>, new: Seq<u8>, rs: int, re: int, ins: int, p: int, o: Option<(int, u8, int)>)
    requires
        edited(old, new, rs, re, ins),
        re < p,
        is_line_start(old, p),
    ensures
        fences_from(new, p + (ins - (re - rs)), moved_open(o, rs, ins - (re - rs))) == moved_blocks(
            fences_from(old, p, o),
            rs,
            ins - (re - rs),
        ),
    decreases old.len() - p,
{
    let d = ins - (re - rs);
    lemma_edited_bytes(old, new, rs, re, ins);
    lemma_line_end(old, p);
    lemma_suffix_line_end(old, new, rs, re, ins, p + d);
    let e = line_end_of(old, p);
    let l = old.subrange(p, e);
    assert(line_end_of(new, p + d) == e + d);
    assert(new.subrange(p + d, e + d) == l);
    let closed: Seq<(int, int)> = match o {
        Some((bs, m, k)) => if closes(l, m, k) {
            seq![(bs, e)]
        } else {
            Seq::empty()
        },
        None => Seq::empty(),
    };
    let still_open: Option<(int, u8, int)> = match o {
        None => match fence_of(l) {
            Some((m, k)) => Some((p, m, k)),
            None => None,
        },
        Some((bs, m, k)) => if closes(l, m, k) {
            None
        } else {
            o
        },
    };
    let closed2: Seq<(int, int)> = match moved_open(o, rs, d) {
        Some((bs, m, k)) => if closes(l, m, k) {
            seq![(bs, e + d)]
        } else {
            Seq::empty()
        },
        None => Seq::empty(),
    };
    assert(closed2 =~= moved_blocks(closed, rs, d));
    let still2: Option<(int, u8, int)> = match moved_open(o, rs, d) {
        None => match fence_of(l) {
            Some((m, k)) => Some((p + d, m, k)),
            None => None,
        },
        Some((bs, m, k)) => if closes(l, m, k) {
            None
        } else {
            moved_open(o, rs, d)
        },
    };
    assert(still2 == moved_open(still_open, rs, d));
    if e >= old.len() {
        assert(fences_from(old, p, o) == closed + tail_block(still_open, old.len() as int));
        assert(fences_from(new, p + d, moved_open(o, rs, d)) == closed2 + tail_block(still2, new.len() as int));
        lemma_moved_blocks_concat(closed, tail_block(still_open, old.len() as int), rs, d);
        assert(tail_block(still2, new.len() as int) =~= moved_blocks(tail_block(still_open, old.len() as int), rs, d));
    } else {
        assert(old[e] == NEWLINE);
        assert(is_line_start(old, e + 1));
        lemma_suffix_blocks(old, new, rs, re, ins, e + 1, still_open);
        assert(fences_from(old, p, o) == closed + fences_from(old, e + 1, still_open));
        assert(fences_from(new, p + d, moved_open(o, rs, d)) == closed2 + fences_from(new, e + 1 + d, still2));
        lemma_moved_blocks_concat(closed, fences_from(old, e + 1, still_open), rs, d);
    }
}

/// The lines the edit touched hold no delimiter, so they pass the open
/// block on, and after them the old blocks continue, moved.
proof fn lemma_middle_blocks(old: Seq<u8>, new: Seq<u8>, rs: int, re: int, ins: int, o: Option<(int, u8, int)>)
    requires
        edited(old, new, rs, re, ins),
        plain_lines(old, line_start_of(old, rs), line_end_of(old, re)),
        plain_lines(new, line_start_of(new, rs), line_end_of(new, rs + ins)),
        line_start_of(old, rs) == line_start_of(new, rs),
        open_ok(o),
        o matches Some((bs, _m, _k)) ==> bs < line_start_of(old, rs),
    ensures
        fences_from(new, line_start_of(new, rs), o) == moved_blocks(
            fences_from(old, line_start_of(old, rs), o),
            rs,
            ins - (re - rs),
        ),
{
    let d = ins - (re - rs);
    let a = line_start_of(old, rs);
    let bo = line_end_of(old, re);
    let bn = line_end_of(new, rs + ins);
    lemma_line_start_of(old, rs);
    lemma_line_start_of(new, rs);
    lemma_line_end(old, re);
    lemma_line_end(new, rs + ins);
    lemma_suffix_line_end(old, new, rs, re, ins, rs + ins);
    assert(bn == bo + d);
    lemma_skip_plain_lines(old, a, bo, o);
    lemma_skip_plain_lines(new, a, bn, o);
    assert(moved_open(o, rs, d) == o);
    if bo < old.len() {
        assert(old[bo] == NEWLINE);
        assert(is_line_start(old, bo + 1));
        lemma_suffix_blocks(old, new, rs, re, ins, bo + 1, o);
    } else {
        assert(tail_block(o, new.len() as int) =~= moved_blocks(tail_block(o, old.len() as int), rs, d));
    }
}

/// Before the edit the lines are the old ones, so the walk agrees line by
/// line until it reaches the edited lines.
proof fn lemma_prefix_blocks(old: Seq<u8>, new: Seq<u8>, rs: int, re: int, ins: int, p: int, o: Option<(int, u8, int)>)
    requires
        edited(old, new, rs, re, ins),
        plain_lines(old, line_start_of(old, rs), line_end_of(old, re)),
        plain_lines(new, line_start_of(new, rs), line_end_of(new, rs + ins)),
        line_start_of(old, rs) == line_start_of(new, rs),
        is_line_start(old, p),
        p <= line_start_of(old, rs),
        open_ok(o),
        o matches Some((bs, _m, _k)) ==> bs < p,
    ensures
        fences_from(new, p, o) == moved_blocks(fences_from(old, p, o), rs, ins - (re - rs)),
    decreases line_start_of(old, rs) - p,
{
    let d = ins - (re - rs);
    let a = line_start_of(old, rs);
    lemma_line_start_of(old, rs);
    if p == a {
        lemma_middle_blocks(old, new, rs, re, ins, o);
    } else {
        lemma_edited_bytes(old, new, rs, re, ins);
        lemma_line_end(old, p);
        let e = line_end_of(old, p);
        assert(e < a) by {
            if e >= a {
                assert(old[a - 1] != NEWLINE);
            }
        }
        lemma_prefix_line_end(old, new, rs, re, ins, p, e);
        let l = old.subrange(p, e);
        assert(line_at(new, p) == l);
        assert(is_line_start(new, p));
        let closed: Seq<(int, int)> = match o {
            Some((bs, m, k)) => if closes(l, m, k) {
                seq![(bs, e)]
            } else {
                Seq::empty()
            },
            None => Seq::empty(),
        };
        let still_open: Option<(int, u8, int)> = match o {
            None => match fence_of(l) {
                Some((m, k)) => Some((p, m, k)),
                None => None,
            },
            Some((bs, m, k)) => if closes(l, m, k) {
                None
            } else {
                o
            },
        };
        assert(closed =~= moved_blocks(closed, rs, d));
        assert(old[e] == NEWLINE);
        assert(is_line_start(old, e + 1));
        lemma_prefix_blocks(old, new, rs, re, ins, e + 1, still_open);
        assert(fences_from(old, p, o) == closed + fences_from(old, e + 1, still_open));
        assert(fences_from(new, p, o) == closed + fences_from(new, e + 1, still_open));
        lemma_moved_blocks_concat(closed, fences_from(old, e + 1, still_open), rs, d);
    }
}

/// When no line the edit touches is a fence delimiter, before or after the
/// edit, the new buffer's blocks are the old ones moved past the edit.
pub proof fn lemma_blocks_moved(old: Seq<u8>, new: Seq<u8>, rs: int, re: int, ins: int)
    requires
        edited(old, new, rs, re, ins),
        plain_lines(old, line_start_of(old, rs), line_end_of(old, re)),
        plain_lines(new, line_start_of(new, rs), line_end_of(new, rs + ins)),
    ensures
        blocks_of(new) == moved_blocks(blocks_of(old), rs, ins - (re - rs)),
{
    crate::composer_scan::incremental::lemma_prefix_line_start(old, new, rs, re, ins, rs);
    assert(is_line_start(old, 0));
    lemma_line_start_of(old, rs);
    lemma_prefix_blocks(old, new, rs, re, ins, 0, None);
}

// ---------------------------------------------------------------- reading a buffer with blocks

/// What the line starting at `q` holds, given the blocks `f`: its tokens,
/// and its markdown unless a block holds the line.
pub open spec fn visible(t: Seq<u8>, f: Seq<(int, int)>, q: int) -> Seq<SpanV> {
    (if in_blocks(f, q) {
        Seq::empty()
    } else {
        local_md(t, q)
    }) + local_tok(t, q)
}

/// The markdown constructs of the lines from `p` to `e`, outside the
/// blocks `f`, are those whose line, found from their start, lies there
/// and is outside every block.
pub proof fn lemma_md_lines_in_blocks(t: Seq<u8>, f: Seq<(int, int)>, p: int, e: int, x: SpanV)
    requires
        is_line_start(t, p),
        is_line_end(t, e),
        p <= e,
    ensures
        md_lines(t, f, p, e).contains(x) <==> (p <= x.0 < e && !in_blocks(f, line_start_of(t, x.0)) && local_md(
            t,
            line_start_of(t, x.0),
        ).contains(x)),
    decreases t.len() - p,
{
    broadcast use lemma_seq_concat_contains_all_elements;

    lemma_line_end(t, p);
    let le = line_end_of(t, p);
    assert(le <= e) by {
        if le > e {
            assert(t[e] == NEWLINE);
        }
    }
    assert(piece_end(t, p, e) == le);
    lemma_local_fits(t, p);
    if local_md(t, p).contains(x) {
        lemma_line_start_within(t, p, x.0);
    }
    if p <= x.0 < le {
        lemma_line_start_within(t, p, x.0);
    }
    if le < e {
        assert(is_line_start(t, le + 1));
        lemma_md_lines_in_blocks(t, f, le + 1, e, x);
        if le + 1 <= x.0 <= t.len() {
            lemma_line_start_after(t, le, x.0);
        }
        if x.0 == le {
            lemma_line_start_within(t, p, le);
        }
    }
}

/// The upper bound `fence_spans` tests a block's start against.
pub open spec fn upper(a: int, b: int) -> int {
    if b > a {
        b
    } else {
        a
    }
}

/// The fence spans of `[a, b)` are the blocks that meet it.
pub proof fn lemma_fence_spans_contains(f: Seq<(int, int)>, a: int, b: int, x: SpanV)
    ensures
        fence_spans(f, a, b).contains(x) <==> (x.2 == Construct::CodeFence && f.contains((x.0, x.1)) && x.0 < upper(
            a,
            b,
        ) && a <= x.1),
    decreases f.len(),
{
    broadcast use lemma_seq_concat_contains_all_elements;

    if f.len() > 0 {
        let last = f.last();
        lemma_fence_spans_contains(f.drop_last(), a, b, x);
        let one = seq![(last.0, last.1, Construct::CodeFence)];
        if one.contains(x) {
            let i = choose|i: int| 0 <= i < 1 && one[i] == x;
            assert(f[f.len() - 1] == last);
        }
        if f.drop_last().contains((x.0, x.1)) {
            let i = choose|i: int| 0 <= i < f.drop_last().len() && f.drop_last()[i] == (x.0, x.1);
            assert(f[i] == (x.0, x.1));
        }
        if f.contains((x.0, x.1)) {
            let i = choose|i: int| 0 <= i < f.len() && f[i] == (x.0, x.1);
            if i < f.len() - 1 {
                assert(f.drop_last()[i] == (x.0, x.1));
            } else {
                assert(one[0] == (x.0, x.1, Construct::CodeFence) || x.2 != Construct::CodeFence);
            }
        }
    }
}

/// What a scan of `[a, b]` finds: the blocks that meet it, and what each
/// line of it holds given the blocks.
pub proof fn lemma_range_in_blocks(t: Seq<u8>, a: int, b: int, x: SpanV)
    requires
        0 <= a <= b,
    ensures
        (md_range(t, a, b) + tok_range(t, a, b)).contains(x) <==> (fence_spans(blocks_of(t), a, b).contains(x) || (
        line_start_of(t, clamp(t, a)) <= x.0 < line_end_of(t, clamp(t, b)) && visible(
            t,
            blocks_of(t),
            line_start_of(t, x.0),
        ).contains(x))),
{
    broadcast use lemma_seq_concat_contains_all_elements;

    let f = blocks_of(t);
    let s = line_start_of(t, clamp(t, a));
    let e = line_end_of(t, clamp(t, b));
    lemma_line_start_of(t, clamp(t, a));
    lemma_line_end(t, clamp(t, b));
    assert(md_range(t, a, b) == fence_spans(f, a, b) + md_lines(t, f, s, e));
    lemma_md_lines_in_blocks(t, f, s, e, x);
    lemma_tok_lines_contains(t, s, e, x);
}

/// What a whole-buffer scan finds, chips aside: the blocks, and what each
/// line holds given the blocks.
pub proof fn lemma_md_tok_in_blocks(t: Seq<u8>, x: SpanV)
    ensures
        md_tok(t).contains(x) <==> (fence_spans(blocks_of(t), 0, t.len() as int).contains(x) || (0 <= x.0 < t.len()
            && visible(t, blocks_of(t), line_start_of(t, x.0)).contains(x))),
{
    lemma_range_in_blocks(t, 0, t.len() as int, x);
    lemma_line_end_is(t, t.len() as int, t.len() as int);
}

proof fn lemma_enclosing_props(t: Seq<u8>, p: int, held: Option<int>, s: int, e: int)
    requires
        is_line_start(t, p),
        e <= t.len(),
        held matches Some(bs) ==> is_line_start(t, bs),
    ensures
        enclosing_from(t, p, held, s, e) matches Some(r) ==> is_line_start(t, r.0) && r.0 <= s && e <= r.1
            && is_line_end(t, r.1),
    decreases t.len() - p,
{
    lemma_line_end(t, p);
    let le = line_end_of(t, p);
    let f = is_fence_line(t.subrange(p, le));
    let next: Option<int> = match held {
        None => if f {
            Some(p)
        } else {
            None
        },
        Some(bs) => if f {
            None
        } else {
            held
        },
    };
    if le < t.len() {
        assert(t[le] == NEWLINE);
        assert(is_line_start(t, le + 1));
        lemma_enclosing_props(t, le + 1, next, s, e);
    }
}

/// The dirty range is whole lines, and holds every line the edit's
/// inserted text touches.
pub proof fn lemma_dirty_covers(t: Seq<u8>, ts: int, te: int)
    requires
        0 <= ts <= te,
    ensures
        is_line_start(t, dirty(t, ts, te).0),
        is_line_end(t, dirty(t, ts, te).1),
        dirty(t, ts, te).0 <= line_start_of(t, clamp(t, ts)),
        line_end_of(t, clamp(t, te)) <= dirty(t, ts, te).1,
{
    let s = line_start_of(t, clamp(t, ts));
    let e = line_end_of(t, clamp(t, te));
    lemma_line_start_of(t, clamp(t, ts));
    lemma_line_end(t, clamp(t, te));
    lemma_line_end_is(t, t.len() as int, t.len() as int);
    assert(is_line_start(t, 0));
    lemma_enclosing_props(t, 0, None, s, e);
}

// ---------------------------------------------------------------- blocks clear of the edit

/// A block runs from a delimiter line to the end of its closing line, or
/// to the end of the buffer when nothing closes it.
pub open spec fn block_shape(t: Seq<u8>, b: (int, int)) -> bool {
    &&& is_line_start(t, b.0)
    &&& is_fence_line(line_at(t, b.0))
    &&& b.0 < b.1 <= t.len()
    &&& (b.1 == t.len() || (t[b.1] == NEWLINE && is_fence_line(line_at(t, line_start_of(t, b.1)))))
}

proof fn lemma_blocks_shape_from(t: Seq<u8>, p: int, o: Option<(int, u8, int)>)
    requires
        is_line_start(t, p),
        open_ok(o),
        o matches Some((bs, _m, _k)) ==> is_line_start(t, bs) && is_fence_line(line_at(t, bs)) && bs < p,
    ensures
        forall|b: (int, int)| #[trigger] fences_from(t, p, o).contains(b) ==> block_shape(t, b),
    decreases t.len() - p,
{
    broadcast use lemma_seq_concat_contains_all_elements;

    lemma_line_end(t, p);
    let e = line_end_of(t, p);
    let l = t.subrange(p, e);
    let closed: Seq<(int, int)> = match o {
        Some((bs, m, k)) => if closes(l, m, k) {
            seq![(bs, e)]
        } else {
            Seq::empty()
        },
        None => Seq::empty(),
    };
    let still_open: Option<(int, u8, int)> = match o {
        None => match fence_of(l) {
            Some((m, k)) => Some((p, m, k)),
            None => None,
        },
        Some((bs, m, k)) => if closes(l, m, k) {
            None
        } else {
            o
        },
    };
    match o {
        Some((bs, m, k)) => if closes(l, m, k) {
            lemma_closes_is_fence(l, m, k);
            lemma_line_start_within(t, p, e);
            assert(line_at(t, p) == l);
            assert forall|b: (int, int)| #[trigger] closed.contains(b) implies block_shape(t, b) by {
                let i = choose|i: int| 0 <= i < closed.len() && closed[i] == b;
            }
        },
        None => {},
    }
    if fence_of(l) is Some {
        assert(line_at(t, p) == l);
        assert(l.len() > 0);
    }
    if e >= t.len() {
        let tail = tail_block(still_open, t.len() as int);
        assert forall|b: (int, int)| #[trigger] tail.contains(b) implies block_shape(t, b) by {
            let i = choose|i: int| 0 <= i < tail.len() && tail[i] == b;
        }
        assert(fences_from(t, p, o) == closed + tail);
    } else {
        assert(t[e] == NEWLINE);
        assert(is_line_start(t, e + 1));
        lemma_blocks_shape_from(t, e + 1, still_open);
        assert(fences_from(t, p, o) == closed + fences_from(t, e + 1, still_open));
    }
}

/// Every block of a buffer has the shape of one.
pub proof fn lemma_blocks_shape(t: Seq<u8>)
    ensures
        forall|b: (int, int)| #[trigger] blocks_of(t).contains(b) ==> block_shape(t, b),
{
    assert(is_line_start(t, 0));
    lemma_blocks_shape_from(t, 0, None);
}

/// Line starts never go backwards.
pub proof fn lemma_line_start_mono(t: Seq<u8>, a: int, b: int)
    requires
        0 <= a <= b <= t.len(),
    ensures
        line_start_of(t, a) <= line_start_of(t, b),
    decreases b,
{
    if a < b {
        lemma_line_start_mono(t, a, b - 1);
        lemma_line_start_of(t, b - 1);
    }
}

/// The edit touches no delimiter line, before or after it, and no block
/// of the old buffer ends where the edit begins.
pub open spec fn clear_of_fences(old: Seq<u8>, new: Seq<u8>, rs: int, re: int, ins: int) -> bool {
    &&& edited(old, new, rs, re, ins)
    &&& plain_lines(old, line_start_of(old, rs), line_end_of(old, re))
    &&& plain_lines(new, line_start_of(new, rs), line_end_of(new, rs + ins))
    &&& forall|b: (int, int)| #[trigger] blocks_of(old).contains(b) ==> b.1 != rs
}

/// An old block starts outside the edited lines, and ends before the edit,
/// after the edited lines, or with the buffer.
pub proof fn lemma_old_block_clear(old: Seq<u8>, new: Seq<u8>, rs: int, re: int, ins: int, b: (int, int))
    requires
        clear_of_fences(old, new, rs, re, ins),
        blocks_of(old).contains(b),
    ensures
        b.0 < line_start_of(old, rs) || b.0 > line_end_of(old, re),
        b.1 < rs || b.1 > line_end_of(old, re) || b.1 == old.len(),
        0 <= b.0 < b.1 <= old.len(),
{
    lemma_blocks_shape(old);
    let a = line_start_of(old, rs);
    let bo = line_end_of(old, re);
    lemma_line_end(old, re);
    if a <= b.0 <= bo {
        assert(is_line_start(old, b.0) && a <= b.0 <= bo);
    }
    if rs <= b.1 <= bo && b.1 < old.len() {
        let q = line_start_of(old, b.1);
        lemma_line_start_mono(old, rs, b.1);
        lemma_line_start_of(old, b.1);
        assert(is_line_start(old, q) && a <= q <= bo);
    }
}

/// The moved blocks, entry by entry.
proof fn lemma_moved_blocks_index(f: Seq<(int, int)>, rs: int, d: int, i: int)
    requires
        0 <= i < f.len(),
    ensures
        moved_blocks(f, rs, d).len() == f.len(),
        moved_blocks(f, rs, d)[i] == (moved(f[i].0, rs, d), moved(f[i].1, rs, d)),
        f.contains(f[i]),
{
}

/// A line before the edited lines is inside a block exactly when it was.
pub proof fn lemma_in_blocks_before(old: Seq<u8>, new: Seq<u8>, rs: int, re: int, ins: int, q: int)
    requires
        clear_of_fences(old, new, rs, re, ins),
        0 <= q < line_start_of(old, rs),
    ensures
        in_blocks(blocks_of(new), q) <==> in_blocks(blocks_of(old), q),
{
    let d = ins - (re - rs);
    let fo = blocks_of(old);
    let fnew = blocks_of(new);
    lemma_blocks_moved(old, new, rs, re, ins);
    lemma_line_start_of(old, rs);
    lemma_line_end(old, re);
    lemma_line_end(new, rs + ins);
    crate::composer_scan::incremental::lemma_suffix_line_end(old, new, rs, re, ins, rs + ins);
    if in_blocks(fo, q) {
        let i = choose|i: int| 0 <= i < fo.len() && #[trigger] fo[i].0 <= q && q < fo[i].1;
        lemma_moved_blocks_index(fo, rs, d, i);
        lemma_old_block_clear(old, new, rs, re, ins, fo[i]);
        assert(fnew[i].0 <= q && q < fnew[i].1);
    }
    if in_blocks(fnew, q) {
        let i = choose|i: int| 0 <= i < fnew.len() && #[trigger] fnew[i].0 <= q && q < fnew[i].1;
        lemma_moved_blocks_index(fo, rs, d, i);
        lemma_old_block_clear(old, new, rs, re, ins, fo[i]);
        assert(fo[i].0 <= q && q < fo[i].1);
    }
}

/// A line after the edited lines is inside a block exactly when its old
/// counterpart was.
pub proof fn lemma_in_blocks_after(old: Seq<u8>, new: Seq<u8>, rs: int, re: int, ins: int, q: int)
    requires
        clear_of_fences(old, new, rs, re, ins),
        line_end_of(old, re) < q <= old.len(),
    ensures
        in_blocks(blocks_of(new), q + (ins - (re - rs))) <==> in_blocks(blocks_of(old), q),
{
    let d = ins - (re - rs);
    let fo = blocks_of(old);
    let fnew = blocks_of(new);
    let q2 = q + d;
    lemma_blocks_moved(old, new, rs, re, ins);
    lemma_line_start_of(old, rs);
    lemma_line_end(old, re);
    lemma_line_end(new, rs + ins);
    crate::composer_scan::incremental::lemma_suffix_line_end(old, new, rs, re, ins, rs + ins);
    if in_blocks(fo, q) {
        let i = choose|i: int| 0 <= i < fo.len() && #[trigger] fo[i].0 <= q && q < fo[i].1;
        lemma_moved_blocks_index(fo, rs, d, i);
        lemma_old_block_clear(old, new, rs, re, ins, fo[i]);
        assert(fnew[i].0 <= q2 && q2 < fnew[i].1);
    }
    if in_blocks(fnew, q2) {
        let i = choose|i: int| 0 <= i < fnew.len() && #[trigger] fnew[i].0 <= q2 && q2 < fnew[i].1;
        lemma_moved_blocks_index(fo, rs, d, i);
        lemma_old_block_clear(old, new, rs, re, ins, fo[i]);
        assert(fo[i].0 <= q && q < fo[i].1);
    }
}

// ---------------------------------------------------------------- the law

/// Moving a line that is inside a block exactly when its counterpart is
/// moves what it holds.
proof fn lemma_moved_visible(
    a: Seq<u8>,
    fa: Seq<(int, int)>,
    qa: int,
    b: Seq<u8>,
    fb: Seq<(int, int)>,
    qb: int,
    x: SpanV,
)
    requires
        line_at(a, qa) == line_at(b, qb),
        in_blocks(fa, qa) == in_blocks(fb, qb),
        visible(a, fa, qa).contains(x),
    ensures
        visible(b, fb, qb).contains((x.0 + (qb - qa), x.1 + (qb - qa), x.2)),
{
    broadcast use lemma_seq_concat_contains_all_elements;

    let y = (x.0 + (qb - qa), x.1 + (qb - qa), x.2);
    let l = line_at(a, qa);
    lemma_shift_contains(line_spans(l), qa, x);
    lemma_shift_contains(line_spans(l), qb, y);
    lemma_shift_contains(token_line_spans(l), qa, x);
    lemma_shift_contains(token_line_spans(l), qb, y);
}

proof fn lemma_visible_fits(t: Seq<u8>, f: Seq<(int, int)>, q: int, x: SpanV)
    requires
        is_line_start(t, q),
        visible(t, f, q).contains(x),
    ensures
        q <= x.0 < x.1 <= line_end_of(t, q),
        x.2 != Construct::Attachment,
{
    broadcast use lemma_seq_concat_contains_all_elements;

    lemma_local_fits(t, q);
}

/// The places an edit that stays clear of fences relates.
proof fn lemma_clear_layout(old: Seq<u8>, new: Seq<u8>, rs: int, re: int, ins: int)
    requires
        clear_of_fences(old, new, rs, re, ins),
    ensures
        line_start_of(old, rs) == line_start_of(new, rs),
        is_line_start(old, line_start_of(old, rs)),
        is_line_start(new, line_start_of(new, rs)),
        line_start_of(old, rs) <= rs,
        re <= line_end_of(old, re) <= old.len(),
        rs + ins <= line_end_of(new, rs + ins) <= new.len(),
        line_end_of(new, rs + ins) == line_end_of(old, re) + (ins - (re - rs)),
        blocks_of(new) == moved_blocks(blocks_of(old), rs, ins - (re - rs)),
        blocks_fit(blocks_of(old), old.len() as int),
        blocks_fit(blocks_of(new), new.len() as int),
{
    lemma_prefix_line_start(old, new, rs, re, ins, rs);
    lemma_line_start_of(old, rs);
    lemma_line_start_of(new, rs);
    lemma_line_end(old, re);
    lemma_line_end(new, rs + ins);
    crate::composer_scan::incremental::lemma_suffix_line_end(old, new, rs, re, ins, rs + ins);
    lemma_blocks_moved(old, new, rs, re, ins);
    lemma_fences_fit(old, 0, None);
    lemma_fences_fit(new, 0, None);
}

/// A block kept from the old scan is one a fresh scan of the new buffer
/// finds.
proof fn lemma_kept_block_in_new(old: Seq<u8>, new: Seq<u8>, rs: int, re: int, ins: int, x: SpanV, y: SpanV)
    requires
        clear_of_fences(old, new, rs, re, ins),
        fence_spans(blocks_of(old), 0, old.len() as int).contains(x),
        shifted(x, rs, re, ins) == Some(y),
    ensures
        fence_spans(blocks_of(new), 0, new.len() as int).contains(y),
{
    let d = ins - (re - rs);
    let fo = blocks_of(old);
    let fnew = blocks_of(new);
    lemma_clear_layout(old, new, rs, re, ins);
    lemma_fence_spans_contains(fo, 0, old.len() as int, x);
    let b = (x.0, x.1);
    let i = choose|i: int| 0 <= i < fo.len() && fo[i] == b;
    lemma_moved_blocks_index(fo, rs, d, i);
    lemma_old_block_clear(old, new, rs, re, ins, b);
    assert(fnew.contains(fnew[i]));
    lemma_fence_spans_contains(fnew, 0, new.len() as int, y);
}

/// A line's span kept from the old scan is one a fresh scan of the new
/// buffer finds.
proof fn lemma_kept_visible_in_new(
    old: Seq<u8>,
    new: Seq<u8>,
    rs: int,
    re: int,
    ins: int,
    ds: int,
    de: int,
    x: SpanV,
    y: SpanV,
)
    requires
        clear_of_fences(old, new, rs, re, ins),
        is_line_start(new, ds),
        ds <= line_start_of(new, rs),
        line_end_of(new, rs + ins) <= de,
        0 <= x.0 < old.len(),
        visible(old, blocks_of(old), line_start_of(old, x.0)).contains(x),
        shifted(x, rs, re, ins) == Some(y),
        !overlaps_range(y, ds, de),
    ensures
        0 <= y.0 < new.len(),
        visible(new, blocks_of(new), line_start_of(new, y.0)).contains(y),
{
    let d = ins - (re - rs);
    let fo = blocks_of(old);
    let fnew = blocks_of(new);
    lemma_clear_layout(old, new, rs, re, ins);
    crate::composer_scan::incremental::lemma_edited_bytes(old, new, rs, re, ins);
    let bo = line_end_of(old, re);
    lemma_line_end(old, re);
    let q = line_start_of(old, x.0);
    lemma_line_start_of(old, x.0);
    lemma_visible_fits(old, fo, q, x);
    lemma_line_end(old, q);
    if x.1 <= rs {
        if x.0 < ds {
            assert(old[ds - 1] == NEWLINE);
            let k = line_end_of(old, q);
            assert(k <= ds - 1) by {
                if k > ds - 1 {
                    assert(old[ds - 1] != NEWLINE);
                }
            }
            lemma_prefix_line_end(old, new, rs, re, ins, q, k);
            lemma_prefix_line_start(old, new, rs, re, ins, x.0);
            lemma_in_blocks_before(old, new, rs, re, ins, q);
            lemma_moved_visible(old, fo, q, new, fnew, q, x);
            assert((x.0 + (q - q), x.1 + (q - q), x.2) == x);
        } else {
            assert(overlaps_range(y, ds, de));
        }
    } else {
        if x.0 > bo {
            assert(old[bo] == NEWLINE);
            lemma_line_start_after(old, bo, x.0);
            assert(new[bo + d] == NEWLINE);
            lemma_suffix_line_start(old, new, rs, re, ins, bo + d, x.0 + d);
            lemma_suffix_line_end(old, new, rs, re, ins, q + d);
            lemma_in_blocks_after(old, new, rs, re, ins, q);
            lemma_moved_visible(old, fo, q, new, fnew, q + d, x);
        } else {
            assert(x.0 < bo) by {
                if x.0 == bo && bo < old.len() {
                    assert(old[bo] != NEWLINE);
                }
            }
            assert(overlaps_range(y, ds, de));
        }
    }
}

/// A span kept from the old scan is one a fresh scan of the new buffer
/// finds.
proof fn lemma_kept_in_new_fenced(
    old: Seq<u8>,
    new: Seq<u8>,
    rs: int,
    re: int,
    ins: int,
    ds: int,
    de: int,
    x: SpanV,
    y: SpanV,
)
    requires
        clear_of_fences(old, new, rs, re, ins),
        is_line_start(new, ds),
        ds <= line_start_of(new, rs),
        line_end_of(new, rs + ins) <= de,
        md_tok(old).contains(x),
        shifted(x, rs, re, ins) == Some(y),
        !overlaps_range(y, ds, de),
    ensures
        md_tok(new).contains(y),
{
    lemma_md_tok_in_blocks(old, x);
    lemma_md_tok_in_blocks(new, y);
    if fence_spans(blocks_of(old), 0, old.len() as int).contains(x) {
        lemma_kept_block_in_new(old, new, rs, re, ins, x, y);
    } else {
        lemma_kept_visible_in_new(old, new, rs, re, ins, ds, de, x, y);
    }
}

/// A block a fresh scan finds that the dirty range does not meet was in
/// the old scan, and is kept.
proof fn lemma_new_block_kept(old: Seq<u8>, new: Seq<u8>, rs: int, re: int, ins: int, ds: int, de: int, y: SpanV) -> (x: SpanV)
    requires
        clear_of_fences(old, new, rs, re, ins),
        new.len() <= usize::MAX,
        ds <= line_start_of(new, rs),
        line_end_of(new, rs + ins) <= de,
        fence_spans(blocks_of(new), 0, new.len() as int).contains(y),
        !fence_spans(blocks_of(new), ds, de).contains(y),
    ensures
        md_tok(old).contains(x),
        x.2 != Construct::Attachment,
        shifted(x, rs, re, ins) == Some(y),
        !overlaps_range(y, ds, de),
{
    let d = ins - (re - rs);
    let fo = blocks_of(old);
    let fnew = blocks_of(new);
    lemma_clear_layout(old, new, rs, re, ins);
    lemma_fence_spans_contains(fnew, 0, new.len() as int, y);
    lemma_fence_spans_contains(fnew, ds, de, y);
    let i = choose|i: int| 0 <= i < fnew.len() && fnew[i] == (y.0, y.1);
    lemma_moved_blocks_index(fo, rs, d, i);
    let b = fo[i];
    lemma_old_block_clear(old, new, rs, re, ins, b);
    let x = (b.0, b.1, Construct::CodeFence);
    lemma_fence_spans_contains(fo, 0, old.len() as int, x);
    lemma_md_tok_in_blocks(old, x);
    x
}

/// A line's span a fresh scan finds outside the dirty range was in the
/// old scan, and is kept.
proof fn lemma_new_visible_kept(old: Seq<u8>, new: Seq<u8>, rs: int, re: int, ins: int, ds: int, de: int, y: SpanV) -> (x: SpanV)
    requires
        clear_of_fences(old, new, rs, re, ins),
        new.len() <= usize::MAX,
        is_line_start(new, ds),
        is_line_end(new, de),
        ds <= line_start_of(new, rs),
        line_end_of(new, rs + ins) <= de,
        0 <= y.0 < new.len(),
        visible(new, blocks_of(new), line_start_of(new, y.0)).contains(y),
        !(ds <= y.0 < de),
    ensures
        md_tok(old).contains(x),
        x.2 != Construct::Attachment,
        shifted(x, rs, re, ins) == Some(y),
        !overlaps_range(y, ds, de),
{
    let d = ins - (re - rs);
    let fo = blocks_of(old);
    let fnew = blocks_of(new);
    lemma_clear_layout(old, new, rs, re, ins);
    crate::composer_scan::incremental::lemma_edited_bytes(old, new, rs, re, ins);
    let q = line_start_of(new, y.0);
    lemma_line_start_of(new, y.0);
    lemma_visible_fits(new, fnew, q, y);
    lemma_line_end(new, q);
    if y.0 < ds {
        assert(new[ds - 1] == NEWLINE);
        let k = line_end_of(new, q);
        assert(k <= ds - 1) by {
            if k > ds - 1 {
                assert(new[ds - 1] != NEWLINE);
            }
        }
        lemma_prefix_line_end(old, new, rs, re, ins, q, k);
        lemma_prefix_line_start(old, new, rs, re, ins, y.0);
        lemma_in_blocks_before(old, new, rs, re, ins, q);
        lemma_moved_visible(new, fnew, q, old, fo, q, y);
        assert((y.0 + (q - q), y.1 + (q - q), y.2) == y);
        lemma_md_tok_in_blocks(old, y);
        y
    } else {
        assert(new[de] == NEWLINE);
        assert(y.0 > de) by {
            if y.0 == de {
                assert(new[de] != NEWLINE);
            }
        }
        lemma_line_start_after(new, de, y.0);
        lemma_suffix_line_start(old, new, rs, re, ins, de, y.0);
        lemma_suffix_line_end(old, new, rs, re, ins, q);
        lemma_in_blocks_after(old, new, rs, re, ins, q - d);
        lemma_moved_visible(new, fnew, q, old, fo, q - d, y);
        let x = (y.0 - d, y.1 - d, y.2);
        assert((y.0 + (q - d - q), y.1 + (q - d - q), y.2) == x);
        lemma_md_tok_in_blocks(old, x);
        x
    }
}

/// When no line the edit touches is a fence delimiter, before or after the
/// edit, and no block of the old buffer ends where the edit begins, a
/// rescan finds exactly what a fresh scan finds: the kept spans, the dirty
/// range read again and the chips found anew are the spans of the new
/// buffer.
pub proof fn lemma_rescan_agrees_clear_of_fences(
    old: Seq<u8>,
    new: Seq<u8>,
    old_refs: Seq<Seq<u8>>,
    refs: Seq<Seq<u8>>,
    prev: Seq<SpanV>,
    rs: int,
    re: int,
    ins: int,
)
    requires
        clear_of_fences(old, new, rs, re, ins),
        new.len() <= usize::MAX,
        same_members(prev, all_spans(old, old_refs)),
    ensures
        same_members(rescan_spans(new, refs, prev, rs, re, ins), all_spans(new, refs)),
{
    broadcast use lemma_seq_concat_contains_all_elements;

    lemma_clear_layout(old, new, rs, re, ins);
    lemma_dirty_covers(new, rs, rs + ins);
    assert(clamp(new, rs) == rs);
    assert(clamp(new, rs + ins) == rs + ins);
    let ds = dirty(new, rs, rs + ins).0;
    let de = dirty(new, rs, rs + ins).1;
    let fnew = blocks_of(new);
    lemma_line_end(new, ds);
    lemma_line_start_within(new, ds, ds);
    lemma_line_end_is(new, de, de);
    assert(clamp(new, ds) == ds);
    assert(clamp(new, de) == de);
    let rescanned = rescan_spans(new, refs, prev, rs, re, ins);
    let fresh = all_spans(new, refs);
    let kept_part = kept(prev, rs, re, ins, ds, de);
    assert(rescanned == kept_part + md_range(new, ds, de) + tok_range(new, ds, de) + chip_spans(new, refs));
    assert(fresh == md_tok(new) + chip_spans(new, refs));
    assert forall|y: SpanV| rescanned.contains(y) <==> fresh.contains(y) by {
        lemma_range_in_blocks(new, ds, de, y);
        lemma_md_tok_in_blocks(new, y);
        lemma_fence_spans_contains(fnew, ds, de, y);
        lemma_fence_spans_contains(fnew, 0, new.len() as int, y);
        assert((kept_part + md_range(new, ds, de) + tok_range(new, ds, de)).contains(y) <==> (kept_part.contains(y)
            || (md_range(new, ds, de) + tok_range(new, ds, de)).contains(y)));
        if kept_part.contains(y) {
            let x = lemma_kept_source(prev, rs, re, ins, ds, de, y);
            assert(all_spans(old, old_refs).contains(x));
            if chip_spans(old, old_refs).contains(x) {
                lemma_chips_are_attachments(old, old_refs, x);
            }
            lemma_kept_in_new_fenced(old, new, rs, re, ins, ds, de, x, y);
        }
        if md_tok(new).contains(y) && !(md_range(new, ds, de) + tok_range(new, ds, de)).contains(y) {
            if fence_spans(fnew, 0, new.len() as int).contains(y) {
                let x = lemma_new_block_kept(old, new, rs, re, ins, ds, de, y);
                assert(all_spans(old, old_refs).contains(x));
                lemma_kept_from(prev, rs, re, ins, ds, de, x, y);
            } else {
                let x = lemma_new_visible_kept(old, new, rs, re, ins, ds, de, y);
                assert(all_spans(old, old_refs).contains(x));
                lemma_kept_from(prev, rs, re, ins, ds, de, x, y);
            }
        }
    }
}

/// In a buffer with no fence before or after the edit, a rescan finds
/// exactly what a fresh scan finds.
pub proof fn lemma_rescan_agrees_without_fences(
    old: Seq<u8>,
    new: Seq<u8>,
    old_refs: Seq<Seq<u8>>,
    refs: Seq<Seq<u8>>,
    prev: Seq<SpanV>,
    rs: int,
    re: int,
    ins: int,
)
    requires
        edited(old, new, rs, re, ins),
        new.len() <= usize::MAX,
        fence_free(old),
        fence_free(new),
        same_members(prev, all_spans(old, old_refs)),
    ensures
        same_members(rescan_spans(new, refs, prev, rs, re, ins), all_spans(new, refs)),
{
    lemma_fence_free_blocks(old);
    assert forall|b: (int, int)| #[trigger] blocks_of(old).contains(b) implies b.1 != rs by {
        let i = choose|i: int| 0 <= i < blocks_of(old).len() && blocks_of(old)[i] == b;
    }
    lemma_rescan_agrees_clear_of_fences(old, new, old_refs, refs, prev, rs, re, ins);
}

/// A block still open at the line starting at `p` shows up among the
/// blocks from there on, ending no earlier than that line does.
proof fn lemma_open_block_appears(t: Seq<u8>, p: int, bs: int, m: u8, k: int)
    requires
        is_line_start(t, p),
        open_ok(Some((bs, m, k))),
    ensures
        exists|x: int| x >= line_end_of(t, p) && #[trigger] fences_from(t, p, Some((bs, m, k))).contains((bs, x)),
    decreases t.len() - p,
{
    broadcast use lemma_seq_concat_contains_all_elements;

    lemma_line_end(t, p);
    let e = line_end_of(t, p);
    let l = t.subrange(p, e);
    let r = fences_from(t, p, Some((bs, m, k)));
    if closes(l, m, k) {
        let closed = seq![(bs, e)];
        assert(closed[0] == (bs, e));
        if e >= t.len() {
            assert(r == closed + Seq::<(int, int)>::empty());
        } else {
            assert(r == closed + fences_from(t, e + 1, None));
        }
        assert(r.contains((bs, e)));
    } else if e >= t.len() {
        let tail = seq![(bs, t.len() as int)];
        assert(r == Seq::<(int, int)>::empty() + tail);
        assert(tail[0] == (bs, t.len() as int));
        assert(r.contains((bs, t.len() as int)));
    } else {
        assert(is_line_start(t, e + 1));
        lemma_open_block_appears(t, e + 1, bs, m, k);
        lemma_line_end(t, e + 1);
        let x = choose|x: int|
            x >= line_end_of(t, e + 1) && #[trigger] fences_from(t, e + 1, Some((bs, m, k))).contains((bs, x));
        assert(r == Seq::<(int, int)>::empty() + fences_from(t, e + 1, Some((bs, m, k))));
        assert(r.contains((bs, x)));
    }
}

/// Every fence delimiter line lies in a block: it opens one, closes one,
/// or sits inside one.
proof fn lemma_fence_line_in_block(t: Seq<u8>, p: int, o: Option<(int, u8, int)>, q: int)
    requires
        is_line_start(t, p),
        open_ok(o),
        o matches Some((bs, _m, _k)) ==> bs < p,
        is_line_start(t, q),
        p <= q,
        is_fence_line(line_at(t, q)),
    ensures
        exists|b: (int, int)| #[trigger] fences_from(t, p, o).contains(b) && b.0 <= q < b.1,
    decreases t.len() - p,
{
    broadcast use lemma_seq_concat_contains_all_elements;

    lemma_line_end(t, p);
    let e = line_end_of(t, p);
    let l = t.subrange(p, e);
    let r = fences_from(t, p, o);
    let closed: Seq<(int, int)> = match o {
        Some((bs, m, k)) => if closes(l, m, k) {
            seq![(bs, e)]
        } else {
            Seq::empty()
        },
        None => Seq::empty(),
    };
    let still_open: Option<(int, u8, int)> = match o {
        None => match fence_of(l) {
            Some((m, k)) => Some((p, m, k)),
            None => None,
        },
        Some((bs, m, k)) => if closes(l, m, k) {
            None
        } else {
            o
        },
    };
    if e >= t.len() {
        assert(r == closed + tail_block(still_open, t.len() as int));
    } else {
        assert(r == closed + fences_from(t, e + 1, still_open));
    }
    if q == p {
        assert(line_at(t, p) == l);
        assert(l.len() > 0);
        match o {
            Some((bs, m, k)) => {
                if closes(l, m, k) {
                    assert(closed[0] == (bs, e));
                    assert(r.contains((bs, e)));
                } else if e >= t.len() {
                    let tail = tail_block(still_open, t.len() as int);
                    assert(tail[0] == (bs, t.len() as int));
                    assert(r.contains((bs, t.len() as int)));
                } else {
                    assert(is_line_start(t, e + 1));
                    lemma_open_block_appears(t, e + 1, bs, m, k);
                    lemma_line_end(t, e + 1);
                    let x = choose|x: int|
                        x >= line_end_of(t, e + 1) && #[trigger] fences_from(t, e + 1, Some((bs, m, k))).contains(
                            (bs, x),
                        );
                    assert(r.contains((bs, x)));
                }
            },
            None => {
                let (m, k) = fence_of(l).unwrap();
                if e >= t.len() {
                    let tail = tail_block(still_open, t.len() as int);
                    assert(tail[0] == (p, t.len() as int));
                    assert(r.contains((p, t.len() as int)));
                } else {
                    assert(is_line_start(t, e + 1));
                    lemma_open_block_appears(t, e + 1, p, m, k);
                    lemma_line_end(t, e + 1);
                    let x = choose|x: int|
                        x >= line_end_of(t, e + 1) && #[trigger] fences_from(t, e + 1, Some((p, m, k))).contains(
                            (p, x),
                        );
                    assert(r.contains((p, x)));
                }
            },
        }
    } else {
        assert(t[q - 1] == NEWLINE);
        assert(e <= q - 1);
        assert(e < t.len());
        assert(is_line_start(t, e + 1));
        lemma_fence_line_in_block(t, e + 1, still_open, q);
        let b = choose|b: (int, int)| #[trigger] fences_from(t, e + 1, still_open).contains(b) && b.0 <= q < b.1;
        assert(r.contains(b));
    }
}

/// Lines the fence test passes over are no fence delimiters.
proof fn lemma_untouched_plain(t: Seq<u8>, p: int, e: int)
    requires
        is_line_start(t, p),
        is_line_end(t, e),
        p <= e,
        !touches_fence_from(t, p, e),
    ensures
        plain_lines(t, p, e),
    decreases t.len() - p,
{
    lemma_line_end(t, p);
    let le = line_end_of(t, p);
    assert(le <= e) by {
        if le > e {
            assert(t[e] == NEWLINE);
        }
    }
    assert(piece_end(t, p, e) == le);
    assert(!is_fence_line(line_at(t, p)));
    if le < e {
        assert(is_line_start(t, le + 1));
        lemma_untouched_plain(t, le + 1, e);
    }
    assert forall|q: int| #[trigger] is_line_start(t, q) && p <= q <= e implies !is_fence_line(line_at(t, q)) by {
        if q > p {
            assert(t[q - 1] == NEWLINE);
            assert(le < q);
        }
    }
}

/// Whether a rescan may reuse what the old scan found: the edit stays
/// inside the buffer, and no fenced block the old scan found meets the
/// lines the edit touched (in the old buffer, they run from the line start
/// at the edit to the line end after the replaced bytes).
pub open spec fn reusable(new: Seq<u8>, prev: Seq<SpanV>, rs: int, re: int, ins: int) -> bool {
    let ls = line_start_of(new, rs);
    let le = line_end_of(new, rs + ins);
    &&& 0 <= rs <= re
    &&& 0 <= ins
    &&& rs + ins <= new.len()
    &&& forall|i: int|
        0 <= i < prev.len() && (#[trigger] prev[i]).2 == Construct::CodeFence ==> !(prev[i].0 <= le - ins + (re
            - rs) && ls <= prev[i].1)
}

/// When the old scan's blocks keep clear of the edited lines, and the new
/// edited lines hold no delimiter, the edit is clear of fences.
proof fn lemma_reusable_is_clear(
    old: Seq<u8>,
    new: Seq<u8>,
    old_refs: Seq<Seq<u8>>,
    prev: Seq<SpanV>,
    rs: int,
    re: int,
    ins: int,
)
    requires
        edited(old, new, rs, re, ins),
        same_members(prev, all_spans(old, old_refs)),
        reusable(new, prev, rs, re, ins),
        !touches_fence_from(new, line_start_of(new, rs), line_end_of(new, rs + ins)),
    ensures
        clear_of_fences(old, new, rs, re, ins),
{
    broadcast use lemma_seq_concat_contains_all_elements;

    let ls = line_start_of(new, rs);
    let le = line_end_of(new, rs + ins);
    let d = ins - (re - rs);
    lemma_prefix_line_start(old, new, rs, re, ins, rs);
    lemma_suffix_line_end(old, new, rs, re, ins, rs + ins);
    assert(rs + ins - d == re);
    let le_old = line_end_of(old, re);
    assert(le_old == le - ins + (re - rs));
    lemma_line_end(old, re);
    lemma_line_end(new, rs + ins);
    lemma_line_start_of(new, rs);
    assert(is_line_start(new, ls)) by {
        lemma_line_start_of(new, rs);
    }
    lemma_untouched_plain(new, ls, le);
    lemma_blocks_shape(old);
    // A block of the old buffer is a fence span the old scan found.
    assert forall|b: (int, int)| #[trigger] blocks_of(old).contains(b) implies !(b.0 <= le_old && ls <= b.1) by {
        assert(block_shape(old, b));
        let x: SpanV = (b.0, b.1, Construct::CodeFence);
        lemma_fence_spans_contains(blocks_of(old), 0, old.len() as int, x);
        assert(fence_spans(blocks_of(old), 0, old.len() as int).contains(x));
        assert(md_range(old, 0, old.len() as int) == fence_spans(blocks_of(old), 0, old.len() as int) + (if line_start_of(
            old,
            clamp(old, 0),
        ) > line_end_of(old, clamp(old, old.len() as int)) {
            Seq::<SpanV>::empty()
        } else {
            md_lines(old, blocks_of(old), line_start_of(old, clamp(old, 0)), line_end_of(old, clamp(old, old.len() as int)))
        }));
        assert(md_range(old, 0, old.len() as int).contains(x));
        assert(all_spans(old, old_refs).contains(x));
        assert(prev.contains(x));
        let i = choose|i: int| 0 <= i < prev.len() && prev[i] == x;
        assert(prev[i].2 == Construct::CodeFence);
    }
    assert forall|q: int| #[trigger] is_line_start(old, q) && ls <= q <= le_old implies !is_fence_line(
        line_at(old, q),
    ) by {
        if is_fence_line(line_at(old, q)) {
            assert(is_line_start(old, 0));
            lemma_fence_line_in_block(old, 0, None, q);
            let b = choose|b: (int, int)| #[trigger] fences_from(old, 0, None).contains(b) && b.0 <= q < b.1;
            assert(blocks_of(old).contains(b));
        }
    }
    assert forall|b: (int, int)| #[trigger] blocks_of(old).contains(b) implies b.1 != rs by {
        assert(block_shape(old, b));
    }
}

/// A rescan that may reuse what the old scan found finds exactly what a
/// fresh scan finds, whatever the edit: an edit whose new lines hold a
/// fence delimiter rescans the whole buffer, and any other keeps clear of
/// every fence.
pub proof fn lemma_rescan_agrees_when_reusable(
    old: Seq<u8>,
    new: Seq<u8>,
    old_refs: Seq<Seq<u8>>,
    refs: Seq<Seq<u8>>,
    prev: Seq<SpanV>,
    rs: int,
    re: int,
    ins: int,
)
    requires
        edited(old, new, rs, re, ins),
        new.len() <= usize::MAX,
        same_members(prev, all_spans(old, old_refs)),
        reusable(new, prev, rs, re, ins),
    ensures
        same_members(rescan_spans(new, refs, prev, rs, re, ins), all_spans(new, refs)),
{
    assert(clamp(new, rs) == rs);
    assert(clamp(new, rs + ins) == rs + ins);
    if touches_fence_from(new, line_start_of(new, rs), line_end_of(new, rs + ins)) {
        crate::composer_scan::dirty::lemma_fence_edit_dirties_all(new, rs, rs + ins);
        crate::composer_scan::incremental::lemma_rescan_agrees_on_fence_edit(old, new, old_refs, refs, prev, rs, re, ins);
    } else {
        lemma_reusable_is_clear(old, new, old_refs, prev, rs, re, ins);
        lemma_rescan_agrees_clear_of_fences(old, new, old_refs, refs, prev, rs, re, ins);
    }
}

} // verus!
