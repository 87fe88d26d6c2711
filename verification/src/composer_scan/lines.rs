//! Lines and fenced blocks over the whole buffer.
//!
//! A fenced block is resolved over the whole buffer, because whether a line
//! is code depends on a delimiter that may be far above it. Only the
//! delimiter test runs over every line; inline scanning runs only over the
//! lines asked about.

use crate::composer_scan::inline::BACKTICK_BYTE;
use crate::text::{all_ws, find_byte, lead_ws, lead_ws_exec, line_end_of, line_start_of, run_len, run_len_exec};
use vstd::prelude::*;
use vstd::slice::slice_subrange;

verus! {

pub const TILDE: u8 = 0x7e;
pub const NEWLINE: u8 = 0x0a;

/// The fence marker and its run length, if line `l` is a fence delimiter:
/// at most three bytes of indentation, then three or more backticks or
/// tildes. The info string after the run does not matter.
pub open spec fn fence_of(l: Seq<u8>) -> Option<(u8, int)> {
    let i = lead_ws(l);
    if i > 3 || i >= l.len() {
        None
    } else {
        let m = l[i];
        if m != BACKTICK_BYTE && m != TILDE {
            None
        } else {
            let k = run_len(l, i, m);
            if k >= 3 {
                Some((m, k))
            } else {
                None
            }
        }
    }
}

/// Whether line `l` closes a block opened by `k` copies of `m`: the same
/// character at least as many times, at the very start of the line, and
/// nothing after the run but whitespace.
pub open spec fn closes(l: Seq<u8>, m: u8, k: int) -> bool {
    l.len() > 0 && l[0] == m && run_len(l, 0, m) >= k && all_ws(
        l.subrange(run_len(l, 0, m), l.len() as int),
    )
}

/// The fenced blocks from the line starting at `p` on, given the block
/// still open above it (its start, marker and run length). Each block
/// covers its opening fence through its closing one; an unclosed block
/// runs to the end of the buffer.
pub open spec fn fences_from(t: Seq<u8>, p: int, open: Option<(int, u8, int)>) -> Seq<(int, int)>
    decreases t.len() - p,
{
    if p < 0 || p > t.len() {
        Seq::empty()
    } else {
        let e = line_end_of(t, p);
        let l = t.subrange(p, e);
        let closed: Seq<(int, int)> = match open {
            Some((bs, m, k)) => if closes(l, m, k) {
                seq![(bs, e)]
            } else {
                Seq::empty()
            },
            None => Seq::empty(),
        };
        let still_open: Option<(int, u8, int)> = match open {
            None => match fence_of(l) {
                Some((m, k)) => Some((p, m, k)),
                None => None,
            },
            Some((bs, m, k)) => if closes(l, m, k) {
                None
            } else {
                open
            },
        };
        if e >= t.len() || e < p {
            closed + match still_open {
                Some((bs, _m, _k)) => seq![(bs, t.len() as int)],
                None => Seq::empty(),
            }
        } else {
            closed + fences_from(t, e + 1, still_open)
        }
    }
}

/// Every fenced block of the buffer, in order.
pub open spec fn blocks_of(t: Seq<u8>) -> Seq<(int, int)> {
    fences_from(t, 0, None)
}

/// Whether offset `p` is inside one of `blocks`.
pub open spec fn in_blocks(blocks: Seq<(int, int)>, p: int) -> bool {
    exists|i: int| 0 <= i < blocks.len() && #[trigger] blocks[i].0 <= p && p < blocks[i].1
}

pub proof fn lemma_find_byte_range(t: Seq<u8>, i: int, c: u8)
    requires
        0 <= i,
    ensures
        find_byte(t, i, c) matches Some(k) ==> i <= k < t.len() && t[k] == c,
        find_byte(t, i, c) matches Some(k) ==> forall|j: int| i <= j < k ==> t[j] != c,
        find_byte(t, i, c) is None ==> forall|k: int| i <= k < t.len() ==> t[k] != c,
    decreases t.len() - i,
{
    if 0 <= i < t.len() && t[i] != c {
        lemma_find_byte_range(t, i + 1, c);
    }
}

/// `line_end` never falls before `o`, nor after the end of the text.
pub proof fn lemma_line_end(t: Seq<u8>, o: int)
    requires
        0 <= o <= t.len(),
    ensures
        o <= line_end_of(t, o) <= t.len(),
        line_end_of(t, o) < t.len() ==> t[line_end_of(t, o)] == NEWLINE,
        forall|k: int| o <= k < line_end_of(t, o) ==> t[k] != NEWLINE,
{
    lemma_find_byte_range(t, o, NEWLINE);
}

/// The end of the line starting at `p`.
pub fn line_end(t: &[u8], o: usize) -> (e: usize)
    requires
        o <= t@.len(),
    ensures
        e == line_end_of(t@, o as int),
        o <= e <= t@.len(),
{
    proof {
        lemma_line_end(t@, o as int);
    }
    let mut p = o;
    while p < t.len()
        invariant
            o <= p <= t@.len(),
            find_byte(t@, o as int, NEWLINE) == find_byte(t@, p as int, NEWLINE),
        decreases t@.len() - p,
    {
        if t[p] == NEWLINE {
            return p;
        }
        p = p + 1;
    }
    t.len()
}

/// The start of the line holding `o`.
pub fn line_start(t: &[u8], o: usize) -> (s: usize)
    requires
        o <= t@.len(),
    ensures
        s == line_start_of(t@, o as int),
        s <= o,
{
    let mut p = o;
    while p > 0
        invariant
            p <= o <= t@.len(),
            line_start_of(t@, o as int) == line_start_of(t@, p as int),
        decreases p,
    {
        if t[p - 1] == NEWLINE {
            return p;
        }
        p = p - 1;
    }
    0
}

/// `fence`, computed on a line.
pub fn fence(l: &[u8]) -> (r: Option<(u8, usize)>)
    ensures
        fence_of(l@) == (match r {
            Some((m, k)) => Some((m, k as int)),
            None => None::<(u8, int)>,
        }),
{
    let i = lead_ws_exec(l);
    if i > 3 || i >= l.len() {
        return None;
    }
    let m = l[i];
    if m != BACKTICK_BYTE && m != TILDE {
        return None;
    }
    let k = run_len_exec(l, i, m);
    if k >= 3 {
        Some((m, k))
    } else {
        None
    }
}

/// `closes`, computed on a line.
pub fn closes_exec(l: &[u8], m: u8, k: usize) -> (r: bool)
    ensures
        r == closes(l@, m, k as int),
{
    if l.len() == 0 || l[0] != m {
        return false;
    }
    let run = run_len_exec(l, 0, m);
    if run < k {
        return false;
    }
    let rest = slice_subrange(l, run, l.len());
    lead_ws_exec(rest) == rest.len()
}

/// Every fenced block of the buffer, in order.
pub fn fenced_blocks(t: &[u8]) -> (r: Vec<(usize, usize)>)
    ensures
        r@.map_values(|b: (usize, usize)| (b.0 as int, b.1 as int)) == blocks_of(t@),
{
    let mut blocks: Vec<(usize, usize)> = Vec::new();
    let mut open: Option<(usize, u8, usize)> = None;
    let mut p: usize = 0;
    let ghost got: Seq<(int, int)> = Seq::empty();
    loop
        invariant
            p <= t@.len(),
            blocks_of(t@) == got + fences_from(t@, p as int, match open {
                Some((bs, m, k)) => Some((bs as int, m, k as int)),
                None => None::<(int, u8, int)>,
            }),
            blocks@.map_values(|b: (usize, usize)| (b.0 as int, b.1 as int)) == got,
            open matches Some((bs, m, k)) ==> bs <= t@.len(),
        decreases t@.len() - p,
    {
        let ghost gopen: Option<(int, u8, int)> = match open {
            Some((bs, m, k)) => Some((bs as int, m, k as int)),
            None => None::<(int, u8, int)>,
        };
        let e = line_end(t, p);
        let l = slice_subrange(t, p, e);
        let ghost before = got;
        let mut next_open = open;
        match open {
            Some((bs, m, k)) => {
                if closes_exec(l, m, k) {
                    blocks.push((bs, e));
                    proof {
                        got = got + seq![(bs as int, e as int)];
                        assert(blocks@.map_values(|b: (usize, usize)| (b.0 as int, b.1 as int)) =~= got);
                    }
                    next_open = None;
                }
            },
            None => {
                match fence(l) {
                    Some((m, k)) => {
                        next_open = Some((p, m, k));
                    },
                    None => {},
                }
            },
        }
        let ghost gnext: Option<(int, u8, int)> = match next_open {
            Some((bs, m, k)) => Some((bs as int, m, k as int)),
            None => None::<(int, u8, int)>,
        };
        if e >= t.len() {
            match next_open {
                Some((bs, _m, _k)) => {
                    blocks.push((bs, t.len()));
                    proof {
                        assert(fences_from(t@, p as int, gopen) =~= (got.subrange(before.len() as int, got.len() as int)) + seq![(bs as int, t@.len() as int)]);
                        assert(blocks_of(t@) =~= got + seq![(bs as int, t@.len() as int)]);
                        got = got + seq![(bs as int, t@.len() as int)];
                        assert(blocks@.map_values(|b: (usize, usize)| (b.0 as int, b.1 as int)) =~= got);
                    }
                },
                None => {
                    proof {
                        assert(fences_from(t@, p as int, gopen) =~= got.subrange(before.len() as int, got.len() as int));
                        assert(blocks_of(t@) =~= got);
                    }
                },
            }
            return blocks;
        }
        proof {
            assert(fences_from(t@, p as int, gopen) =~= got.subrange(before.len() as int, got.len() as int) + fences_from(t@, e + 1, gnext));
            assert(blocks_of(t@) =~= got + fences_from(t@, e + 1, gnext));
        }
        open = next_open;
        p = e + 1;
    }
}

/// The smaller of `o` and the text's length (where an offset past the end
/// is read).
pub open spec fn clamp(t: Seq<u8>, o: int) -> int {
    if o < t.len() {
        o
    } else {
        t.len() as int
    }
}

/// The end of the line piece starting at `p`, when the pieces stop at `e`.
pub open spec fn piece_end(t: Seq<u8>, p: int, e: int) -> int {
    let le = line_end_of(t, p);
    if le > e {
        e
    } else {
        le
    }
}


/// The lines of `t` from the one starting at `p` through the one ending at
/// `e`, as (start, end) pairs with the newline excluded.
pub open spec fn line_pieces(t: Seq<u8>, p: int, e: int) -> Seq<(int, int)>
    decreases t.len() - p,
{
    if p < 0 || p > e || e > t.len() {
        Seq::empty()
    } else {
        let le = piece_end(t, p, e);
        if le >= e || le < p {
            seq![(p, le)]
        } else {
            seq![(p, le)] + line_pieces(t, le + 1, e)
        }
    }
}

/// The lines of `t` that intersect `[rs, re)`, widened to whole lines.
pub fn lines_in(t: &[u8], rs: usize, re: usize) -> (r: Vec<(usize, usize)>)
    ensures
        r@.map_values(|x: (usize, usize)| (x.0 as int, x.1 as int)) == ({
            let s = line_start_of(t@, clamp(t@, rs as int));
            let e = line_end_of(t@, clamp(t@, re as int));
            if s > e {
                Seq::empty()
            } else {
                line_pieces(t@, s, e)
            }
        }),
{
    let n = t.len();
    let s = line_start(t, if rs < n { rs } else { n });
    let e = line_end(t, if re < n { re } else { n });
    let mut out: Vec<(usize, usize)> = Vec::new();
    if s > e {
        proof {
            assert(out@.map_values(|x: (usize, usize)| (x.0 as int, x.1 as int)) =~= Seq::<(int, int)>::empty());
        }
        return out;
    }
    let mut p = s;
    loop
        invariant
            s <= p <= e <= t@.len(),
            s == line_start_of(t@, clamp(t@, rs as int)),
            e == line_end_of(t@, clamp(t@, re as int)),
            line_pieces(t@, s as int, e as int) == out@.map_values(|x: (usize, usize)| (x.0 as int, x.1 as int))
                + line_pieces(t@, p as int, e as int),
        decreases t@.len() - p,
    {
        let le0 = line_end(t, p);
        let le = if le0 > e { e } else { le0 };
        let ghost before = out@.map_values(|x: (usize, usize)| (x.0 as int, x.1 as int));
        out.push((p, le));
        proof {
            assert(out@.map_values(|x: (usize, usize)| (x.0 as int, x.1 as int)) =~= before + seq![(p as int, le as int)]);
        }
        if le >= e {
            proof {
                assert(line_pieces(t@, p as int, e as int) == seq![(p as int, le as int)]);
                assert(before + seq![(p as int, le as int)] =~= out@.map_values(|x: (usize, usize)| (x.0 as int, x.1 as int)));
            }
            return out;
        }
        proof {
            assert(line_pieces(t@, p as int, e as int) == seq![(p as int, le as int)] + line_pieces(t@, le + 1, e as int));
            assert(before + (seq![(p as int, le as int)] + line_pieces(t@, le + 1, e as int)) =~= (before + seq![(p as int, le as int)]) + line_pieces(t@, le + 1, e as int));
        }
        p = le + 1;
    }
}

} // verus!
