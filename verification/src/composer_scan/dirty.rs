//! How much of the buffer an edit can have changed.
//!
//! 1. Start from the bytes the edit inserted, in the text after it.
//! 2. Widen to whole lines: everything but a fence is decided by its line.
//! 3. Widen to the enclosing fenced block.
//! 4. If an edited line is a fence delimiter now, widen to the whole buffer:
//!    toggling a delimiter re-reads every line after it.

use crate::composer_scan::lines::{fence, fence_of, line_end, line_start};
use crate::composer_scan::lines::{clamp, piece_end};
use crate::text::{line_end_of, line_start_of};
use vstd::prelude::*;
use vstd::slice::slice_subrange;

verus! {

/// Whether line `l` is a fence delimiter, by the test the scanner uses.
pub open spec fn is_fence_line(l: Seq<u8>) -> bool {
    fence_of(l) is Some
}

/// Whether any line piece from `p` to `e` is a fence delimiter.
pub open spec fn touches_fence_from(t: Seq<u8>, p: int, e: int) -> bool
    decreases t.len() - p,
{
    if p < 0 || p > e || e > t.len() {
        false
    } else {
        let le = piece_end(t, p, e);
        is_fence_line(t.subrange(p, le)) || (p <= le < e && touches_fence_from(t, le + 1, e))
    }
}

/// The block containing `[s, e)`, counting delimiters from the line at `p`
/// with a block opened at `held` above it. Delimiters are matched by
/// position only, as the widening needs nothing finer.
pub open spec fn enclosing_from(t: Seq<u8>, p: int, held: Option<int>, s: int, e: int) -> Option<(int, int)>
    decreases t.len() - p,
{
    if p < 0 || p > t.len() {
        None
    } else {
        let le = line_end_of(t, p);
        let f = is_fence_line(t.subrange(p, le));
        let found: Option<(int, int)> = match held {
            Some(bs) => if f && bs <= s && e <= le {
                Some((bs, le))
            } else {
                None
            },
            None => None,
        };
        let next: Option<int> = match held {
            None => if f {
                Some(p)
            } else {
                None
            },
            Some(bs) => if f {
                None
            } else {
                held
            },
        };
        if found is Some {
            found
        } else if le >= t.len() || le < p {
            match next {
                Some(bs) => if bs <= s {
                    Some((bs, t.len() as int))
                } else {
                    None
                },
                None => None,
            }
        } else {
            enclosing_from(t, le + 1, next, s, e)
        }
    }
}

/// The range of `t` - the buffer after an edit that inserted `[ts, te)` -
/// that has to be scanned again.
pub open spec fn dirty(t: Seq<u8>, ts: int, te: int) -> (int, int) {
    let s = line_start_of(t, clamp(t, ts));
    let e = line_end_of(t, clamp(t, te));
    if touches_fence_from(t, s, e) {
        (0, t.len() as int)
    } else {
        match enclosing_from(t, 0, None, s, e) {
            Some(b) => b,
            None => (s, e),
        }
    }
}

/// An edit whose lines hold a fence delimiter now dirties the whole
/// buffer: a delimiter that changed can have opened or closed a block, and
/// every line after it reads differently.
pub proof fn lemma_fence_edit_dirties_all(t: Seq<u8>, ts: int, te: int)
    requires
        touches_fence_from(t, line_start_of(t, clamp(t, ts)), line_end_of(t, clamp(t, te))),
    ensures
        dirty(t, ts, te) == (0int, t.len() as int),
{
}

/// Whether line `l` is a fence delimiter, by the same test the scanner uses.
pub fn is_fence(l: &[u8]) -> (r: bool)
    ensures
        r == is_fence_line(l@),
{
    fence(l).is_some()
}

pub fn touches_fence(t: &[u8], s: usize, e: usize) -> (r: bool)
    requires
        s <= e <= t@.len(),
    ensures
        r == touches_fence_from(t@, s as int, e as int),
{
    let mut p = s;
    loop
        invariant
            s <= p <= e <= t@.len(),
            touches_fence_from(t@, s as int, e as int) == touches_fence_from(t@, p as int, e as int),
        decreases t@.len() - p,
    {
        let le0 = line_end(t, p);
        let le = if le0 > e { e } else { le0 };
        let line = slice_subrange(t, p, le);
        if is_fence(line) {
            return true;
        }
        if le >= e {
            return false;
        }
        p = le + 1;
    }
}

pub fn enclosing_fence(t: &[u8], s: usize, e: usize) -> (r: Option<(usize, usize)>)
    ensures
        enclosing_from(t@, 0, None, s as int, e as int) == (match r {
            Some((a, b)) => Some((a as int, b as int)),
            None => None::<(int, int)>,
        }),
{
    let mut held: Option<usize> = None;
    let mut p: usize = 0;
    loop
        invariant
            p <= t@.len(),
            held matches Some(bs) ==> bs <= t@.len(),
            enclosing_from(t@, 0, None, s as int, e as int) == enclosing_from(t@, p as int, match held {
                Some(bs) => Some(bs as int),
                None => None::<int>,
            }, s as int, e as int),
        decreases t@.len() - p,
    {
        let le = line_end(t, p);
        let line = slice_subrange(t, p, le);
        let f = is_fence(line);
        let mut next = held;
        match held {
            Some(bs) => {
                if f {
                    if bs <= s && e <= le {
                        return Some((bs, le));
                    }
                    next = None;
                }
            },
            None => {
                if f {
                    next = Some(p);
                }
            },
        }
        if le >= t.len() {
            return match next {
                Some(bs) => if bs <= s {
                    Some((bs, t.len()))
                } else {
                    None
                },
                None => None,
            };
        }
        held = next;
        p = le + 1;
    }
}

/// The range of `text` - the buffer *after* an edit that inserted
/// `inserted` bytes at `start` - that has to be scanned again.
pub fn dirty_range_at(t: &[u8], start: usize, inserted: usize) -> (r: (usize, usize))
    requires
        start + inserted <= usize::MAX,
    ensures
        (r.0 as int, r.1 as int) == dirty(t@, start as int, start + inserted),
        r.0 <= r.1 <= t@.len(),
{
    let n = t.len();
    let end = start + inserted;
    let s = line_start(t, if start < n { start } else { n });
    let e = line_end(t, if end < n { end } else { n });
    if touches_fence(t, s, e) {
        return (0, n);
    }
    match enclosing_fence(t, s, e) {
        Some(b) => {
            proof {
                lemma_enclosing_bound(t@, 0, None, s as int, e as int);
            }
            b
        },
        None => (s, e),
    }
}

proof fn lemma_enclosing_bound(t: Seq<u8>, p: int, held: Option<int>, s: int, e: int)
    requires
        0 <= p,
        held matches Some(bs) ==> 0 <= bs <= p,
    ensures
        enclosing_from(t, p, held, s, e) matches Some(b) ==> 0 <= b.0 <= b.1 <= t.len(),
    decreases t.len() - p,
{
    if p <= t.len() {
        crate::composer_scan::lines::lemma_line_end(t, p);
        let le = line_end_of(t, p);
        let f = is_fence_line(t.subrange(p, le));
        let next: Option<int> = match held {
            None => if f {
                Some(p)
            } else {
                None
            },
            Some(bs) => if f {
                None
            } else {
                held
            },
        };
        if le < t.len() && le >= p {
            lemma_enclosing_bound(t, le + 1, next, s, e);
        }
    }
}

} // verus!
