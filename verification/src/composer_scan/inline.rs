//! Code spans, links and emphasis within one line's text.
//!
//! Order is precedence: a code span swallows whatever is inside it, a link
//! is read before the emphasis markers its text might contain, and strong
//! is read before emphasis so `**x**` is not two emphases. Each pass marks
//! the bytes it claimed, and a later pass skips claimed bytes.
//!
//! Offsets in the specifications here are relative to the text handed in;
//! the executable passes add the text's offset in the buffer as they push.

use crate::composer_scan::span::{shift_all, views, Construct, Span, SpanV};
use crate::text::{find_byte, find_byte_exec, find_marker, find_seq, marker, occurs_at, run_len, run_len_exec, ws_before, ws_before_at, ws_len, ws_len_at};
use vstd::prelude::*;

verus! {

/// The code-span delimiter.
pub const BACKTICK_BYTE: u8 = 0x60;


/// Every byte of `[a, e)` is unclaimed (and the range is in bounds).
pub open spec fn is_free(taken: Seq<bool>, a: int, e: int) -> bool {
    0 <= a <= e <= taken.len() && forall|k: int| a <= k < e ==> !taken[k]
}

/// `taken` with `[a, e)` claimed.
pub open spec fn claimed(taken: Seq<bool>, a: int, e: int) -> Seq<bool> {
    Seq::new(taken.len(), |k: int| if a <= k < e { true } else { taken[k] })
}

/// Where the closing backtick run of length `run` ends, searching from
/// `cursor`: only a run of exactly the same length closes.
pub open spec fn closing_run(b: Seq<u8>, cursor: int, run: int) -> Option<int>
    decreases b.len() - cursor,
{
    if cursor < 0 || cursor >= b.len() {
        None
    } else if b[cursor] != BACKTICK_BYTE {
        closing_run(b, cursor + 1, run)
    } else {
        let c = run_len(b, cursor, BACKTICK_BYTE);
        if c == run {
            Some(cursor + c)
        } else if c <= 0 || cursor + c > b.len() {
            None
        } else {
            closing_run(b, cursor + c, run)
        }
    }
}

/// The code spans found from `i` on.
pub open spec fn code_spans(b: Seq<u8>, i: int) -> Seq<SpanV>
    decreases b.len() - i,
{
    if i < 0 || i >= b.len() {
        Seq::empty()
    } else if b[i] != BACKTICK_BYTE {
        code_spans(b, i + 1)
    } else {
        let run = run_len(b, i, BACKTICK_BYTE);
        let after = i + run;
        match closing_run(b, after, run) {
            Some(end) => if i < end <= b.len() {
                seq![(i, end, Construct::InlineCode)] + code_spans(b, end)
            } else {
                Seq::empty()
            },
            None => if i < after <= b.len() {
                code_spans(b, after)
            } else {
                Seq::empty()
            },
        }
    }
}

/// What the code-span pass leaves claimed, from `i` on.
pub open spec fn code_taken(b: Seq<u8>, i: int, taken: Seq<bool>) -> Seq<bool>
    decreases b.len() - i,
{
    if i < 0 || i >= b.len() {
        taken
    } else if b[i] != BACKTICK_BYTE {
        code_taken(b, i + 1, taken)
    } else {
        let run = run_len(b, i, BACKTICK_BYTE);
        let after = i + run;
        match closing_run(b, after, run) {
            Some(end) => if i < end <= b.len() {
                code_taken(b, end, claimed(taken, i, end))
            } else {
                taken
            },
            None => if i < after <= b.len() {
                code_taken(b, after, taken)
            } else {
                taken
            },
        }
    }
}

pub proof fn lemma_run_len_bound(b: Seq<u8>, i: int, c: u8)
    requires
        0 <= i <= b.len(),
    ensures
        0 <= run_len(b, i, c) <= b.len() - i,
        i < b.len() && b[i] == c ==> run_len(b, i, c) >= 1,
    decreases b.len() - i,
{
    if i < b.len() && b[i] == c {
        lemma_run_len_bound(b, i + 1, c);
    }
}

pub proof fn lemma_closing_run_bound(b: Seq<u8>, cursor: int, run: int)
    requires
        0 <= cursor,
    ensures
        closing_run(b, cursor, run) matches Some(e) ==> cursor < e <= b.len(),
    decreases b.len() - cursor,
{
    if 0 <= cursor < b.len() {
        if b[cursor] != BACKTICK_BYTE {
            lemma_closing_run_bound(b, cursor + 1, run);
        } else {
            lemma_run_len_bound(b, cursor, BACKTICK_BYTE);
            let c = run_len(b, cursor, BACKTICK_BYTE);
            if c != run && c > 0 {
                lemma_closing_run_bound(b, cursor + c, run);
            }
        }
    }
}

/// `closing_run`, computed.
fn closing_run_exec(b: &[u8], cursor: usize, run: usize) -> (r: Option<usize>)
    requires
        cursor <= b@.len(),
    ensures
        closing_run(b@, cursor as int, run as int) == (match r {
            Some(e) => Some(e as int),
            None => None::<int>,
        }),
        r matches Some(e) ==> cursor < e <= b@.len(),
{
    proof {
        lemma_closing_run_bound(b@, cursor as int, run as int);
    }
    let mut p = cursor;
    while p < b.len()
        invariant
            cursor <= p <= b@.len(),
            closing_run(b@, cursor as int, run as int) == closing_run(b@, p as int, run as int),
        decreases b@.len() - p,
    {
        if b[p] != BACKTICK_BYTE {
            p = p + 1;
        } else {
            let c = run_len_exec(b, p, BACKTICK_BYTE);
            proof {
                lemma_run_len_bound(b@, p as int, BACKTICK_BYTE);
            }
            if c == run {
                return Some(p + c);
            }
            if c == 0 {
                return None;
            }
            p = p + c;
        }
    }
    None
}


/// Claims `[a, e)` in `taken`.
pub fn claim(taken: &mut Vec<bool>, a: usize, e: usize)
    requires
        a <= e <= old(taken)@.len(),
    ensures
        final(taken)@ == claimed(old(taken)@, a as int, e as int),
{
    let mut k = a;
    while k < e
        invariant
            a <= k <= e <= taken@.len(),
            taken@.len() == old(taken)@.len(),
            forall|j: int| 0 <= j < taken@.len() ==> taken@[j] == (if a <= j < k { true } else { old(taken)@[j] }),
        decreases e - k,
    {
        taken.set(k, true);
        k = k + 1;
    }
    assert(taken@ =~= claimed(old(taken)@, a as int, e as int));
}

/// Whether `[a, e)` is unclaimed.
pub fn free(taken: &Vec<bool>, a: usize, e: usize) -> (r: bool)
    ensures
        r == is_free(taken@, a as int, e as int),
{
    if a > e || e > taken.len() {
        return false;
    }
    let mut k = a;
    while k < e
        invariant
            a <= k <= e <= taken@.len(),
            forall|j: int| a <= j < k ==> !taken@[j],
        decreases e - k,
    {
        if taken[k] {
            return false;
        }
        k = k + 1;
    }
    true
}

/// The code-span pass: pushes each span, offset by `start`, and claims it.
pub fn scan_code_spans(b: &[u8], start: usize, taken: &mut Vec<bool>, spans: &mut Vec<Span>)
    requires
        old(taken)@.len() == b@.len(),
        start + b@.len() <= usize::MAX,
    ensures
        final(taken)@.len() == old(taken)@.len(),
        final(taken)@ == code_taken(b@, 0, old(taken)@),
        views(final(spans)@) == views(old(spans)@) + shift_all(code_spans(b@, 0), start as int),
{
    let mut i: usize = 0;
    let ghost got: Seq<SpanV> = Seq::empty();
    while i < b.len()
        invariant
            i <= b@.len(),
            taken@.len() == b@.len(),
            old(taken)@.len() == b@.len(),
            start + b@.len() <= usize::MAX,
            code_spans(b@, 0) == got + code_spans(b@, i as int),
            code_taken(b@, 0, old(taken)@) == code_taken(b@, i as int, taken@),
            views(spans@) == views(old(spans)@) + shift_all(got, start as int),
        decreases b@.len() - i,
    {
        if b[i] != BACKTICK_BYTE {
            i = i + 1;
            continue;
        }
        let run = run_len_exec(b, i, BACKTICK_BYTE);
        proof {
            lemma_run_len_bound(b@, i as int, BACKTICK_BYTE);
        }
        let after = i + run;
        match closing_run_exec(b, after, run) {
            Some(end) => {
                let ghost before = spans@;
                spans.push(Span::new(start + i..start + end, Construct::InlineCode));
                claim(taken, i, end);
                proof {
                    let s: SpanV = (i as int, end as int, Construct::InlineCode);
                    assert(code_spans(b@, i as int) == seq![s] + code_spans(b@, end as int));
                    assert(got + code_spans(b@, i as int) =~= (got + seq![s]) + code_spans(b@, end as int));
                    got = got + seq![s];
                    assert(views(spans@) =~= views(before) + seq![(start + i, start + end, Construct::InlineCode)]);
                    assert(shift_all(got, start as int) =~= shift_all(got.drop_last(), start as int) + seq![(start + i, start + end, Construct::InlineCode)]);
                    assert(got.drop_last() =~= got.subrange(0, got.len() - 1));
                }
                i = end;
            },
            None => {
                i = after;
            },
        }
    }
    proof {
        assert(got + Seq::<SpanV>::empty() =~= got);
    }
}


pub const OPEN_BRACKET: u8 = 0x5b;
pub const CLOSE_BRACKET: u8 = 0x5d;
pub const OPEN_PAREN: u8 = 0x28;
pub const CLOSE_PAREN: u8 = 0x29;

/// The link found at `i`, if `[` starts one there: where it ends, or
/// `Err(())` when the rest of the line cannot hold a link at all (no `]`,
/// or no `)` after it), which ends the pass.
pub open spec fn link_at(b: Seq<u8>, i: int) -> Option<Result<int, ()>> {
    match find_byte(b, i, CLOSE_BRACKET) {
        None => Some(Err(())),
        Some(close) => if close + 1 >= b.len() || b[close + 1] != OPEN_PAREN {
            None
        } else {
            match find_byte(b, close, CLOSE_PAREN) {
                None => Some(Err(())),
                Some(paren) => Some(Ok(paren + 1)),
            }
        },
    }
}

/// The links found from `i` on, given what earlier passes claimed.
pub open spec fn link_spans(b: Seq<u8>, i: int, taken: Seq<bool>) -> Seq<SpanV>
    decreases b.len() - i,
{
    if i < 0 || i >= b.len() {
        Seq::empty()
    } else if b[i] != OPEN_BRACKET || !is_free(taken, i, i + 1) {
        link_spans(b, i + 1, taken)
    } else {
        match link_at(b, i) {
            None => link_spans(b, i + 1, taken),
            Some(Err(_)) => Seq::empty(),
            Some(Ok(end)) => if !(i < end <= b.len()) {
                Seq::empty()
            } else if is_free(taken, i, end) {
                seq![(i, end, Construct::Link)] + link_spans(b, end, claimed(taken, i, end))
            } else {
                link_spans(b, end, taken)
            },
        }
    }
}

/// What the link pass leaves claimed, from `i` on.
pub open spec fn link_taken(b: Seq<u8>, i: int, taken: Seq<bool>) -> Seq<bool>
    decreases b.len() - i,
{
    if i < 0 || i >= b.len() {
        taken
    } else if b[i] != OPEN_BRACKET || !is_free(taken, i, i + 1) {
        link_taken(b, i + 1, taken)
    } else {
        match link_at(b, i) {
            None => link_taken(b, i + 1, taken),
            Some(Err(_)) => taken,
            Some(Ok(end)) => if !(i < end <= b.len()) {
                taken
            } else if is_free(taken, i, end) {
                link_taken(b, end, claimed(taken, i, end))
            } else {
                link_taken(b, end, taken)
            },
        }
    }
}

proof fn lemma_find_byte_bound(b: Seq<u8>, i: int, c: u8)
    ensures
        find_byte(b, i, c) matches Some(k) ==> i <= k < b.len() && b[k] == c,
    decreases b.len() - i,
{
    if 0 <= i < b.len() && b[i] != c {
        lemma_find_byte_bound(b, i + 1, c);
    }
}

/// The link pass: pushes each link, offset by `start`, and claims it.
pub fn scan_links(b: &[u8], start: usize, taken: &mut Vec<bool>, spans: &mut Vec<Span>)
    requires
        old(taken)@.len() == b@.len(),
        start + b@.len() <= usize::MAX,
    ensures
        final(taken)@.len() == old(taken)@.len(),
        final(taken)@ == link_taken(b@, 0, old(taken)@),
        views(final(spans)@) == views(old(spans)@) + shift_all(link_spans(b@, 0, old(taken)@), start as int),
{
    let mut i: usize = 0;
    let ghost got: Seq<SpanV> = Seq::empty();
    while i < b.len()
        invariant
            i <= b@.len(),
            taken@.len() == b@.len(),
            old(taken)@.len() == b@.len(),
            start + b@.len() <= usize::MAX,
            link_spans(b@, 0, old(taken)@) == got + link_spans(b@, i as int, taken@),
            link_taken(b@, 0, old(taken)@) == link_taken(b@, i as int, taken@),
            views(spans@) == views(old(spans)@) + shift_all(got, start as int),
        decreases b@.len() - i,
    {
        if b[i] != OPEN_BRACKET || !free(taken, i, i + 1) {
            i = i + 1;
            continue;
        }
        let close = match find_byte_exec(b, i, CLOSE_BRACKET) {
            Some(close) => close,
            None => {
                proof {
                    assert(got + Seq::<SpanV>::empty() =~= got);
                }
                return;
            },
        };
        if close + 1 >= b.len() || b[close + 1] != OPEN_PAREN {
            i = i + 1;
            continue;
        }
        let paren = match find_byte_exec(b, close, CLOSE_PAREN) {
            Some(paren) => paren,
            None => {
                proof {
                    assert(got + Seq::<SpanV>::empty() =~= got);
                }
                return;
            },
        };
        let end = paren + 1;
        if free(taken, i, end) {
            let ghost before = spans@;
            spans.push(Span::new(start + i..start + end, Construct::Link));
            let ghost t0 = taken@;
            claim(taken, i, end);
            proof {
                let s: SpanV = (i as int, end as int, Construct::Link);
                assert(link_spans(b@, i as int, t0) == seq![s] + link_spans(b@, end as int, taken@));
                assert(got + link_spans(b@, i as int, t0) =~= (got + seq![s]) + link_spans(b@, end as int, taken@));
                got = got + seq![s];
                assert(views(spans@) =~= views(before) + seq![(start + i, start + end, Construct::Link)]);
                assert(shift_all(got, start as int) =~= shift_all(got.drop_last(), start as int) + seq![(start + i, start + end, Construct::Link)]);
                assert(got.drop_last() =~= got.subrange(0, got.len() - 1));
            }
        }
        i = end;
    }
    proof {
        assert(got + Seq::<SpanV>::empty() =~= got);
    }
}

/// Whether a delimiter ending at `after_open` can open: something follows
/// it, and that something is neither whitespace nor the marker character.
pub open spec fn can_open(b: Seq<u8>, after_open: int, c: u8) -> bool {
    0 <= after_open < b.len() && ws_len(b, after_open) == 0 && b[after_open] != c
}

/// The offset of the closing delimiter for an opener ending at `from`,
/// searching from `index`: not right after the opener, unclaimed, and not
/// preceded by whitespace.
pub open spec fn closer_from(b: Seq<u8>, from: int, m: Seq<u8>, taken: Seq<bool>, index: int) -> Option<int>
    decreases b.len() - index,
{
    if index < 0 || index > b.len() {
        None
    } else {
        match find_seq(b, index, m) {
            None => None,
            Some(close) => if close > from && is_free(taken, close, close + m.len()) && ws_before(b, close) == 0 {
                Some(close)
            } else if close + m.len() >= b.len() || close + m.len() <= index {
                None
            } else {
                closer_from(b, from, m, taken, close + m.len())
            },
        }
    }
}

/// The runs delimited by marker `m` found from `i` on.
pub open spec fn delim_spans(b: Seq<u8>, i: int, m: Seq<u8>, construct: Construct, taken: Seq<bool>) -> Seq<SpanV>
    decreases b.len() - i,
{
    if i < 0 || i > b.len() || m.len() == 0 {
        Seq::empty()
    } else {
        match find_seq(b, i, m) {
            None => Seq::empty(),
            Some(open) => {
                let after_open = open + m.len();
                if !(i < after_open <= b.len()) {
                    Seq::empty()
                } else if !is_free(taken, open, after_open) || !can_open(b, after_open, m[0]) {
                    delim_spans(b, after_open, m, construct, taken)
                } else {
                    match closer_from(b, after_open, m, taken, after_open) {
                        None => Seq::empty(),
                        Some(close) => {
                            let end = close + m.len();
                            if !(i < end <= b.len()) {
                                Seq::empty()
                            } else {
                                seq![(open, end, construct)] + delim_spans(b, end, m, construct, claimed(taken, open, end))
                            }
                        },
                    }
                }
            },
        }
    }
}

/// What the pass for marker `m` leaves claimed, from `i` on.
pub open spec fn delim_taken(b: Seq<u8>, i: int, m: Seq<u8>, taken: Seq<bool>) -> Seq<bool>
    decreases b.len() - i,
{
    if i < 0 || i > b.len() || m.len() == 0 {
        taken
    } else {
        match find_seq(b, i, m) {
            None => taken,
            Some(open) => {
                let after_open = open + m.len();
                if !(i < after_open <= b.len()) {
                    taken
                } else if !is_free(taken, open, after_open) || !can_open(b, after_open, m[0]) {
                    delim_taken(b, after_open, m, taken)
                } else {
                    match closer_from(b, after_open, m, taken, after_open) {
                        None => taken,
                        Some(close) => {
                            let end = close + m.len();
                            if !(i < end <= b.len()) {
                                taken
                            } else {
                                delim_taken(b, end, m, claimed(taken, open, end))
                            }
                        },
                    }
                }
            },
        }
    }
}

pub proof fn lemma_find_seq_bound(t: Seq<u8>, i: int, pat: Seq<u8>)
    ensures
        find_seq(t, i, pat) matches Some(k) ==> i <= k && k + pat.len() <= t.len() && occurs_at(t, k, pat),
    decreases t.len() + 1 - i,
{
    if !(i < 0 || i + pat.len() > t.len()) && !occurs_at(t, i, pat) {
        lemma_find_seq_bound(t, i + 1, pat);
    }
}

pub proof fn lemma_find_closer_bound(b: Seq<u8>, from: int, m: Seq<u8>, taken: Seq<bool>, index: int)
    ensures
        closer_from(b, from, m, taken, index) matches Some(k) ==> index <= k && k + m.len() <= b.len(),
    decreases b.len() - index,
{
    if !(index < 0 || index > b.len()) {
        lemma_find_seq_bound(b, index, m);
        match find_seq(b, index, m) {
            None => {},
            Some(close) => if close > from && is_free(taken, close, close + m.len()) && ws_before(b, close) == 0 {
            } else if close + m.len() >= b.len() || close + m.len() <= index {
            } else {
                lemma_find_closer_bound(b, from, m, taken, close + m.len());
            },
        }
    }
}

/// `find_closer`, computed.
pub fn find_closer(b: &[u8], from: usize, c: u8, two: bool, taken: &Vec<bool>) -> (r: Option<usize>)
    requires
        from <= b@.len(),
        taken@.len() == b@.len(),
    ensures
        closer_from(b@, from as int, marker(c, two), taken@, from as int) == (match r {
            Some(k) => Some(k as int),
            None => None::<int>,
        }),
{
    let m: usize = if two { 2 } else { 1 };
    let ghost mk = marker(c, two);
    let n = b.len();
    let mut index = from;
    loop
        invariant
            n == b@.len(),
            from <= index <= b@.len(),
            m == mk.len(),
            mk == marker(c, two),
            taken@.len() == b@.len(),
            closer_from(b@, from as int, mk, taken@, from as int) == closer_from(b@, from as int, mk, taken@, index as int),
        decreases b@.len() - index,
    {
        proof {
            lemma_find_seq_bound(b@, index as int, mk);
        }
        match find_marker(b, index, c, two) {
            None => {
                return None;
            },
            Some(close) => {
                if close > from && free(taken, close, close + m) && ws_before_at(b, close) == 0 {
                    return Some(close);
                }
                if close + m >= b.len() || close + m <= index {
                    return None;
                }
                index = close + m;
            },
        }
    }
}

/// Whether a delimiter ending at `after_open` can open.
pub fn opens(b: &[u8], after_open: usize, c: u8) -> (r: bool)
    ensures
        r == can_open(b@, after_open as int, c),
{
    after_open < b.len() && ws_len_at(b, after_open) == 0 && b[after_open] != c
}

/// The pass for the marker that is `c`, once or twice.
pub fn scan_delimited(b: &[u8], start: usize, c: u8, two: bool, construct: Construct,
    taken: &mut Vec<bool>, spans: &mut Vec<Span>)
    requires
        old(taken)@.len() == b@.len(),
        start + b@.len() <= usize::MAX,
    ensures
        final(taken)@.len() == old(taken)@.len(),
        final(taken)@ == delim_taken(b@, 0, marker(c, two), old(taken)@),
        views(final(spans)@) == views(old(spans)@) + shift_all(
            delim_spans(b@, 0, marker(c, two), construct, old(taken)@), start as int),
{
    let m: usize = if two { 2 } else { 1 };
    let ghost mk = marker(c, two);
    let mut i: usize = 0;
    let ghost got: Seq<SpanV> = Seq::empty();
    loop
        invariant
            i <= b@.len(),
            m == mk.len(),
            mk == marker(c, two),
            mk[0] == c,
            taken@.len() == b@.len(),
            old(taken)@.len() == b@.len(),
            start + b@.len() <= usize::MAX,
            delim_spans(b@, 0, mk, construct, old(taken)@) == got + delim_spans(b@, i as int, mk, construct, taken@),
            delim_taken(b@, 0, mk, old(taken)@) == delim_taken(b@, i as int, mk, taken@),
            views(spans@) == views(old(spans)@) + shift_all(got, start as int),
        decreases b@.len() - i,
    {
        proof {
            lemma_find_seq_bound(b@, i as int, mk);
        }
        let open = match find_marker(b, i, c, two) {
            Some(open) => open,
            None => {
                proof {
                    assert(got + Seq::<SpanV>::empty() =~= got);
                }
                return;
            },
        };
        let after_open = open + m;
        if !free(taken, open, after_open) || !opens(b, after_open, c) {
            i = after_open;
            continue;
        }
        proof {
            lemma_find_closer_bound(b@, after_open as int, mk, taken@, after_open as int);
        }
        let close = match find_closer(b, after_open, c, two, taken) {
            Some(close) => close,
            None => {
                proof {
                    assert(got + Seq::<SpanV>::empty() =~= got);
                }
                return;
            },
        };
        let end = close + m;
        let ghost before = spans@;
        spans.push(Span::new(start + open..start + end, construct));
        let ghost t0 = taken@;
        claim(taken, open, end);
        proof {
            let s: SpanV = (open as int, end as int, construct);
            assert(delim_spans(b@, i as int, mk, construct, t0) == seq![s] + delim_spans(b@, end as int, mk, construct, taken@));
            assert(got + delim_spans(b@, i as int, mk, construct, t0) =~= (got + seq![s]) + delim_spans(b@, end as int, mk, construct, taken@));
            got = got + seq![s];
            assert(views(spans@) =~= views(before) + seq![(start + open, start + end, construct)]);
            assert(shift_all(got, start as int) =~= shift_all(got.drop_last(), start as int) + seq![(start + open, start + end, construct)]);
            assert(got.drop_last() =~= got.subrange(0, got.len() - 1));
        }
        i = end;
    }
}


pub const STAR: u8 = 0x2a;
pub const UNDERSCORE: u8 = 0x5f;

/// Nothing claimed yet.
pub open spec fn unclaimed(n: nat) -> Seq<bool> {
    Seq::new(n, |k: int| false)
}

/// Every code span, link, strong and emphasis run of `b`, pass by pass.
pub open spec fn inline_spans(b: Seq<u8>) -> Seq<SpanV> {
    let t1 = code_taken(b, 0, unclaimed(b.len()));
    let t2 = link_taken(b, 0, t1);
    let t3 = delim_taken(b, 0, marker(STAR, true), t2);
    let t4 = delim_taken(b, 0, marker(UNDERSCORE, true), t3);
    let t5 = delim_taken(b, 0, marker(STAR, false), t4);
    code_spans(b, 0) + link_spans(b, 0, t1) + delim_spans(b, 0, marker(STAR, true), Construct::Strong, t2)
        + delim_spans(b, 0, marker(UNDERSCORE, true), Construct::Strong, t3)
        + delim_spans(b, 0, marker(STAR, false), Construct::Emphasis, t4)
        + delim_spans(b, 0, marker(UNDERSCORE, false), Construct::Emphasis, t5)
}

/// Shifting distributes over concatenation.
pub proof fn lemma_shift_concat(a: Seq<SpanV>, b: Seq<SpanV>, d: int)
    ensures
        shift_all(a + b, d) == shift_all(a, d) + shift_all(b, d),
{
    assert(shift_all(a + b, d) =~= shift_all(a, d) + shift_all(b, d));
}

/// Code spans, links and emphasis within one line's text `b`, which sits
/// at `start` in the buffer.
pub fn scan_inline(b: &[u8], start: usize, spans: &mut Vec<Span>)
    requires
        start + b@.len() <= usize::MAX,
    ensures
        views(final(spans)@) == views(old(spans)@) + shift_all(inline_spans(b@), start as int),
{
    let mut taken: Vec<bool> = Vec::new();
    let mut k: usize = 0;
    while k < b.len()
        invariant
            k <= b@.len(),
            taken@ =~= Seq::new(k as nat, |j: int| false),
        decreases b@.len() - k,
    {
        taken.push(false);
        k = k + 1;
    }
    assert(taken@ =~= unclaimed(b@.len()));
    let ghost s0 = views(spans@);
    scan_code_spans(b, start, &mut taken, spans);
    let ghost s1 = views(spans@);
    scan_links(b, start, &mut taken, spans);
    let ghost s2 = views(spans@);
    scan_delimited(b, start, STAR, true, Construct::Strong, &mut taken, spans);
    let ghost s3 = views(spans@);
    scan_delimited(b, start, UNDERSCORE, true, Construct::Strong, &mut taken, spans);
    let ghost s4 = views(spans@);
    scan_delimited(b, start, STAR, false, Construct::Emphasis, &mut taken, spans);
    let ghost s5 = views(spans@);
    scan_delimited(b, start, UNDERSCORE, false, Construct::Emphasis, &mut taken, spans);
    proof {
        let bb = b@;
        let t1 = code_taken(bb, 0, unclaimed(bb.len()));
        let t2 = link_taken(bb, 0, t1);
        let t3 = delim_taken(bb, 0, marker(STAR, true), t2);
        let t4 = delim_taken(bb, 0, marker(UNDERSCORE, true), t3);
        let t5 = delim_taken(bb, 0, marker(STAR, false), t4);
        let a1 = code_spans(bb, 0);
        let a2 = link_spans(bb, 0, t1);
        let a3 = delim_spans(bb, 0, marker(STAR, true), Construct::Strong, t2);
        let a4 = delim_spans(bb, 0, marker(UNDERSCORE, true), Construct::Strong, t3);
        let a5 = delim_spans(bb, 0, marker(STAR, false), Construct::Emphasis, t4);
        let a6 = delim_spans(bb, 0, marker(UNDERSCORE, false), Construct::Emphasis, t5);
        let d = start as int;
        lemma_shift_concat(a1 + a2 + a3 + a4 + a5, a6, d);
        lemma_shift_concat(a1 + a2 + a3 + a4, a5, d);
        lemma_shift_concat(a1 + a2 + a3, a4, d);
        lemma_shift_concat(a1 + a2, a3, d);
        lemma_shift_concat(a1, a2, d);
        assert(views(spans@) =~= s0 + shift_all(inline_spans(bb), d));
    }
}

} // verus!
