//! The two entry points: a whole-buffer scan, and the rescan after an edit.

use crate::composer_scan::fenced::{lemma_rescan_agrees_when_reusable, reusable};
use crate::composer_scan::incremental::edited;
use crate::composer_scan::lines::{clamp, line_end, line_start, piece_end};
use crate::composer_scan::markdown::md_range;
use crate::composer_scan::order::{lemma_sorted_unique_eq, same_members, sort};
use crate::composer_scan::span::{construct_rank, rank, shift_all, sorted_unique, span_lt, views, Construct, Span, SpanV};
use crate::composer_scan::tokens::tok_range;
use crate::text::{find_seq, line_end_of, line_start_of, occurs_at};
use vstd::prelude::*;
use vstd::slice::slice_subrange;
use vstd::string::StringSliceAdditionalSpecFns;

verus! {

/// Every occurrence of reference `r` from `from` on, left to right and not
/// overlapping.
pub open spec fn occurrences(t: Seq<u8>, r: Seq<u8>, from: int) -> Seq<SpanV>
    decreases t.len() + 1 - from,
{
    if r.len() == 0 || from < 0 || from > t.len() {
        Seq::empty()
    } else {
        match find_seq(t, from, r) {
            None => Seq::empty(),
            Some(st) => if st < from || st + r.len() > t.len() {
                Seq::empty()
            } else {
                seq![(st, st + r.len(), Construct::Attachment)] + occurrences(t, r, st + r.len())
            },
        }
    }
}

/// Where each of the references `refs` sits in the buffer, for every
/// occurrence: the same file attached twice is two chips.
pub open spec fn chip_spans(t: Seq<u8>, refs: Seq<Seq<u8>>) -> Seq<SpanV>
    decreases refs.len(),
{
    if refs.len() == 0 {
        Seq::empty()
    } else {
        chip_spans(t, refs.drop_last()) + occurrences(t, refs.last(), 0)
    }
}

/// Every construct of the buffer `t`, in the order the passes find them.
pub open spec fn all_spans(t: Seq<u8>, refs: Seq<Seq<u8>>) -> Seq<SpanV> {
    md_range(t, 0, t.len() as int) + tok_range(t, 0, t.len() as int) + chip_spans(t, refs)
}

/// The references' bytes.
pub open spec fn ref_bytes(refs: Seq<&str>) -> Seq<Seq<u8>> {
    refs.map_values(|r: &str| r.spec_bytes())
}

// ---------------------------------------------------------------- exec

/// Whether `r` occurs in `t` at `i`.
fn occurs_at_exec(t: &[u8], i: usize, r: &[u8]) -> (b: bool)
    ensures
        b == occurs_at(t@, i as int, r@),
{
    if i > t.len() || t.len() - i < r.len() {
        return false;
    }
    let n = t.len();
    let mut k: usize = 0;
    while k < r.len()
        invariant
            n == t@.len(),
            k <= r@.len(),
            i + r@.len() <= t@.len(),
            forall|j: int| 0 <= j < k ==> t@[i + j] == r@[j],
        decreases r@.len() - k,
    {
        if t[i + k] != r[k] {
            proof {
                assert(t@.subrange(i as int, i + r@.len())[k as int] != r@[k as int]);
            }
            return false;
        }
        k = k + 1;
    }
    proof {
        assert(t@.subrange(i as int, i + r@.len()) =~= r@);
    }
    true
}

/// The first occurrence of `r` at or after `from`.
fn find_seq_exec(t: &[u8], from: usize, r: &[u8]) -> (res: Option<usize>)
    ensures
        find_seq(t@, from as int, r@) == (match res {
            Some(k) => Some(k as int),
            None => None::<int>,
        }),
        res matches Some(k) ==> from <= k && k + r@.len() <= t@.len(),
{
    let n = t.len();
    let mut p = from;
    while p <= n && n - p >= r.len()
        invariant
            n == t@.len(),
            from <= p,
            find_seq(t@, from as int, r@) == find_seq(t@, p as int, r@),
        decreases t@.len() + 1 - p,
    {
        if occurs_at_exec(t, p, r) {
            return Some(p);
        }
        if p == n {
            assert(find_seq(t@, n + 1, r@) is None);
            return None;
        }
        p = p + 1;
    }
    None
}

/// Every occurrence of each reference, pushed onto `spans`.
pub fn attachment_spans(t: &[u8], attachments: &[&str], spans: &mut Vec<Span>)
    ensures
        views(final(spans)@) == views(old(spans)@) + chip_spans(t@, ref_bytes(attachments@)),
{
    let ghost refs = ref_bytes(attachments@);
    let n = t.len();
    let mut j: usize = 0;
    while j < attachments.len()
        invariant
            n == t@.len(),
            j <= attachments@.len(),
            refs == ref_bytes(attachments@),
            views(spans@) == views(old(spans)@) + chip_spans(t@, refs.take(j as int)),
        decreases attachments@.len() - j,
    {
        let r = attachments[j].as_bytes();
        let ghost before = views(spans@);
        let mut from: usize = 0;
        let ghost got: Seq<SpanV> = Seq::empty();
        if r.len() > 0 {
            loop
                invariant
                    n == t@.len(),
                    from <= t@.len(),
                    r@.len() > 0,
                    occurrences(t@, r@, 0) == got + occurrences(t@, r@, from as int),
                    views(spans@) == before + got,
                ensures
                    views(spans@) == before + occurrences(t@, r@, 0),
                decreases t@.len() - from,
            {
                match find_seq_exec(t, from, r) {
                    None => {
                        proof {
                            assert(occurrences(t@, r@, from as int) =~= Seq::<SpanV>::empty());
                            assert(got + Seq::<SpanV>::empty() =~= got);
                        }
                        break;
                    },
                    Some(st) => {
                        let ghost b2 = views(spans@);
                        spans.push(Span::new(st..st + r.len(), Construct::Attachment));
                        proof {
                            let x: SpanV = (st as int, st + r@.len(), Construct::Attachment);
                            assert(occurrences(t@, r@, from as int) == seq![x] + occurrences(t@, r@, st + r@.len()));
                            assert(got + (seq![x] + occurrences(t@, r@, st + r@.len())) =~= (got + seq![x]) + occurrences(t@, r@, st + r@.len()));
                            got = got + seq![x];
                            assert(views(spans@) =~= b2 + seq![x]);
                        }
                        from = st + r.len();
                    },
                }
            }
        }
        proof {
            if r@.len() == 0 {
                assert(views(spans@) =~= before + occurrences(t@, r@, 0));
            }
            assert(refs[j as int] == r@);
            assert(refs.take(j + 1).drop_last() =~= refs.take(j as int));
            assert(views(spans@) =~= views(old(spans)@) + chip_spans(t@, refs.take(j + 1)));
        }
        j = j + 1;
    }
    proof {
        assert(refs.take(attachments@.len() as int) =~= refs);
    }
}

/// Every construct in `text`, given the attachment references currently
/// held in the pending-context table.
///
/// Spans come back sorted by start offset, then by construct (two spans of
/// one construct at one start by their end), each once, so two scans of
/// equal buffers are equal.
pub fn scan(text: &str, attachments: &[&str]) -> (r: Vec<Span>)
    ensures
        sorted_unique(views(r@)),
        same_members(views(r@), all_spans(text.spec_bytes(), ref_bytes(attachments@))),
{
    let t = text.as_bytes();
    let mut spans: Vec<Span> = Vec::new();
    crate::composer_scan::markdown::scan(t, 0, t.len(), &mut spans);
    crate::composer_scan::tokens::scan(t, 0, t.len(), &mut spans);
    attachment_spans(t, attachments, &mut spans);
    proof {
        assert(views(spans@) =~= all_spans(t@, ref_bytes(attachments@)));
    }
    sort(spans)
}

/// Two scans of one buffer with the same references give the same spans
/// in the same order, and so does a rescan that agrees with a scan: what
/// `scan` and `rescan` return is fixed by the spans they hold.
pub proof fn lemma_results_agree(a: Seq<SpanV>, b: Seq<SpanV>, spans: Seq<SpanV>)
    requires
        sorted_unique(a),
        same_members(a, spans),
        sorted_unique(b),
        same_members(b, spans),
    ensures
        a == b,
{
    lemma_sorted_unique_eq(a, b);
}

/// The token spans on the line holding `offset`: the slash commands and
/// mentions a scan of the whole buffer finds starting on that line
/// (`lemma_line_tokens_are_scan_tokens`), in the same order
/// (`lemma_line_tokens_in_scan_order`).
///
/// Nothing when `offset` is past the end or inside a character.
pub fn tokens_on_line(text: &str, offset: usize) -> (r: Vec<Span>)
    ensures
        sorted_unique(views(r@)),
        same_members(views(r@), if offset > text.len() || !text.is_char_boundary(offset) {
            Seq::empty()
        } else {
            tok_range(text.spec_bytes(), offset as int, offset as int)
        }),
{
    if offset > text.len() || !text.is_char_boundary(offset) {
        let r: Vec<Span> = Vec::new();
        proof {
            assert(views(r@) =~= Seq::<SpanV>::empty());
        }
        return r;
    }
    let t = text.as_bytes();
    let mut spans: Vec<Span> = Vec::new();
    crate::composer_scan::tokens::scan(t, offset, offset, &mut spans);
    proof {
        assert(views(spans@) =~= tok_range(t@, offset as int, offset as int));
    }
    sort(spans)
}


/// How far every byte after an edit moved.
pub open spec fn edit_shift(rs: int, re: int, ins: int) -> int {
    ins - if re >= rs { re - rs } else { 0 }
}

/// `x`, moved to where it sits after the edit that replaced `[rs, re)` by
/// `ins` bytes - or `None` when the edit landed inside it, so it has to be
/// found again rather than moved.
pub open spec fn shifted(x: SpanV, rs: int, re: int, ins: int) -> Option<SpanV> {
    if x.1 <= rs {
        Some(x)
    } else if x.0 >= re {
        let d = edit_shift(rs, re, ins);
        if 0 <= x.0 + d <= usize::MAX && 0 <= x.1 + d <= usize::MAX {
            Some((x.0 + d, x.1 + d, x.2))
        } else {
            None
        }
    } else {
        None
    }
}

/// Whether a span shares any byte with `[ds, de)`, counting an empty span
/// that sits inside it as a touch.
pub open spec fn overlaps_range(x: SpanV, ds: int, de: int) -> bool {
    (x.0 < de && ds < x.1) || (x.0 >= x.1 && ds <= x.0 < de)
}

/// The spans of `prev` an edit leaves standing: every one but the chips,
/// moved past the edit, and clear of the dirty range `[ds, de)`.
pub open spec fn kept(prev: Seq<SpanV>, rs: int, re: int, ins: int, ds: int, de: int) -> Seq<SpanV>
    decreases prev.len(),
{
    if prev.len() == 0 {
        Seq::empty()
    } else {
        let x = prev.last();
        kept(prev.drop_last(), rs, re, ins, ds, de) + if x.2 != Construct::Attachment {
            match shifted(x, rs, re, ins) {
                Some(y) => if !overlaps_range(y, ds, de) {
                    seq![y]
                } else {
                    Seq::empty()
                },
                None => Seq::empty(),
            }
        } else {
            Seq::empty()
        }
    }
}

/// What a rescan collects before ordering: the spans kept from `prev`,
/// the dirty range scanned again, and every chip found anew.
pub open spec fn rescan_spans(t: Seq<u8>, refs: Seq<Seq<u8>>, prev: Seq<SpanV>, rs: int, re: int, ins: int) -> Seq<SpanV> {
    let d = crate::composer_scan::dirty::dirty(t, rs, rs + ins);
    kept(prev, rs, re, ins, d.0, d.1) + md_range(t, d.0, d.1) + tok_range(t, d.0, d.1)
        + chip_spans(t, refs)
}

pub fn shift(x: &Span, rs: usize, re: usize, ins: usize) -> (r: Option<Span>)
    ensures
        shifted(x@, rs as int, re as int, ins as int) == (match r {
            Some(y) => Some(y@),
            None => None::<SpanV>,
        }),
{
    if x.range.end <= rs {
        return Some(Span::new(x.range.start..x.range.end, x.construct));
    }
    if x.range.start >= re {
        let removed: usize = if re >= rs { re - rs } else { 0 };
        // start >= re >= removed, so start - removed cannot underflow.
        let base_s = x.range.start - removed;
        if base_s > usize::MAX - ins {
            return None;
        }
        let new_end = if x.range.end >= removed {
            let base_e = x.range.end - removed;
            if base_e > usize::MAX - ins {
                return None;
            }
            base_e + ins
        } else {
            let short = removed - x.range.end;
            if ins < short {
                return None;
            }
            ins - short
        };
        return Some(Span::new(base_s + ins..new_end, x.construct));
    }
    None
}

/// Whether two ranges share any byte, counting a zero-length range that
/// sits inside the other as a touch.
pub fn overlaps(span: &std::ops::Range<usize>, dirty: &std::ops::Range<usize>) -> (r: bool)
    ensures
        r == overlaps_range((span.start as int, span.end as int, Construct::Attachment), dirty.start as int, dirty.end as int),
{
    (span.start < dirty.end && dirty.start < span.end) || (span.start >= span.end && dirty.start <= span.start
        && span.start < dirty.end)
}

/// `reusable`, computed: the edit stays in the buffer, and no fenced block
/// of `previous` meets the lines it touched before it was made.
fn reuse_ok(t: &[u8], previous: &[Span], rs: usize, re: usize, ins: usize) -> (r: bool)
    ensures
        r == reusable(t@, views(previous@), rs as int, re as int, ins as int),
{
    if rs > re || ins > t.len() || rs > t.len() - ins {
        return false;
    }
    let ls = line_start(t, rs);
    let le = line_end(t, rs + ins);
    // The old edited lines end `le - ins + (re - rs)`; compared without
    // forming that sum.
    let base = le - ins;
    let width = re - rs;
    let ghost pv = views(previous@);
    let mut i: usize = 0;
    while i < previous.len()
        invariant
            i <= previous@.len(),
            pv == views(previous@),
            ls == line_start_of(t@, rs as int),
            le == line_end_of(t@, rs + ins),
            base == le - ins,
            width == re - rs,
            forall|j: int|
                0 <= j < i && (#[trigger] pv[j]).2 == Construct::CodeFence ==> !(pv[j].0 <= le - ins + (re - rs)
                    && ls <= pv[j].1),
        decreases previous@.len() - i,
    {
        let x = &previous[i];
        if x.construct == Construct::CodeFence {
            let before_end = x.range.start <= base || x.range.start - base <= width;
            if before_end && ls <= x.range.end {
                proof {
                    assert(pv[i as int] == x@);
                }
                return false;
            }
        }
        proof {
            assert(pv[i as int] == x@);
        }
        i = i + 1;
    }
    true
}

/// The constructs in `text` after `edit`, reusing `previous` for the parts
/// the edit cannot have changed. Equivalent to [`scan`] on the new text.
///
/// `previous` is what a scan of the text before the edit returned. When a
/// fenced block it holds meets the lines the edit touched, or the edit
/// does not fit the buffer, the text is scanned afresh; otherwise the
/// spans clear of the dirty range are moved past the edit and the dirty
/// range is read again. Either way the result holds exactly what a fresh
/// scan holds, in the same order (`lemma_rescan_agrees_when_reusable`,
/// `lemma_results_agree`).
pub fn rescan(text: &str, attachments: &[&str], previous: &[Span], edit: &crate::composer_scan::span::Edit) -> (r: Vec<Span>)
    requires
        edit.replaced.start + edit.inserted <= usize::MAX,
        text.is_char_boundary(if edit.replaced.start < text.len() { edit.replaced.start } else { text.len() }),
        text.is_char_boundary(if edit.replaced.start + edit.inserted < text.len() { (edit.replaced.start + edit.inserted) as usize } else { text.len() }),
    ensures
        sorted_unique(views(r@)),
        same_members(views(r@), if reusable(text.spec_bytes(), views(previous@), edit.replaced.start as int,
            edit.replaced.end as int, edit.inserted as int) {
            rescan_spans(text.spec_bytes(), ref_bytes(attachments@), views(previous@),
                edit.replaced.start as int, edit.replaced.end as int, edit.inserted as int)
        } else {
            all_spans(text.spec_bytes(), ref_bytes(attachments@))
        }),
        forall|old: Seq<u8>, old_refs: Seq<Seq<u8>>|
            edited(old, text.spec_bytes(), edit.replaced.start as int, edit.replaced.end as int, edit.inserted as int)
                && #[trigger] same_members(views(previous@), all_spans(old, old_refs)) ==> same_members(
                views(r@),
                all_spans(text.spec_bytes(), ref_bytes(attachments@)),
            ),
{
    if !reuse_ok(text.as_bytes(), previous, edit.replaced.start, edit.replaced.end, edit.inserted) {
        return scan(text, attachments);
    }
    let t = text.as_bytes();
    let rs = edit.replaced.start;
    let re = edit.replaced.end;
    let ins = edit.inserted;
    let (ds, de) = crate::composer_scan::dirty::dirty_range_at(t, rs, ins);
    let mut spans: Vec<Span> = Vec::new();
    let ghost pv = views(previous@);
    let mut i: usize = 0;
    while i < previous.len()
        invariant
            i <= previous@.len(),
            pv == views(previous@),
            views(spans@) == kept(pv.take(i as int), rs as int, re as int, ins as int, ds as int, de as int),
        decreases previous@.len() - i,
    {
        let x = &previous[i];
        let ghost before = views(spans@);
        if x.construct != Construct::Attachment {
            match shift(x, rs, re, ins) {
                Some(y) => {
                    if !overlaps(&y.range, &(ds..de)) {
                        let ghost yv = y@;
                        spans.push(y);
                        proof {
                            assert(views(spans@) =~= before + seq![yv]);
                        }
                    }
                },
                None => {},
            }
        }
        proof {
            assert(pv.take(i + 1).drop_last() =~= pv.take(i as int));
            assert(pv.take(i + 1).last() == x@);
            assert(views(spans@) =~= kept(pv.take(i + 1), rs as int, re as int, ins as int, ds as int, de as int));
        }
        i = i + 1;
    }
    proof {
        assert(pv.take(previous@.len() as int) =~= pv);
    }
    crate::composer_scan::markdown::scan(t, ds, de, &mut spans);
    crate::composer_scan::tokens::scan(t, ds, de, &mut spans);
    attachment_spans(t, attachments, &mut spans);
    proof {
        assert(views(spans@) =~= rescan_spans(t@, ref_bytes(attachments@), pv, rs as int, re as int, ins as int));
        assert(t@.len() == t.len());
        assert forall|old: Seq<u8>, old_refs: Seq<Seq<u8>>|
            edited(old, t@, rs as int, re as int, ins as int) && #[trigger] same_members(pv, all_spans(old, old_refs))
                implies same_members(
            rescan_spans(t@, ref_bytes(attachments@), pv, rs as int, re as int, ins as int),
            all_spans(t@, ref_bytes(attachments@)),
        ) by {
            lemma_rescan_agrees_when_reusable(old, t@, old_refs, ref_bytes(attachments@), pv, rs as int, re as int, ins as int);
        }
    }
    sort(spans)
}

/// The range of `text` - the buffer *after* `edit` - that has to be
/// scanned again.
pub fn dirty_range(text: &str, edit: &crate::composer_scan::span::Edit) -> (r: std::ops::Range<usize>)
    requires
        edit.replaced.start + edit.inserted <= usize::MAX,
        text.is_char_boundary(if edit.replaced.start < text.len() { edit.replaced.start } else { text.len() }),
        text.is_char_boundary(if edit.replaced.start + edit.inserted < text.len() { (edit.replaced.start + edit.inserted) as usize } else { text.len() }),
    ensures
        (r.start as int, r.end as int) == crate::composer_scan::dirty::dirty(text.spec_bytes(),
            edit.replaced.start as int, edit.replaced.start + edit.inserted),
        r.start <= r.end <= text.spec_bytes().len(),
{
    let (a, b) = crate::composer_scan::dirty::dirty_range_at(text.as_bytes(), edit.replaced.start, edit.inserted);
    a..b
}

} // verus!
