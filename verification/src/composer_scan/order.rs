//! One order for every result, so equal buffers give equal output
//! whichever path produced it.

use crate::composer_scan::span::{construct_rank, rank, sorted_unique, span_lt, views, Construct, Span, SpanV};
use vstd::prelude::*;

verus! {

/// `a` and `b` hold the same spans.
pub open spec fn same_members(a: Seq<SpanV>, b: Seq<SpanV>) -> bool {
    forall|x: SpanV| a.contains(x) <==> b.contains(x)
}

/// `span_lt`, computed.
fn span_lt_exec(a: &Span, b: &Span) -> (r: bool)
    ensures
        r == span_lt(a@, b@),
{
    let ra = construct_rank(a.construct);
    let rb = construct_rank(b.construct);
    a.range.start < b.range.start || (a.range.start == b.range.start && (ra < rb || (ra == rb
        && a.range.end < b.range.end)))
}

proof fn lemma_rank_injective(a: Construct, b: Construct)
    ensures
        rank(a) == rank(b) ==> a == b,
{
}

/// Two distinct spans are ordered one way or the other.
pub proof fn lemma_lt_total(a: SpanV, b: SpanV)
    ensures
        a == b || span_lt(a, b) || span_lt(b, a),
        !(span_lt(a, b) && span_lt(b, a)),
        !span_lt(a, a),
{
    lemma_rank_injective(a.2, b.2);
}

/// Inserts `s` where the order puts it, unless it is already there.
fn insert_sorted(v: &mut Vec<Span>, s: Span)
    requires
        sorted_unique(views(old(v)@)),
    ensures
        sorted_unique(views(final(v)@)),
        forall|x: SpanV| views(final(v)@).contains(x) <==> (views(old(v)@).contains(x) || x == s@),
{
    let ghost old_v = views(v@);
    let mut p: usize = 0;
    while p < v.len() && span_lt_exec(&v[p], &s)
        invariant
            p <= v@.len(),
            views(v@) == old_v,
            forall|j: int| 0 <= j < p ==> span_lt(#[trigger] old_v[j], s@),
        decreases v@.len() - p,
    {
        p = p + 1;
    }
    if p < v.len() && v[p].range.start == s.range.start && v[p].range.end == s.range.end
        && v[p].construct == s.construct {
        proof {
            assert(old_v[p as int] == s@);
            assert forall|x: SpanV| views(v@).contains(x) <==> (old_v.contains(x) || x == s@) by {
                if x == s@ {
                    assert(old_v[p as int] == x);
                }
            }
        }
        return;
    }
    let ghost sv = s@;
    v.insert(p, s);
    proof {
        let nv = views(v@);
        assert(nv =~= old_v.insert(p as int, sv));
        if p < old_v.len() {
            lemma_lt_total(sv, old_v[p as int]);
            assert(span_lt(sv, old_v[p as int]));
        }
        assert forall|i: int, j: int| 0 <= i < j < nv.len() implies span_lt(#[trigger] nv[i], #[trigger] nv[j]) by {
            if j < p {
            } else if j == p {
                assert(span_lt(old_v[i], sv));
            } else if i < p {
                assert(span_lt(old_v[i], sv));
                assert(p < old_v.len());
                assert(span_lt(sv, old_v[p as int]));
                if p as int != j - 1 {
                    assert(span_lt(old_v[p as int], old_v[j - 1]));
                }
            } else if i == p {
                assert(span_lt(sv, old_v[p as int]));
                if p as int != j - 1 {
                    assert(span_lt(old_v[p as int], old_v[j - 1]));
                }
            } else {
                assert(span_lt(old_v[i - 1], old_v[j - 1]));
            }
        }
        assert forall|x: SpanV| nv.contains(x) <==> (old_v.contains(x) || x == sv) by {
            if nv.contains(x) {
                let k = choose|k: int| 0 <= k < nv.len() && nv[k] == x;
                if k < p {
                    assert(old_v[k] == x);
                } else if k > p {
                    assert(old_v[k - 1] == x);
                }
            }
            if old_v.contains(x) {
                let k = choose|k: int| 0 <= k < old_v.len() && old_v[k] == x;
                if k < p {
                    assert(nv[k] == x);
                } else {
                    assert(nv[k + 1] == x);
                }
            }
            if x == sv {
                assert(nv[p as int] == x);
            }
        }
    }
}

/// `spans` sorted by start, then construct, then end, each span once.
pub fn sort(spans: Vec<Span>) -> (r: Vec<Span>)
    ensures
        sorted_unique(views(r@)),
        same_members(views(r@), views(spans@)),
{
    let mut out: Vec<Span> = Vec::new();
    let mut rest = spans;
    let ghost all = views(rest@);
    let ghost n = all.len();
    // Spans are taken from the back, so what is left is always a prefix.
    while rest.len() > 0
        invariant
            views(rest@) == all.take(views(rest@).len() as int),
            views(rest@).len() <= n,
            n == all.len(),
            sorted_unique(views(out@)),
            forall|x: SpanV| views(out@).contains(x) <==> all.subrange(views(rest@).len() as int, n as int).contains(x),
        decreases rest@.len(),
    {
        let ghost k = rest@.len();
        let ghost r0 = rest@;
        let s = rest.pop().unwrap();
        proof {
            assert(r0[k - 1] == s);
            assert(views(r0)[k - 1] == all.take(k as int)[k - 1]);
            assert(views(rest@) =~= all.take(k - 1));
            assert(s@ == all[k - 1]);
        }
        let ghost before = views(out@);
        insert_sorted(&mut out, s);
        proof {
            let lo = all.subrange(k - 1, n as int);
            let hi = all.subrange(k as int, n as int);
            assert forall|x: SpanV| lo.contains(x) <==> (hi.contains(x) || x == all[k - 1]) by {
                if lo.contains(x) {
                    let j = choose|j: int| 0 <= j < lo.len() && lo[j] == x;
                    if j > 0 {
                        assert(hi[j - 1] == x);
                    }
                }
                if hi.contains(x) {
                    let j = choose|j: int| 0 <= j < hi.len() && hi[j] == x;
                    assert(lo[j + 1] == x);
                }
                if x == all[k - 1] {
                    assert(lo[0] == x);
                }
            }
        }
    }
    proof {
        assert(all.subrange(0, n as int) =~= all);
    }
    out
}

/// Two sorted, duplicate-free sequences holding the same spans are the same
/// sequence.
pub proof fn lemma_sorted_unique_eq(a: Seq<SpanV>, b: Seq<SpanV>)
    requires
        sorted_unique(a),
        sorted_unique(b),
        same_members(a, b),
    ensures
        a == b,
    decreases a.len() + b.len(),
{
    if a.len() == 0 {
        if b.len() > 0 {
            assert(b.contains(b[0]));
        }
        assert(a =~= b);
    } else if b.len() == 0 {
        assert(a.contains(a[0]));
    } else {
        assert(a.contains(a[0]));
        assert(b.contains(b[0]));
        let i = choose|i: int| 0 <= i < b.len() && b[i] == a[0];
        let j = choose|j: int| 0 <= j < a.len() && a[j] == b[0];
        lemma_lt_total(a[0], b[0]);
        if a[0] != b[0] {
            if j > 0 {
                assert(span_lt(a[0], a[j]));
            }
            if i > 0 {
                assert(span_lt(b[0], b[i]));
            }
        }
        assert(a[0] == b[0]);
        let a1 = a.drop_first();
        let b1 = b.drop_first();
        assert forall|x: SpanV| a1.contains(x) <==> b1.contains(x) by {
            if a1.contains(x) {
                let k = choose|k: int| 0 <= k < a1.len() && a1[k] == x;
                assert(a.contains(x));
                assert(a[k + 1] == x);
                assert(span_lt(a[0], a[k + 1]));
                let m = choose|m: int| 0 <= m < b.len() && b[m] == x;
                if m == 0 {
                    lemma_lt_total(a[0], x);
                }
                assert(b1[m - 1] == x);
            }
            if b1.contains(x) {
                let k = choose|k: int| 0 <= k < b1.len() && b1[k] == x;
                assert(b.contains(x));
                assert(b[k + 1] == x);
                assert(span_lt(b[0], b[k + 1]));
                let m = choose|m: int| 0 <= m < a.len() && a[m] == x;
                if m == 0 {
                    lemma_lt_total(b[0], x);
                }
                assert(a1[m - 1] == x);
            }
        }
        lemma_sorted_unique_eq(a1, b1);
        assert(a =~= seq![a[0]] + a1);
        assert(b =~= seq![b[0]] + b1);
    }
}

} // verus!
