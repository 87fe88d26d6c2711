//! Turning the composer's scanned runs into layers, and recovering the edit
//! between two buffers that feeds the incremental scan.
//!
//! The three decoration collections are created in a fixed order, and the
//! renderer resolves a contested property in favour of the first, so that
//! order is the precedence: attachment chips, then tokens, then markdown.

use crate::composer_scan::span::{views, Construct, Edit, Span, SpanV};
use vstd::prelude::*;
use vstd::string::StringSliceAdditionalSpecFns;
use vstd::utf8::{
    encode_utf8_valid_utf8, is_char_boundary, is_char_boundary_iff_not_is_continuation_byte,
    is_char_boundary_start_end_of_seq, valid_utf8, valid_utf8_split,
};

verus! {

/// Which decoration collection a construct belongs to.
#[derive(Clone, Copy, Debug, PartialEq, Eq, PartialOrd, Ord, Structural)]
pub enum Layer {
    Attachment,
    Token,
    Markdown,
}

impl Layer {
    /// The three, in creation order.
    pub const ALL: [Layer; 3] = [Layer::Attachment, Layer::Token, Layer::Markdown];

    /// The layer `construct` is painted in.
    pub fn of(construct: Construct) -> (l: Layer)
        ensures
            l == (match construct {
                Construct::Attachment => Layer::Attachment,
                Construct::SlashToken | Construct::Mention => Layer::Token,
                _ => Layer::Markdown,
            }),
    {
        match construct {
            Construct::Attachment => Layer::Attachment,
            Construct::SlashToken | Construct::Mention => Layer::Token,
            Construct::Emphasis
            | Construct::Strong
            | Construct::InlineCode
            | Construct::CodeFence
            | Construct::Heading
            | Construct::ListMarker
            | Construct::BlockQuote
            | Construct::Link => Layer::Markdown,
        }
    }
}

/// The theme colours a treatment draws from. Each is resolved from the
/// active theme when the decorations are painted, so a change of
/// appearance repaints the same spans in new colours.
#[derive(Clone, Copy, Debug, PartialEq, Eq, Hash, Structural)]
pub enum PaletteColor {
    Foreground,
    Muted,
    MutedForeground,
    AccentForeground,
    Primary,
    Secondary,
    SecondaryForeground,
}

/// A font weight a treatment sets.
#[derive(Clone, Copy, Debug, PartialEq, Eq, Hash, Structural)]
pub enum Weight {
    Medium,
    Semibold,
    Bold,
    ExtraBold,
}

/// How a construct is drawn: a colour, a background, a weight, a slant and
/// an underline, each of which it may leave as prose has it.
#[derive(Clone, Copy, Debug, PartialEq, Eq, Hash, Structural)]
pub struct Treatment {
    pub color: Option<PaletteColor>,
    pub background: Option<PaletteColor>,
    pub weight: Option<Weight>,
    pub italic: bool,
    pub underline: bool,
}

/// How each construct is drawn.
pub open spec fn treatment_of(construct: Construct) -> Treatment {
    match construct {
        Construct::Attachment => Treatment {
            color: Some(PaletteColor::SecondaryForeground),
            background: Some(PaletteColor::Secondary),
            weight: Some(Weight::Medium),
            italic: false,
            underline: false,
        },
        Construct::SlashToken => Treatment {
            color: Some(PaletteColor::AccentForeground),
            background: None,
            weight: Some(Weight::Semibold),
            italic: false,
            underline: false,
        },
        Construct::Mention => Treatment {
            color: Some(PaletteColor::Primary),
            background: None,
            weight: Some(Weight::Semibold),
            italic: true,
            underline: false,
        },
        Construct::Emphasis => Treatment {
            color: None,
            background: None,
            weight: None,
            italic: true,
            underline: false,
        },
        Construct::Strong => Treatment {
            color: None,
            background: None,
            weight: Some(Weight::Bold),
            italic: false,
            underline: false,
        },
        Construct::InlineCode | Construct::CodeFence => Treatment {
            color: Some(PaletteColor::MutedForeground),
            background: Some(PaletteColor::Muted),
            weight: None,
            italic: false,
            underline: false,
        },
        Construct::Heading => Treatment {
            color: Some(PaletteColor::Foreground),
            background: None,
            weight: Some(Weight::ExtraBold),
            italic: false,
            underline: false,
        },
        Construct::ListMarker => Treatment {
            color: Some(PaletteColor::AccentForeground),
            background: None,
            weight: Some(Weight::Bold),
            italic: false,
            underline: false,
        },
        Construct::BlockQuote => Treatment {
            color: Some(PaletteColor::MutedForeground),
            background: None,
            weight: None,
            italic: true,
            underline: false,
        },
        Construct::Link => Treatment {
            color: Some(PaletteColor::Primary),
            background: None,
            weight: None,
            italic: false,
            underline: true,
        },
    }
}

/// Whether a treatment carries a signal other than hue: a weight, a slant,
/// a background or an underline.
pub open spec fn carries_more_than_a_hue(t: Treatment) -> bool {
    t.weight is Some || t.italic || t.background is Some || t.underline
}

/// How `construct` is drawn. A chip takes a background, so it reads as one
/// object; a token takes a weight, as part of the sentence; code takes a
/// background, which keeps it legible when muted colours sit close to the
/// foreground; a link takes an underline.
pub fn treatment(construct: Construct) -> (t: Treatment)
    ensures
        t == treatment_of(construct),
{
    match construct {
        Construct::Attachment => Treatment {
            color: Some(PaletteColor::SecondaryForeground),
            background: Some(PaletteColor::Secondary),
            weight: Some(Weight::Medium),
            italic: false,
            underline: false,
        },
        Construct::SlashToken => Treatment {
            color: Some(PaletteColor::AccentForeground),
            background: None,
            weight: Some(Weight::Semibold),
            italic: false,
            underline: false,
        },
        Construct::Mention => Treatment {
            color: Some(PaletteColor::Primary),
            background: None,
            weight: Some(Weight::Semibold),
            italic: true,
            underline: false,
        },
        Construct::Emphasis => Treatment { color: None, background: None, weight: None, italic: true, underline: false },
        Construct::Strong => Treatment {
            color: None,
            background: None,
            weight: Some(Weight::Bold),
            italic: false,
            underline: false,
        },
        Construct::InlineCode | Construct::CodeFence => Treatment {
            color: Some(PaletteColor::MutedForeground),
            background: Some(PaletteColor::Muted),
            weight: None,
            italic: false,
            underline: false,
        },
        Construct::Heading => Treatment {
            color: Some(PaletteColor::Foreground),
            background: None,
            weight: Some(Weight::ExtraBold),
            italic: false,
            underline: false,
        },
        Construct::ListMarker => Treatment {
            color: Some(PaletteColor::AccentForeground),
            background: None,
            weight: Some(Weight::Bold),
            italic: false,
            underline: false,
        },
        Construct::BlockQuote => Treatment {
            color: Some(PaletteColor::MutedForeground),
            background: None,
            weight: None,
            italic: true,
            underline: false,
        },
        Construct::Link => Treatment {
            color: Some(PaletteColor::Primary),
            background: None,
            weight: None,
            italic: false,
            underline: true,
        },
    }
}

/// No construct is told apart by hue alone: every treatment also carries a
/// weight, a slant, a background or an underline, so the styling survives
/// a low-contrast theme and does not rely on colour vision.
pub proof fn lemma_every_treatment_carries_more_than_a_hue(construct: Construct)
    ensures
        carries_more_than_a_hue(treatment_of(construct)),
{
}

/// Constructs the user is meant to tell apart are drawn differently; inline
/// code and a fenced block are the one pair drawn alike.
pub proof fn lemma_treatments_are_distinct(a: Construct, b: Construct)
    requires
        a != b,
    ensures
        treatment_of(a) == treatment_of(b) <==> (a == Construct::InlineCode && b == Construct::CodeFence)
            || (a == Construct::CodeFence && b == Construct::InlineCode),
{
}

/// Prose with one change: a slant and nothing else.
pub open spec fn slant_only() -> Treatment {
    Treatment { color: None, background: None, weight: None, italic: true, underline: false }
}

/// Prose with one change: bold and nothing else.
pub open spec fn bold_only() -> Treatment {
    Treatment { color: None, background: None, weight: Some(Weight::Bold), italic: false, underline: false }
}

/// Emphasis and strong text read as markdown means them: emphasis is the
/// one construct told from prose by a slant alone, strong the one told from
/// it by bold alone, so neither changes the colour, and emphasis changes no
/// weight.
pub proof fn lemma_emphasis_slants_and_strong_bolds(construct: Construct)
    ensures
        treatment_of(construct) == slant_only() <==> construct == Construct::Emphasis,
        treatment_of(construct) == bold_only() <==> construct == Construct::Strong,
{
}

/// The constructs drawn slanted are exactly emphasis, a mention and a
/// quote; every other construct is drawn upright.
pub proof fn lemma_slanted_constructs(construct: Construct)
    ensures
        treatment_of(construct).italic <==> (construct == Construct::Emphasis || construct == Construct::Mention
            || construct == Construct::BlockQuote),
{
}

/// The decorations of `spans` painted in layer `layer`, in order.
pub open spec fn layer_spans(spans: Seq<SpanV>, layer: Layer) -> Seq<SpanV> {
    spans.filter(|s: SpanV| layer_of(s.2) == layer)
}

/// The layer a construct is painted in.
pub open spec fn layer_of(construct: Construct) -> Layer {
    match construct {
        Construct::Attachment => Layer::Attachment,
        Construct::SlashToken | Construct::Mention => Layer::Token,
        _ => Layer::Markdown,
    }
}

/// One decoration: a byte range of the buffer and how it is drawn.
#[derive(Debug, PartialEq, Eq)]
pub struct Decoration {
    pub range: std::ops::Range<usize>,
    pub treatment: Treatment,
}

/// The decorations one layer's collection paints: the spans whose
/// construct belongs to `layer`, in order, each with its treatment.
pub fn decorations(spans: &[Span], layer: Layer) -> (r: Vec<Decoration>)
    ensures
        r@.len() == layer_spans(views(spans@), layer).len(),
        forall|j: int|
            0 <= j < r@.len() ==> {
                let s = layer_spans(views(spans@), layer)[j];
                &&& (#[trigger] r@[j]).range.start == s.0
                &&& r@[j].range.end == s.1
                &&& r@[j].treatment == treatment_of(s.2)
            },
{
    let mut out: Vec<Decoration> = Vec::new();
    let mut i: usize = 0;
    while i < spans.len()
        invariant
            i <= spans@.len(),
            out@.len() == layer_spans(views(spans@.take(i as int)), layer).len(),
            forall|j: int|
                0 <= j < out@.len() ==> {
                    let s = layer_spans(views(spans@.take(i as int)), layer)[j];
                    &&& (#[trigger] out@[j]).range.start == s.0
                    &&& out@[j].range.end == s.1
                    &&& out@[j].treatment == treatment_of(s.2)
                },
        decreases spans@.len() - i,
    {
        proof {
            reveal_with_fuel(Seq::<SpanV>::filter, 1);
            assert(views(spans@.take(i + 1)).drop_last() =~= views(spans@.take(i as int)));
            assert(views(spans@.take(i + 1)).last() == spans@[i as int]@);
        }
        let span = &spans[i];
        if Layer::of(span.construct) == layer {
            out.push(Decoration { range: span.range.start..span.range.end, treatment: treatment(span.construct) });
        }
        i = i + 1;
    }
    proof {
        assert(spans@.take(spans@.len() as int) =~= spans@);
    }
    out
}

/// The index of the first byte at or after `i` where `a` and `b` differ,
/// or the shorter length.
pub open spec fn first_difference(a: Seq<u8>, b: Seq<u8>, i: int) -> int
    decreases a.len() - i,
{
    if i < 0 || i >= a.len() || i >= b.len() || a[i] != b[i] {
        i
    } else {
        first_difference(a, b, i + 1)
    }
}

/// `k`, rounded down to an offset that is a character boundary in both.
pub open spec fn round_down_both(a: Seq<u8>, b: Seq<u8>, k: int) -> int
    decreases k,
{
    if k <= 0 {
        0
    } else if is_char_boundary(a, k) && is_char_boundary(b, k) {
        k
    } else {
        round_down_both(a, b, k - 1)
    }
}

/// How many bytes the two end with alike, counting back from `k` shared.
pub open spec fn shared_tail(a: Seq<u8>, b: Seq<u8>, k: int) -> int
    decreases a.len() - k,
{
    if k < 0 || k >= a.len() || k >= b.len() || a[a.len() - 1 - k] != b[b.len() - 1 - k] {
        k
    } else {
        shared_tail(a, b, k + 1)
    }
}

/// `k` trailing bytes, reduced until both `a.len() - k` and `b.len() - k`
/// are character boundaries.
pub open spec fn round_down_tail(a: Seq<u8>, b: Seq<u8>, k: int) -> int
    decreases k,
{
    if k <= 0 {
        0
    } else if is_char_boundary(a, a.len() - k) && is_char_boundary(b, b.len() - k) {
        k
    } else {
        round_down_tail(a, b, k - 1)
    }
}

/// How many leading bytes `a` and `b` share, rounded down to a character
/// boundary in both.
pub open spec fn prefix_len(a: Seq<u8>, b: Seq<u8>) -> int {
    round_down_both(a, b, first_difference(a, b, 0))
}

/// How many trailing bytes `a` and `b` share, rounded down to a character
/// boundary in both.
pub open spec fn suffix_len(a: Seq<u8>, b: Seq<u8>) -> int {
    round_down_tail(a, b, shared_tail(a, b, 0))
}

proof fn lemma_first_difference(a: Seq<u8>, b: Seq<u8>, i: int)
    requires
        0 <= i <= a.len(),
        i <= b.len(),
        a.subrange(0, i) == b.subrange(0, i),
    ensures
        i <= first_difference(a, b, i) <= a.len(),
        first_difference(a, b, i) <= b.len(),
        a.subrange(0, first_difference(a, b, i)) == b.subrange(0, first_difference(a, b, i)),
    decreases a.len() - i,
{
    if !(i >= a.len() || i >= b.len() || a[i] != b[i]) {
        assert(a.subrange(0, i + 1) =~= a.subrange(0, i).push(a[i]));
        assert(b.subrange(0, i + 1) =~= b.subrange(0, i).push(b[i]));
        lemma_first_difference(a, b, i + 1);
    }
}

proof fn lemma_round_down_both(a: Seq<u8>, b: Seq<u8>, k: int)
    requires
        valid_utf8(a),
        valid_utf8(b),
    ensures
        0 <= round_down_both(a, b, k) <= if k < 0 { 0 } else { k },
        is_char_boundary(a, round_down_both(a, b, k)),
        is_char_boundary(b, round_down_both(a, b, k)),
    decreases k,
{
    if k > 0 && !(is_char_boundary(a, k) && is_char_boundary(b, k)) {
        lemma_round_down_both(a, b, k - 1);
    }
}

proof fn lemma_shared_tail(a: Seq<u8>, b: Seq<u8>, k: int)
    requires
        0 <= k <= a.len(),
        k <= b.len(),
        a.subrange(a.len() - k, a.len() as int) == b.subrange(b.len() - k, b.len() as int),
    ensures
        k <= shared_tail(a, b, k) <= a.len(),
        shared_tail(a, b, k) <= b.len(),
        a.subrange(a.len() - shared_tail(a, b, k), a.len() as int) == b.subrange(
            b.len() - shared_tail(a, b, k),
            b.len() as int,
        ),
    decreases a.len() - k,
{
    if !(k >= a.len() || k >= b.len() || a[a.len() - 1 - k] != b[b.len() - 1 - k]) {
        assert(a.subrange(a.len() - (k + 1), a.len() as int) =~= seq![a[a.len() - 1 - k]] + a.subrange(
            a.len() - k,
            a.len() as int,
        ));
        assert(b.subrange(b.len() - (k + 1), b.len() as int) =~= seq![b[b.len() - 1 - k]] + b.subrange(
            b.len() - k,
            b.len() as int,
        ));
        lemma_shared_tail(a, b, k + 1);
    }
}

proof fn lemma_round_down_tail(a: Seq<u8>, b: Seq<u8>, k: int)
    requires
        valid_utf8(a),
        valid_utf8(b),
        k <= a.len(),
        k <= b.len(),
    ensures
        0 <= round_down_tail(a, b, k) <= if k < 0 { 0 } else { k },
        is_char_boundary(a, a.len() - round_down_tail(a, b, k)),
        is_char_boundary(b, b.len() - round_down_tail(a, b, k)),
    decreases k,
{
    is_char_boundary_start_end_of_seq(a);
    is_char_boundary_start_end_of_seq(b);
    if k > 0 && !(is_char_boundary(a, a.len() - k) && is_char_boundary(b, b.len() - k)) {
        lemma_round_down_tail(a, b, k - 1);
    }
}

/// How many leading bytes `old` and `new` share, rounded down to a
/// character boundary in both.
pub fn common_prefix(old: &str, new: &str) -> (n: usize)
    ensures
        n == prefix_len(old.spec_bytes(), new.spec_bytes()),
{
    let a = old.as_bytes();
    let b = new.as_bytes();
    let mut shared: usize = 0;
    while shared < a.len() && shared < b.len() && a[shared] == b[shared]
        invariant
            shared <= a@.len(),
            shared <= b@.len(),
            first_difference(a@, b@, 0) == first_difference(a@, b@, shared as int),
        decreases a@.len() - shared,
    {
        shared = shared + 1;
    }
    let ghost fd = shared as int;
    while shared > 0 && !(old.is_char_boundary(shared) && new.is_char_boundary(shared))
        invariant
            shared <= fd,
            a@ == old.spec_bytes(),
            b@ == new.spec_bytes(),
            round_down_both(a@, b@, fd) == round_down_both(a@, b@, shared as int),
        decreases shared,
    {
        shared = shared - 1;
    }
    shared
}

/// How many trailing bytes `old` and `new` share, rounded down to a
/// character boundary in both.
pub fn common_suffix(old: &str, new: &str) -> (n: usize)
    ensures
        n == suffix_len(old.spec_bytes(), new.spec_bytes()),
{
    let a = old.as_bytes();
    let b = new.as_bytes();
    let la = a.len();
    let lb = b.len();
    let mut shared: usize = 0;
    while shared < la && shared < lb && a[la - 1 - shared] == b[lb - 1 - shared]
        invariant
            la == a@.len(),
            lb == b@.len(),
            shared <= la,
            shared <= lb,
            shared_tail(a@, b@, 0) == shared_tail(a@, b@, shared as int),
        decreases la - shared,
    {
        shared = shared + 1;
    }
    let ghost st = shared as int;
    while shared > 0 && !(old.is_char_boundary(la - shared) && new.is_char_boundary(lb - shared))
        invariant
            shared <= st,
            shared <= la,
            shared <= lb,
            la == a@.len(),
            lb == b@.len(),
            a@ == old.spec_bytes(),
            b@ == new.spec_bytes(),
            round_down_tail(a@, b@, st) == round_down_tail(a@, b@, shared as int),
        decreases shared,
    {
        shared = shared - 1;
    }
    shared
}

/// A boundary of a suffix taken at a boundary is a boundary of the whole.
proof fn lemma_boundary_in_suffix(t: Seq<u8>, p: int, j: int)
    requires
        valid_utf8(t),
        0 <= p <= t.len(),
        is_char_boundary(t, p),
        0 <= j <= t.len() - p,
        is_char_boundary(t.subrange(p, t.len() as int), j),
    ensures
        is_char_boundary(t, p + j),
{
    let s = t.subrange(p, t.len() as int);
    valid_utf8_split(t, p);
    is_char_boundary_start_end_of_seq(t);
    if p + j < t.len() {
        is_char_boundary_iff_not_is_continuation_byte(s, j);
        is_char_boundary_iff_not_is_continuation_byte(t, p + j);
    }
}

/// The single replacement that turns `old` into `new`: the common prefix
/// and suffix trimmed off, each rounded down to a character boundary.
///
/// Applying the edit to `old` gives back `new`, and every offset it names
/// is a character boundary in the buffer it is read against.
pub fn edit_between(old: &str, new: &str) -> (e: Edit)
    ensures
        e.replaced.start == prefix_len(old.spec_bytes(), new.spec_bytes()),
        e.replaced.end == old.spec_bytes().len() - suffix_len(
            old.spec_bytes().subrange(e.replaced.start as int, old.spec_bytes().len() as int),
            new.spec_bytes().subrange(e.replaced.start as int, new.spec_bytes().len() as int),
        ),
        e.replaced.start <= e.replaced.end <= old.spec_bytes().len(),
        e.replaced.start + e.inserted <= new.spec_bytes().len(),
        e.inserted == new.spec_bytes().len() - e.replaced.start - (old.spec_bytes().len() - e.replaced.end),
        old.spec_bytes().subrange(0, e.replaced.start as int) + new.spec_bytes().subrange(
            e.replaced.start as int,
            e.replaced.start + e.inserted,
        ) + old.spec_bytes().subrange(e.replaced.end as int, old.spec_bytes().len() as int)
            == new.spec_bytes(),
        is_char_boundary(old.spec_bytes(), e.replaced.start as int),
        is_char_boundary(old.spec_bytes(), e.replaced.end as int),
        is_char_boundary(new.spec_bytes(), e.replaced.start as int),
        is_char_boundary(new.spec_bytes(), e.replaced.start + e.inserted),
{
    let ghost a = old.spec_bytes();
    let ghost b = new.spec_bytes();
    proof {
        encode_utf8_valid_utf8(old@);
        encode_utf8_valid_utf8(new@);
        assert(a.subrange(0, 0) =~= b.subrange(0, 0));
        lemma_first_difference(a, b, 0);
        lemma_round_down_both(a, b, first_difference(a, b, 0));
    }
    let la = old.as_bytes().len();
    let lb = new.as_bytes().len();
    let prefix = common_prefix(old, new);
    let (_, old_rest) = old.split_at(prefix);
    let (_, new_rest) = new.split_at(prefix);
    let suffix = common_suffix(old_rest, new_rest);
    let ghost ar = old_rest.spec_bytes();
    let ghost br = new_rest.spec_bytes();
    proof {
        valid_utf8_split(a, prefix as int);
        valid_utf8_split(b, prefix as int);
        assert(ar.subrange(ar.len() - 0, ar.len() as int) =~= br.subrange(br.len() - 0, br.len() as int));
        lemma_shared_tail(ar, br, 0);
        lemma_round_down_tail(ar, br, shared_tail(ar, br, 0));
        let p = prefix as int;
        let s = suffix as int;
        let st = shared_tail(ar, br, 0);
        // The kept tail is shared.
        assert(ar.subrange(ar.len() - s, ar.len() as int) =~= ar.subrange(ar.len() - st, ar.len() as int).subrange(st - s, st));
        assert(br.subrange(br.len() - s, br.len() as int) =~= br.subrange(br.len() - st, br.len() as int).subrange(st - s, st));
        let fd = first_difference(a, b, 0);
        assert(a.subrange(0, p) =~= a.subrange(0, fd).subrange(0, p));
        assert(b.subrange(0, p) =~= b.subrange(0, fd).subrange(0, p));
        let ins = b.len() - p - s;
        assert(a.subrange(a.len() - s, a.len() as int) =~= ar.subrange(ar.len() - s, ar.len() as int));
        assert(b.subrange(b.len() - s, b.len() as int) =~= br.subrange(br.len() - s, br.len() as int));
        assert(a.subrange(0, p) + b.subrange(p, p + ins) + a.subrange(a.len() - s, a.len() as int) =~= b);
        lemma_boundary_in_suffix(a, p, ar.len() - s);
        lemma_boundary_in_suffix(b, p, br.len() - s);
    }
    Edit { replaced: prefix..la - suffix, inserted: lb - prefix - suffix }
}

} // verus!
