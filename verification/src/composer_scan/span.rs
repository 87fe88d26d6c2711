//! The vocabulary of composer constructs: what a run is, where it is, and
//! the one order every result is given in.

use std::ops::Range;
use vstd::prelude::*;

verus! {

/// What a run of the buffer is.
///
/// The three decoration collections the composer builds group these:
/// [`Construct::Attachment`] alone, the two token variants, and all the
/// markdown ones. The scanner reports every run it finds and lets them
/// overlap; precedence between the groups is the collections' business.
#[derive(Clone, Copy, Debug, PartialEq, Eq, PartialOrd, Ord, Hash, Structural)]
pub enum Construct {
    /// A reference to attached context, drawn as a chip.
    Attachment,
    /// A `/command` token at the head of its line.
    SlashToken,
    /// An `@path` mention at a word boundary.
    Mention,
    /// `*text*` or `_text_`.
    Emphasis,
    /// `**text**` or `__text__`.
    Strong,
    /// `` `text` ``.
    InlineCode,
    /// A fenced block, fences included.
    CodeFence,
    /// An ATX heading line, `#` markers included.
    Heading,
    /// The `-`, `*`, `+` or `1.` at the head of a list item - the marker
    /// only, not the item's text.
    ListMarker,
    /// A `>` quoted line.
    BlockQuote,
    /// `[text](target)`.
    Link,
}

/// The position of a construct in declaration order, which is the order
/// `Ord` gives the variants.
pub open spec fn rank(c: Construct) -> int {
    match c {
        Construct::Attachment => 0,
        Construct::SlashToken => 1,
        Construct::Mention => 2,
        Construct::Emphasis => 3,
        Construct::Strong => 4,
        Construct::InlineCode => 5,
        Construct::CodeFence => 6,
        Construct::Heading => 7,
        Construct::ListMarker => 8,
        Construct::BlockQuote => 9,
        Construct::Link => 10,
    }
}

/// `rank` in compiled code.
pub fn construct_rank(c: Construct) -> (r: u8)
    ensures
        r == rank(c),
{
    match c {
        Construct::Attachment => 0,
        Construct::SlashToken => 1,
        Construct::Mention => 2,
        Construct::Emphasis => 3,
        Construct::Strong => 4,
        Construct::InlineCode => 5,
        Construct::CodeFence => 6,
        Construct::Heading => 7,
        Construct::ListMarker => 8,
        Construct::BlockQuote => 9,
        Construct::Link => 10,
    }
}

/// A span as the contracts see it: start, end, construct.
pub type SpanV = (int, int, Construct);

/// One classified run of the buffer.
#[derive(Debug, PartialEq, Eq)]
pub struct Span {
    /// Byte range into the buffer. Always on character boundaries.
    pub range: Range<usize>,
    pub construct: Construct,
}

impl View for Span {
    type V = SpanV;

    open spec fn view(&self) -> SpanV {
        (self.range.start as int, self.range.end as int, self.construct)
    }
}

impl Span {
    pub fn new(range: Range<usize>, construct: Construct) -> (s: Self)
        ensures
            s.range == range,
            s.construct == construct,
    {
        Span { range, construct }
    }
}

/// One edit to the buffer, as the composer reports it.
///
/// `replaced` is a range in the text *before* the edit; `inserted` is how
/// many bytes took its place. A pure insertion is an empty `replaced`, a
/// pure deletion is `inserted: 0`.
#[derive(Debug, PartialEq, Eq)]
pub struct Edit {
    pub replaced: Range<usize>,
    pub inserted: usize,
}

impl Edit {
    /// The range the inserted text occupies in the text *after* the edit.
    pub fn inserted_range(&self) -> (r: Range<usize>)
        requires
            self.replaced.start + self.inserted <= usize::MAX,
        ensures
            r.start == self.replaced.start,
            r.end == self.replaced.start + self.inserted,
    {
        self.replaced.start..self.replaced.start + self.inserted
    }
}

impl Edit {
    /// How far every byte after the edit moved.
    pub fn shift(&self) -> (d: isize)
        requires
            self.inserted <= isize::MAX,
            self.replaced.end <= isize::MAX,
        ensures
            d == self.inserted - if self.replaced.end >= self.replaced.start {
                self.replaced.end - self.replaced.start
            } else {
                0
            },
    {
        let removed: usize = if self.replaced.end >= self.replaced.start {
            self.replaced.end - self.replaced.start
        } else {
            0
        };
        self.inserted as isize - removed as isize
    }
}

/// `a` comes before `b`: by start, then construct; two spans of one
/// construct at one start are told apart by their end.
pub open spec fn span_lt(a: SpanV, b: SpanV) -> bool {
    a.0 < b.0 || (a.0 == b.0 && (rank(a.2) < rank(b.2) || (rank(a.2) == rank(b.2) && a.1 < b.1)))
}

/// Strictly increasing in `span_lt`: sorted, and no span twice.
pub open spec fn sorted_unique(s: Seq<SpanV>) -> bool {
    forall|i: int, j: int| 0 <= i < j < s.len() ==> span_lt(#[trigger] s[i], #[trigger] s[j])
}

/// The views of a vector of spans.
pub open spec fn views(v: Seq<Span>) -> Seq<SpanV> {
    v.map_values(|s: Span| s@)
}

/// `s` with every offset moved by `d`.
pub open spec fn shift_all(s: Seq<SpanV>, d: int) -> Seq<SpanV> {
    s.map_values(|x: SpanV| (x.0 + d, x.1 + d, x.2))
}

} // verus!
