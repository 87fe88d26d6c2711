//! The git panel's sections: a status turned into the four groups the
//! panel draws, and whether a selection survived a refresh.
//!
//! The sections are independent filters, not a partition: a path staged and
//! then modified again has a row in each. Conflicted entries are taken out
//! first, so a conflict is listed once as a conflict.

use crate::paths::{directory_of, markdown_label};
use crate::strings::bytes_eq;
use vstd::prelude::*;
use vstd::string::StringSliceAdditionalSpecFns;

verus! {

/// Which of the four groups a row belongs to, in draw order.
#[derive(Debug, Clone, Copy, PartialEq, Eq, PartialOrd, Ord, Structural)]
pub enum SectionKind {
    Staged,
    Unstaged,
    Untracked,
    Conflicted,
}

impl SectionKind {
    /// Whether a row in this section is an index-side row, which decides
    /// the diff it shows and the actions it offers.
    pub fn is_staged(self) -> (r: bool)
        ensures
            r == (self == SectionKind::Staged),
    {
        self == SectionKind::Staged
    }

    /// The localization key of this section's title.
    pub fn title_key(self) -> (r: &'static str)
        ensures
            r@ == match self {
                SectionKind::Staged => "git_panel.section.staged"@,
                SectionKind::Unstaged => "git_panel.section.unstaged"@,
                SectionKind::Untracked => "git_panel.section.untracked"@,
                SectionKind::Conflicted => "git_panel.section.conflicted"@,
            },
    {
        match self {
            SectionKind::Staged => "git_panel.section.staged",
            SectionKind::Unstaged => "git_panel.section.unstaged",
            SectionKind::Untracked => "git_panel.section.untracked",
            SectionKind::Conflicted => "git_panel.section.conflicted",
        }
    }
}

/// How one side of the status changed a path.
#[derive(Debug, Clone, Copy, PartialEq, Eq, Structural)]
pub enum ChangeType {
    Added,
    Modified,
    Deleted,
    Renamed,
    Copied,
    TypeChanged,
    Unmerged,
    Untracked,
}

/// One path of the status, with its change on each side.
#[derive(Debug, Clone, PartialEq, Eq)]
pub struct FileEntry {
    pub path: String,
    pub orig_path: Option<String>,
    pub staged: Option<ChangeType>,
    pub unstaged: Option<ChangeType>,
}

/// One drawable row: a path on one side of the status.
#[derive(Debug, Clone, PartialEq, Eq)]
pub struct Row {
    pub path: String,
    pub orig_path: Option<String>,
    /// The change type for this row's side.
    pub change: ChangeType,
    pub section: SectionKind,
}

/// A section with rows; one with none is never built.
#[derive(Debug, Clone, PartialEq, Eq)]
pub struct Section {
    pub kind: SectionKind,
    pub rows: Vec<Row>,
}

/// The path and side a selected row names.
#[derive(Debug, Clone, PartialEq, Eq)]
pub struct Selection {
    pub path: String,
    pub orig_path: Option<String>,
    pub staged: bool,
}

/// Which agent's panel, which path, and which side of that path a diff
/// is for. The side is part of the identity: a path staged and then
/// modified again has two rows and two different diffs.
#[derive(Debug, Clone, PartialEq, Eq)]
pub struct DiffKey {
    pub agent: u128,
    pub path: String,
    pub staged: bool,
}

impl Selection {
    /// The diff this selection shows, on `agent`'s panel.
    pub fn key(&self, agent: u128) -> (r: DiffKey)
        ensures
            r.agent == agent,
            r.path@ == self.path@,
            r.staged == self.staged,
    {
        DiffKey { agent, path: self.path.clone(), staged: self.staged }
    }
}

/// A row, as values.
pub type RowV = (Seq<char>, Option<Seq<char>>, ChangeType, SectionKind);

pub open spec fn opt_chars(s: Option<String>) -> Option<Seq<char>> {
    match s {
        Some(x) => Some(x@),
        None => None,
    }
}

pub open spec fn row_view(r: Row) -> RowV {
    (r.path@, opt_chars(r.orig_path), r.change, r.section)
}

pub open spec fn rows_view(rows: Seq<Row>) -> Seq<RowV> {
    rows.map_values(|r: Row| row_view(r))
}

/// The sections, as values.
pub open spec fn sections_view(sections: Seq<Section>) -> Seq<(SectionKind, Seq<RowV>)> {
    sections.map_values(|s: Section| (s.kind, rows_view(s.rows@)))
}

/// The row `entry` makes with change `change` in section `kind`.
pub open spec fn entry_row(entry: FileEntry, change: ChangeType, kind: SectionKind) -> RowV {
    (entry.path@, opt_chars(entry.orig_path), change, kind)
}

/// Whether one of the conflicted entries has `entry`'s path.
pub open spec fn in_conflict(conflicted: Seq<FileEntry>, entry: FileEntry) -> bool {
    exists|i: int| 0 <= i < conflicted.len() && #[trigger] conflicted[i].path@ == entry.path@
}

/// The change a section takes from an entry: the side's own change for the
/// staged and unstaged sections, and the section's own kind for the other
/// two.
pub open spec fn side_change(entry: FileEntry, kind: SectionKind) -> Option<ChangeType> {
    match kind {
        SectionKind::Staged => entry.staged,
        SectionKind::Unstaged => entry.unstaged,
        SectionKind::Untracked => Some(ChangeType::Untracked),
        SectionKind::Conflicted => Some(ChangeType::Unmerged),
    }
}

/// The rows section `kind` holds of `entries`: each entry not in conflict
/// (unless this is the conflict section) whose side has a change, in order.
pub open spec fn section_rows(entries: Seq<FileEntry>, conflicted: Seq<FileEntry>, kind: SectionKind) -> Seq<RowV>
    decreases entries.len(),
{
    if entries.len() == 0 {
        Seq::empty()
    } else {
        let e = entries.last();
        section_rows(entries.drop_last(), conflicted, kind) + if kind != SectionKind::Conflicted && in_conflict(
            conflicted,
            e,
        ) {
            Seq::empty()
        } else {
            match side_change(e, kind) {
                Some(c) => seq![entry_row(e, c, kind)],
                None => Seq::empty(),
            }
        }
    }
}

/// `(kind, rows)` when there are rows, else nothing.
pub open spec fn non_empty(kind: SectionKind, rows: Seq<RowV>) -> Seq<(SectionKind, Seq<RowV>)> {
    if rows.len() > 0 {
        seq![(kind, rows)]
    } else {
        Seq::empty()
    }
}

/// The sections of a status, in draw order, empty ones left out. The four
/// lists are the status's staged, modified, untracked and conflicted
/// entries.
pub open spec fn grouped(
    staged: Seq<FileEntry>,
    modified: Seq<FileEntry>,
    untracked: Seq<FileEntry>,
    conflicted: Seq<FileEntry>,
) -> Seq<(SectionKind, Seq<RowV>)> {
    non_empty(SectionKind::Staged, section_rows(staged, conflicted, SectionKind::Staged)) + non_empty(
        SectionKind::Unstaged,
        section_rows(modified, conflicted, SectionKind::Unstaged),
    ) + non_empty(SectionKind::Untracked, section_rows(untracked, conflicted, SectionKind::Untracked))
        + non_empty(SectionKind::Conflicted, section_rows(conflicted, conflicted, SectionKind::Conflicted))
}

/// Where a section stands in draw order.
pub open spec fn draw_rank(kind: SectionKind) -> int {
    match kind {
        SectionKind::Staged => 0,
        SectionKind::Unstaged => 1,
        SectionKind::Untracked => 2,
        SectionKind::Conflicted => 3,
    }
}

/// Every row of a section other than the conflict section is for an entry
/// that is not in conflict.
proof fn lemma_rows_avoid_conflicts(entries: Seq<FileEntry>, conflicted: Seq<FileEntry>, kind: SectionKind, j: int)
    requires
        kind != SectionKind::Conflicted,
        0 <= j < section_rows(entries, conflicted, kind).len(),
    ensures
        exists|i: int|
            0 <= i < entries.len() && !in_conflict(conflicted, #[trigger] entries[i])
                && entries[i].path@ == section_rows(entries, conflicted, kind)[j].0,
    decreases entries.len(),
{
    let rest = section_rows(entries.drop_last(), conflicted, kind);
    if j < rest.len() {
        lemma_rows_avoid_conflicts(entries.drop_last(), conflicted, kind, j);
        let i = choose|i: int|
            0 <= i < entries.drop_last().len() && !in_conflict(conflicted, #[trigger] entries.drop_last()[i])
                && entries.drop_last()[i].path@ == rest[j].0;
        assert(entries[i] == entries.drop_last()[i]);
    } else {
        let e = entries.last();
        assert(entries[entries.len() - 1] == e);
    }
}

/// The sections come in draw order, staged, unstaged, untracked, then
/// conflicted, each at most once, and none of them is empty.
pub proof fn lemma_sections_in_draw_order(
    staged: Seq<FileEntry>,
    modified: Seq<FileEntry>,
    untracked: Seq<FileEntry>,
    conflicted: Seq<FileEntry>,
)
    ensures
        ({
            let g = grouped(staged, modified, untracked, conflicted);
            &&& forall|i: int, j: int|
                0 <= i < j < g.len() ==> draw_rank(#[trigger] g[i].0) < draw_rank(#[trigger] g[j].0)
            &&& forall|i: int| 0 <= i < g.len() ==> (#[trigger] g[i]).1.len() > 0
        }),
{
    let a = non_empty(SectionKind::Staged, section_rows(staged, conflicted, SectionKind::Staged));
    let b = non_empty(SectionKind::Unstaged, section_rows(modified, conflicted, SectionKind::Unstaged));
    let c = non_empty(SectionKind::Untracked, section_rows(untracked, conflicted, SectionKind::Untracked));
    let d = non_empty(SectionKind::Conflicted, section_rows(conflicted, conflicted, SectionKind::Conflicted));
    let g = a + b + c + d;
    assert(g == grouped(staged, modified, untracked, conflicted));
    assert forall|i: int| 0 <= i < g.len() implies draw_rank((#[trigger] g[i]).0) == if i < a.len() {
        0int
    } else if i < a.len() + b.len() {
        1int
    } else if i < a.len() + b.len() + c.len() {
        2int
    } else {
        3int
    } && g[i].1.len() > 0 by {
        if i < a.len() {
            assert(g[i] == a[i]);
        } else if i < a.len() + b.len() {
            assert(g[i] == b[i - a.len()]);
        } else if i < a.len() + b.len() + c.len() {
            assert(g[i] == c[i - a.len() - b.len()]);
        } else {
            assert(g[i] == d[i - a.len() - b.len() - c.len()]);
        }
    }
}

/// A conflict is listed once, as a conflict: a path that one of the
/// conflicted entries has appears in no other section.
pub proof fn lemma_conflict_listed_once(
    staged: Seq<FileEntry>,
    modified: Seq<FileEntry>,
    untracked: Seq<FileEntry>,
    conflicted: Seq<FileEntry>,
    k: int,
)
    requires
        0 <= k < conflicted.len(),
    ensures
        ({
            let g = grouped(staged, modified, untracked, conflicted);
            forall|i: int, j: int|
                0 <= i < g.len() && g[i].0 != SectionKind::Conflicted && 0 <= j < g[i].1.len()
                    ==> (#[trigger] g[i].1[j]).0 != conflicted[k].path@
        }),
{
    let g = grouped(staged, modified, untracked, conflicted);
    let a = non_empty(SectionKind::Staged, section_rows(staged, conflicted, SectionKind::Staged));
    let b = non_empty(SectionKind::Unstaged, section_rows(modified, conflicted, SectionKind::Unstaged));
    let c = non_empty(SectionKind::Untracked, section_rows(untracked, conflicted, SectionKind::Untracked));
    let d = non_empty(SectionKind::Conflicted, section_rows(conflicted, conflicted, SectionKind::Conflicted));
    assert(g == a + b + c + d);
    assert forall|i: int, j: int|
        0 <= i < g.len() && g[i].0 != SectionKind::Conflicted && 0 <= j < g[i].1.len() implies (
        #[trigger] g[i].1[j]).0 != conflicted[k].path@ by {
        let (entries, kind) = if i < a.len() {
            assert(g[i] == a[i]);
            (staged, SectionKind::Staged)
        } else if i < a.len() + b.len() {
            assert(g[i] == b[i - a.len()]);
            (modified, SectionKind::Unstaged)
        } else if i < a.len() + b.len() + c.len() {
            assert(g[i] == c[i - a.len() - b.len()]);
            (untracked, SectionKind::Untracked)
        } else {
            assert(g[i] == d[i - a.len() - b.len() - c.len()]);
            (conflicted, SectionKind::Conflicted)
        };
        assert(g[i].1 == section_rows(entries, conflicted, kind));
        lemma_rows_avoid_conflicts(entries, conflicted, kind, j);
        let e = choose|e: int|
            0 <= e < entries.len() && !in_conflict(conflicted, #[trigger] entries[e])
                && entries[e].path@ == section_rows(entries, conflicted, kind)[j].0;
        if entries[e].path@ == conflicted[k].path@ {
            assert(in_conflict(conflicted, entries[e]));
        }
    }
}

/// `row` was made from entry `e` for a section of `kind`: it carries the
/// entry's path and its rename source, and the change of the entry's side
/// that the section shows (a staged row the index side's, an unstaged row
/// the working tree's).
pub open spec fn made_from(row: RowV, e: FileEntry, kind: SectionKind) -> bool {
    &&& row.0 == e.path@
    &&& row.1 == match e.orig_path {
        Some(o) => Some(o@),
        None => None::<Seq<char>>,
    }
    &&& row.3 == kind
    &&& Some(row.2) == match kind {
        SectionKind::Staged => e.staged,
        SectionKind::Unstaged => e.unstaged,
        SectionKind::Untracked => Some(ChangeType::Untracked),
        SectionKind::Conflicted => Some(ChangeType::Unmerged),
    }
}

proof fn lemma_section_rows_made_from(entries: Seq<FileEntry>, conflicted: Seq<FileEntry>, kind: SectionKind, j: int)
    requires
        0 <= j < section_rows(entries, conflicted, kind).len(),
    ensures
        exists|i: int| 0 <= i < entries.len() && made_from(section_rows(entries, conflicted, kind)[j], #[trigger] entries[i], kind),
    decreases entries.len(),
{
    let rest = section_rows(entries.drop_last(), conflicted, kind);
    if j < rest.len() {
        lemma_section_rows_made_from(entries.drop_last(), conflicted, kind, j);
        let i = choose|i: int| 0 <= i < entries.drop_last().len() && made_from(rest[j], #[trigger] entries.drop_last()[i], kind);
        assert(entries[i] == entries.drop_last()[i]);
    } else {
        let e = entries.last();
        assert(entries[entries.len() - 1] == e);
        assert(made_from(section_rows(entries, conflicted, kind)[j], entries[entries.len() - 1], kind));
    }
}

/// The side of entry `e` that a section of `kind` shows has a change.
pub open spec fn shows_a_change(e: FileEntry, kind: SectionKind) -> bool {
    match kind {
        SectionKind::Staged => e.staged is Some,
        SectionKind::Unstaged => e.unstaged is Some,
        _ => true,
    }
}

/// No entry is left out: each entry whose side changed, and that is not a
/// conflict (unless the section is the conflicts'), has a row made from it.
pub proof fn lemma_every_change_has_a_row(entries: Seq<FileEntry>, conflicted: Seq<FileEntry>, kind: SectionKind, i: int)
    requires
        0 <= i < entries.len(),
        shows_a_change(entries[i], kind),
        kind == SectionKind::Conflicted || !(exists|c: int| 0 <= c < conflicted.len() && conflicted[c].path@ == entries[i].path@),
    ensures
        exists|j: int|
            0 <= j < section_rows(entries, conflicted, kind).len() && made_from(
                #[trigger] section_rows(entries, conflicted, kind)[j],
                entries[i],
                kind,
            ),
    decreases entries.len(),
{
    let rest = section_rows(entries.drop_last(), conflicted, kind);
    let all = section_rows(entries, conflicted, kind);
    if i < entries.len() - 1 {
        assert(entries.drop_last()[i] == entries[i]);
        lemma_every_change_has_a_row(entries.drop_last(), conflicted, kind, i);
        let j = choose|j: int| 0 <= j < rest.len() && made_from(#[trigger] rest[j], entries.drop_last()[i], kind);
        assert(all[j] == rest[j]);
    } else {
        let e = entries.last();
        assert(entries[entries.len() - 1] == e);
        if kind != SectionKind::Conflicted {
            assert(!in_conflict(conflicted, e));
        }
        assert(all[rest.len() as int] == entry_row(e, side_change(e, kind).unwrap(), kind));
    }
}

/// `row` was made from one of `entries` for a section of `kind`.
pub open spec fn made_from_one_of(row: RowV, entries: Seq<FileEntry>, kind: SectionKind) -> bool {
    exists|k: int| 0 <= k < entries.len() && made_from(row, #[trigger] entries[k], kind)
}

/// The entries a section of `kind` is drawn from.
pub open spec fn source_of(
    kind: SectionKind,
    staged: Seq<FileEntry>,
    modified: Seq<FileEntry>,
    untracked: Seq<FileEntry>,
    conflicted: Seq<FileEntry>,
) -> Seq<FileEntry> {
    match kind {
        SectionKind::Staged => staged,
        SectionKind::Unstaged => modified,
        SectionKind::Untracked => untracked,
        SectionKind::Conflicted => conflicted,
    }
}

/// Every row of every section is made from one of the entries that section
/// is drawn from, and carries that entry's path, its rename source (so a
/// renamed file's diff can be shown as a rename), and its own side's
/// change.
pub proof fn lemma_rows_carry_their_entries(
    staged: Seq<FileEntry>,
    modified: Seq<FileEntry>,
    untracked: Seq<FileEntry>,
    conflicted: Seq<FileEntry>,
)
    ensures
        ({
            let g = grouped(staged, modified, untracked, conflicted);
            forall|i: int, j: int|
                0 <= i < g.len() && 0 <= j < g[i].1.len() ==> made_from_one_of(
                    #[trigger] g[i].1[j],
                    source_of(g[i].0, staged, modified, untracked, conflicted),
                    g[i].0,
                )
        }),
{
    let g = grouped(staged, modified, untracked, conflicted);
    let a = non_empty(SectionKind::Staged, section_rows(staged, conflicted, SectionKind::Staged));
    let b = non_empty(SectionKind::Unstaged, section_rows(modified, conflicted, SectionKind::Unstaged));
    let c = non_empty(SectionKind::Untracked, section_rows(untracked, conflicted, SectionKind::Untracked));
    let d = non_empty(SectionKind::Conflicted, section_rows(conflicted, conflicted, SectionKind::Conflicted));
    assert(g == a + b + c + d);
    assert forall|i: int, j: int| 0 <= i < g.len() && 0 <= j < g[i].1.len() implies made_from_one_of(
        #[trigger] g[i].1[j],
        source_of(g[i].0, staged, modified, untracked, conflicted),
        g[i].0,
    ) by {
        let (entries, kind) = if i < a.len() {
            assert(g[i] == a[i]);
            (staged, SectionKind::Staged)
        } else if i < a.len() + b.len() {
            assert(g[i] == b[i - a.len()]);
            (modified, SectionKind::Unstaged)
        } else if i < a.len() + b.len() + c.len() {
            assert(g[i] == c[i - a.len() - b.len()]);
            (untracked, SectionKind::Untracked)
        } else {
            assert(g[i] == d[i - a.len() - b.len() - c.len()]);
            (conflicted, SectionKind::Conflicted)
        };
        assert(g[i].0 == kind && g[i].1 == section_rows(entries, conflicted, kind));
        lemma_section_rows_made_from(entries, conflicted, kind, j);
        assert(source_of(kind, staged, modified, untracked, conflicted) == entries);
    }
}

/// Whether two strings are equal.
fn same_string(a: &String, b: &String) -> (r: bool)
    ensures
        r == (a@ == b@),
{
    proof {
        vstd::utf8::encode_utf8_decode_utf8(a@);
        vstd::utf8::encode_utf8_decode_utf8(b@);
    }
    bytes_eq(a.as_str().as_bytes(), b.as_str().as_bytes())
}

/// Whether one of `conflicted` has `entry`'s path.
fn is_conflict(conflicted: &[FileEntry], entry: &FileEntry) -> (r: bool)
    ensures
        r == in_conflict(conflicted@, *entry),
{
    let mut i: usize = 0;
    while i < conflicted.len()
        invariant
            i <= conflicted@.len(),
            forall|j: int| 0 <= j < i ==> conflicted@[j].path@ != entry.path@,
        decreases conflicted@.len() - i,
    {
        if same_string(&conflicted[i].path, &entry.path) {
            return true;
        }
        i = i + 1;
    }
    false
}

fn clone_opt(s: &Option<String>) -> (r: Option<String>)
    ensures
        opt_chars(r) == opt_chars(*s),
{
    match s {
        Some(x) => Some(x.clone()),
        None => None,
    }
}

/// The rows section `kind` holds of `entries`.
fn rows_of(entries: &[FileEntry], conflicted: &[FileEntry], kind: SectionKind) -> (r: Vec<Row>)
    ensures
        rows_view(r@) == section_rows(entries@, conflicted@, kind),
{
    let mut out: Vec<Row> = Vec::new();
    let mut i: usize = 0;
    while i < entries.len()
        invariant
            i <= entries@.len(),
            rows_view(out@) == section_rows(entries@.take(i as int), conflicted@, kind),
        decreases entries@.len() - i,
    {
        let e = &entries[i];
        let ghost before = out@;
        proof {
            assert(entries@.take(i + 1).drop_last() =~= entries@.take(i as int));
            assert(entries@.take(i + 1).last() == *e);
        }
        let skip = match kind {
            SectionKind::Conflicted => false,
            _ => is_conflict(conflicted, e),
        };
        if !skip {
            let change = match kind {
                SectionKind::Staged => e.staged,
                SectionKind::Unstaged => e.unstaged,
                SectionKind::Untracked => Some(ChangeType::Untracked),
                SectionKind::Conflicted => Some(ChangeType::Unmerged),
            };
            if let Some(c) = change {
                out.push(Row { path: e.path.clone(), orig_path: clone_opt(&e.orig_path), change: c, section: kind });
                proof {
                    assert(rows_view(out@) =~= rows_view(before) + seq![entry_row(*e, c, kind)]);
                }
            } else {
                proof {
                    assert(rows_view(out@) =~= rows_view(before) + Seq::<RowV>::empty());
                }
            }
        } else {
            proof {
                assert(rows_view(out@) =~= rows_view(before) + Seq::<RowV>::empty());
            }
        }
        i = i + 1;
    }
    proof {
        assert(entries@.take(entries@.len() as int) =~= entries@);
    }
    out
}

/// Adds the section to `out` when it has rows.
fn push_section(out: &mut Vec<Section>, kind: SectionKind, rows: Vec<Row>)
    ensures
        sections_view(final(out)@) == sections_view(old(out)@) + non_empty(kind, rows_view(rows@)),
{
    if rows.len() > 0 {
        let ghost rv = rows_view(rows@);
        out.push(Section { kind, rows });
        proof {
            assert(sections_view(final(out)@) =~= sections_view(old(out)@) + seq![(kind, rv)]);
        }
    } else {
        proof {
            assert(sections_view(old(out)@) + Seq::<(SectionKind, Seq<RowV>)>::empty() =~= sections_view(old(out)@));
        }
    }
}

/// The sections of a status, in draw order, omitting empty ones, from the
/// status's staged, modified, untracked and conflicted entries.
pub fn group(staged: &[FileEntry], modified: &[FileEntry], untracked: &[FileEntry], conflicted: &[FileEntry]) -> (r: Vec<Section>)
    ensures
        sections_view(r@) == grouped(staged@, modified@, untracked@, conflicted@),
{
    let mut out: Vec<Section> = Vec::new();
    proof {
        assert(sections_view(out@) =~= Seq::<(SectionKind, Seq<RowV>)>::empty());
    }
    push_section(&mut out, SectionKind::Staged, rows_of(staged, conflicted, SectionKind::Staged));
    push_section(&mut out, SectionKind::Unstaged, rows_of(modified, conflicted, SectionKind::Unstaged));
    push_section(&mut out, SectionKind::Untracked, rows_of(untracked, conflicted, SectionKind::Untracked));
    push_section(&mut out, SectionKind::Conflicted, rows_of(conflicted, conflicted, SectionKind::Conflicted));
    proof {
        assert(sections_view(out@) =~= grouped(staged@, modified@, untracked@, conflicted@));
    }
    out
}

/// Whether `selection` still names a row: a section on its side holds its
/// path. Both halves must match, so a file that moved to the other side
/// loses its selection.
pub fn selection_survives(sections: &[Section], selection: &Selection) -> (r: bool)
    ensures
        r == exists|i: int, j: int|
            0 <= i < sections@.len() && 0 <= j < sections@[i].rows@.len() && (sections@[i].kind
                == SectionKind::Staged) == selection.staged && #[trigger] sections@[i].rows@[j].path@
                == selection.path@,
{
    let mut i: usize = 0;
    while i < sections.len()
        invariant
            i <= sections@.len(),
            forall|a: int, b: int|
                0 <= a < i && 0 <= b < sections@[a].rows@.len() && (sections@[a].kind == SectionKind::Staged)
                    == selection.staged ==> #[trigger] sections@[a].rows@[b].path@ != selection.path@,
        decreases sections@.len() - i,
    {
        let section = &sections[i];
        if section.kind.is_staged() == selection.staged {
            let mut j: usize = 0;
            while j < section.rows.len()
                invariant
                    i < sections@.len(),
                    *section == sections@[i as int],
                    j <= section.rows@.len(),
                    (section.kind == SectionKind::Staged) == selection.staged,
                    forall|b: int| 0 <= b < j ==> #[trigger] section.rows@[b].path@ != selection.path@,
                decreases section.rows@.len() - j,
            {
                if same_string(&section.rows[j].path, &selection.path) {
                    return true;
                }
                j = j + 1;
            }
        }
        i = i + 1;
    }
    false
}

/// Every path in `rows`, as the `&str` the git operations take. A path is
/// always text here, so none is ever left out.
pub fn paths_of(rows: &[Row]) -> (r: Option<Vec<&str>>)
    ensures
        r matches Some(v) && v@.len() == rows@.len() && forall|i: int| 0 <= i < rows@.len() ==> #[trigger] v@[i]@
            == rows@[i].path@,
{
    let mut out: Vec<&str> = Vec::new();
    let mut i: usize = 0;
    while i < rows.len()
        invariant
            i <= rows@.len(),
            out@.len() == i,
            forall|k: int| 0 <= k < i ==> #[trigger] out@[k]@ == rows@[k].path@,
        decreases rows@.len() - i,
    {
        out.push(rows[i].path.as_str());
        i = i + 1;
    }
    Some(out)
}

impl Row {
    /// What the row's side of a selection names.
    pub fn selection(&self) -> (s: Selection)
        ensures
            s.path@ == self.path@,
            opt_chars(s.orig_path) == opt_chars(self.orig_path),
            s.staged == (self.section == SectionKind::Staged),
    {
        Selection { path: self.path.clone(), orig_path: clone_opt(&self.orig_path), staged: self.section.is_staged() }
    }

    /// The final path component, or the whole path when it has none.
    pub fn file_name(&self) -> (r: String)
        ensures
            vstd::utf8::encode_utf8(r@) == match crate::paths::file_name_run(vstd::utf8::encode_utf8(self.path@)) {
                Some(run) => crate::paths::run_of(vstd::utf8::encode_utf8(self.path@), run),
                None => vstd::utf8::encode_utf8(self.path@),
            },
    {
        markdown_label(self.path.as_str())
    }

    /// The directory the row's path sits in, or `None` at the repository
    /// root.
    pub fn directory(&self) -> (r: Option<String>)
        ensures
            match r {
                Some(d) => crate::paths::has_dir(vstd::utf8::encode_utf8(self.path@)) && vstd::utf8::encode_utf8(d@)
                    == vstd::utf8::encode_utf8(self.path@).subrange(0, crate::paths::parent_end(vstd::utf8::encode_utf8(self.path@))),
                None => !crate::paths::has_dir(vstd::utf8::encode_utf8(self.path@)),
            },
    {
        match directory_of(self.path.as_str()) {
            Some(d) => Some(d.to_owned()),
            None => None,
        }
    }
}

} // verus!
