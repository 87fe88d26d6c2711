//! Reading `/`-separated paths the way `std::path::Path` reads them on
//! Unix: a component is a run between separators; empty runs and `.` runs
//! are not components (except a leading `.`, which is the current
//! directory), and `..` is the parent directory rather than a name.
//!
//! On top of that: which filesystem changes under a working tree are worth a
//! git refresh, what a file is labelled by, and the folder name an unnamed
//! agent takes.

use crate::text::find_byte;
use vstd::prelude::*;
use vstd::string::StringSliceAdditionalSpecFns;
use vstd::utf8::{
    encode_utf8_valid_utf8, is_char_boundary, length_of_first_scalar, pop_first_scalar, valid_utf8,
};

verus! {

pub const SEP: u8 = 0x2f;
pub const DOT: u8 = 0x2e;

/// Where the run starting at `i` ends: the next separator, or the end.
pub open spec fn next_sep(p: Seq<u8>, i: int) -> int {
    match find_byte(p, i, SEP) {
        Some(j) => j,
        None => p.len() as int,
    }
}

/// Whether `[a, e)` is a `.` run.
pub open spec fn is_dot_run(p: Seq<u8>, a: int, e: int) -> bool {
    e == a + 1 && p[a] == DOT
}

/// The components from offset `i` on, as (start, end) runs: every run
/// that is neither empty nor `.`.
pub open spec fn comps_from(p: Seq<u8>, i: int) -> Seq<(int, int)>
    decreases p.len() + 1 - i,
{
    if i < 0 || i > p.len() {
        Seq::empty()
    } else {
        let j = next_sep(p, i);
        let here = if j > i && !is_dot_run(p, i, j) {
            seq![(i, j)]
        } else {
            Seq::empty()
        };
        if j >= p.len() || j < i {
            here
        } else {
            here + comps_from(p, j + 1)
        }
    }
}

/// The named components of `p` (the root and a leading `.` left out).
pub open spec fn comps(p: Seq<u8>) -> Seq<(int, int)> {
    comps_from(p, 0)
}

/// The bytes of run `r` of `p`.
pub open spec fn run_of(p: Seq<u8>, r: (int, int)) -> Seq<u8> {
    p.subrange(r.0, r.1)
}

pub open spec fn dot_git() -> Seq<u8> {
    seq![DOT, 0x67u8, 0x69u8, 0x74u8]
}

pub open spec fn dot_gitignore() -> Seq<u8> {
    seq![DOT, 0x67u8, 0x69u8, 0x74u8, 0x69u8, 0x67u8, 0x6eu8, 0x6fu8, 0x72u8, 0x65u8]
}

/// The index of the first `.git` component among `c`, from `k` on.
pub open spec fn first_git(p: Seq<u8>, c: Seq<(int, int)>, k: int) -> Option<int>
    decreases c.len() - k,
{
    if k < 0 || k >= c.len() {
        None
    } else if run_of(p, c[k]) == dot_git() {
        Some(k)
    } else {
        first_git(p, c, k + 1)
    }
}

/// Where the path left after offset `i` starts, once leading separators
/// and `.` runs are dropped.
pub open spec fn trim_left(p: Seq<u8>, i: int) -> int
    decreases p.len() + 1 - i,
{
    if i < 0 || i >= p.len() {
        p.len() as int
    } else {
        let j = next_sep(p, i);
        if j == i || is_dot_run(p, i, j) {
            if j >= p.len() || j < i {
                p.len() as int
            } else {
                trim_left(p, j + 1)
            }
        } else {
            i
        }
    }
}

/// Where the part of `p` after its `.git` component starts, or `None` when
/// it has none.
pub open spec fn git_tail_start(p: Seq<u8>) -> Option<int> {
    match first_git(p, comps(p), 0) {
        Some(k) => Some(trim_left(p, comps(p)[k].1)),
        None => None,
    }
}

/// Whether `tail` - the part after `.git` - starts with a component that
/// changes what `git status` reports: `index`, `HEAD`, or `refs`.
pub open spec fn relevant_git_entry(tail: Seq<u8>) -> bool {
    let first = tail.subrange(0, next_sep(tail, 0));
    first == seq![0x69u8, 0x6eu8, 0x64u8, 0x65u8, 0x78u8] || first == seq![0x48u8, 0x45u8, 0x41u8,
        0x44u8] || first == seq![0x72u8, 0x65u8, 0x66u8, 0x73u8]
}

/// `tail` begins with the component `name`: `name` is followed by a
/// separator or the end, and holds no separator itself.
pub open spec fn begins_with_component(tail: Seq<u8>, name: Seq<u8>) -> bool {
    &&& name.len() <= tail.len()
    &&& tail.subrange(0, name.len() as int) == name
    &&& (name.len() == tail.len() || tail[name.len() as int] == SEP)
    &&& forall|j: int| 0 <= j < name.len() ==> #[trigger] name[j] != SEP
}

/// Inside `.git`, a change matters exactly when the first component after
/// `.git` is, as a whole, `index`, `HEAD` or `refs`: a component that only
/// begins with one of them (`index.lock`, `HEADER`) does not.
pub proof fn lemma_git_entry_is_a_whole_component(tail: Seq<u8>)
    ensures
        relevant_git_entry(tail) <==> (begins_with_component(tail, seq![0x69u8, 0x6eu8, 0x64u8, 0x65u8, 0x78u8])
            || begins_with_component(tail, seq![0x48u8, 0x45u8, 0x41u8, 0x44u8]) || begins_with_component(
            tail,
            seq![0x72u8, 0x65u8, 0x66u8, 0x73u8],
        )),
{
    crate::composer_scan::lines::lemma_find_byte_range(tail, 0, SEP);
    let k = next_sep(tail, 0);
    assert(0 <= k <= tail.len());
    let first = tail.subrange(0, k);
    assert forall|name: Seq<u8>| begins_with_component(tail, name) implies name == first by {
        let n = name.len() as int;
        if n < k {
            assert(tail[n] == SEP);
        } else if n > k {
            assert(tail[k] == SEP);
            assert(name[k] == tail.subrange(0, n)[k]);
        }
        assert(name =~= first);
    }
    let index = seq![0x69u8, 0x6eu8, 0x64u8, 0x65u8, 0x78u8];
    let head = seq![0x48u8, 0x45u8, 0x41u8, 0x44u8];
    let refs = seq![0x72u8, 0x65u8, 0x66u8, 0x73u8];
    assert forall|name: Seq<u8>| name == first && (name == index || name == head || name == refs) implies begins_with_component(tail, name) by {
        assert forall|j: int| 0 <= j < name.len() implies #[trigger] name[j] != SEP by {
            assert(name[j] == tail[j]);
        }
    }
}

/// The final component of `p` when it is a name (not `..`), as a run.
pub open spec fn file_name_run(p: Seq<u8>) -> Option<(int, int)> {
    let c = comps(p);
    if c.len() == 0 {
        None
    } else {
        let r = c.last();
        if run_of(p, r) == seq![DOT, DOT] {
            None
        } else {
            Some(r)
        }
    }
}

/// Whether the final component is a dotfile other than `.gitignore`.
pub open spec fn ignored_dotfile(p: Seq<u8>) -> bool {
    match file_name_run(p) {
        Some(r) => run_of(p, r) != dot_gitignore() && p[r.0] == DOT,
        None => false,
    }
}

/// Whether a changed path could change what `git status` reports.
pub open spec fn relevant(p: Seq<u8>) -> bool {
    match git_tail_start(p) {
        Some(s) => relevant_git_entry(p.subrange(s, p.len() as int)),
        None => !ignored_dotfile(p),
    }
}

/// Whether `p` starts with the current directory, `.`.
pub open spec fn starts_cur_dir(p: Seq<u8>) -> bool {
    p.len() > 0 && p[0] == DOT && (p.len() == 1 || p[1] == SEP)
}

/// Whether the parent of `p` is a non-empty path: something - a root, a
/// leading `.`, or another component - stands before its last component.
pub open spec fn has_dir(p: Seq<u8>) -> bool {
    let c = comps(p);
    c.len() >= 2 || (c.len() == 1 && p.len() > 0 && (p[0] == SEP || starts_cur_dir(p)))
}

// ---------------------------------------------------------------- proofs

proof fn lemma_find_byte(t: Seq<u8>, i: int, c: u8)
    requires
        0 <= i,
    ensures
        find_byte(t, i, c) matches Some(k) ==> i <= k < t.len() && t[k] == c,
        find_byte(t, i, c) is None ==> forall|k: int| i <= k < t.len() ==> t[k] != c,
    decreases t.len() - i,
{
    if 0 <= i < t.len() && t[i] != c {
        lemma_find_byte(t, i + 1, c);
    }
}

/// An ASCII byte of valid UTF-8 is a character on its own: there is a
/// boundary on either side of it.
pub proof fn lemma_ascii_boundaries(t: Seq<u8>, k: int)
    requires
        valid_utf8(t),
        0 <= k < t.len(),
        t[k] < 0x80,
    ensures
        is_char_boundary(t, k),
        is_char_boundary(t, k + 1),
    decreases t.len(),
{
    let w = length_of_first_scalar(t);
    let rest = pop_first_scalar(t);
    assert(valid_utf8(rest));
    if k == 0 {
        assert(w == 1);
        assert(is_char_boundary(rest, 0));
    } else {
        if k < w {
            assert(0x80 <= t[k] <= 0xbf);
        }
        assert(rest.len() < t.len());
        assert(rest[k - w] == t[k]);
        lemma_ascii_boundaries(rest, k - w);
    }
}

/// The end of a string is a character boundary.
pub proof fn lemma_end_boundary(t: Seq<u8>)
    requires
        valid_utf8(t),
    ensures
        is_char_boundary(t, 0),
        is_char_boundary(t, t.len() as int),
{
    vstd::utf8::is_char_boundary_start_end_of_seq(t);
}

// ---------------------------------------------------------------- exec

fn next_sep_exec(p: &[u8], i: usize) -> (j: usize)
    requires
        i <= p@.len(),
    ensures
        j == next_sep(p@, i as int),
        i <= j <= p@.len(),
        j < p@.len() ==> p@[j as int] == SEP,
        forall|k: int| i <= k < j ==> p@[k] != SEP,
{
    proof {
        lemma_find_byte(p@, i as int, SEP);
    }
    let mut k = i;
    while k < p.len()
        invariant
            i <= k <= p@.len(),
            find_byte(p@, i as int, SEP) == find_byte(p@, k as int, SEP),
            forall|m: int| i <= m < k ==> p@[m] != SEP,
        decreases p@.len() - k,
    {
        if p[k] == SEP {
            return k;
        }
        k = k + 1;
    }
    p.len()
}

/// The named components of `p`, as (start, end) runs.
pub fn components(p: &[u8]) -> (r: Vec<(usize, usize)>)
    ensures
        r@.map_values(|x: (usize, usize)| (x.0 as int, x.1 as int)) == comps(p@),
        forall|j: int| 0 <= j < r@.len() ==> #[trigger] r@[j].0 < r@[j].1 <= p@.len(),
        forall|j: int| 0 <= j < r@.len() ==> #[trigger] r@[j].1 == p@.len() || p@[r@[j].1 as int] == SEP,
        forall|j: int| 0 <= j < r@.len() ==> #[trigger] r@[j].0 == 0 || p@[r@[j].0 - 1] == SEP,
{
    let mut out: Vec<(usize, usize)> = Vec::new();
    let mut i: usize = 0;
    loop
        invariant
            i <= p@.len(),
            forall|j: int| 0 <= j < out@.len() ==> #[trigger] out@[j].0 < out@[j].1 <= p@.len(),
            forall|j: int| 0 <= j < out@.len() ==> #[trigger] out@[j].1 == p@.len() || p@[out@[j].1 as int] == SEP,
            forall|j: int| 0 <= j < out@.len() ==> #[trigger] out@[j].0 == 0 || p@[out@[j].0 - 1] == SEP,
            i == 0 || p@[i - 1] == SEP,
            comps(p@) == out@.map_values(|x: (usize, usize)| (x.0 as int, x.1 as int)) + comps_from(p@, i as int),
        decreases p@.len() + 1 - i,
    {
        let ghost before = out@.map_values(|x: (usize, usize)| (x.0 as int, x.1 as int));
        let j = next_sep_exec(p, i);
        if j > i && !(j == i + 1 && p[i] == DOT) {
            out.push((i, j));
        }
        let ghost here: Seq<(int, int)> = if j > i && !is_dot_run(p@, i as int, j as int) {
            seq![(i as int, j as int)]
        } else {
            Seq::empty()
        };
        proof {
            assert(out@.map_values(|x: (usize, usize)| (x.0 as int, x.1 as int)) =~= before + here);
        }
        if j >= p.len() {
            proof {
                assert(comps_from(p@, i as int) == here);
                assert(comps(p@) =~= out@.map_values(|x: (usize, usize)| (x.0 as int, x.1 as int)));
            }
            return out;
        }
        proof {
            assert(comps_from(p@, i as int) == here + comps_from(p@, j + 1));
            assert(before + (here + comps_from(p@, j + 1)) =~= (before + here) + comps_from(p@, j + 1));
        }
        i = j + 1;
    }
}

fn run_equals(p: &[u8], a: usize, e: usize, lit: &[u8]) -> (r: bool)
    requires
        a <= e <= p@.len(),
    ensures
        r == (p@.subrange(a as int, e as int) == lit@),
{
    if e - a != lit.len() {
        proof {
            assert(p@.subrange(a as int, e as int).len() != lit@.len());
        }
        return false;
    }
    let mut k: usize = 0;
    while k < lit.len()
        invariant
            k <= lit@.len(),
            e - a == lit@.len(),
            a <= e <= p@.len(),
            forall|j: int| 0 <= j < k ==> p@[a + j] == lit@[j],
        decreases lit@.len() - k,
    {
        if p[a + k] != lit[k] {
            proof {
                assert(p@.subrange(a as int, e as int)[k as int] != lit@[k as int]);
            }
            return false;
        }
        k = k + 1;
    }
    proof {
        assert(p@.subrange(a as int, e as int) =~= lit@);
    }
    true
}

fn trim_left_exec(p: &[u8], i: usize) -> (r: usize)
    requires
        i <= p@.len(),
    ensures
        r == trim_left(p@, i as int),
        r <= p@.len(),
        r == p@.len() || r == i || (r > 0 && p@[r - 1] == SEP),
{
    let mut k = i;
    while k < p.len()
        invariant
            i <= k <= p@.len(),
            trim_left(p@, i as int) == trim_left(p@, k as int),
            k == i || (k > 0 && p@[k - 1] == SEP),
        decreases p@.len() - k,
    {
        let j = next_sep_exec(p, k);
        if j == k || (j == k + 1 && p[k] == DOT) {
            if j >= p.len() {
                return p.len();
            }
            proof {
                lemma_find_byte(p@, k as int, SEP);
            }
            k = j + 1;
        } else {
            return k;
        }
    }
    p.len()
}

/// The part of `path` after its `.git` component, or `None` when it has
/// none.
pub fn git_dir_tail(path: &str) -> (r: Option<&str>)
    ensures
        match git_tail_start(path.spec_bytes()) {
            Some(s) => r matches Some(t) && t.spec_bytes() == path.spec_bytes().subrange(s, path.spec_bytes().len() as int),
            None => r is None,
        },
{
    let p = path.as_bytes();
    let c = components(p);
    let ghost cv = c@.map_values(|x: (usize, usize)| (x.0 as int, x.1 as int));
    let git: [u8; 4] = [DOT, 0x67, 0x69, 0x74];
    let mut k: usize = 0;
    while k < c.len()
        invariant
            k <= c@.len(),
            cv == comps(p@),
            cv == c@.map_values(|x: (usize, usize)| (x.0 as int, x.1 as int)),
            git@ == dot_git(),
            first_git(p@, cv, 0) == first_git(p@, cv, k as int),
            forall|j: int| 0 <= j < c@.len() ==> #[trigger] c@[j].0 < c@[j].1 <= p@.len(),
            forall|j: int| 0 <= j < c@.len() ==> #[trigger] c@[j].1 == p@.len() || p@[c@[j].1 as int] == SEP,
            p@ == path.spec_bytes(),
        decreases c@.len() - k,
    {
        let (a, e) = c[k];
        if run_equals(p, a, e, &git) {
            proof {
                assert(cv[k as int] == (a as int, e as int));
            }
            let s = trim_left_exec(p, e);
            proof {
                encode_utf8_valid_utf8(path@);
                assert(p@ == vstd::utf8::encode_utf8(path@));
                lemma_end_boundary(p@);
                if s < p@.len() && s > 0 && p@[s - 1] == SEP {
                    lemma_ascii_boundaries(p@, s - 1);
                } else if s == e && e < p@.len() {
                    assert(c@[k as int].1 == e);
                    lemma_ascii_boundaries(p@, e as int);
                }
            }
            let (_, tail) = path.split_at(s);
            return Some(tail);
        }
        k = k + 1;
    }
    None
}


/// A boundary of the whole at or after `p` is a boundary of the suffix.
proof fn lemma_boundary_of_suffix(t: Seq<u8>, p: int, j: int)
    requires
        valid_utf8(t),
        0 <= p <= t.len(),
        is_char_boundary(t, p),
        0 <= j <= t.len() - p,
        j == t.len() - p || t[p + j] < 0x80,
    ensures
        is_char_boundary(t.subrange(p, t.len() as int), j),
{
    let s = t.subrange(p, t.len() as int);
    vstd::utf8::valid_utf8_split(t, p);
    lemma_end_boundary(s);
    if j < s.len() {
        vstd::utf8::is_char_boundary_iff_not_is_continuation_byte(s, j);
    }
}

/// The bytes of `path` from `a` to `e`, which both sit beside a separator
/// or at an end of the path.
fn run_str(path: &str, a: usize, e: usize) -> (r: &str)
    requires
        a <= e <= path.spec_bytes().len(),
        a == 0 || path.spec_bytes()[a - 1] == SEP,
        e == path.spec_bytes().len() || path.spec_bytes()[e as int] == SEP,
    ensures
        r.spec_bytes() == path.spec_bytes().subrange(a as int, e as int),
{
    let ghost t = path.spec_bytes();
    proof {
        encode_utf8_valid_utf8(path@);
        lemma_end_boundary(t);
        if a > 0 {
            lemma_ascii_boundaries(t, a - 1);
        }
    }
    let (_, rest) = path.split_at(a);
    proof {
        lemma_boundary_of_suffix(t, a as int, e - a);
    }
    let (name, _) = rest.split_at(e - a);
    proof {
        assert(name.spec_bytes() =~= t.subrange(a as int, e as int));
    }
    name
}

/// Whether `tail` - the part of a path after `.git` - starts with the
/// index, `HEAD`, or anything under `refs`.
pub fn is_relevant_git_entry(tail: &str) -> (r: bool)
    ensures
        r == relevant_git_entry(tail.spec_bytes()),
{
    let t = tail.as_bytes();
    let j = next_sep_exec(t, 0);
    let index: [u8; 5] = [0x69, 0x6e, 0x64, 0x65, 0x78];
    let head: [u8; 4] = [0x48, 0x45, 0x41, 0x44];
    let refs: [u8; 4] = [0x72, 0x65, 0x66, 0x73];
    let r = run_equals(t, 0, j, &index) || run_equals(t, 0, j, &head) || run_equals(t, 0, j, &refs);
    proof {
        assert(index@ =~= seq![0x69u8, 0x6eu8, 0x64u8, 0x65u8, 0x78u8]);
        assert(head@ =~= seq![0x48u8, 0x45u8, 0x41u8, 0x44u8]);
        assert(refs@ =~= seq![0x72u8, 0x65u8, 0x66u8, 0x73u8]);
    }
    r
}

/// The final component of `path` when it is a name, as `Path::file_name`
/// gives it.
pub fn file_name(path: &str) -> (r: Option<&str>)
    ensures
        match file_name_run(path.spec_bytes()) {
            Some(run) => r matches Some(n) && n.spec_bytes() == run_of(path.spec_bytes(), run) && 0 <= run.0 < run.1 <= path.spec_bytes().len(),
            None => r is None,
        },
{
    let p = path.as_bytes();
    let c = components(p);
    let ghost cv = c@.map_values(|x: (usize, usize)| (x.0 as int, x.1 as int));
    if c.len() == 0 {
        return None;
    }
    let (a, e) = c[c.len() - 1];
    proof {
        assert(cv.last() == (a as int, e as int));
        assert(c@[c@.len() - 1].0 < c@[c@.len() - 1].1 <= p@.len());
    }
    let dotdot: [u8; 2] = [DOT, DOT];
    if run_equals(p, a, e, &dotdot) {
        proof {
            assert(dotdot@ =~= seq![DOT, DOT]);
        }
        return None;
    }
    proof {
        assert(dotdot@ =~= seq![DOT, DOT]);
    }
    Some(run_str(path, a, e))
}

/// Whether the final component is a dotfile other than `.gitignore`.
///
/// Editors and the OS write these constantly, and none of them is a
/// tracked change; `.gitignore` decides what counts as untracked.
pub fn is_ignored_dotfile(path: &str) -> (r: bool)
    ensures
        r == ignored_dotfile(path.spec_bytes()),
{
    match file_name(path) {
        Some(name) => {
            let n = name.as_bytes();
            let gi: [u8; 10] = [DOT, 0x67, 0x69, 0x74, 0x69, 0x67, 0x6e, 0x6f, 0x72, 0x65];
            let same = run_equals(n, 0, n.len(), &gi);
            proof {
                assert(gi@ =~= dot_gitignore());
                assert(n@.subrange(0, n@.len() as int) =~= n@);
                let run = file_name_run(path.spec_bytes()).unwrap();
                assert(n@[0] == path.spec_bytes()[run.0]);
            }
            !same && n.len() > 0 && n[0] == DOT
        },
        None => false,
    }
}

/// Whether a changed path could change what `git status` reports.
///
/// Inside `.git`, only the index, `HEAD` and anything under `refs/`.
/// Outside it, everything except dotfiles - and `.gitignore` is not
/// treated as a dotfile.
pub fn is_relevant(path: &str) -> (r: bool)
    ensures
        r == relevant(path.spec_bytes()),
{
    match git_dir_tail(path) {
        Some(tail) => is_relevant_git_entry(tail),
        None => !is_ignored_dotfile(path),
    }
}

/// Whether `path` has a non-empty parent, so a row shows a directory line.
pub fn has_directory(path: &str) -> (r: bool)
    ensures
        r == has_dir(path.spec_bytes()),
{
    let p = path.as_bytes();
    let c = components(p);
    c.len() >= 2 || (c.len() == 1 && p.len() > 0 && (p[0] == SEP || (p[0] == DOT && (p.len() == 1
        || p[1] == SEP))))
}

/// Where the parent of `p` ends: after the component before the last one,
/// or after the root or leading `.` that stands before a lone component.
pub open spec fn parent_end(p: Seq<u8>) -> int {
    let c = comps(p);
    if c.len() >= 2 {
        c[c.len() - 2].1
    } else {
        1
    }
}

/// The directory `path` sits in, as `Path::parent` gives it, or `None` when
/// that parent is empty or there is none.
pub fn directory_of(path: &str) -> (r: Option<&str>)
    ensures
        match r {
            Some(d) => has_dir(path.spec_bytes()) && d.spec_bytes() == path.spec_bytes().subrange(
                0,
                parent_end(path.spec_bytes()),
            ),
            None => !has_dir(path.spec_bytes()),
        },
{
    if !has_directory(path) {
        return None;
    }
    let p = path.as_bytes();
    let c = components(p);
    let ghost cv = c@.map_values(|x: (usize, usize)| (x.0 as int, x.1 as int));
    if c.len() >= 2 {
        let e = c[c.len() - 2].1;
        proof {
            assert(cv[cv.len() - 2] == (c@[c@.len() - 2].0 as int, e as int));
            assert(c@[c@.len() - 2].0 < c@[c@.len() - 2].1 <= p@.len());
        }
        Some(run_str(path, 0, e))
    } else {
        proof {
            encode_utf8_valid_utf8(path@);
            lemma_ascii_boundaries(p@, 0);
        }
        let (d, _) = path.split_at(1);
        Some(d)
    }
}

/// How a markdown file is labelled in a menu: its file name, or the whole
/// path when it has none.
pub fn markdown_label(path: &str) -> (r: String)
    ensures
        vstd::utf8::encode_utf8(r@) == match file_name_run(path.spec_bytes()) {
            Some(run) => run_of(path.spec_bytes(), run),
            None => path.spec_bytes(),
        },
{
    match file_name(path) {
        Some(name) => name.to_owned(),
        None => path.to_owned(),
    }
}

/// `path` with the home directory `home` written as `~`: when `path`
/// starts with `home`, `~` then the rest of `path`; otherwise `path` as it
/// is. With no home directory known, nothing is shortened.
pub open spec fn shortened(path: Seq<char>, home: Option<Seq<char>>) -> Seq<char> {
    match home {
        Some(h) => if h.len() <= path.len() && path.subrange(0, h.len() as int) == h {
            seq!['~'] + path.subrange(h.len() as int, path.len() as int)
        } else {
            path
        },
        None => path,
    }
}

/// `path` with the home directory `home` written as `~`.
pub fn shorten_path(path: &str, home: Option<&str>) -> (r: String)
    ensures
        r@ == shortened(
            path@,
            match home {
                Some(h) => Some(h@),
                None => None,
            },
        ),
{
    match home {
        None => path.to_owned(),
        Some(h) => {
            let hl = h.unicode_len();
            let pl = path.unicode_len();
            if hl > pl {
                return path.to_owned();
            }
            let mut i: usize = 0;
            while i < hl
                invariant
                    home == Some(h),
                    hl == h@.len(),
                    pl == path@.len(),
                    hl <= pl,
                    i <= hl,
                    forall|j: int| 0 <= j < i ==> path@[j] == h@[j],
                decreases hl - i,
            {
                if h.get_char(i) != path.get_char(i) {
                    proof {
                        assert(path@.subrange(0, hl as int)[i as int] != h@[i as int]);
                        assert(path@.subrange(0, hl as int) != h@);
                    }
                    return path.to_owned();
                }
                i = i + 1;
            }
            proof {
                assert(path@.subrange(0, hl as int) =~= h@);
            }
            let rest = path.substring_char(hl, pl);
            let tilde = "~".to_owned();
            proof {
                reveal_strlit("~");
            }
            tilde.concat(rest)
        },
    }
}

} // verus!
