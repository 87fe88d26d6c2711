//! The dashboard's agent cards: each agent's state and how it is labelled,
//! and the orders the grid can be sorted in.

use vstd::prelude::*;
use vstd::string::StringSliceAdditionalSpecFns;
use vstd::utf8::encode_utf8;

verus! {

/// An agent's automatic state.
#[derive(Debug, Clone, Copy, PartialEq, Eq, Structural)]
pub enum AgentState {
    Idle,
    Running,
    Input,
    Error,
}

/// The label a state is shown with.
pub fn state_label(state: AgentState) -> (r: &'static str)
    ensures
        r@ == match state {
            AgentState::Idle => "Idle"@,
            AgentState::Running => "Working"@,
            AgentState::Input => "Awaiting input"@,
            AgentState::Error => "Error"@,
        },
{
    match state {
        AgentState::Idle => "Idle",
        AgentState::Running => "Working",
        AgentState::Input => "Awaiting input",
        AgentState::Error => "Error",
    }
}

/// What a diff against the agent's base changed.
#[derive(Debug, Clone, Copy, PartialEq, Eq, Structural)]
pub struct DiffStats {
    pub insertions: u64,
    pub deletions: u64,
    pub files_changed: u64,
}

/// One agent's data as a dashboard card needs it.
#[derive(Debug)]
pub struct DashboardAgent {
    pub id: u128,
    pub avatar: String,
    pub name: String,
    pub folder_name: String,
    pub state: AgentState,
    pub is_shell: bool,
    pub header_title: String,
    pub git_stats: Option<DiffStats>,
}

/// The orders the grid can be drawn in.
#[derive(Debug, Clone, Copy, PartialEq, Eq, Structural)]
pub enum DashboardSort {
    /// As the workspace holds them.
    Manual,
    /// By name, ignoring case.
    Name,
    /// Agents that need attention first.
    Status,
}

/// `a` is at most `b` in byte-wise lexicographic order, the order of
/// `str` and `String`.
pub open spec fn bytes_le(a: Seq<u8>, b: Seq<u8>) -> bool
    decreases a.len(),
{
    if a.len() == 0 {
        true
    } else if b.len() == 0 {
        false
    } else if a[0] != b[0] {
        a[0] < b[0]
    } else {
        bytes_le(a.drop_first(), b.drop_first())
    }
}

/// Byte-wise order is total.
pub proof fn lemma_bytes_le_total(a: Seq<u8>, b: Seq<u8>)
    ensures
        bytes_le(a, b) || bytes_le(b, a),
    decreases a.len(),
{
    if a.len() > 0 && b.len() > 0 && a[0] == b[0] {
        lemma_bytes_le_total(a.drop_first(), b.drop_first());
    }
}

/// Byte-wise order is transitive.
pub proof fn lemma_bytes_le_transitive(a: Seq<u8>, b: Seq<u8>, c: Seq<u8>)
    requires
        bytes_le(a, b),
        bytes_le(b, c),
    ensures
        bytes_le(a, c),
    decreases a.len(),
{
    if a.len() > 0 && b.len() > 0 && c.len() > 0 && a[0] == b[0] && b[0] == c[0] {
        lemma_bytes_le_transitive(a.drop_first(), b.drop_first(), c.drop_first());
    }
}

/// Byte-wise order, computed.
fn bytes_le_exec(a: &[u8], b: &[u8]) -> (r: bool)
    ensures
        r == bytes_le(a@, b@),
{
    let mut i: usize = 0;
    proof {
        assert(a@.subrange(0, a@.len() as int) =~= a@);
        assert(b@.subrange(0, b@.len() as int) =~= b@);
    }
    while i < a.len() && i < b.len() && a[i] == b[i]
        invariant
            i <= a@.len(),
            i <= b@.len(),
            bytes_le(a@, b@) == bytes_le(a@.subrange(i as int, a@.len() as int), b@.subrange(i as int, b@.len() as int)),
        decreases a@.len() - i,
    {
        proof {
            let sa = a@.subrange(i as int, a@.len() as int);
            let sb = b@.subrange(i as int, b@.len() as int);
            assert(sa.drop_first() =~= a@.subrange(i + 1, a@.len() as int));
            assert(sb.drop_first() =~= b@.subrange(i + 1, b@.len() as int));
        }
        i = i + 1;
    }
    if i == a.len() {
        true
    } else if i == b.len() {
        false
    } else {
        a[i] < b[i]
    }
}

/// `s.to_lowercase()`, by the Unicode rules std implements.
pub uninterp spec fn lowercase(s: Seq<char>) -> Seq<char>;

/// `str::to_lowercase` from std: the lowercase form of `s`, which depends
/// on `s` alone.
#[verifier::external_body]
fn to_lowercase(s: &str) -> (r: String)
    ensures
        r@ == lowercase(s@),
{
    s.to_lowercase()
}

/// The rank `Status` sorts by: agents that need attention first.
pub open spec fn rank_of(state: AgentState) -> u8 {
    match state {
        AgentState::Error => 0,
        AgentState::Input => 1,
        AgentState::Running => 2,
        AgentState::Idle => 3,
    }
}

impl DashboardSort {
    /// The rank `Status` sorts by: an error first, then awaiting input,
    /// then working, then idle.
    pub fn status_rank(state: AgentState) -> (r: u8)
        ensures
            r == rank_of(state),
    {
        match state {
            AgentState::Error => 0,
            AgentState::Input => 1,
            AgentState::Running => 2,
            AgentState::Idle => 3,
        }
    }
}

/// `a` sorts no later than `b` in `mode`: by lowercased name, by status
/// rank, or - in the manual order - always.
pub open spec fn key_le(mode: DashboardSort, a: DashboardAgent, b: DashboardAgent) -> bool {
    match mode {
        DashboardSort::Manual => true,
        DashboardSort::Name => bytes_le(encode_utf8(lowercase(a.name@)), encode_utf8(lowercase(b.name@))),
        DashboardSort::Status => rank_of(a.state) <= rank_of(b.state),
    }
}

/// Whether an agent sorts level with `k` in `mode`.
pub open spec fn same_key(mode: DashboardSort, k: DashboardAgent) -> spec_fn(DashboardAgent) -> bool {
    |y: DashboardAgent| key_le(mode, y, k) && key_le(mode, k, y)
}

/// The agents of `s` that sort level with `k`, in their order in `s`.
pub open spec fn class_of(mode: DashboardSort, s: Seq<DashboardAgent>, k: DashboardAgent) -> Seq<DashboardAgent> {
    s.filter(same_key(mode, k))
}

/// `s` is in `mode`'s order.
pub open spec fn ordered(mode: DashboardSort, s: Seq<DashboardAgent>) -> bool {
    forall|i: int, j: int| 0 <= i < j < s.len() ==> key_le(mode, #[trigger] s[i], #[trigger] s[j])
}

proof fn lemma_key_total(mode: DashboardSort, a: DashboardAgent, b: DashboardAgent)
    ensures
        key_le(mode, a, b) || key_le(mode, b, a),
{
    lemma_bytes_le_total(encode_utf8(lowercase(a.name@)), encode_utf8(lowercase(b.name@)));
}

proof fn lemma_key_transitive(mode: DashboardSort, a: DashboardAgent, b: DashboardAgent, c: DashboardAgent)
    requires
        key_le(mode, a, b),
        key_le(mode, b, c),
    ensures
        key_le(mode, a, c),
{
    if mode == DashboardSort::Name {
        lemma_bytes_le_transitive(
            encode_utf8(lowercase(a.name@)),
            encode_utf8(lowercase(b.name@)),
            encode_utf8(lowercase(c.name@)),
        );
    }
}

/// `key_le`, computed.
fn key_le_exec(mode: DashboardSort, a: &DashboardAgent, b: &DashboardAgent) -> (r: bool)
    ensures
        r == key_le(mode, *a, *b),
{
    match mode {
        DashboardSort::Manual => true,
        DashboardSort::Name => {
            let ka = to_lowercase(a.name.as_str());
            let kb = to_lowercase(b.name.as_str());
            bytes_le_exec(ka.as_str().as_bytes(), kb.as_str().as_bytes())
        },
        DashboardSort::Status => DashboardSort::status_rank(a.state) <= DashboardSort::status_rank(b.state),
    }
}

/// Filtering by a predicate nothing meets leaves nothing.
proof fn lemma_filter_none(s: Seq<DashboardAgent>, pred: spec_fn(DashboardAgent) -> bool)
    requires
        forall|i: int| 0 <= i < s.len() ==> !pred(#[trigger] s[i]),
    ensures
        s.filter(pred) == Seq::<DashboardAgent>::empty(),
    decreases s.len(),
{
    reveal_with_fuel(Seq::<DashboardAgent>::filter, 1);
    if s.len() > 0 {
        assert forall|i: int| 0 <= i < s.drop_last().len() implies !pred(#[trigger] s.drop_last()[i]) by {
            assert(s.drop_last()[i] == s[i]);
        }
        lemma_filter_none(s.drop_last(), pred);
        assert(!pred(s[s.len() - 1]));
    }
}

/// Filtering a one-element sequence.
proof fn lemma_filter_one(x: DashboardAgent, pred: spec_fn(DashboardAgent) -> bool)
    ensures
        seq![x].filter(pred) == if pred(x) {
            seq![x]
        } else {
            Seq::<DashboardAgent>::empty()
        },
{
    reveal_with_fuel(Seq::<DashboardAgent>::filter, 2);
    assert(seq![x].drop_last() =~= Seq::<DashboardAgent>::empty());
}

/// Inserting `x` after every agent that sorts no later than it, and before
/// every agent that sorts later, keeps the order and adds `x` to the end of
/// its own class.
proof fn lemma_insert_sorted(mode: DashboardSort, out: Seq<DashboardAgent>, p: int, x: DashboardAgent)
    requires
        ordered(mode, out),
        0 <= p <= out.len(),
        forall|j: int| 0 <= j < p ==> key_le(mode, #[trigger] out[j], x),
        forall|j: int| p <= j < out.len() ==> !key_le(mode, #[trigger] out[j], x),
    ensures
        ordered(mode, out.insert(p, x)),
        forall|k: DashboardAgent| #[trigger] class_of(mode, out.insert(p, x), k) == if same_key(mode, k)(x) {
            class_of(mode, out, k).push(x)
        } else {
            class_of(mode, out, k)
        },
{
    broadcast use vstd::seq::Seq::filter_distributes_over_add;

    let n = out.insert(p, x);
    let a = out.subrange(0, p);
    let b = out.subrange(p, out.len() as int);
    assert(n =~= a + seq![x] + b);
    assert(out =~= a + b);
    assert forall|i: int, j: int| 0 <= i < j < n.len() implies key_le(mode, #[trigger] n[i], #[trigger] n[j]) by {
        if j < p {
            assert(n[i] == out[i] && n[j] == out[j]);
        } else if j == p {
            assert(n[i] == out[i]);
        } else if i < p {
            assert(n[i] == out[i] && n[j] == out[j - 1]);
            lemma_key_total(mode, out[j - 1], x);
            lemma_key_transitive(mode, out[i], x, out[j - 1]);
        } else if i == p {
            assert(n[j] == out[j - 1]);
            lemma_key_total(mode, out[j - 1], x);
        } else {
            assert(n[i] == out[i - 1] && n[j] == out[j - 1]);
        }
    }
    assert forall|k: DashboardAgent| #[trigger] class_of(mode, n, k) == if same_key(mode, k)(x) {
        class_of(mode, out, k).push(x)
    } else {
        class_of(mode, out, k)
    } by {
        let pred = same_key(mode, k);
        lemma_filter_one(x, pred);
        if pred(x) {
            assert forall|j: int| 0 <= j < b.len() implies !pred(#[trigger] b[j]) by {
                assert(b[j] == out[p + j]);
                if pred(b[j]) {
                    lemma_key_transitive(mode, b[j], k, x);
                }
            }
            lemma_filter_none(b, pred);
            assert(class_of(mode, n, k) =~= a.filter(pred) + seq![x] + Seq::<DashboardAgent>::empty());
            assert(class_of(mode, out, k) =~= a.filter(pred) + Seq::<DashboardAgent>::empty());
            assert(class_of(mode, n, k) =~= class_of(mode, out, k).push(x));
        } else {
            assert(class_of(mode, n, k) =~= a.filter(pred) + Seq::<DashboardAgent>::empty() + b.filter(pred));
            assert(class_of(mode, out, k) =~= a.filter(pred) + b.filter(pred));
        }
    }
}

/// The agents sorted in `mode` by insertion, which keeps agents that sort
/// level in the order they came.
fn insertion_sorted(mode: DashboardSort, agents: Vec<DashboardAgent>) -> (r: Vec<DashboardAgent>)
    ensures
        ordered(mode, r@),
        forall|k: DashboardAgent| #[trigger] class_of(mode, r@, k) == class_of(mode, agents@, k),
{
    let ghost input = agents@;
    let mut rest = agents;
    let mut out: Vec<DashboardAgent> = Vec::new();
    let ghost mut i: int = 0;
    proof {
        assert(input.subrange(0, input.len() as int) =~= input);
        assert forall|k: DashboardAgent| #[trigger] class_of(mode, out@, k) == class_of(mode, input.take(0), k) by {
            reveal_with_fuel(Seq::<DashboardAgent>::filter, 1);
            assert(input.take(0) =~= Seq::<DashboardAgent>::empty());
            assert(out@ =~= Seq::<DashboardAgent>::empty());
        }
    }
    while rest.len() > 0
        invariant
            0 <= i <= input.len(),
            rest@ == input.subrange(i, input.len() as int),
            ordered(mode, out@),
            forall|k: DashboardAgent| #[trigger] class_of(mode, out@, k) == class_of(mode, input.take(i), k),
        decreases rest@.len(),
    {
        let x = rest.remove(0);
        let ghost xv = x;
        let mut p: usize = out.len();
        while p > 0 && !key_le_exec(mode, &out[p - 1], &x)
            invariant
                p <= out@.len(),
                forall|j: int| p <= j < out@.len() ==> !key_le(mode, #[trigger] out@[j], x),
            decreases p,
        {
            p = p - 1;
        }
        proof {
            assert forall|j: int| 0 <= j < p implies key_le(mode, #[trigger] out@[j], xv) by {
                if j < p - 1 {
                    lemma_key_transitive(mode, out@[j], out@[p - 1], xv);
                }
            }
            lemma_insert_sorted(mode, out@, p as int, xv);
            assert(input[i] == xv);
            assert(input.take(i + 1).drop_last() =~= input.take(i));
            assert forall|k: DashboardAgent| #[trigger] class_of(mode, input.take(i + 1), k) == if same_key(mode, k)(xv) {
                class_of(mode, input.take(i), k).push(xv)
            } else {
                class_of(mode, input.take(i), k)
            } by {
                reveal_with_fuel(Seq::<DashboardAgent>::filter, 1);
            }
        }
        out.insert(p, x);
        proof {
            i = i + 1;
            assert(rest@ =~= input.subrange(i, input.len() as int));
        }
    }
    proof {
        assert(input.take(i) =~= input);
    }
    out
}

impl Default for DashboardSort {
    /// `Manual`: the grid starts in the order the workspace holds.
    fn default() -> (r: DashboardSort)
        ensures
            r == DashboardSort::Manual,
    {
        DashboardSort::Manual
    }
}

impl DashboardSort {
    /// The localization key of this order's name in the sort picker.
    pub fn label_key(self) -> (r: &'static str)
        ensures
            r@ == match self {
                DashboardSort::Manual => "dashboard.sort.manual"@,
                DashboardSort::Name => "dashboard.sort.name"@,
                DashboardSort::Status => "dashboard.sort.status"@,
            },
    {
        match self {
            DashboardSort::Manual => "dashboard.sort.manual",
            DashboardSort::Name => "dashboard.sort.name",
            DashboardSort::Status => "dashboard.sort.status",
        }
    }

    /// The agents in this order. `Manual` keeps them as given; `Name` and
    /// `Status` sort them, and agents that sort level keep the order they
    /// came in.
    pub fn sorted(self, agents: Vec<DashboardAgent>) -> (r: Vec<DashboardAgent>)
        ensures
            self == DashboardSort::Manual ==> r@ == agents@,
            ordered(self, r@),
            forall|k: DashboardAgent| #[trigger] class_of(self, r@, k) == class_of(self, agents@, k),
    {
        match self {
            DashboardSort::Manual => agents,
            _ => insertion_sorted(self, agents),
        }
    }
}

} // verus!
