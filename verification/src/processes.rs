//! An agent's processes section: whether it is open, the last completed
//! sample of the agent's descendant processes, the last failure, and the
//! processes whose termination is in flight - and which agent a window
//! samples at all.

use core::time::Duration;
use std::collections::{BTreeMap, BTreeSet};
use vstd::prelude::*;

verus! {

broadcast use vstd::std_specs::btree::group_btree_axioms;

/// Whether a process holds the terminal or runs behind it.
#[derive(Debug, Clone, Copy, PartialEq, Eq, Structural)]
pub enum Activity {
    Foreground,
    Background,
}

/// One process descended from an agent's session root.
#[derive(Debug)]
pub struct DescendantProcess {
    pub pid: u32,
    pub ppid: u32,
    pub command: String,
    pub elapsed: Duration,
    pub activity: Activity,
}

/// What the section holds, as values.
pub struct ProcessSectionView {
    pub expanded: bool,
    pub snapshot: Option<Seq<DescendantProcess>>,
    pub failure: Option<Seq<char>>,
    pub terminating: Set<u32>,
}

/// One agent's processes section, as the UI holds it. Collapsed and
/// empty until something happens to it.
pub struct ProcessSection {
    expanded: bool,
    snapshot: Option<Vec<DescendantProcess>>,
    failure: Option<String>,
    terminating: BTreeSet<u32>,
}

impl View for ProcessSection {
    type V = ProcessSectionView;

    closed spec fn view(&self) -> ProcessSectionView {
        ProcessSectionView {
            expanded: self.expanded,
            snapshot: match self.snapshot {
                Some(v) => Some(v@),
                None => None,
            },
            failure: match self.failure {
                Some(s) => Some(s@),
                None => None,
            },
            terminating: self.terminating@,
        }
    }
}

/// The pids a sample reports.
pub open spec fn pids(processes: Seq<DescendantProcess>) -> Set<u32> {
    Set::new(|pid: u32| exists|i: int| 0 <= i < processes.len() && #[trigger] processes[i].pid == pid)
}

/// How many processes of a sample run in the background.
pub open spec fn background_in(processes: Seq<DescendantProcess>) -> nat {
    processes.filter(|p: DescendantProcess| p.activity == Activity::Background).len()
}

impl ProcessSection {
    /// A collapsed section with nothing sampled yet.
    pub fn new() -> (s: ProcessSection)
        ensures
            !s@.expanded,
            s@.snapshot is None,
            s@.failure is None,
            s@.terminating == Set::<u32>::empty(),
    {
        ProcessSection { expanded: false, snapshot: None, failure: None, terminating: BTreeSet::new() }
    }

    pub fn is_expanded(&self) -> (r: bool)
        ensures
            r == self@.expanded,
    {
        self.expanded
    }

    /// Flips the section open or shut, answering the new state.
    pub fn toggle(&mut self) -> (r: bool)
        ensures
            final(self)@.expanded == !old(self)@.expanded,
            r == final(self)@.expanded,
            final(self)@.snapshot == old(self)@.snapshot,
            final(self)@.failure == old(self)@.failure,
            final(self)@.terminating == old(self)@.terminating,
    {
        self.expanded = !self.expanded;
        self.expanded
    }

    /// Shuts the section, whatever state it was in.
    pub fn collapse(&mut self)
        ensures
            !final(self)@.expanded,
            final(self)@.snapshot == old(self)@.snapshot,
            final(self)@.failure == old(self)@.failure,
            final(self)@.terminating == old(self)@.terminating,
    {
        self.expanded = false;
    }

    /// The last completed sample, or `None` if none has landed.
    pub fn processes(&self) -> (r: Option<&[DescendantProcess]>)
        ensures
            match r {
                Some(s) => self@.snapshot == Some(s@),
                None => self@.snapshot is None,
            },
    {
        match &self.snapshot {
            Some(v) => Some(v.as_slice()),
            None => None,
        }
    }

    /// The last sample's failure, until a later success clears it.
    pub fn failure(&self) -> (r: Option<&str>)
        ensures
            match r {
                Some(s) => self@.failure == Some(s@),
                None => self@.failure is None,
            },
    {
        match &self.failure {
            Some(s) => Some(s.as_str()),
            None => None,
        }
    }

    /// How many sampled processes run in the background: `None` - unknown,
    /// not zero - until a sample has landed.
    pub fn background_count(&self) -> (r: Option<usize>)
        ensures
            match self@.snapshot {
                Some(s) => r == Some(background_in(s) as usize),
                None => r is None,
            },
    {
        match &self.snapshot {
            None => None,
            Some(v) => {
                let mut n: usize = 0;
                let mut i: usize = 0;
                while i < v.len()
                    invariant
                        i <= v@.len(),
                        n == background_in(v@.take(i as int)),
                        n <= i,
                    decreases v@.len() - i,
                {
                    proof {
                        reveal_with_fuel(Seq::<DescendantProcess>::filter, 1);
                        assert(v@.take(i + 1).drop_last() =~= v@.take(i as int));
                    }
                    if v[i].activity == Activity::Background {
                        n = n + 1;
                    }
                    i = i + 1;
                }
                proof {
                    assert(v@.take(v@.len() as int) =~= v@);
                }
                Some(n)
            },
        }
    }

    pub fn is_terminating(&self, pid: u32) -> (r: bool)
        ensures
            r == self@.terminating.contains(pid),
    {
        self.terminating.contains(&pid)
    }

    /// Marks `pid` as being terminated, so its row can say so.
    pub fn mark_terminating(&mut self, pid: u32)
        ensures
            final(self)@.terminating == old(self)@.terminating.insert(pid),
            final(self)@.expanded == old(self)@.expanded,
            final(self)@.snapshot == old(self)@.snapshot,
            final(self)@.failure == old(self)@.failure,
    {
        self.terminating.insert(pid);
    }

    /// Drops the mark without waiting for a sample - what a refused signal
    /// does.
    pub fn clear_terminating(&mut self, pid: u32)
        ensures
            final(self)@.terminating == old(self)@.terminating.remove(pid),
            final(self)@.expanded == old(self)@.expanded,
            final(self)@.snapshot == old(self)@.snapshot,
            final(self)@.failure == old(self)@.failure,
    {
        self.terminating.remove(&pid);
    }

    /// Records a completed sample and clears any failure. A process the
    /// sample no longer reports is gone, so its termination mark goes; one
    /// it still reports is still being waited on.
    pub fn publish(&mut self, processes: Vec<DescendantProcess>)
        ensures
            final(self)@.snapshot == Some(processes@),
            final(self)@.failure is None,
            final(self)@.terminating == old(self)@.terminating.intersect(pids(processes@)),
            final(self)@.expanded == old(self)@.expanded,
    {
        let mut kept: BTreeSet<u32> = BTreeSet::new();
        let mut i: usize = 0;
        while i < processes.len()
            invariant
                i <= processes@.len(),
                kept@ == self.terminating@.intersect(pids(processes@.take(i as int))),
            decreases processes@.len() - i,
        {
            let pid = processes[i].pid;
            if self.terminating.contains(&pid) {
                kept.insert(pid);
            }
            proof {
                let before = processes@.take(i as int);
                let after = processes@.take(i + 1);
                assert forall|p: u32| pids(after).contains(p) <==> (pids(before).contains(p) || p == pid) by {
                    if pids(after).contains(p) {
                        let j = choose|j: int| 0 <= j < after.len() && #[trigger] after[j].pid == p;
                        if j < i {
                            assert(before[j].pid == p);
                        }
                    }
                    if pids(before).contains(p) {
                        let j = choose|j: int| 0 <= j < before.len() && #[trigger] before[j].pid == p;
                        assert(after[j].pid == p);
                    }
                    if p == pid {
                        assert(after[i as int].pid == p);
                    }
                }
                assert(kept@ =~= self.terminating@.intersect(pids(after)));
            }
            i = i + 1;
        }
        proof {
            assert(processes@.take(processes@.len() as int) =~= processes@);
        }
        self.terminating = kept;
        self.snapshot = Some(processes);
        self.failure = None;
    }

    /// Records a failed sample, leaving the last successful list in place.
    pub fn fail(&mut self, message: String)
        ensures
            final(self)@.failure == Some(message@),
            final(self)@.snapshot == old(self)@.snapshot,
            final(self)@.terminating == old(self)@.terminating,
            final(self)@.expanded == old(self)@.expanded,
    {
        self.failure = Some(message);
    }

    /// Forgets what was sampled, without closing the section: the rows
    /// described a process tree that no longer exists.
    pub fn clear(&mut self)
        ensures
            final(self)@.snapshot is None,
            final(self)@.failure is None,
            final(self)@.terminating == Set::<u32>::empty(),
            final(self)@.expanded == old(self)@.expanded,
    {
        self.snapshot = None;
        self.failure = None;
        self.terminating.clear();
    }
}

impl Default for ProcessSection {
    fn default() -> (s: ProcessSection)
        ensures
            !s@.expanded,
            s@.snapshot is None,
            s@.failure is None,
            s@.terminating == Set::<u32>::empty(),
    {
        ProcessSection::new()
    }
}

/// What the window is showing, as the sampler cares about it.
#[derive(Debug, Clone, Copy, PartialEq, Eq, Structural)]
pub struct Showing {
    /// The agent whose pane is on screen, or `None` when a takeover view
    /// (the dashboard, the pull requests list) has replaced it.
    pub agent: Option<u128>,
}

/// Which agents this window samples, and the root to sample each from.
///
/// Being shown is what decides, not being expanded: the collapsed header's
/// count is drawn from the last sample. `root` is the session root of the
/// shown agent, `None` when its session has ended. At most one entry, since
/// at most one agent's pane is on screen; none means nothing to sample.
pub fn observed_roots(showing: Showing, root: Option<u32>) -> (r: BTreeMap<u128, u32>)
    ensures
        r@ == match (showing.agent, root) {
            (Some(agent), Some(pid)) => map![agent => pid],
            _ => Map::<u128, u32>::empty(),
        },
{
    let mut roots: BTreeMap<u128, u32> = BTreeMap::new();
    if let (Some(agent), Some(pid)) = (showing.agent, root) {
        roots.insert(agent, pid);
        proof {
            assert(roots@ =~= map![agent => pid]);
        }
    }
    roots
}

/// Walks one already-read process table for every observed root: `walk`
/// gives the processes descended from a root in `table`.
pub fn descendants_for<T, W: Fn(&T, u32) -> Vec<DescendantProcess>>(
    table: &T,
    roots: &BTreeMap<u128, u32>,
    walk: &W,
) -> (r: BTreeMap<u128, Vec<DescendantProcess>>)
    requires
        forall|root: u32| #[trigger] walk.requires((table, root)),
    ensures
        r@.dom() == roots@.dom(),
        forall|agent: u128| #[trigger]
            roots@.contains_key(agent) ==> walk.ensures((table, roots@[agent]), r@[agent]),
{
    broadcast use vstd::std_specs::btree::group_btree_axioms;
    broadcast use vstd::laws_cmp::group_laws_cmp;

    let mut out: BTreeMap<u128, Vec<DescendantProcess>> = BTreeMap::new();
    for pair in it: roots.iter()
        invariant
            forall|root: u32| #[trigger] walk.requires((table, root)),
            out@.dom() == Set::new(|a: u128| exists|i: int| 0 <= i < it.index() && *it.seq()[i].0 == a),
            forall|agent: u128| #[trigger]
                out@.contains_key(agent) ==> roots@.contains_key(agent) && walk.ensures((table, roots@[agent]), out@[agent]),
    {
        let (agent, root) = pair;
        let found = walk(table, *root);
        out.insert(*agent, found);
    }
    out
}

/// One sampling pass: read the process table once with `sample`, then walk
/// it for every root. Nothing observed reads nothing: with no root,
/// `sample` is not called. A failed read fails the pass.
///
/// `sample` is taken by value, as `FnOnce`, so no change here can read the
/// table once per root.
pub fn sample_roots<T, E, S: FnOnce() -> Result<T, E>, W: Fn(&T, u32) -> Vec<DescendantProcess>>(
    roots: &BTreeMap<u128, u32>,
    sample: S,
    walk: &W,
) -> (r: Result<BTreeMap<u128, Vec<DescendantProcess>>, E>)
    requires
        sample.requires(()),
        forall|table: &T, root: u32| #[trigger] walk.requires((table, root)),
    ensures
        roots@.dom().len() == 0 ==> (r matches Ok(m) && m@ == Map::<u128, Vec<DescendantProcess>>::empty()),
        roots@.dom().len() > 0 ==> match r {
            Ok(m) => exists|table: T|
                {
                    &&& #[trigger] sample.ensures((), Ok::<T, E>(table))
                    &&& m@.dom() == roots@.dom()
                    &&& forall|agent: u128| #[trigger]
                        roots@.contains_key(agent) ==> walk.ensures((&table, roots@[agent]), m@[agent])
                },
            Err(e) => sample.ensures((), Err::<T, E>(e)),
        },
{
    broadcast use vstd::std_specs::btree::group_btree_axioms;

    if roots.is_empty() {
        let empty: BTreeMap<u128, Vec<DescendantProcess>> = BTreeMap::new();
        return Ok(empty);
    }
    match sample() {
        Ok(table) => {
            let found = descendants_for(&table, roots, walk);
            Ok(found)
        },
        Err(e) => Err(e),
    }
}

} // verus!
