use std::cell::Cell;
use std::collections::BTreeMap;
use std::time::Duration;

use knot::processes::descendants_for;
use knot::processes::observed_roots;
use knot::processes::sample_roots;
use knot::processes::Activity;
use knot::processes::DescendantProcess;
use knot::processes::ProcessSection;
use knot::processes::Showing;

fn descendant(pid: u32, activity: Activity) -> DescendantProcess {
    DescendantProcess { pid,
                        ppid: 1,
                        command: format!("process {pid}"),
                        elapsed: Duration::from_secs(u64::from(pid)),
                        activity }
}

fn section(expanded: bool) -> ProcessSection {
    let mut section = ProcessSection::default();
    if expanded {
        section.toggle();
    }
    section
}

#[test]
fn a_section_starts_collapsed_and_toggles() {
    let mut section = ProcessSection::default();

    assert!(!section.is_expanded(), "the spec starts it collapsed");

    assert!(section.toggle());
    assert!(section.is_expanded());

    assert!(!section.toggle());
    assert!(!section.is_expanded());
}

#[test]
fn a_section_with_no_sample_yet_reports_an_unknown_count() {
    let section = ProcessSection::default();

    assert_eq!(section.background_count(), None, "unknown, not zero");
    assert!(section.processes().is_none());
}

#[test]
fn publishing_a_sample_counts_only_the_background_ones() {
    let mut section = ProcessSection::default();

    section.publish(vec![descendant(10, Activity::Background),
                         descendant(11, Activity::Background),
                         descendant(12, Activity::Foreground)]);

    assert_eq!(section.background_count(), Some(2));
    assert_eq!(section.processes().map(<[_]>::len), Some(3));
}

#[test]
fn an_empty_sample_counts_zero_rather_than_unknown() {
    let mut section = ProcessSection::default();

    section.publish(Vec::new());

    assert_eq!(section.background_count(), Some(0));
}

#[test]
fn a_failed_sample_keeps_the_last_successful_list() {
    let mut section = ProcessSection::default();
    section.publish(vec![descendant(10, Activity::Background)]);

    section.fail("ps is missing".to_owned());

    assert_eq!(section.failure(), Some("ps is missing"));
    assert_eq!(section.processes().map(<[_]>::len), Some(1), "the rows survive the failure");
}

#[test]
fn a_later_success_clears_the_failure_silently() {
    let mut section = ProcessSection::default();
    section.publish(vec![descendant(10, Activity::Background)]);
    section.fail("ps is missing".to_owned());

    section.publish(vec![descendant(11, Activity::Background)]);

    assert_eq!(section.failure(), None);
}

#[test]
fn clearing_forgets_the_sample_without_closing_the_section() {
    let mut section = section(true);
    section.publish(vec![descendant(10, Activity::Background)]);
    section.fail("stale".to_owned());
    section.mark_terminating(10);

    section.clear();

    assert!(section.is_expanded(), "the user's disclosure is theirs, not the sampler's");
    assert_eq!(section.background_count(), None);
    assert_eq!(section.failure(), None);
    assert!(!section.is_terminating(10));
}

#[test]
fn a_terminating_row_stays_marked_until_the_process_leaves_the_sample() {
    let mut section = ProcessSection::default();
    section.publish(vec![descendant(10, Activity::Background), descendant(11, Activity::Background)]);

    section.mark_terminating(10);
    assert!(section.is_terminating(10));

    section.publish(vec![descendant(10, Activity::Background), descendant(11, Activity::Background)]);
    assert!(section.is_terminating(10));

    section.publish(vec![descendant(11, Activity::Background)]);
    assert!(!section.is_terminating(10));
}

#[test]
fn a_refused_signal_drops_the_mark_at_once() {
    let mut section = ProcessSection::default();
    section.mark_terminating(7);
    section.clear_terminating(7);
    assert!(!section.is_terminating(7));
}

#[test]
fn collapsing_keeps_what_was_sampled() {
    let mut section = section(true);
    section.publish(vec![descendant(10, Activity::Foreground)]);
    section.collapse();
    assert!(!section.is_expanded());
    assert_eq!(section.background_count(), Some(0));
}

#[test]
fn an_expanded_section_on_the_shown_agent_is_observed() {
    let agent: u128 = 42;
    let observed = observed_roots(Showing { agent: Some(agent) }, Some(100));
    assert_eq!(observed, BTreeMap::from([(agent, 100)]));
}

#[test]
fn an_agent_that_stopped_is_no_longer_observed() {
    assert!(observed_roots(Showing { agent: Some(42) }, None).is_empty(), "no session root, nothing to sample");
}

#[test]
fn a_takeover_view_showing_no_pane_observes_nothing() {
    assert!(observed_roots(Showing { agent: None }, Some(100)).is_empty());
}

/// A read process table: pid, parent pid and command of each process.
type Table = Vec<(u32, u32, &'static str)>;

/// Two agents, each with its own root and one child, plus an unrelated
/// process that belongs to neither.
fn two_rooted_table() -> Table {
    vec![(100, 1, "shell one"),
         (101, 100, "npm run dev"),
         (200, 1, "adapter two"),
         (201, 200, "rg --json"),
         (300, 1, "somebody else")]
}

/// Every process below `root` in `table`, nearest first.
fn walk(table: &Table, root: u32) -> Vec<DescendantProcess> {
    let mut found = Vec::new();
    let mut frontier = vec![root];
    while let Some(parent) = frontier.pop() {
        for (pid, ppid, command) in table {
            if *ppid == parent {
                found.push(DescendantProcess { pid: *pid,
                                               ppid: *ppid,
                                               command: (*command).to_owned(),
                                               elapsed: Duration::from_secs(u64::from(*pid)),
                                               activity: Activity::Background });
                frontier.push(*pid);
            }
        }
    }
    found
}

#[test]
fn one_pass_populates_every_observed_root() {
    let one = 1u128;
    let two = 2u128;
    let roots = BTreeMap::from([(one, 100), (two, 200)]);

    let descendants = descendants_for(&two_rooted_table(), &roots, &walk);

    assert_eq!(descendants[&one].iter().map(|p| p.pid).collect::<Vec<_>>(), vec![101]);
    assert_eq!(descendants[&two].iter().map(|p| p.pid).collect::<Vec<_>>(), vec![201]);
}

#[test]
fn two_observed_roots_cost_exactly_one_read_of_the_table() {
    let one = 1u128;
    let two = 2u128;
    let roots = BTreeMap::from([(one, 100), (two, 200)]);
    let reads = Cell::new(0);

    let descendants = sample_roots(&roots,
                                   || -> Result<Table, String> {
                                       reads.set(reads.get() + 1);
                                       Ok(two_rooted_table())
                                   },
                                   &walk).unwrap();

    assert_eq!(reads.get(), 1, "one `ps` serves the whole window");
    assert_eq!(descendants.len(), 2);
    assert!(descendants.contains_key(&one));
    assert!(descendants.contains_key(&two));
}

#[test]
fn nothing_observed_reads_nothing_at_all() {
    let reads = Cell::new(0);

    let descendants = sample_roots(&BTreeMap::new(),
                                   || -> Result<Table, String> {
                                       reads.set(reads.get() + 1);
                                       Ok(two_rooted_table())
                                   },
                                   &walk).unwrap();

    assert_eq!(reads.get(), 0, "no observed root, no subprocess");
    assert!(descendants.is_empty());
}

#[test]
fn a_failed_read_fails_the_pass() {
    let roots = BTreeMap::from([(7u128, 100)]);

    let failed = sample_roots(&roots, || -> Result<Table, String> { Err("nope".to_owned()) }, &walk);

    assert!(failed.is_err());
}
