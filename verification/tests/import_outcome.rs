use knot::import_window::summarise;

const NOTHING_TO_DO: &str = "Nothing to import.";

#[test]
fn a_failed_import_says_so_rather_than_nothing() {
    let outcome = summarise(Err("Import failed: disk is full".to_string()), NOTHING_TO_DO.to_string());

    assert!(outcome.failed, "a failed import was not marked failed");
    assert_eq!(outcome.lines.len(), 1);
    assert!(outcome.lines[0].contains("disk is full"),
            "the error itself is missing from the summary: {:?}",
            outcome.lines);
}

#[test]
fn an_import_that_did_nothing_says_it_did_nothing() {
    let outcome = summarise(Ok(Vec::new()), NOTHING_TO_DO.to_string());

    assert!(!outcome.failed);
    assert_eq!(outcome.lines, vec![NOTHING_TO_DO.to_string()]);
}

#[test]
fn a_successful_import_reports_what_it_added() {
    let lines = vec!["Added: SRE".to_string(), "Skipped: WIP".to_string()];

    let outcome = summarise(Ok(lines), NOTHING_TO_DO.to_string());

    assert!(!outcome.failed);
    assert_eq!(outcome.lines.len(), 2, "{:?}", outcome.lines);
    assert!(outcome.lines.iter().any(|line| line.contains("SRE")));
    assert!(outcome.lines.iter().any(|line| line.contains("WIP")));
}

#[test]
fn files_the_scan_could_not_read_are_named_in_the_summary() {
    let lines = vec!["Could not read: broken.md (no frontmatter)".to_string()];

    let outcome = summarise(Ok(lines), NOTHING_TO_DO.to_string());

    assert!(!outcome.failed);
    assert!(outcome.lines.iter().any(|line| line.contains("broken.md")),
            "the unreadable file went unmentioned: {:?}",
            outcome.lines);
}
