use knot::commit_window::CommitPoll;
use knot::commit_window::CommitWindow;

#[test]
fn an_empty_message_cannot_be_committed() {
    let mut window = CommitWindow::new();
    assert!(!window.can_commit(" \n\t "));
    assert_eq!(window.commit("   "), None);
    assert!(!window.pending());
}

#[test]
fn committing_hands_off_the_message_trimmed_with_inner_blank_lines_kept() {
    let mut window = CommitWindow::new();
    assert!(window.can_commit("  Fix the parser\n\nIt dropped a byte.\n"));
    assert_eq!(window.commit("  Fix the parser\n\nIt dropped a byte.\n"),
               Some("Fix the parser\n\nIt dropped a byte."));
    assert!(window.pending());
}

#[test]
fn a_commit_in_flight_blocks_another() {
    let mut window = CommitWindow::new();
    window.commit("first");
    assert!(!window.can_commit("second"));
    assert_eq!(window.commit("second"), None);
    assert_eq!(window.poll(None), CommitPoll::Waiting, "still running");
    assert!(window.pending());
}

#[test]
fn a_success_closes_the_window() {
    let mut window = CommitWindow::new();
    window.commit("message");
    assert_eq!(window.poll(Some(Ok(()))), CommitPoll::Close);
    assert!(!window.pending());
}

#[test]
fn a_failure_keeps_the_window_and_says_why() {
    let mut window = CommitWindow::new();
    window.commit("message");
    assert_eq!(window.poll(Some(Err("hook rejected".to_string()))), CommitPoll::Stay);
    assert_eq!(window.error(), Some("hook rejected"));
    assert!(window.can_commit("message"), "the message can be committed again");

    window.commit("message");
    assert_eq!(window.error(), None, "a new attempt clears the old failure");
}

#[test]
fn nothing_in_flight_means_nothing_to_report() {
    let mut window = CommitWindow::new();
    assert_eq!(window.poll(Some(Ok(()))), CommitPoll::Waiting);
    assert_eq!(window.error(), None);
}
