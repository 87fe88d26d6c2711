use knot::bug_report::browser_outcome;
use knot::bug_report::can_report;
use knot::bug_report::compose_url;
use knot::bug_report::filed_outcome;
use knot::bug_report::issue_body;
use knot::bug_report::submit_action;
use knot::bug_report::ForgeAvailability;
use knot::bug_report::Outcome;
use knot::bug_report::Phase;
use knot::bug_report::Report;
use knot::bug_report::SubmitAction;

const KNOT_REPO: &str = "pilgrimagesoftware/Knot";
const LABEL: &str = "Diagnostics";
const FILED: &str = "https://github.com/pilgrimagesoftware/Knot/issues/7";

fn report() -> Report {
    Report { subject: "  Crash on launch ".to_owned(),
             description: "It crashed.\nEvery time.".to_owned(),
             diagnostics: "App: Knot 1.0.0 (2026-09-25, abc)".to_owned() }
}

#[test]
fn a_ready_forge_files_the_issue() {
    let action = submit_action(&report(), &ForgeAvailability::Ready, KNOT_REPO, LABEL);

    assert_eq!(action,
               SubmitAction::File { title: "Crash on launch".to_owned(),
                                    body: issue_body(&report(), LABEL) });
    assert_eq!(filed_outcome(Ok(FILED.to_owned())), Outcome::Filed(FILED.to_owned()));
}

#[test]
fn a_failed_filing_says_why_and_can_be_retried() {
    let first = filed_outcome(Err("issue create failed: HTTP 403".to_owned()));
    let second = filed_outcome(Err("issue create failed: HTTP 403".to_owned()));

    assert!(matches!(&first, Outcome::FileFailed(why) if why.contains("HTTP 403")), "{first:?}");
    assert_eq!(first, second);
    let phase = Phase::after(first);
    assert_eq!(phase, Phase::Failed("issue create failed: HTTP 403".to_owned()));
    assert!(can_report("Crash", "it broke", &phase), "the retry is open");
}

#[test]
fn a_forge_that_is_not_ready_opens_the_compose_page() {
    for forge in [ForgeAvailability::Missing,
                  ForgeAvailability::Unauthenticated,
                  ForgeAvailability::Failed("no such host".to_owned())]
    {
        let action = submit_action(&report(), &forge, KNOT_REPO, LABEL);
        assert_eq!(action, SubmitAction::OpenBrowser(compose_url(&report(), KNOT_REPO, LABEL)), "{forge:?}");
        assert_eq!(browser_outcome(true), Outcome::BrowserReady, "{forge:?}");
    }
}

#[test]
fn a_browser_that_will_not_open_is_reported() {
    assert_eq!(browser_outcome(false), Outcome::BrowserFailed);
    assert_eq!(Phase::after(Outcome::BrowserFailed), Phase::BrowserFailed);
}

#[test]
fn a_filed_issue_leaves_a_fresh_form() {
    assert_eq!(Phase::after(Outcome::Filed(FILED.to_owned())), Phase::Editing);
    assert_eq!(Phase::after(Outcome::BrowserReady), Phase::BrowserReady);
}

#[test]
fn only_a_ready_forge_is_ready() {
    assert!(ForgeAvailability::Ready.is_ready());
    assert!(!ForgeAvailability::Missing.is_ready());
    assert!(!ForgeAvailability::Unauthenticated.is_ready());
    assert!(!ForgeAvailability::Failed("x".to_owned()).is_ready());
}
