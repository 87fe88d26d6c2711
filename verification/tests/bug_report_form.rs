use knot::about::build_details;
use knot::about::format_build;
use knot::bug_report::can_report;
use knot::bug_report::DiagnosticLabels;
use knot::bug_report::Diagnostics;
use knot::bug_report::ForgeAvailability;
use knot::bug_report::compose_url;
use knot::bug_report::issue_body;
use knot::bug_report::Report;
use knot::bug_report::os_line;
use knot::bug_report::percent_encode;
use knot::bug_report::Phase;

#[test]
fn both_fields_are_required() {
    assert!(!can_report("", "it broke", &Phase::Editing));
    assert!(!can_report("Crash", "", &Phase::Editing));
    assert!(can_report("Crash", "it broke", &Phase::Editing));
}

#[test]
fn whitespace_is_not_content() {
    assert!(!can_report("  \t", "it broke", &Phase::Editing));
    assert!(!can_report("Crash", "\n  \n", &Phase::Editing));
}

#[test]
fn a_submission_in_flight_blocks_another() {
    assert!(!can_report("Crash", "it broke", &Phase::Submitting));
}

#[test]
fn a_failure_or_a_hand_off_can_be_retried() {
    for phase in [Phase::Failed("403".to_owned()), Phase::BrowserReady, Phase::BrowserFailed] {
        assert!(can_report("Crash", "it broke", &phase), "{phase:?}");
    }
}

#[test]
fn only_a_failure_is_an_error() {
    assert!(Phase::Failed("403".to_owned()).is_error());
    assert!(Phase::BrowserFailed.is_error());
    assert!(!Phase::Editing.is_error());
    assert!(!Phase::Submitting.is_error());
    assert!(!Phase::BrowserReady.is_error());
}

#[test]
fn the_os_line_names_product_and_kernel() {
    assert_eq!(os_line("macos", Some("26.0"), Some("Darwin 25.6.0")), "macOS 26.0 (Darwin 25.6.0)");
}

#[test]
fn the_os_line_falls_back_to_the_kernel() {
    assert_eq!(os_line("macos", None, Some("Darwin 25.6.0")), "macOS (Darwin 25.6.0)");
    assert_eq!(os_line("macos", None, None), "macOS");
    assert_eq!(os_line("linux", None, Some("Linux 6.8.0")), "linux (Linux 6.8.0)");
}

#[test]
fn the_os_line_without_a_kernel_keeps_the_product() {
    assert_eq!(os_line("macos", Some("26.0"), None), "macOS 26.0");
}

#[test]
fn encoding_keeps_unreserved_characters() {
    assert_eq!(percent_encode("Aa0-._~"), "Aa0-._~");
}

#[test]
fn encoding_escapes_spaces_slashes_and_query_syntax() {
    assert_eq!(percent_encode("a b/c&d=e#f?g+h\n"), "a%20b%2Fc%26d%3De%23f%3Fg%2Bh%0A");
}

#[test]
fn encoding_escapes_unicode_as_utf8_bytes() {
    assert_eq!(percent_encode("é…"), "%C3%A9%E2%80%A6");
}

#[test]
fn encoding_nothing_gives_nothing() {
    assert_eq!(percent_encode(""), "");
}

const KNOT_REPO: &str = "pilgrimagesoftware/Knot";
const DIAGNOSTICS_LABEL: &str = "Diagnostics";

fn report() -> Report {
    Report { subject: "  Crash on launch ".to_owned(),
             description: "It crashed.\nEvery time.".to_owned(),
             diagnostics: "App: Knot 1.0.0 (2026-09-25, abc)".to_owned() }
}

#[test]
fn the_body_carries_the_description_then_the_diagnostics() {
    let body = issue_body(&report(), DIAGNOSTICS_LABEL);

    let description = body.find("It crashed.\nEvery time.").expect("description missing");
    let diagnostics = body.find("App: Knot 1.0.0").expect("diagnostics missing");
    assert!(description < diagnostics, "{body}");
    assert!(body.contains(DIAGNOSTICS_LABEL));
}

#[test]
fn the_body_is_fenced_under_its_heading() {
    assert_eq!(issue_body(&report(), DIAGNOSTICS_LABEL),
               "It crashed.\nEvery time.\n\n### Diagnostics\n\n```\nApp: Knot 1.0.0 (2026-09-25, abc)\n```\n");
}

#[test]
fn the_compose_url_targets_the_same_repo_as_gh() {
    let url = compose_url(&report(), KNOT_REPO, DIAGNOSTICS_LABEL);

    assert!(url.starts_with(&format!("https://github.com/{KNOT_REPO}/issues/new?")), "{url}");
    assert!(url.contains("title=Crash%20on%20launch&"), "{url}");
    assert!(url.contains(&format!("body={}", percent_encode(&issue_body(&report(), DIAGNOSTICS_LABEL)))),
            "{url}");
}

fn labels() -> DiagnosticLabels {
    DiagnosticLabels { app: "App".to_string(),
                       os: "OS".to_string(),
                       arch: "Architecture".to_string(),
                       forge: "GitHub CLI".to_string() }
}

fn details() -> String {
    build_details("Knot", "0.4.2", &format_build("2026-09-21", "1a2b3c4d5e6f", "commit unknown"))
}

fn sample(forge: ForgeAvailability) -> Diagnostics {
    Diagnostics { app: details(),
                  os: os_line("macos", Some("26.0"), Some("Darwin 25.6.0")),
                  arch: "aarch64".to_owned(),
                  forge }
}

#[test]
fn the_block_is_one_labelled_fact_per_line() {
    let text = sample(ForgeAvailability::Ready).text(&labels(), "ready");
    let lines: Vec<&str> = text.lines().collect();

    assert_eq!(lines.len(), 4, "{text}");
    for (line, label) in lines.iter().zip(["App", "OS", "Architecture", "GitHub CLI"]) {
        assert!(line.starts_with(&format!("{label}: ")), "{line} is not labelled by {label}");
    }
    assert_eq!(lines[1], "OS: macOS 26.0 (Darwin 25.6.0)");
    assert_eq!(lines[3], "GitHub CLI: ready");
}

#[test]
fn the_app_line_is_what_the_about_window_copies() {
    let text = sample(ForgeAvailability::Ready).text(&labels(), "ready");
    let first = text.lines().next().unwrap();

    assert!(first.ends_with(&format!(": {}", details())), "{first}");
}

#[test]
fn the_forge_states_are_told_apart() {
    let keys: Vec<&str> = [ForgeAvailability::Missing,
                           ForgeAvailability::Unauthenticated,
                           ForgeAvailability::Ready,
                           ForgeAvailability::Failed("no such host".to_owned())].iter()
                                                                              .map(|f| f.label_key())
                                                                              .collect();

    for (index, key) in keys.iter().enumerate() {
        assert!(key.starts_with("bug_report.forge."), "{key}");
        assert!(keys.iter().skip(index + 1).all(|other| other != key),
                "{key} is shared by two states");
    }
    assert_eq!(keys[3], "bug_report.forge.failed");
}

#[test]
fn every_status_but_editing_has_a_message() {
    for phase in [Phase::Submitting,
                  Phase::Failed("403".to_owned()),
                  Phase::BrowserReady,
                  Phase::BrowserFailed]
    {
        let key = phase.message_key().expect("every phase but Editing has a message");
        assert!(key.starts_with("bug_report."), "{phase:?}");
    }
    assert_eq!(Phase::Editing.message_key(), None);
    assert_eq!(Phase::Failed("HTTP 403".to_owned()).message_key(), Some("bug_report.failed"));
}
