use knot::about::build_details;
use knot::about::format_build;
use knot::about::UNKNOWN_COMMIT;

const COMMIT_UNKNOWN_LABEL: &str = "commit unknown";

#[test]
fn a_known_commit_is_shown_with_the_date() {
    assert_eq!(format_build("2026-09-21", "1a2b3c4d5e6f", COMMIT_UNKNOWN_LABEL),
               "2026-09-21, 1a2b3c4d5e6f");
}

#[test]
fn an_unknown_commit_says_so_rather_than_leaving_a_blank() {
    let build = format_build("2026-09-21", UNKNOWN_COMMIT, COMMIT_UNKNOWN_LABEL);
    assert!(build.starts_with("2026-09-21, "), "the date went missing: {build}");
    assert!(build.contains(COMMIT_UNKNOWN_LABEL),
            "an unstamped commit did not say it was unknown: {build}");
    assert!(!build.ends_with(&format!(", {UNKNOWN_COMMIT}")),
            "the raw stamp is shown where a commit belongs: {build}");
}

#[test]
fn a_dirty_commit_is_shown_as_stamped() {
    assert_eq!(format_build("2026-09-21", "1a2b3c4d5e6f-dirty", COMMIT_UNKNOWN_LABEL),
               "2026-09-21, 1a2b3c4d5e6f-dirty");
}

#[test]
fn the_copied_details_name_the_app_version_and_build() {
    let build = format_build("2026-09-21", "1a2b3c4d5e6f", COMMIT_UNKNOWN_LABEL);
    let details = build_details("Knot", "0.4.2", &build);
    assert!(details.starts_with("Knot"));
    assert!(details.contains("0.4.2"), "the version is missing: {details}");
    assert!(details.contains(&build), "the build is missing: {details}");
    assert_eq!(details, "Knot 0.4.2 (2026-09-21, 1a2b3c4d5e6f)");
}
