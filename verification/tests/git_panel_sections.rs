use knot::git_panel::group;
use knot::git_panel::paths_of;
use knot::git_panel::selection_survives;
use knot::git_panel::ChangeType;
use knot::git_panel::FileEntry;
use knot::git_panel::Section;
use knot::git_panel::SectionKind;
use knot::git_panel::DiffKey;
use knot::git_panel::Selection;

fn entry(path: &str, staged: Option<ChangeType>, unstaged: Option<ChangeType>) -> FileEntry {
    FileEntry { path: path.to_owned(), orig_path: None, staged, unstaged }
}

/// The status's own lists, as the panel receives them: staged changes,
/// unstaged changes, untracked files, and conflicts.
fn sections_of(entries: Vec<FileEntry>) -> Vec<Section> {
    let unmerged = |c: Option<ChangeType>| c == Some(ChangeType::Unmerged);
    let conflicted: Vec<FileEntry> =
        entries.iter().filter(|e| unmerged(e.staged) || unmerged(e.unstaged)).cloned().collect();
    let staged: Vec<FileEntry> = entries.iter().filter(|e| e.staged.is_some()).cloned().collect();
    let modified: Vec<FileEntry> =
        entries.iter()
               .filter(|e| e.unstaged.is_some() && e.unstaged != Some(ChangeType::Untracked))
               .cloned()
               .collect();
    let untracked: Vec<FileEntry> =
        entries.iter().filter(|e| e.unstaged == Some(ChangeType::Untracked)).cloned().collect();
    group(&staged, &modified, &untracked, &conflicted)
}

fn kinds(entries: Vec<FileEntry>) -> Vec<SectionKind> {
    sections_of(entries).into_iter().map(|s| s.kind).collect()
}

#[test]
fn a_staged_and_modified_path_appears_in_both_sections() {
    let sections = sections_of(vec![entry("src/f.rs", Some(ChangeType::Added), Some(ChangeType::Modified))]);

    assert_eq!(sections.len(), 2);
    assert_eq!(sections[0].kind, SectionKind::Staged);
    assert_eq!(sections[1].kind, SectionKind::Unstaged);
    assert_eq!(sections[0].rows[0].path, "src/f.rs");
    assert_eq!(sections[1].rows[0].path, "src/f.rs");
}

#[test]
fn each_row_carries_its_own_sides_change_type() {
    let sections = sections_of(vec![entry("f.rs", Some(ChangeType::Added), Some(ChangeType::Modified))]);

    assert_eq!(sections[0].rows[0].change, ChangeType::Added);
    assert_eq!(sections[1].rows[0].change, ChangeType::Modified);
}

#[test]
fn empty_sections_are_omitted() {
    assert_eq!(kinds(vec![entry("a.rs", Some(ChangeType::Modified), None)]), [SectionKind::Staged]);
    assert_eq!(kinds(vec![entry("b.rs", None, Some(ChangeType::Untracked))]), [SectionKind::Untracked]);
    assert!(sections_of(Vec::new()).is_empty());
}

#[test]
fn sections_are_in_draw_order() {
    assert_eq!(kinds(vec![entry("d.rs", Some(ChangeType::Unmerged), Some(ChangeType::Unmerged)),
                          entry("c.rs", None, Some(ChangeType::Untracked)),
                          entry("b.rs", None, Some(ChangeType::Modified)),
                          entry("a.rs", Some(ChangeType::Added), None)]),
               [SectionKind::Staged, SectionKind::Unstaged, SectionKind::Untracked, SectionKind::Conflicted]);
}

#[test]
fn a_conflict_is_listed_once() {
    let entries = vec![entry("f.rs", Some(ChangeType::Unmerged), Some(ChangeType::Unmerged))];
    let sections = sections_of(entries.clone());

    assert_eq!(kinds(entries), [SectionKind::Conflicted]);
    assert_eq!(sections[0].rows.len(), 1);
    assert_eq!(sections[0].rows[0].change, ChangeType::Unmerged);
}

#[test]
fn rows_split_name_from_directory() {
    let sections = sections_of(vec![entry("src/deep/f.rs", None, Some(ChangeType::Modified)),
                                    entry("top.rs", None, Some(ChangeType::Modified))]);
    let rows = &sections[0].rows;
    let nested = rows.iter().find(|r| r.path.ends_with("f.rs")).unwrap();
    let top = rows.iter().find(|r| r.path == "top.rs").unwrap();

    assert_eq!(nested.file_name(), "f.rs");
    assert_eq!(nested.directory().as_deref(), Some("src/deep"));
    assert_eq!(top.file_name(), "top.rs");
    assert_eq!(top.directory(), None, "a root path has no directory line");
}

#[test]
fn selection_survives_a_refresh_that_keeps_its_side() {
    let sections = sections_of(vec![entry("f.rs", Some(ChangeType::Added), None)]);
    let selection = Selection { path: "f.rs".to_owned(), orig_path: None, staged: true };

    assert!(selection_survives(&sections, &selection));
}

#[test]
fn selection_is_cleared_when_only_its_other_side_remains() {
    let sections = sections_of(vec![entry("f.rs", Some(ChangeType::Added), None)]);
    let unstaged_side = Selection { path: "f.rs".to_owned(), orig_path: None, staged: false };

    assert!(!selection_survives(&sections, &unstaged_side), "the path is present, but not on the selected side");
}

#[test]
fn selection_is_cleared_when_the_path_is_gone() {
    let sections = sections_of(vec![entry("other.rs", Some(ChangeType::Added), None)]);
    let selection = Selection { path: "f.rs".to_owned(), orig_path: None, staged: true };

    assert!(!selection_survives(&sections, &selection));
}

#[test]
fn a_row_selects_its_own_side() {
    let sections = sections_of(vec![entry("f.rs", Some(ChangeType::Added), Some(ChangeType::Modified))]);

    assert!(sections[0].rows[0].selection().staged);
    assert!(!sections[1].rows[0].selection().staged);
}

#[test]
fn paths_of_collects_every_row() {
    let sections = sections_of(vec![entry("a.rs", None, Some(ChangeType::Modified)),
                                    entry("b.rs", None, Some(ChangeType::Modified))]);
    let mut paths = paths_of(&sections[0].rows).expect("utf-8 paths");
    paths.sort_unstable();

    assert_eq!(paths, ["a.rs", "b.rs"]);
}

#[test]
fn a_directory_is_what_the_path_names_before_its_last_component() {
    let row = |path: &str| sections_of(vec![entry(path, None, Some(ChangeType::Modified))])[0].rows[0].clone();
    assert_eq!(row("/abs/f.rs").directory().as_deref(), Some("/abs"));
    assert_eq!(row("/f.rs").directory().as_deref(), Some("/"));
    assert_eq!(row("./f.rs").directory().as_deref(), Some("."));
    assert_eq!(row("a/./b").directory().as_deref(), Some("a"));
    assert_eq!(row("a/b/").directory().as_deref(), Some("a"));
}

#[test]
fn a_selection_keys_its_diff_by_agent_path_and_side() {
    let staged = Selection { path: "src/a.rs".to_string(), orig_path: None, staged: true };
    let unstaged = Selection { staged: false, ..staged.clone() };

    assert_eq!(staged.key(7), DiffKey { agent: 7, path: "src/a.rs".to_string(), staged: true });
    assert_ne!(staged.key(7), unstaged.key(7), "the two sides of one path share a diff");
    assert_ne!(staged.key(7), staged.key(8));
}
