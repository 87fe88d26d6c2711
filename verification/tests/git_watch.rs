use knot::paths::has_directory;
use knot::paths::is_relevant;

fn relevant(path: &str) -> bool {
    is_relevant(path)
}

#[test]
fn staging_head_and_refs_are_relevant() {
    assert!(relevant("/repo/.git/index"), "staging changes the index");
    assert!(relevant("/repo/.git/HEAD"), "a commit or checkout moves HEAD");
    assert!(relevant("/repo/.git/refs/heads/main"));
    assert!(relevant("/repo/.git/refs/tags/v1"));
}

#[test]
fn gits_own_churn_is_not_relevant() {
    assert!(!relevant("/repo/.git/objects/ab/cdef"));
    assert!(!relevant("/repo/.git/logs/HEAD"));
    assert!(!relevant("/repo/.git/COMMIT_EDITMSG"));
    assert!(!relevant("/repo/.git/config"));
    assert!(!relevant("/repo/.git/hooks/pre-commit"));
    assert!(!relevant("/repo/.git"), "the directory itself is not an entry");
}

#[test]
fn working_tree_files_are_relevant() {
    assert!(relevant("/repo/src/main.rs"));
    assert!(relevant("/repo/README.md"));
    assert!(relevant("/repo/deep/nested/file.txt"));
}

#[test]
fn dotfiles_are_ignored_except_gitignore() {
    assert!(!relevant("/repo/.DS_Store"));
    assert!(!relevant("/repo/src/.hidden.swp"));
    assert!(relevant("/repo/.gitignore"), "editing it changes which paths are untracked");
    assert!(relevant("/repo/nested/.gitignore"));
}

#[test]
fn a_nested_git_dir_uses_the_same_rule() {
    assert!(relevant("/repo/vendor/dep/.git/index"));
    assert!(!relevant("/repo/vendor/dep/.git/objects/aa/bb"));
}

#[test]
fn dot_github_is_not_dot_git() {
    assert!(relevant("/repo/.github/workflows/ci.yml"));
}

#[test]
fn a_root_path_has_no_directory() {
    assert!(!has_directory("top.rs"));
    assert!(has_directory("src/deep/f.rs"));
    assert!(has_directory("/top.rs"));
    assert!(!has_directory("/"));
    assert!(!has_directory(""));
}
