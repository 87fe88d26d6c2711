use knot::external_tools::git_program;

#[test]
fn a_located_git_is_the_one_configured() {
    let program = git_program(Some("/opt/homebrew/bin/git".to_string()),
                              "/usr/bin:/opt/homebrew/bin".to_owned());

    assert_eq!(program.program, "/opt/homebrew/bin/git");
}

#[test]
fn an_unlocated_git_falls_back_to_the_bare_name() {
    let program = git_program(None, "/usr/bin".to_owned());

    assert_eq!(program.program,
               "git",
               "the app must still start, and the spawn's own lookup is what it always used");
}

#[test]
fn the_merged_search_path_is_carried_either_way() {
    for resolved in [Some("/opt/homebrew/bin/git".to_string()), None] {
        let program = git_program(resolved, "/usr/bin:/opt/homebrew/bin".to_owned());

        assert_eq!(program.search_path,
                   Some("/usr/bin:/opt/homebrew/bin".to_string()),
                   "git's own helpers need the merged path whether or not git itself moved");
    }
}
