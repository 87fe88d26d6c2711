use knot::paths::shorten_path;

#[test]
fn the_home_directory_is_written_as_a_tilde() {
    assert_eq!(shorten_path("/Users/dana/code/widget", Some("/Users/dana")), "~/code/widget");
    assert_eq!(shorten_path("/Users/dana", Some("/Users/dana")), "~");
}

#[test]
fn a_path_outside_home_is_left_alone() {
    assert_eq!(shorten_path("/opt/tools", Some("/Users/dana")), "/opt/tools");
    assert_eq!(shorten_path("/Users", Some("/Users/dana")), "/Users");
    assert_eq!(shorten_path("/Users/dana/x", None), "/Users/dana/x");
}

#[test]
fn the_prefix_is_matched_as_text_not_as_a_component() {
    assert_eq!(shorten_path("/Users/danafoo", Some("/Users/dana")), "~foo");
    assert_eq!(shorten_path("/Users/dånа/é", Some("/Users/dånа")), "~/é");
}
