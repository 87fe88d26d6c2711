use knot::agent_editor::created_agent_type;
use knot::avatar::card_avatar;
use knot::avatar::clamped_avatar;
use knot::avatar::DEFAULT_AGENT_AVATAR;
use knot::git_panel::SectionKind;

#[test]
fn an_empty_or_single_character_avatar_is_left_alone() {
    assert_eq!(clamped_avatar(""), None);
    assert_eq!(clamped_avatar("🤖"), None);
    assert_eq!(clamped_avatar("👍🏽"), None, "a modified emoji is one character");
    assert_eq!(clamped_avatar("e\u{301}"), None, "a letter and its accent are one character");
}

#[test]
fn a_longer_avatar_is_cut_to_its_first_character() {
    assert_eq!(clamped_avatar("ab").as_deref(), Some("a"));
    assert_eq!(clamped_avatar("👍🏽x").as_deref(), Some("👍🏽"));
    assert_eq!(clamped_avatar("e\u{301}z").as_deref(), Some("e\u{301}"));
}

#[test]
fn a_card_shows_the_first_character_or_the_default() {
    assert_eq!(card_avatar(""), DEFAULT_AGENT_AVATAR);
    assert_eq!(card_avatar("🦊 fox"), "🦊");
}

#[test]
fn a_companion_is_always_a_shell_agent() {
    assert_eq!(created_agent_type(true, "coder"), "shell");
    assert_eq!(created_agent_type(false, "coder"), "coder");
}

#[test]
fn only_the_staged_section_is_index_side() {
    assert!(SectionKind::Staged.is_staged());
    assert!(!SectionKind::Unstaged.is_staged());
    assert!(!SectionKind::Untracked.is_staged());
    assert!(!SectionKind::Conflicted.is_staged());
    assert_eq!(SectionKind::Conflicted.title_key(), "git_panel.section.conflicted");
    assert!(SectionKind::Staged < SectionKind::Conflicted);
}
