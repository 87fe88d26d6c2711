use std::collections::BTreeSet;

use knot::app_state::agent_selection_for_workspace;
use knot::app_state::command_to_send;
use knot::app_state::delivery_notice;
use knot::app_state::initial_agent_selection;
use knot::app_state::AgentName;
use knot::app_state::DeliveryNotice;
use knot::agent_store::StoreWorkspace;
use knot::app_state::inbox_prompt_message_id;
use knot::app_state::notification_body;
use knot::app_state::notification_response_agent_id;
use knot::app_state::should_inject_inbox_prompt;
use knot::app_state::should_notify;
use knot::app_state::should_show_awaiting_notice;
use knot::app_state::stale_session_ids;
use knot::app_state::NudgeCheck;
use knot::app_state::AWAITING_INPUT_DEFAULT_BODY;

fn due(latest: Option<u128>, last_nudged: Option<u128>) -> NudgeCheck<'static> {
    NudgeCheck { agent_type: "coder",
                 mcp_enabled: true,
                 latest_message: latest,
                 last_nudged,
                 idle: true,
                 can_receive: true }
}

#[test]
fn a_typed_command_is_sent_trimmed() {
    assert_eq!(command_to_send("  /review  "), Some("/review"));
    assert_eq!(command_to_send(" \t\n"), None);
    assert_eq!(command_to_send(""), None);
}

#[test]
fn only_sessions_no_live_agent_holds_are_stale() {
    let live = BTreeSet::from([2u128, 4]);
    assert_eq!(stale_session_ids(&[1, 2, 3, 4, 5], &live), vec![1, 3, 5]);
    assert!(stale_session_ids(&[], &live).is_empty());
}

#[test]
fn a_fresh_unread_message_nudges_an_idle_agent() {
    assert_eq!(inbox_prompt_message_id(due(Some(7), None)), Some(7));
    assert_eq!(inbox_prompt_message_id(due(Some(7), Some(6))), Some(7));
    assert!(should_inject_inbox_prompt(due(Some(7), None)));
}

#[test]
fn a_message_already_nudged_about_does_not_nudge_again() {
    assert_eq!(inbox_prompt_message_id(due(Some(7), Some(7))), None);
    assert_eq!(inbox_prompt_message_id(due(None, None)), None);
}

#[test]
fn no_nudge_without_mcp_for_a_shell_or_a_busy_agent() {
    assert_eq!(inbox_prompt_message_id(NudgeCheck { mcp_enabled: false, ..due(Some(7), None) }), None);
    assert_eq!(inbox_prompt_message_id(NudgeCheck { agent_type: "shell", ..due(Some(7), None) }), None);
    assert_eq!(inbox_prompt_message_id(NudgeCheck { idle: false, ..due(Some(7), None) }), None);
    assert_eq!(inbox_prompt_message_id(NudgeCheck { can_receive: false, ..due(Some(7), None) }), None);
    assert!(!should_inject_inbox_prompt(NudgeCheck { idle: false, ..due(Some(7), None) }));
}

#[test]
fn a_notice_is_for_an_agent_off_screen_saying_something_new() {
    let last = "same".to_owned();
    assert!(should_show_awaiting_notice(Some(1), 2, "need input", None));
    assert!(should_show_awaiting_notice(None, 2, "need input", Some(&last)));
    assert!(!should_show_awaiting_notice(Some(2), 2, "need input", None), "the agent is on screen");
    assert!(!should_show_awaiting_notice(Some(1), 2, "", None), "nothing was said");
    assert!(!should_show_awaiting_notice(Some(1), 2, "same", Some(&last)), "said already");
}

#[test]
fn a_desktop_notification_needs_the_setting_and_the_notice() {
    assert!(should_notify(true, true));
    assert!(!should_notify(false, true));
    assert!(!should_notify(true, false));
}

#[test]
fn an_empty_message_gets_the_default_body() {
    assert_eq!(notification_body(""), AWAITING_INPUT_DEFAULT_BODY);
    assert_eq!(notification_body("Pick a branch"), "Pick a branch");
}

#[test]
fn a_notification_tag_is_read_back_as_its_agent() {
    assert_eq!(notification_response_agent_id("67e55044-10b1-426f-9247-bb680e5fe0c8"),
               Some(0x67e5504410b1426f9247bb680e5fe0c8));
    assert_eq!(notification_response_agent_id("not an agent"), None);
    assert_eq!(notification_response_agent_id(""), None);
}

fn workspace(id: u128, active_agent_ids: Vec<u128>, agent_ids: Vec<u128>) -> StoreWorkspace {
    StoreWorkspace { id,
                     name: format!("Workspace {id}"),
                     color_hex: "#336699".to_string(),
                     agent_ids,
                     active_agent_ids }
}

fn workspaces() -> Vec<StoreWorkspace> {
    vec![workspace(10, vec![3, 1], vec![1, 2, 3]),
         workspace(20, vec![], vec![9, 4]),
         workspace(30, vec![7], vec![8])]
}

#[test]
fn the_first_live_active_agent_is_selected_for_a_workspace() {
    let live = BTreeSet::from([1u128, 2, 4]);
    assert_eq!(agent_selection_for_workspace(&workspaces(), &live, 10), Some(1));
    let live_all = BTreeSet::from([1u128, 2, 3, 4]);
    assert_eq!(agent_selection_for_workspace(&workspaces(), &live_all, 10), Some(3));
}

#[test]
fn without_an_active_agent_the_first_live_agent_is_selected() {
    let live = BTreeSet::from([4u128]);
    assert_eq!(agent_selection_for_workspace(&workspaces(), &live, 20), Some(4));
    assert_eq!(agent_selection_for_workspace(&workspaces(), &live, 30), None);
    assert_eq!(agent_selection_for_workspace(&workspaces(), &live, 99), None);
    assert_eq!(agent_selection_for_workspace(&[], &live, 20), None);
}

#[test]
fn the_initial_selection_follows_the_current_workspace() {
    let live = BTreeSet::from([2u128, 8]);
    assert_eq!(initial_agent_selection(&workspaces(), &live, Some(30)), Some(8));
    assert_eq!(initial_agent_selection(&workspaces(), &live, Some(10)), Some(2));
    assert_eq!(initial_agent_selection(&workspaces(), &live, None), None);
}

fn agent_names() -> Vec<AgentName> {
    vec![AgentName { id: 1, name: "Builder".to_string() },
         AgentName { id: 2, name: "Planner".to_string() }]
}

#[test]
fn a_delivery_notice_names_the_latest_recipient_and_counts_its_deliveries() {
    assert_eq!(delivery_notice(&[2, 1, 2, 2], &agent_names()),
               Some(DeliveryNotice { recipient_name: "Planner".to_string(), count: 3 }));
    assert_eq!(delivery_notice(&[2, 1], &agent_names()),
               Some(DeliveryNotice { recipient_name: "Builder".to_string(), count: 1 }));
}

#[test]
fn no_delivery_notice_without_deliveries_or_for_an_unknown_recipient() {
    assert_eq!(delivery_notice(&[], &agent_names()), None);
    assert_eq!(delivery_notice(&[1, 5], &agent_names()), None);
}
