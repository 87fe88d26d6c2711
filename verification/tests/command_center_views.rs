use std::collections::BTreeMap;

use knot::agent_store::StoreAgent;
use knot::agent_store::StoreWorkspace;
use knot::app_state::layout_model;
use knot::command_center::add_agent_prefill;
use knot::command_center::dashboard_workspaces;
use knot::command_center::workspace_of_agent;
use knot::dashboard::AgentState;
use knot::dashboard::DashboardSort;
use knot::dashboard::DiffStats;

fn agent(id: u128, name: &str, avatar: &str, state: AgentState, is_companion: bool) -> StoreAgent {
    StoreAgent { id,
                 name: name.to_string(),
                 avatar: avatar.to_string(),
                 folder: format!("/work/{}", name.to_lowercase()),
                 agent_type: "coder".to_string(),
                 folder_name: name.to_lowercase(),
                 state,
                 is_companion,
                 is_shell: is_companion,
                 header_title: format!("{name} title") }
}

fn agents() -> Vec<StoreAgent> {
    vec![agent(1, "zed", "🦊🐻", AgentState::Idle, false),
         agent(2, "Alpha", "", AgentState::Error, false),
         agent(3, "helper", "🔧", AgentState::Running, true),
         agent(4, "beta", "🐝", AgentState::Input, false)]
}

fn workspace(id: u128, name: &str, agent_ids: Vec<u128>) -> StoreWorkspace {
    StoreWorkspace { id,
                     name: name.to_string(),
                     color_hex: "#112233".to_string(),
                     agent_ids,
                     active_agent_ids: Vec::new() }
}

fn workspaces() -> Vec<StoreWorkspace> {
    vec![workspace(10, "Main", vec![1, 3, 99, 2, 4]),
         workspace(20, "Side", vec![]),
         workspace(30, "Gone", vec![98])]
}

fn stats(insertions: u64) -> DiffStats {
    DiffStats { insertions, deletions: 1, files_changed: 2 }
}

#[test]
fn cards_leave_out_companions_and_agents_the_store_lost() {
    let diff_stats = BTreeMap::from([(1u128, Some(stats(5))), (2u128, None)]);
    let sections = dashboard_workspaces(&workspaces(), &agents(), &diff_stats, DashboardSort::Manual);

    assert_eq!(sections.len(), 3);
    assert_eq!(sections[0].name, "Main");
    assert_eq!(sections[0].color_hex, "#112233");
    assert_eq!(sections[0].agents.iter().map(|a| a.id).collect::<Vec<_>>(), vec![1, 2, 4]);
    assert!(sections[1].agents.is_empty());
    assert!(sections[2].agents.is_empty());
}

#[test]
fn a_card_shows_one_avatar_character_and_the_recorded_stat() {
    let diff_stats = BTreeMap::from([(1u128, Some(stats(5))), (2u128, None)]);
    let sections = dashboard_workspaces(&workspaces(), &agents(), &diff_stats, DashboardSort::Manual);
    let cards = &sections[0].agents;

    assert_eq!(cards[0].avatar, "🦊");
    assert_eq!(cards[0].git_stats, Some(stats(5)));
    assert_eq!(cards[0].folder_name, "zed");
    assert_eq!(cards[0].header_title, "zed title");
    assert_eq!(cards[1].avatar, "🤖", "no avatar shows the default");
    assert_eq!(cards[1].git_stats, None, "not a repository");
    assert_eq!(cards[2].git_stats, None, "nothing recorded yet");
}

#[test]
fn cards_are_drawn_in_the_chosen_order() {
    let diff_stats = BTreeMap::new();
    let by_name = dashboard_workspaces(&workspaces(), &agents(), &diff_stats, DashboardSort::Name);
    assert_eq!(by_name[0].agents.iter().map(|a| a.id).collect::<Vec<_>>(), vec![2, 4, 1]);

    let by_status = dashboard_workspaces(&workspaces(), &agents(), &diff_stats, DashboardSort::Status);
    assert_eq!(by_status[0].agents.iter().map(|a| a.id).collect::<Vec<_>>(), vec![2, 4, 1]);
}

#[test]
fn the_add_agent_tile_prefills_the_first_folder_and_inserts_after_the_last() {
    assert_eq!(add_agent_prefill(&workspaces(), &agents(), 10), (Some("/work/zed".to_string()), Some(4)));
    assert_eq!(add_agent_prefill(&workspaces(), &agents(), 20), (None, None));
    assert_eq!(add_agent_prefill(&workspaces(), &agents(), 30), (None, Some(98)));
    assert_eq!(add_agent_prefill(&workspaces(), &agents(), 77), (None, None));
}

#[test]
fn a_tapped_card_opens_the_workspace_that_lists_it() {
    assert_eq!(workspace_of_agent(&workspaces(), 4), Some(10));
    assert_eq!(workspace_of_agent(&workspaces(), 98), Some(30));
    assert_eq!(workspace_of_agent(&workspaces(), 5), None);
}

#[test]
fn the_sidebar_lists_every_workspace_and_the_current_ones_agents() {
    let unread = BTreeMap::from([(2u128, 3usize)]);
    let model = layout_model(&workspaces(), &agents(), Some(10), Some(2), &[4], &unread);

    assert_eq!(model.workspace_rows.iter().map(|w| (w.id, w.selected)).collect::<Vec<_>>(),
               vec![(10, true), (20, false), (30, false)]);
    let rows = &model.selected_agent_rows;
    assert_eq!(rows.iter().map(|r| r.id).collect::<Vec<_>>(), vec![1, 3, 2, 4]);
    assert!(rows[2].selected && !rows[0].selected);
    assert!(rows[3].attached && !rows[2].attached);
    assert_eq!(rows[2].unread_count, 3);
    assert_eq!(rows[0].unread_count, 0);
    assert_eq!(rows[1].avatar, "🔧");
}

#[test]
fn without_a_current_workspace_the_sidebar_lists_no_agents() {
    let model = layout_model(&workspaces(), &agents(), None, None, &[], &BTreeMap::new());
    assert!(model.selected_agent_rows.is_empty());
    assert!(model.workspace_rows.iter().all(|w| !w.selected));

    let unknown = layout_model(&workspaces(), &agents(), Some(77), None, &[], &BTreeMap::new());
    assert!(unknown.selected_agent_rows.is_empty());
}
