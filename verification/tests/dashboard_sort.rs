use knot::dashboard::state_label;
use knot::dashboard::AgentState;
use knot::dashboard::DashboardAgent;
use knot::dashboard::DashboardSort;

fn agent(id: u128, name: &str, state: AgentState) -> DashboardAgent {
    DashboardAgent { id,
                     avatar: "🤖".to_owned(),
                     name: name.to_owned(),
                     folder_name: "repo".to_owned(),
                     state,
                     is_shell: false,
                     header_title: String::new(),
                     git_stats: None }
}

fn ids(agents: &[DashboardAgent]) -> Vec<u128> {
    agents.iter().map(|a| a.id).collect()
}

fn fixture() -> Vec<DashboardAgent> {
    vec![agent(1, "beta", AgentState::Idle),
         agent(2, "Alpha", AgentState::Running),
         agent(3, "gamma", AgentState::Error),
         agent(4, "alpha", AgentState::Input),
         agent(5, "Delta", AgentState::Error)]
}

#[test]
fn the_manual_order_is_kept_as_given() {
    assert_eq!(ids(&DashboardSort::Manual.sorted(fixture())), vec![1, 2, 3, 4, 5]);
}

#[test]
fn sorting_by_name_ignores_case_and_keeps_ties_in_order() {
    assert_eq!(ids(&DashboardSort::Name.sorted(fixture())), vec![2, 4, 1, 5, 3]);
}

#[test]
fn sorting_by_status_puts_agents_needing_attention_first() {
    assert_eq!(ids(&DashboardSort::Status.sorted(fixture())), vec![3, 5, 4, 2, 1]);
}

#[test]
fn an_empty_grid_sorts_to_nothing() {
    assert!(DashboardSort::Name.sorted(Vec::new()).is_empty());
}

#[test]
fn the_status_ranks_run_from_error_to_idle() {
    assert_eq!(DashboardSort::status_rank(AgentState::Error), 0);
    assert_eq!(DashboardSort::status_rank(AgentState::Input), 1);
    assert_eq!(DashboardSort::status_rank(AgentState::Running), 2);
    assert_eq!(DashboardSort::status_rank(AgentState::Idle), 3);
}

#[test]
fn each_state_has_its_label() {
    assert_eq!(state_label(AgentState::Idle), "Idle");
    assert_eq!(state_label(AgentState::Running), "Working");
    assert_eq!(state_label(AgentState::Input), "Awaiting input");
    assert_eq!(state_label(AgentState::Error), "Error");
}

#[test]
fn the_grid_starts_in_manual_order_and_each_order_is_named() {
    assert_eq!(DashboardSort::default(), DashboardSort::Manual);
    assert_eq!(DashboardSort::Manual.label_key(), "dashboard.sort.manual");
    assert_eq!(DashboardSort::Name.label_key(), "dashboard.sort.name");
    assert_eq!(DashboardSort::Status.label_key(), "dashboard.sort.status");
}
