use knot::agent_menu::agents_menu_items;
use knot::agent_menu::AgentsMenuItem;
use knot::agent_menu::agent_context_menu_entries;
use knot::agent_menu::sidebar_background_menu_entries;
use knot::agent_menu::AgentListBackgroundEntry;
use knot::agent_menu::AgentMenuEntry;
use knot::agent_menu::AgentMenuFacts;
use knot::agent_menu::SidebarMenuFacts;
use knot::agent_menu::SidebarMenuItem;
use knot::paths::markdown_label;


fn well_divided(entries: &[AgentMenuEntry]) -> bool {
    entries.first() != Some(&AgentMenuEntry::Separator)
        && entries.last() != Some(&AgentMenuEntry::Separator)
        && !entries.windows(2).any(|w| w[0] == AgentMenuEntry::Separator && w[1] == AgentMenuEntry::Separator)
}

#[test]
fn an_agent_every_item_applies_to_gets_the_full_menu() {
    let entries = agent_context_menu_entries(AgentMenuFacts::every_item());
    assert_eq!(entries,
               vec![AgentMenuEntry::NewCompanion, AgentMenuEntry::NewShellCompanion, AgentMenuEntry::Separator,
                    AgentMenuEntry::EditAgent, AgentMenuEntry::ForkAgent, AgentMenuEntry::DuplicateAgent, AgentMenuEntry::Separator,
                    AgentMenuEntry::MoveToWorkspace, AgentMenuEntry::SaveToBench, AgentMenuEntry::Separator,
                    AgentMenuEntry::OpenIn, AgentMenuEntry::MarkdownFiles, AgentMenuEntry::Separator,
                    AgentMenuEntry::RegisterAgent, AgentMenuEntry::Deactivate, AgentMenuEntry::RestartAgent, AgentMenuEntry::RemoveAgent]);
}

#[test]
fn a_companion_loses_the_owner_only_entries_and_their_dividers() {
    let facts = AgentMenuFacts { is_companion: true, is_shell: true, has_move_targets: true,
                                 has_markdown_history: false, is_running: false };
    assert_eq!(agent_context_menu_entries(facts),
               vec![AgentMenuEntry::EditAgent, AgentMenuEntry::Separator, AgentMenuEntry::OpenIn, AgentMenuEntry::Separator, AgentMenuEntry::RemoveAgent]);
}

#[test]
fn no_combination_of_facts_leaves_a_stray_divider() {
    for bits in 0..32u32 {
        let facts = AgentMenuFacts { is_companion: bits & 1 != 0,
                                     is_shell: bits & 2 != 0,
                                     has_move_targets: bits & 4 != 0,
                                     has_markdown_history: bits & 8 != 0,
                                     is_running: bits & 16 != 0 };
        let entries = agent_context_menu_entries(facts);
        assert!(well_divided(&entries), "{facts:?} gave {entries:?}");
        assert_eq!(entries.last(), Some(&AgentMenuEntry::RemoveAgent));
    }
}

#[test]
fn every_menu_entry_but_the_divider_has_a_label() {
    for entry in AgentMenuEntry::ALL {
        assert_eq!(entry.label().is_none(), entry == AgentMenuEntry::Separator, "{entry:?}");
    }
    assert_eq!(AgentMenuEntry::NewCompanion.label(), Some("New Companion…"));
    assert_eq!(AgentMenuEntry::RemoveAgent.label(), Some("Remove Agent"));
}

#[test]
fn the_background_menu_disables_what_needs_an_agent() {
    let items = sidebar_background_menu_entries(SidebarMenuFacts { agent_count: 0, running_count: 0 });
    let enabled: Vec<bool> = items.iter().map(|i| i.enabled).collect();
    assert_eq!(enabled, vec![true, false, false, false, false, false]);
    assert_eq!(items[5],
               SidebarMenuItem { entry: AgentListBackgroundEntry::Broadcast, enabled: false });
}

#[test]
fn deactivate_all_needs_a_running_agent() {
    let idle = sidebar_background_menu_entries(SidebarMenuFacts { agent_count: 2, running_count: 0 });
    assert_eq!(idle[3], SidebarMenuItem { entry: AgentListBackgroundEntry::DeactivateAll, enabled: false });
    assert!(idle[1].enabled && idle[2].enabled && idle[5].enabled);
    let busy = sidebar_background_menu_entries(SidebarMenuFacts { agent_count: 2, running_count: 1 });
    assert!(busy[3].enabled);
    assert_eq!(AgentListBackgroundEntry::Broadcast.label(), Some("Broadcast to All Agents…"));
}

#[test]
fn a_markdown_file_is_labelled_by_its_name() {
    assert_eq!(markdown_label("/repo/docs/guide.md"), "guide.md");
    assert_eq!(markdown_label("notes.md"), "notes.md");
    assert_eq!(markdown_label("/"), "/");
}

#[test]
fn the_menu_bar_offers_every_item_in_the_context_menus_order() {
    let full = agent_context_menu_entries(AgentMenuFacts::every_item());
    let items = agents_menu_items(&[]);

    assert_eq!(items.len(), full.len());
    for (item, entry) in items.iter().zip(&full) {
        match item {
            AgentsMenuItem::Separator => assert_eq!(*entry, AgentMenuEntry::Separator),
            AgentsMenuItem::Action(e) => assert_eq!(e, entry),
            AgentsMenuItem::Submenu { entry: e, .. } => assert_eq!(e, entry),
        }
    }
}

#[test]
fn a_submenu_is_disabled_unless_it_applies_to_the_selected_agent() {
    let none = agents_menu_items(&[]);
    assert!(none.iter().all(|item| !matches!(item, AgentsMenuItem::Submenu { disabled: false, .. })),
            "with no agent selected every submenu is disabled");
    assert!(none.contains(&AgentsMenuItem::Action(AgentMenuEntry::EditAgent)));

    let some = agents_menu_items(&[AgentMenuEntry::EditAgent, AgentMenuEntry::OpenIn]);
    assert!(some.contains(&AgentsMenuItem::Submenu { entry: AgentMenuEntry::OpenIn, disabled: false }));
    assert!(some.contains(&AgentsMenuItem::Submenu { entry: AgentMenuEntry::MoveToWorkspace, disabled: true }));
    assert!(some.contains(&AgentsMenuItem::Submenu { entry: AgentMenuEntry::MarkdownFiles, disabled: true }));
}
