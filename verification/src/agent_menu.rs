//! The agent-row context menu and the agent list's background menu: which
//! entries they hold, in what order, and which apply.

use vstd::prelude::*;

verus! {

/// One entry in an agent row's context menu (and the menu bar's Agents
/// menu), or the divider between groups.
#[derive(Debug, Clone, Copy, PartialEq, Eq, Structural)]
pub enum AgentMenuEntry {
    Separator,
    NewCompanion,
    NewShellCompanion,
    EditAgent,
    ForkAgent,
    DuplicateAgent,
    MoveToWorkspace,
    SaveToBench,
    OpenIn,
    MarkdownFiles,
    RegisterAgent,
    Deactivate,
    RestartAgent,
    RemoveAgent,
}

impl AgentMenuEntry {
    /// Every variant, in the order they appear in a full menu.
    pub const ALL: [AgentMenuEntry; 14] = [
        AgentMenuEntry::Separator,
        AgentMenuEntry::NewCompanion,
        AgentMenuEntry::NewShellCompanion,
        AgentMenuEntry::EditAgent,
        AgentMenuEntry::ForkAgent,
        AgentMenuEntry::DuplicateAgent,
        AgentMenuEntry::MoveToWorkspace,
        AgentMenuEntry::SaveToBench,
        AgentMenuEntry::OpenIn,
        AgentMenuEntry::MarkdownFiles,
        AgentMenuEntry::RegisterAgent,
        AgentMenuEntry::Deactivate,
        AgentMenuEntry::RestartAgent,
        AgentMenuEntry::RemoveAgent,
    ];

    /// The user-visible label, or `None` for a separator.
    pub fn label(self) -> (r: Option<&'static str>)
        ensures
            r == match self {
                AgentMenuEntry::Separator => None,
                AgentMenuEntry::NewCompanion => Some("New Companion…"),
                AgentMenuEntry::NewShellCompanion => Some("New Shell Companion"),
                AgentMenuEntry::EditAgent => Some("Edit Agent…"),
                AgentMenuEntry::ForkAgent => Some("Fork Agent"),
                AgentMenuEntry::DuplicateAgent => Some("Duplicate Agent"),
                AgentMenuEntry::MoveToWorkspace => Some("Move to Workspace"),
                AgentMenuEntry::SaveToBench => Some("Save to Bench"),
                AgentMenuEntry::OpenIn => Some("Open In…"),
                AgentMenuEntry::MarkdownFiles => Some("Markdown Files"),
                AgentMenuEntry::RegisterAgent => Some("Register Agent"),
                AgentMenuEntry::Deactivate => Some("Deactivate"),
                AgentMenuEntry::RestartAgent => Some("Restart Agent"),
                AgentMenuEntry::RemoveAgent => Some("Remove Agent"),
            },
    {
        match self {
            AgentMenuEntry::Separator => None,
            AgentMenuEntry::NewCompanion => Some("New Companion…"),
            AgentMenuEntry::NewShellCompanion => Some("New Shell Companion"),
            AgentMenuEntry::EditAgent => Some("Edit Agent…"),
            AgentMenuEntry::ForkAgent => Some("Fork Agent"),
            AgentMenuEntry::DuplicateAgent => Some("Duplicate Agent"),
            AgentMenuEntry::MoveToWorkspace => Some("Move to Workspace"),
            AgentMenuEntry::SaveToBench => Some("Save to Bench"),
            AgentMenuEntry::OpenIn => Some("Open In…"),
            AgentMenuEntry::MarkdownFiles => Some("Markdown Files"),
            AgentMenuEntry::RegisterAgent => Some("Register Agent"),
            AgentMenuEntry::Deactivate => Some("Deactivate"),
            AgentMenuEntry::RestartAgent => Some("Restart Agent"),
            AgentMenuEntry::RemoveAgent => Some("Remove Agent"),
        }
    }
}

/// What the context menu needs to know about the row it was opened on.
#[derive(Debug, Clone, Copy, PartialEq, Eq, Default, Structural)]
pub struct AgentMenuFacts {
    /// A companion can't own companions, be forked, duplicated, moved or
    /// restarted independently of its owner.
    pub is_companion: bool,
    /// A shell agent has no coding agent to register with MCP.
    pub is_shell: bool,
    /// Whether any attached workspace other than this agent's own exists.
    pub has_move_targets: bool,
    /// Whether the agent has ever shown a markdown file.
    pub has_markdown_history: bool,
    /// Whether the agent is running, i.e. has a session to stop.
    pub is_running: bool,
}

/// The facts of an agent every item applies to.
pub open spec fn every_item_facts() -> AgentMenuFacts {
    AgentMenuFacts {
        is_companion: false,
        is_shell: false,
        has_move_targets: true,
        has_markdown_history: true,
        is_running: true,
    }
}

impl AgentMenuFacts {
    /// The facts of an agent every item applies to, which the menu bar's
    /// Agents menu is built from.
    pub fn every_item() -> (f: AgentMenuFacts)
        ensures
            f == every_item_facts(),
    {
        AgentMenuFacts {
            is_companion: false,
            is_shell: false,
            has_move_targets: true,
            has_markdown_history: true,
            is_running: true,
        }
    }
}

/// `s` when `keep`, else nothing.
pub open spec fn only_if(keep: bool, s: Seq<AgentMenuEntry>) -> Seq<AgentMenuEntry> {
    if keep {
        s
    } else {
        Seq::empty()
    }
}

/// The menu's groups, each holding what applies to the row.
pub open spec fn menu_groups(f: AgentMenuFacts) -> Seq<Seq<AgentMenuEntry>> {
    let owner = !f.is_companion;
    seq![
        only_if(owner, seq![AgentMenuEntry::NewCompanion, AgentMenuEntry::NewShellCompanion]),
        seq![AgentMenuEntry::EditAgent] + only_if(owner, seq![AgentMenuEntry::ForkAgent, AgentMenuEntry::DuplicateAgent]),
        only_if(owner && f.has_move_targets, seq![AgentMenuEntry::MoveToWorkspace]) + only_if(owner, seq![AgentMenuEntry::SaveToBench]),
        seq![AgentMenuEntry::OpenIn] + only_if(f.has_markdown_history, seq![AgentMenuEntry::MarkdownFiles]),
        only_if(!f.is_shell, seq![AgentMenuEntry::RegisterAgent]) + only_if(f.is_running, seq![AgentMenuEntry::Deactivate])
            + only_if(owner, seq![AgentMenuEntry::RestartAgent]) + seq![AgentMenuEntry::RemoveAgent],
    ]
}

/// The groups in order, with a divider between each two non-empty ones.
pub open spec fn joined(gs: Seq<Seq<AgentMenuEntry>>) -> Seq<AgentMenuEntry>
    decreases gs.len(),
{
    if gs.len() == 0 {
        Seq::empty()
    } else {
        let prev = joined(gs.drop_last());
        let g = gs.last();
        if g.len() == 0 {
            prev
        } else if prev.len() == 0 {
            g
        } else {
            prev + seq![AgentMenuEntry::Separator] + g
        }
    }
}

/// No leading, trailing or doubled divider.
pub open spec fn well_divided(s: Seq<AgentMenuEntry>) -> bool {
    &&& (s.len() > 0 ==> s[0] != AgentMenuEntry::Separator && s.last() != AgentMenuEntry::Separator)
    &&& forall|i: int, j: int|
        0 <= i && j == i + 1 && j < s.len() ==> !(#[trigger] s[i] == AgentMenuEntry::Separator
            && #[trigger] s[j] == AgentMenuEntry::Separator)
}

/// `g` holds no divider.
pub open spec fn free_of_dividers(g: Seq<AgentMenuEntry>) -> bool {
    forall|j: int| 0 <= j < g.len() ==> #[trigger] g[j] != AgentMenuEntry::Separator
}

/// A well-divided run, a divider and a non-empty group free of dividers
/// make a well-divided run.
proof fn lemma_divided_append(prev: Seq<AgentMenuEntry>, g: Seq<AgentMenuEntry>)
    requires
        well_divided(prev),
        prev.len() > 0,
        g.len() > 0,
        free_of_dividers(g),
    ensures
        well_divided(prev + seq![AgentMenuEntry::Separator] + g),
{
    let s = prev + seq![AgentMenuEntry::Separator] + g;
    let n = prev.len() as int;
    assert forall|i: int, j: int| 0 <= i && j == i + 1 && j < s.len() implies !(#[trigger] s[i]
        == AgentMenuEntry::Separator && #[trigger] s[j] == AgentMenuEntry::Separator) by {
        if i < n - 1 {
            assert(s[i] == prev[i] && s[j] == prev[j]);
        } else if i == n - 1 {
            assert(s[i] == prev[n - 1]);
        } else if i == n {
            assert(s[j] == g[0]);
        } else {
            assert(s[i] == g[i - n - 1]);
        }
    }
    assert(s[0] == prev[0]);
    assert(s.last() == g[g.len() - 1]);
}

/// Joining groups that hold no divider leaves none leading, trailing or
/// doubled.
proof fn lemma_joined_well_divided(gs: Seq<Seq<AgentMenuEntry>>)
    requires
        forall|i: int| 0 <= i < gs.len() ==> free_of_dividers(#[trigger] gs[i]),
    ensures
        well_divided(joined(gs)),
    decreases gs.len(),
{
    if gs.len() > 0 {
        let rest = gs.drop_last();
        assert forall|i: int| 0 <= i < rest.len() implies free_of_dividers(#[trigger] rest[i]) by {
            assert(rest[i] == gs[i]);
        }
        lemma_joined_well_divided(rest);
        let prev = joined(rest);
        let g = gs.last();
        assert(free_of_dividers(gs[gs.len() - 1]));
        if g.len() > 0 && prev.len() > 0 {
            lemma_divided_append(prev, g);
        } else if g.len() > 0 {
            assert(g[0] != AgentMenuEntry::Separator);
            assert(g[g.len() - 1] != AgentMenuEntry::Separator);
        }
    }
}

/// Whether `entry` applies to an agent with these facts: a companion can't
/// own companions, be forked, duplicated, moved, saved to the bench or
/// restarted on its own; moving needs another workspace to go to; markdown
/// files need a history of them; registering needs a coding agent (not a
/// shell); deactivating needs a running session to stop. Editing, opening
/// and removing always apply.
pub open spec fn applies_to(entry: AgentMenuEntry, f: AgentMenuFacts) -> bool {
    match entry {
        AgentMenuEntry::Separator => false,
        AgentMenuEntry::NewCompanion => !f.is_companion,
        AgentMenuEntry::NewShellCompanion => !f.is_companion,
        AgentMenuEntry::EditAgent => true,
        AgentMenuEntry::ForkAgent => !f.is_companion,
        AgentMenuEntry::DuplicateAgent => !f.is_companion,
        AgentMenuEntry::MoveToWorkspace => !f.is_companion && f.has_move_targets,
        AgentMenuEntry::SaveToBench => !f.is_companion,
        AgentMenuEntry::OpenIn => true,
        AgentMenuEntry::MarkdownFiles => f.has_markdown_history,
        AgentMenuEntry::RegisterAgent => !f.is_shell,
        AgentMenuEntry::Deactivate => f.is_running,
        AgentMenuEntry::RestartAgent => !f.is_companion,
        AgentMenuEntry::RemoveAgent => true,
    }
}

/// An item is in the joined groups exactly when one of the groups holds it.
proof fn lemma_joined_contains(gs: Seq<Seq<AgentMenuEntry>>, e: AgentMenuEntry)
    requires
        e != AgentMenuEntry::Separator,
    ensures
        joined(gs).contains(e) <==> exists|i: int| 0 <= i < gs.len() && #[trigger] gs[i].contains(e),
    decreases gs.len(),
{
    broadcast use vstd::seq_lib::lemma_seq_concat_contains_all_elements;

    if gs.len() > 0 {
        let rest = gs.drop_last();
        lemma_joined_contains(rest, e);
        let g = gs.last();
        if exists|i: int| 0 <= i < rest.len() && #[trigger] rest[i].contains(e) {
            let i = choose|i: int| 0 <= i < rest.len() && #[trigger] rest[i].contains(e);
            assert(gs[i] == rest[i]);
        }
        if exists|i: int| 0 <= i < gs.len() && #[trigger] gs[i].contains(e) {
            let i = choose|i: int| 0 <= i < gs.len() && #[trigger] gs[i].contains(e);
            if i < rest.len() {
                assert(rest[i] == gs[i]);
            } else {
                assert(gs[i] == g);
            }
        }
        if g.len() > 0 && joined(rest).len() > 0 {
            assert(!seq![AgentMenuEntry::Separator].contains(e)) by {
                if seq![AgentMenuEntry::Separator].contains(e) {
                    let k = choose|k: int| 0 <= k < 1 && seq![AgentMenuEntry::Separator][k] == e;
                }
            }
        }
        assert(gs[gs.len() - 1] == g);
    }
}

/// The context menu offers an item exactly when it applies to the row's
/// agent: no item is offered that the agent cannot act on, and none that
/// applies is left out.
pub proof fn lemma_menu_offers_what_applies(f: AgentMenuFacts, e: AgentMenuEntry)
    requires
        e != AgentMenuEntry::Separator,
    ensures
        joined(menu_groups(f)).contains(e) <==> applies_to(e, f),
{
    broadcast use vstd::seq_lib::lemma_seq_concat_contains_all_elements;

    let gs = menu_groups(f);
    lemma_joined_contains(gs, e);
    lemma_holds_two(AgentMenuEntry::NewCompanion, AgentMenuEntry::NewShellCompanion, e);
    lemma_holds_two(AgentMenuEntry::ForkAgent, AgentMenuEntry::DuplicateAgent, e);
    lemma_holds_one(AgentMenuEntry::EditAgent, e);
    lemma_holds_one(AgentMenuEntry::MoveToWorkspace, e);
    lemma_holds_one(AgentMenuEntry::SaveToBench, e);
    lemma_holds_one(AgentMenuEntry::OpenIn, e);
    lemma_holds_one(AgentMenuEntry::MarkdownFiles, e);
    lemma_holds_one(AgentMenuEntry::RegisterAgent, e);
    lemma_holds_one(AgentMenuEntry::Deactivate, e);
    lemma_holds_one(AgentMenuEntry::RestartAgent, e);
    lemma_holds_one(AgentMenuEntry::RemoveAgent, e);
    assert(gs[0].contains(e) == ((e == AgentMenuEntry::NewCompanion || e == AgentMenuEntry::NewShellCompanion)
        && !f.is_companion));
    assert(gs[1].contains(e) == (e == AgentMenuEntry::EditAgent || ((e == AgentMenuEntry::ForkAgent || e
        == AgentMenuEntry::DuplicateAgent) && !f.is_companion)));
    assert(gs[2].contains(e) == ((e == AgentMenuEntry::MoveToWorkspace && !f.is_companion && f.has_move_targets) || (e
        == AgentMenuEntry::SaveToBench && !f.is_companion)));
    assert(gs[3].contains(e) == (e == AgentMenuEntry::OpenIn || (e == AgentMenuEntry::MarkdownFiles
        && f.has_markdown_history)));
    assert(gs[4].contains(e) == ((e == AgentMenuEntry::RegisterAgent && !f.is_shell) || (e == AgentMenuEntry::Deactivate
        && f.is_running) || (e == AgentMenuEntry::RestartAgent && !f.is_companion) || e == AgentMenuEntry::RemoveAgent));
    assert(gs.len() == 5);
    if applies_to(e, f) {
        let i: int = match e {
            AgentMenuEntry::NewCompanion | AgentMenuEntry::NewShellCompanion => 0,
            AgentMenuEntry::EditAgent | AgentMenuEntry::ForkAgent | AgentMenuEntry::DuplicateAgent => 1,
            AgentMenuEntry::MoveToWorkspace | AgentMenuEntry::SaveToBench => 2,
            AgentMenuEntry::OpenIn | AgentMenuEntry::MarkdownFiles => 3,
            _ => 4,
        };
        assert(gs[i].contains(e));
    }
}

/// What a one-item list holds.
proof fn lemma_holds_one(a: AgentMenuEntry, e: AgentMenuEntry)
    ensures
        seq![a].contains(e) <==> e == a,
{
    if e == a {
        assert(seq![a][0] == e);
    }
}

/// What a two-item list holds.
proof fn lemma_holds_two(a: AgentMenuEntry, b: AgentMenuEntry, e: AgentMenuEntry)
    ensures
        seq![a, b].contains(e) <==> (e == a || e == b),
{
    if e == a {
        assert(seq![a, b][0] == e);
    }
    if e == b {
        assert(seq![a, b][1] == e);
    }
}

/// Appends `entry` to `group` when `keep`.
fn push_if(group: &mut Vec<AgentMenuEntry>, keep: bool, entry: AgentMenuEntry)
    ensures
        final(group)@ == old(group)@ + only_if(keep, seq![entry]),
{
    if keep {
        group.push(entry);
        proof {
            assert(final(group)@ =~= old(group)@ + seq![entry]);
        }
    } else {
        proof {
            assert(old(group)@ + Seq::<AgentMenuEntry>::empty() =~= old(group)@);
        }
    }
}

/// The agent-row context menu's entries, in order, with dividers between
/// non-empty groups only: a row whose whole group is hidden leaves no
/// doubled or leading divider behind.
pub fn agent_context_menu_entries(facts: AgentMenuFacts) -> (r: Vec<AgentMenuEntry>)
    ensures
        r@ == joined(menu_groups(facts)),
        well_divided(r@),
        forall|e: AgentMenuEntry| e != AgentMenuEntry::Separator ==> (#[trigger] r@.contains(e) <==> applies_to(e, facts)),
{
    let owner = !facts.is_companion;
    let mut g0: Vec<AgentMenuEntry> = Vec::new();
    push_if(&mut g0, owner, AgentMenuEntry::NewCompanion);
    push_if(&mut g0, owner, AgentMenuEntry::NewShellCompanion);
    let mut g1: Vec<AgentMenuEntry> = Vec::new();
    g1.push(AgentMenuEntry::EditAgent);
    push_if(&mut g1, owner, AgentMenuEntry::ForkAgent);
    push_if(&mut g1, owner, AgentMenuEntry::DuplicateAgent);
    let mut g2: Vec<AgentMenuEntry> = Vec::new();
    push_if(&mut g2, owner && facts.has_move_targets, AgentMenuEntry::MoveToWorkspace);
    push_if(&mut g2, owner, AgentMenuEntry::SaveToBench);
    let mut g3: Vec<AgentMenuEntry> = Vec::new();
    g3.push(AgentMenuEntry::OpenIn);
    push_if(&mut g3, facts.has_markdown_history, AgentMenuEntry::MarkdownFiles);
    let mut g4: Vec<AgentMenuEntry> = Vec::new();
    push_if(&mut g4, !facts.is_shell, AgentMenuEntry::RegisterAgent);
    push_if(&mut g4, facts.is_running, AgentMenuEntry::Deactivate);
    push_if(&mut g4, owner, AgentMenuEntry::RestartAgent);
    g4.push(AgentMenuEntry::RemoveAgent);
    let ghost gs = menu_groups(facts);
    proof {
        assert(g0@ =~= gs[0]);
        assert(g1@ =~= gs[1]);
        assert(g2@ =~= gs[2]);
        assert(g3@ =~= gs[3]);
        assert(g4@ =~= gs[4]);
    }
    let mut groups: Vec<Vec<AgentMenuEntry>> = Vec::new();
    groups.push(g0);
    groups.push(g1);
    groups.push(g2);
    groups.push(g3);
    groups.push(g4);
    let mut entries: Vec<AgentMenuEntry> = Vec::new();
    let mut k: usize = 0;
    while k < groups.len()
        invariant
            k <= groups@.len(),
            groups@.len() == 5,
            forall|i: int| 0 <= i < 5 ==> #[trigger] groups@[i]@ == gs[i],
            gs.len() == 5,
            entries@ == joined(gs.take(k as int)),
        decreases groups@.len() - k,
    {
        let group = &groups[k];
        proof {
            assert(gs.take(k + 1).drop_last() =~= gs.take(k as int));
            assert(gs.take(k + 1).last() == gs[k as int]);
        }
        if group.len() > 0 {
            let ghost before = entries@;
            if entries.len() > 0 {
                entries.push(AgentMenuEntry::Separator);
            }
            let mut j: usize = 0;
            let ghost mid = entries@;
            while j < group.len()
                invariant
                    j <= group@.len(),
                    entries@ == mid + group@.take(j as int),
                decreases group@.len() - j,
            {
                entries.push(group[j]);
                proof {
                    assert(group@.take(j + 1) =~= group@.take(j as int).push(group@[j as int]));
                }
                j = j + 1;
            }
            proof {
                assert(group@.take(group@.len() as int) =~= group@);
                if before.len() > 0 {
                    assert(entries@ =~= before + seq![AgentMenuEntry::Separator] + group@);
                } else {
                    assert(entries@ =~= group@);
                }
            }
        }
        k = k + 1;
    }
    proof {
        assert(gs.take(5) =~= gs);
        assert forall|i: int| 0 <= i < gs.len() implies free_of_dividers(#[trigger] gs[i]) by {
            assert forall|j: int| 0 <= j < gs[i].len() implies #[trigger] gs[i][j] != AgentMenuEntry::Separator by {
                if i == 1 {
                    assert(gs[1] =~= seq![AgentMenuEntry::EditAgent] + only_if(owner, seq![AgentMenuEntry::ForkAgent, AgentMenuEntry::DuplicateAgent]));
                }
            }
        }
        lemma_joined_well_divided(gs);
        assert forall|e: AgentMenuEntry| e != AgentMenuEntry::Separator implies (#[trigger] entries@.contains(e)
            <==> applies_to(e, facts)) by {
            lemma_menu_offers_what_applies(facts, e);
        }
    }
    entries
}

/// One item of the menu bar's Agents menu.
#[derive(Debug, Clone, Copy, PartialEq, Eq, Structural)]
pub enum AgentsMenuItem {
    Separator,
    /// An item that dispatches its entry's action; the platform greys it
    /// out when the selected agent has no handler for it.
    Action(AgentMenuEntry),
    /// One of the three submenus. A submenu's parent carries no action, so
    /// its state is decided here, from what applies to the selected agent.
    Submenu { entry: AgentMenuEntry, disabled: bool },
}

/// Whether `entry` heads a submenu rather than dispatching an action.
pub open spec fn is_submenu(entry: AgentMenuEntry) -> bool {
    entry == AgentMenuEntry::MoveToWorkspace || entry == AgentMenuEntry::OpenIn || entry
        == AgentMenuEntry::MarkdownFiles
}

/// The Agents menu's item for `entry`, given the entries that apply to the
/// selected agent.
pub open spec fn menu_item_for(entry: AgentMenuEntry, applicable: Seq<AgentMenuEntry>) -> AgentsMenuItem {
    if entry == AgentMenuEntry::Separator {
        AgentsMenuItem::Separator
    } else if is_submenu(entry) {
        AgentsMenuItem::Submenu { entry, disabled: !applicable.contains(entry) }
    } else {
        AgentsMenuItem::Action(entry)
    }
}

fn applies(applicable: &[AgentMenuEntry], entry: AgentMenuEntry) -> (r: bool)
    ensures
        r == applicable@.contains(entry),
{
    let mut i: usize = 0;
    while i < applicable.len()
        invariant
            i <= applicable@.len(),
            forall|j: int| 0 <= j < i ==> applicable@[j] != entry,
        decreases applicable@.len() - i,
    {
        if applicable[i] == entry {
            return true;
        }
        i = i + 1;
    }
    false
}

/// The menu bar's Agents menu: every item the context menu can offer, in
/// the context menu's order and grouping (it is built from the same list,
/// with the facts of an agent every item applies to), so it keeps its shape
/// whatever is selected. `applicable` holds the entries that apply to the
/// selected agent (none when no agent is selected); a submenu that is not
/// among them is disabled but keeps its place.
pub fn agents_menu_items(applicable: &[AgentMenuEntry]) -> (r: Vec<AgentsMenuItem>)
    ensures
        r@.len() == joined(menu_groups(every_item_facts())).len(),
        forall|i: int|
            0 <= i < r@.len() ==> #[trigger] r@[i] == menu_item_for(
                joined(menu_groups(every_item_facts()))[i],
                applicable@,
            ),
{
    let entries = agent_context_menu_entries(AgentMenuFacts::every_item());
    let mut out: Vec<AgentsMenuItem> = Vec::new();
    let mut i: usize = 0;
    while i < entries.len()
        invariant
            i <= entries@.len(),
            entries@ == joined(menu_groups(every_item_facts())),
            out@.len() == i,
            forall|k: int| 0 <= k < i ==> #[trigger] out@[k] == menu_item_for(entries@[k], applicable@),
        decreases entries@.len() - i,
    {
        let entry = entries[i];
        let item = match entry {
            AgentMenuEntry::Separator => AgentsMenuItem::Separator,
            AgentMenuEntry::MoveToWorkspace | AgentMenuEntry::OpenIn | AgentMenuEntry::MarkdownFiles => {
                AgentsMenuItem::Submenu { entry, disabled: !applies(applicable, entry) }
            },
            _ => AgentsMenuItem::Action(entry),
        };
        out.push(item);
        i = i + 1;
    }
    out
}

/// One entry in the agent list's background menu, scoped to the workspace
/// rather than to any one agent.
#[derive(Debug, Clone, Copy, PartialEq, Eq, Structural)]
pub enum AgentListBackgroundEntry {
    Separator,
    NewAgent,
    RestartAll,
    CloseAll,
    DeactivateAll,
    Broadcast,
}

impl AgentListBackgroundEntry {
    /// The user-visible label, or `None` for a separator.
    pub fn label(self) -> (r: Option<&'static str>)
        ensures
            r == match self {
                AgentListBackgroundEntry::Separator => None,
                AgentListBackgroundEntry::NewAgent => Some("New Agent"),
                AgentListBackgroundEntry::RestartAll => Some("Restart All"),
                AgentListBackgroundEntry::CloseAll => Some("Close All"),
                AgentListBackgroundEntry::DeactivateAll => Some("Deactivate All"),
                AgentListBackgroundEntry::Broadcast => Some("Broadcast to All Agents…"),
            },
    {
        match self {
            AgentListBackgroundEntry::Separator => None,
            AgentListBackgroundEntry::NewAgent => Some("New Agent"),
            AgentListBackgroundEntry::RestartAll => Some("Restart All"),
            AgentListBackgroundEntry::CloseAll => Some("Close All"),
            AgentListBackgroundEntry::DeactivateAll => Some("Deactivate All"),
            AgentListBackgroundEntry::Broadcast => Some("Broadcast to All Agents…"),
        }
    }
}

/// What the background menu needs to know about the workspace it opened
/// over.
#[derive(Debug, Clone, Copy, PartialEq, Eq, Default, Structural)]
pub struct SidebarMenuFacts {
    /// Agents in the workspace the sidebar is showing.
    pub agent_count: usize,
    /// How many of those are running.
    pub running_count: usize,
}

/// One item of the background menu: the entry and whether it applies.
#[derive(Debug, Clone, Copy, PartialEq, Eq, Structural)]
pub struct SidebarMenuItem {
    pub entry: AgentListBackgroundEntry,
    pub enabled: bool,
}

/// The background menu: every entry every time, in one order, the ones
/// that do not apply disabled. Restart All, Close All and Broadcast need
/// an agent; Deactivate All needs a running one.
pub fn sidebar_background_menu_entries(facts: SidebarMenuFacts) -> (r: Vec<SidebarMenuItem>)
    ensures
        r@ == seq![
            SidebarMenuItem { entry: AgentListBackgroundEntry::NewAgent, enabled: true },
            SidebarMenuItem { entry: AgentListBackgroundEntry::RestartAll, enabled: facts.agent_count > 0 },
            SidebarMenuItem { entry: AgentListBackgroundEntry::CloseAll, enabled: facts.agent_count > 0 },
            SidebarMenuItem { entry: AgentListBackgroundEntry::DeactivateAll, enabled: facts.running_count > 0 },
            SidebarMenuItem { entry: AgentListBackgroundEntry::Separator, enabled: false },
            SidebarMenuItem { entry: AgentListBackgroundEntry::Broadcast, enabled: facts.agent_count > 0 },
        ],
{
    let has_agents = facts.agent_count > 0;
    let has_running = facts.running_count > 0;
    let mut r: Vec<SidebarMenuItem> = Vec::new();
    r.push(SidebarMenuItem { entry: AgentListBackgroundEntry::NewAgent, enabled: true });
    r.push(SidebarMenuItem { entry: AgentListBackgroundEntry::RestartAll, enabled: has_agents });
    r.push(SidebarMenuItem { entry: AgentListBackgroundEntry::CloseAll, enabled: has_agents });
    r.push(SidebarMenuItem { entry: AgentListBackgroundEntry::DeactivateAll, enabled: has_running });
    r.push(SidebarMenuItem { entry: AgentListBackgroundEntry::Separator, enabled: false });
    r.push(SidebarMenuItem { entry: AgentListBackgroundEntry::Broadcast, enabled: has_agents });
    proof {
        assert(r@ =~= seq![
            SidebarMenuItem { entry: AgentListBackgroundEntry::NewAgent, enabled: true },
            SidebarMenuItem { entry: AgentListBackgroundEntry::RestartAll, enabled: facts.agent_count > 0 },
            SidebarMenuItem { entry: AgentListBackgroundEntry::CloseAll, enabled: facts.agent_count > 0 },
            SidebarMenuItem { entry: AgentListBackgroundEntry::DeactivateAll, enabled: facts.running_count > 0 },
            SidebarMenuItem { entry: AgentListBackgroundEntry::Separator, enabled: false },
            SidebarMenuItem { entry: AgentListBackgroundEntry::Broadcast, enabled: facts.agent_count > 0 },
        ]);
    }
    r
}

} // verus!
