//! Decisions the app's state makes: what a typed command sends, which
//! sessions went stale, when an agent is nudged about its inbox, when a
//! desktop notification is due, which agent a workspace opens on, what a
//! delivery notice says, and what the sidebar lists.
//!
//! Agents, sessions and messages are identified by their UUIDs, held here
//! as the 128-bit integers those UUIDs are.

use crate::agent_store::{find_store_agent, find_workspace_index, lists, store_agent, store_workspace, StoreAgent, StoreWorkspace};
use crate::dashboard::AgentState;
use crate::strings::bytes_eq;
use crate::text::{trim, trimmed};
use std::collections::{BTreeMap, BTreeSet};
use vstd::prelude::*;
use vstd::string::StringSliceAdditionalSpecFns;
use vstd::utf8::encode_utf8;

verus! {

broadcast use vstd::std_specs::btree::group_btree_axioms;

/// The agent type of a shell agent, which cannot receive messages.
pub const SHELL_AGENT_TYPE: &'static str = "shell";

/// The body a notification shows when the hook supplied no message.
pub const AWAITING_INPUT_DEFAULT_BODY: &'static str = "Needs your attention";

/// The command a submitted input sends: the input trimmed, or nothing when
/// only whitespace was typed.
pub fn command_to_send(input: &str) -> (r: Option<&str>)
    ensures
        match r {
            Some(c) => c.spec_bytes() == trimmed(input.spec_bytes()) && c.spec_bytes().len() > 0,
            None => trimmed(input.spec_bytes()).len() == 0,
        },
{
    let command = trim(input);
    if command.as_bytes().len() == 0 {
        None
    } else {
        Some(command)
    }
}

/// The session ids that no live session holds any more, in order.
pub fn stale_session_ids(session_ids: &[u128], live_ids: &BTreeSet<u128>) -> (r: Vec<u128>)
    ensures
        r@ == session_ids@.filter(|id: u128| !live_ids@.contains(id)),
{
    let mut out: Vec<u128> = Vec::new();
    let mut i: usize = 0;
    while i < session_ids.len()
        invariant
            i <= session_ids@.len(),
            out@ == session_ids@.take(i as int).filter(|id: u128| !live_ids@.contains(id)),
        decreases session_ids@.len() - i,
    {
        let id = session_ids[i];
        if !live_ids.contains(&id) {
            out.push(id);
        }
        proof {
            reveal_with_fuel(Seq::<u128>::filter, 1);
            assert(session_ids@.take(i + 1).drop_last() =~= session_ids@.take(i as int));
        }
        i = i + 1;
    }
    proof {
        assert(session_ids@.take(session_ids@.len() as int) =~= session_ids@);
    }
    out
}

/// What decides whether an agent is nudged to check its inbox.
#[derive(Clone, Copy, Debug)]
pub struct NudgeCheck<'a> {
    pub agent_type: &'a str,
    pub mcp_enabled: bool,
    /// The most recent unread message for this agent, if any.
    pub latest_message: Option<u128>,
    /// The last message this agent was already nudged about.
    pub last_nudged: Option<u128>,
    /// The agent is idle: a nudge must not land mid-work.
    pub idle: bool,
    /// The agent has a live session able to take a prompt right now.
    pub can_receive: bool,
}

/// The message a nudge would be about, or `None` when none is due: MCP off
/// means no messaging at all, a shell agent cannot receive messages, a busy
/// agent or one with no live session is nudged later, and a message already
/// nudged about does not nudge again.
pub open spec fn nudge_for(check: NudgeCheck) -> Option<u128> {
    if check.mcp_enabled && check.agent_type.spec_bytes() != SHELL_AGENT_TYPE.spec_bytes() && check.idle
        && check.can_receive {
        match check.latest_message {
            Some(m) => if check.last_nudged == Some(m) {
                None
            } else {
                Some(m)
            },
            None => None,
        }
    } else {
        None
    }
}

/// The message id an inbox nudge would be about, or `None` when no nudge
/// is due.
pub fn inbox_prompt_message_id(check: NudgeCheck) -> (r: Option<u128>)
    ensures
        r == nudge_for(check),
{
    let shell = bytes_eq(check.agent_type.as_bytes(), SHELL_AGENT_TYPE.as_bytes());
    if !(check.mcp_enabled && !shell && check.idle && check.can_receive) {
        return None;
    }
    match check.latest_message {
        Some(m) => match check.last_nudged {
            Some(n) => if n == m {
                None
            } else {
                Some(m)
            },
            None => Some(m),
        },
        None => None,
    }
}

/// Whether to send the agent the "check your inbox" prompt.
pub fn should_inject_inbox_prompt(check: NudgeCheck) -> (r: bool)
    ensures
        r == (nudge_for(check) is Some),
{
    inbox_prompt_message_id(check).is_some()
}

/// Whether an agent's request for input deserves a notice: it is not the
/// agent on screen, it said something, and not the same thing as last time.
pub fn should_show_awaiting_notice(selected_agent: Option<u128>, agent_id: u128, message: &str,
    last_message: Option<&String>) -> (r: bool)
    ensures
        r == (selected_agent != Some(agent_id) && message.spec_bytes().len() > 0 && match last_message {
            Some(last) => encode_utf8(last@) != message.spec_bytes(),
            None => true,
        }),
{
    let shown = match selected_agent {
        Some(s) => s == agent_id,
        None => false,
    };
    if shown || message.as_bytes().len() == 0 {
        return false;
    }
    match last_message {
        Some(last) => !bytes_eq(last.as_str().as_bytes(), message.as_bytes()),
        None => true,
    }
}

/// Whether a desktop notification is posted: notifications are on and the
/// notice is due.
pub fn should_notify(desktop_notifications_enabled: bool, show_awaiting_notice: bool) -> (r: bool)
    ensures
        r == (desktop_notifications_enabled && show_awaiting_notice),
{
    desktop_notifications_enabled && show_awaiting_notice
}

/// The notification body: the hook-supplied message when non-empty,
/// otherwise the default.
pub fn notification_body(message: &str) -> (r: &str)
    ensures
        r == (if message.spec_bytes().len() == 0 { AWAITING_INPUT_DEFAULT_BODY } else { message }),
{
    if message.as_bytes().len() == 0 {
        AWAITING_INPUT_DEFAULT_BODY
    } else {
        message
    }
}

/// What `uuid::Uuid::parse_str` makes of a string, as a 128-bit integer.
pub uninterp spec fn parsed_uuid(tag: Seq<char>) -> Option<u128>;

/// `uuid::Uuid::parse_str`, read as the UUID's 128-bit value.
///
/// The contract names the result and says nothing of which strings parse:
/// the crate accepts several spellings (hyphenated, simple, braced, URN).
#[verifier::external_body]
fn parse_uuid(tag: &str) -> (r: Option<u128>)
    ensures
        r == parsed_uuid(tag@),
{
    match uuid::Uuid::parse_str(tag) {
        Ok(id) => Some(id.as_u128()),
        Err(_) => None,
    }
}

/// The agent a notification's tag was posted for, or `None` when the tag
/// is not a UUID.
pub fn notification_response_agent_id(tag: &str) -> (r: Option<u128>)
    ensures
        r == parsed_uuid(tag@),
{
    parse_uuid(tag)
}

/// The first of `ids` that `live` holds.
pub open spec fn first_live(ids: Seq<u128>, live: Set<u128>) -> Option<u128>
    decreases ids.len(),
{
    if ids.len() == 0 {
        None
    } else if live.contains(ids[0]) {
        Some(ids[0])
    } else {
        first_live(ids.drop_first(), live)
    }
}

fn first_live_in(ids: &Vec<u128>, live: &BTreeSet<u128>) -> (r: Option<u128>)
    ensures
        r == first_live(ids@, live@),
{
    let mut i: usize = 0;
    proof {
        assert(ids@.subrange(0, ids@.len() as int) =~= ids@);
    }
    while i < ids.len()
        invariant
            i <= ids@.len(),
            first_live(ids@, live@) == first_live(ids@.subrange(i as int, ids@.len() as int), live@),
        decreases ids@.len() - i,
    {
        proof {
            assert(ids@.subrange(i as int, ids@.len() as int).drop_first() =~= ids@.subrange(i + 1, ids@.len() as int));
        }
        if live.contains(&ids[i]) {
            return Some(ids[i]);
        }
        i = i + 1;
    }
    None
}

/// The agent to select when workspace `workspace_id` comes up: the first
/// of its last-shown agents that still exists, else the first of its
/// agents that does, or none when the workspace is unknown or empty.
/// `live_agents` holds the agents the store knows.
pub fn agent_selection_for_workspace(workspaces: &[StoreWorkspace], live_agents: &BTreeSet<u128>, workspace_id: u128) -> (r: Option<u128>)
    ensures
        r == match store_workspace(workspaces@, workspace_id) {
            Some(w) => first_live(w.active_agent_ids@ + w.agent_ids@, live_agents@),
            None => None,
        },
{
    let mut k: usize = 0;
    proof {
        assert(workspaces@.subrange(0, workspaces@.len() as int) =~= workspaces@);
    }
    while k < workspaces.len()
        invariant
            k <= workspaces@.len(),
            store_workspace(workspaces@, workspace_id) == store_workspace(
                workspaces@.subrange(k as int, workspaces@.len() as int),
                workspace_id,
            ),
        decreases workspaces@.len() - k,
    {
        proof {
            assert(workspaces@.subrange(k as int, workspaces@.len() as int).drop_first() =~= workspaces@.subrange(
                k + 1,
                workspaces@.len() as int,
            ));
        }
        let w = &workspaces[k];
        if w.id == workspace_id {
            let ghost all = w.active_agent_ids@ + w.agent_ids@;
            proof {
                lemma_first_live_concat(w.active_agent_ids@, w.agent_ids@, live_agents@);
            }
            return match first_live_in(&w.active_agent_ids, live_agents) {
                Some(id) => Some(id),
                None => first_live_in(&w.agent_ids, live_agents),
            };
        }
        k = k + 1;
    }
    None
}

/// The agent to select at start-up: the selection for the current
/// workspace, when there is one.
pub fn initial_agent_selection(
    workspaces: &[StoreWorkspace],
    live_agents: &BTreeSet<u128>,
    current_workspace_id: Option<u128>,
) -> (r: Option<u128>)
    ensures
        r == match current_workspace_id {
            Some(id) => match store_workspace(workspaces@, id) {
                Some(w) => first_live(w.active_agent_ids@ + w.agent_ids@, live_agents@),
                None => None,
            },
            None => None,
        },
{
    match current_workspace_id {
        Some(id) => agent_selection_for_workspace(workspaces, live_agents, id),
        None => None,
    }
}

/// Looking through two lists in turn is looking through them joined.
proof fn lemma_first_live_concat(a: Seq<u128>, b: Seq<u128>, live: Set<u128>)
    ensures
        first_live(a + b, live) == match first_live(a, live) {
            Some(id) => Some(id),
            None => first_live(b, live),
        },
    decreases a.len(),
{
    if a.len() == 0 {
        assert(a + b =~= b);
    } else {
        assert((a + b).drop_first() =~= a.drop_first() + b);
        assert((a + b)[0] == a[0]);
        lemma_first_live_concat(a.drop_first(), b, live);
    }
}

/// An agent as a delivery notice names it.
#[derive(Debug, Clone, PartialEq, Eq)]
pub struct AgentName {
    pub id: u128,
    pub name: String,
}

/// What a delivery notice says: who received messages, and how many.
#[derive(Debug, Clone, PartialEq, Eq)]
pub struct DeliveryNotice {
    pub recipient_name: String,
    pub count: usize,
}

/// The index of the first agent of `agents` with id `id`.
pub open spec fn find_agent(agents: Seq<AgentName>, id: u128) -> Option<int>
    decreases agents.len(),
{
    if agents.len() == 0 {
        None
    } else if agents.last().id == id && find_agent(agents.drop_last(), id) is None {
        Some(agents.len() - 1)
    } else {
        find_agent(agents.drop_last(), id)
    }
}

/// How many times `x` occurs in `s`.
pub open spec fn occurrences(s: Seq<u128>, x: u128) -> nat {
    s.filter(|id: u128| id == x).len()
}

/// The notice for a batch of deliveries, each named by its recipient's id:
/// the recipient of the latest one, by name, with how many of the batch
/// went to it. Nothing when there were none, or the recipient is unknown.
pub fn delivery_notice(recipients: &[u128], agents: &[AgentName]) -> (r: Option<DeliveryNotice>)
    ensures
        match r {
            Some(n) => recipients@.len() > 0 && (find_agent(agents@, recipients@.last()) matches Some(i)
                && n.recipient_name@ == agents@[i].name@) && n.count == occurrences(
                recipients@,
                recipients@.last(),
            ),
            None => recipients@.len() == 0 || find_agent(agents@, recipients@.last()) is None,
        },
{
    if recipients.len() == 0 {
        return None;
    }
    let last = recipients[recipients.len() - 1];
    assert(last == recipients@.last());
    let mut found: Option<usize> = None;
    let mut j: usize = 0;
    while j < agents.len()
        invariant
            j <= agents@.len(),
            find_agent(agents@.take(j as int), last) == match found {
                Some(i) => Some(i as int),
                None => None::<int>,
            },
            found matches Some(i) ==> i < j,
        decreases agents@.len() - j,
    {
        proof {
            assert(agents@.take(j + 1).drop_last() =~= agents@.take(j as int));
            assert(agents@.take(j + 1).last() == agents@[j as int]);
        }
        if found.is_none() && agents[j].id == last {
            found = Some(j);
        }
        j = j + 1;
    }
    proof {
        assert(agents@.take(agents@.len() as int) =~= agents@);
    }
    match found {
        None => None,
        Some(i) => {
            let mut count: usize = 0;
            let mut k: usize = 0;
            while k < recipients.len()
                invariant
                    k <= recipients@.len(),
                    last == recipients@.last(),
                    count == occurrences(recipients@.take(k as int), last),
                    count <= k,
                decreases recipients@.len() - k,
            {
                proof {
                    reveal_with_fuel(Seq::<u128>::filter, 1);
                    assert(recipients@.take(k + 1).drop_last() =~= recipients@.take(k as int));
                }
                if recipients[k] == last {
                    count = count + 1;
                }
                k = k + 1;
            }
            proof {
                assert(recipients@.take(recipients@.len() as int) =~= recipients@);
            }
            Some(DeliveryNotice { recipient_name: agents[i].name.clone(), count })
        },
    }
}

/// A workspace as the sidebar lists it.
#[derive(Debug, PartialEq)]
pub struct WorkspaceRow {
    pub id: u128,
    pub name: String,
    pub selected: bool,
}

/// An agent as the sidebar lists it.
#[derive(Debug, PartialEq)]
pub struct AgentRow {
    pub id: u128,
    pub avatar: String,
    pub name: String,
    pub agent_type: String,
    pub folder: String,
    pub selected: bool,
    pub attached: bool,
    pub state: AgentState,
    pub unread_count: usize,
}

/// What the sidebar draws: every workspace, and the agents of the current
/// one.
#[derive(Debug, PartialEq)]
pub struct LayoutModel {
    pub workspace_rows: Vec<WorkspaceRow>,
    pub selected_agent_rows: Vec<AgentRow>,
}

/// The agents a workspace listing `ids` holds, in its order: those the
/// store still has.
pub open spec fn held_agents(ids: Seq<u128>, agents: Seq<StoreAgent>) -> Seq<StoreAgent>
    decreases ids.len(),
{
    if ids.len() == 0 {
        Seq::empty()
    } else {
        let rest = held_agents(ids.drop_last(), agents);
        match store_agent(agents, ids.last()) {
            Some(a) => rest.push(a),
            None => rest,
        }
    }
}

/// `row` is the sidebar's row for agent `a`.
pub open spec fn agent_row_of(
    row: AgentRow,
    a: StoreAgent,
    selection: Option<u128>,
    attached: Seq<u128>,
    unread: Map<u128, usize>,
) -> bool {
    &&& row.id == a.id
    &&& row.avatar@ == a.avatar@
    &&& row.name@ == a.name@
    &&& row.agent_type@ == a.agent_type@
    &&& row.folder@ == a.folder@
    &&& row.selected == (selection == Some(a.id))
    &&& row.attached == attached.contains(a.id)
    &&& row.state == a.state
    &&& row.unread_count == if unread.contains_key(a.id) {
        unread[a.id]
    } else {
        0
    }
}

fn unread_of(unread_counts: &BTreeMap<u128, usize>, id: u128) -> (r: usize)
    ensures
        r == if unread_counts@.contains_key(id) {
            unread_counts@[id]
        } else {
            0
        },
{
    match unread_counts.get(&id) {
        Some(n) => *n,
        None => 0,
    }
}

/// The sidebar's model: a row per workspace, the current one selected, and
/// a row per agent of the current workspace that the store holds, each
/// saying whether it is the selected agent, whether a window is attached
/// to it, and how many of its messages are unread.
pub fn layout_model(
    workspaces: &[StoreWorkspace],
    agents: &[StoreAgent],
    current_workspace_id: Option<u128>,
    agent_selection: Option<u128>,
    attached_ids: &[u128],
    unread_counts: &BTreeMap<u128, usize>,
) -> (r: LayoutModel)
    ensures
        r.workspace_rows@.len() == workspaces@.len(),
        forall|i: int|
            0 <= i < workspaces@.len() ==> {
                &&& (#[trigger] r.workspace_rows@[i]).id == workspaces@[i].id
                &&& r.workspace_rows@[i].name@ == workspaces@[i].name@
                &&& r.workspace_rows@[i].selected == (current_workspace_id == Some(workspaces@[i].id))
            },
        ({
            let shown = match current_workspace_id {
                Some(id) => match store_workspace(workspaces@, id) {
                    Some(w) => held_agents(w.agent_ids@, agents@),
                    None => Seq::empty(),
                },
                None => Seq::empty(),
            };
            &&& r.selected_agent_rows@.len() == shown.len()
            &&& forall|j: int|
                0 <= j < shown.len() ==> agent_row_of(
                    #[trigger] r.selected_agent_rows@[j],
                    shown[j],
                    agent_selection,
                    attached_ids@,
                    unread_counts@,
                )
        }),
{
    let mut workspace_rows: Vec<WorkspaceRow> = Vec::new();
    let mut i: usize = 0;
    while i < workspaces.len()
        invariant
            i <= workspaces@.len(),
            workspace_rows@.len() == i,
            forall|k: int|
                0 <= k < i ==> {
                    &&& (#[trigger] workspace_rows@[k]).id == workspaces@[k].id
                    &&& workspace_rows@[k].name@ == workspaces@[k].name@
                    &&& workspace_rows@[k].selected == (current_workspace_id == Some(workspaces@[k].id))
                },
        decreases workspaces@.len() - i,
    {
        let w = &workspaces[i];
        let selected = match current_workspace_id {
            Some(id) => id == w.id,
            None => false,
        };
        workspace_rows.push(WorkspaceRow { id: w.id, name: w.name.clone(), selected });
        i = i + 1;
    }
    let mut rows: Vec<AgentRow> = Vec::new();
    let found = match current_workspace_id {
        Some(id) => find_workspace_index(workspaces, id),
        None => None,
    };
    match found {
        None => {},
        Some(k) => {
            let ids = &workspaces[k].agent_ids;
            let mut i: usize = 0;
            while i < ids.len()
                invariant
                    i <= ids@.len(),
                    rows@.len() == held_agents(ids@.take(i as int), agents@).len(),
                    forall|j: int|
                        0 <= j < rows@.len() ==> agent_row_of(
                            #[trigger] rows@[j],
                            held_agents(ids@.take(i as int), agents@)[j],
                            agent_selection,
                            attached_ids@,
                            unread_counts@,
                        ),
                decreases ids@.len() - i,
            {
                proof {
                    assert(ids@.take(i + 1).drop_last() =~= ids@.take(i as int));
                    assert(ids@.take(i + 1).last() == ids@[i as int]);
                }
                match find_store_agent(agents, ids[i]) {
                    Some(j) => {
                        let a = &agents[j];
                        let selected = match agent_selection {
                            Some(s) => s == a.id,
                            None => false,
                        };
                        rows.push(
                            AgentRow {
                                id: a.id,
                                avatar: a.avatar.clone(),
                                name: a.name.clone(),
                                agent_type: a.agent_type.clone(),
                                folder: a.folder.clone(),
                                selected,
                                attached: lists(attached_ids, a.id),
                                state: a.state,
                                unread_count: unread_of(unread_counts, a.id),
                            },
                        );
                    },
                    None => {},
                }
                i = i + 1;
            }
            proof {
                assert(ids@.take(ids@.len() as int) =~= ids@);
            }
        },
    }
    LayoutModel { workspace_rows, selected_agent_rows: rows }
}

} // verus!
