//! The agent store, read as values: each workspace with the agents it
//! lists, and each agent with the facts the app's views show. A workspace
//! may list an id the store no longer holds.

use vstd::prelude::*;
use crate::dashboard::AgentState;

verus! {

/// An agent as the store holds it, as far as the app's views read it.
#[derive(Debug, Clone, PartialEq, Eq)]
pub struct StoreAgent {
    pub id: u128,
    pub name: String,
    pub avatar: String,
    pub folder: String,
    pub agent_type: String,
    /// The last component of `folder`, as the card names it.
    pub folder_name: String,
    pub state: AgentState,
    pub is_companion: bool,
    pub is_shell: bool,
    /// What the agent's header shows as its title.
    pub header_title: String,
}

/// A workspace as the store holds it: the agents it lists, in order, and
/// those it last had on screen.
#[derive(Debug, Clone, PartialEq, Eq)]
pub struct StoreWorkspace {
    pub id: u128,
    pub name: String,
    pub color_hex: String,
    pub agent_ids: Vec<u128>,
    pub active_agent_ids: Vec<u128>,
}

/// The first agent of `agents` with id `id`.
pub open spec fn store_agent(agents: Seq<StoreAgent>, id: u128) -> Option<StoreAgent>
    decreases agents.len(),
{
    if agents.len() == 0 {
        None
    } else if agents[0].id == id {
        Some(agents[0])
    } else {
        store_agent(agents.drop_first(), id)
    }
}

/// The first workspace of `ws` with id `id`.
pub open spec fn store_workspace(ws: Seq<StoreWorkspace>, id: u128) -> Option<StoreWorkspace>
    decreases ws.len(),
{
    if ws.len() == 0 {
        None
    } else if ws[0].id == id {
        Some(ws[0])
    } else {
        store_workspace(ws.drop_first(), id)
    }
}

/// Where the first agent of `agents` with id `id` stands.
pub(crate) fn find_store_agent(agents: &[StoreAgent], id: u128) -> (r: Option<usize>)
    ensures
        match r {
            Some(j) => j < agents@.len() && store_agent(agents@, id) == Some(agents@[j as int]),
            None => store_agent(agents@, id) is None,
        },
{
    let mut j: usize = 0;
    proof {
        assert(agents@.subrange(0, agents@.len() as int) =~= agents@);
    }
    while j < agents.len()
        invariant
            j <= agents@.len(),
            store_agent(agents@, id) == store_agent(agents@.subrange(j as int, agents@.len() as int), id),
        decreases agents@.len() - j,
    {
        proof {
            assert(agents@.subrange(j as int, agents@.len() as int).drop_first() =~= agents@.subrange(
                j + 1,
                agents@.len() as int,
            ));
        }
        if agents[j].id == id {
            return Some(j);
        }
        j = j + 1;
    }
    None
}

/// Where the first workspace of `workspaces` with id `id` stands.
pub(crate) fn find_workspace_index(workspaces: &[StoreWorkspace], id: u128) -> (r: Option<usize>)
    ensures
        match r {
            Some(k) => k < workspaces@.len() && store_workspace(workspaces@, id) == Some(workspaces@[k as int]),
            None => store_workspace(workspaces@, id) is None,
        },
{
    let mut k: usize = 0;
    proof {
        assert(workspaces@.subrange(0, workspaces@.len() as int) =~= workspaces@);
    }
    while k < workspaces.len()
        invariant
            k <= workspaces@.len(),
            store_workspace(workspaces@, id) == store_workspace(
                workspaces@.subrange(k as int, workspaces@.len() as int),
                id,
            ),
        decreases workspaces@.len() - k,
    {
        proof {
            assert(workspaces@.subrange(k as int, workspaces@.len() as int).drop_first() =~= workspaces@.subrange(
                k + 1,
                workspaces@.len() as int,
            ));
        }
        if workspaces[k].id == id {
            return Some(k);
        }
        k = k + 1;
    }
    None
}

/// Whether `ids` holds `id`.
pub(crate) fn lists(ids: &[u128], id: u128) -> (r: bool)
    ensures
        r == ids@.contains(id),
{
    let mut i: usize = 0;
    while i < ids.len()
        invariant
            i <= ids@.len(),
            forall|j: int| 0 <= j < i ==> ids@[j] != id,
        decreases ids@.len() - i,
    {
        if ids[i] == id {
            return true;
        }
        i = i + 1;
    }
    false
}

} // verus!
