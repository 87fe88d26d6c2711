//! The Command Center's reading of the agent store: every workspace's cards
//! for the dashboard grid, the workspace an agent's card opens, and what
//! the "Add Agent" tile fills in.
//! A workspace may list an id the store no longer holds; such an id has no
//! card.

use std::collections::BTreeMap;

use crate::avatar::{card_avatar, first_grapheme, DEFAULT_AGENT_AVATAR};
use crate::agent_store::{find_store_agent, find_workspace_index, lists, store_agent, store_workspace, StoreAgent, StoreWorkspace};
use crate::dashboard::{class_of, ordered, DashboardAgent, DashboardSort, DiffStats};
use vstd::prelude::*;

verus! {

/// One workspace's section of the dashboard grid.
#[derive(Debug)]
pub struct DashboardWorkspace {
    pub id: u128,
    pub name: String,
    pub color_hex: String,
    pub agents: Vec<DashboardAgent>,
}

/// The agents a workspace listing `ids` shows cards for, in its order:
/// those the store holds, companions left out.
pub open spec fn card_sources(ids: Seq<u128>, agents: Seq<StoreAgent>) -> Seq<StoreAgent>
    decreases ids.len(),
{
    if ids.len() == 0 {
        Seq::empty()
    } else {
        let rest = card_sources(ids.drop_last(), agents);
        match store_agent(agents, ids.last()) {
            Some(a) => if a.is_companion {
                rest
            } else {
                rest.push(a)
            },
            None => rest,
        }
    }
}

/// The diff stat recorded for `id`: none when nothing was recorded, or the
/// folder is not a repository.
pub open spec fn recorded_stats(stats: Map<u128, Option<DiffStats>>, id: u128) -> Option<DiffStats> {
    if stats.contains_key(id) {
        stats[id]
    } else {
        None
    }
}

/// `card` is the card the dashboard draws for agent `a`.
pub open spec fn card_of(card: DashboardAgent, a: StoreAgent, stats: Map<u128, Option<DiffStats>>) -> bool {
    &&& card.id == a.id
    &&& card.avatar@ == if a.avatar@.len() == 0 {
        DEFAULT_AGENT_AVATAR@
    } else {
        first_grapheme(a.avatar@)
    }
    &&& card.name@ == a.name@
    &&& card.folder_name@ == a.folder_name@
    &&& card.state == a.state
    &&& card.is_shell == a.is_shell
    &&& card.header_title@ == a.header_title@
    &&& card.git_stats == recorded_stats(stats, a.id)
}

/// `cards` are the cards of `sources`, one each, in order.
pub open spec fn cards_of(
    cards: Seq<DashboardAgent>,
    sources: Seq<StoreAgent>,
    stats: Map<u128, Option<DiffStats>>,
) -> bool {
    &&& cards.len() == sources.len()
    &&& forall|j: int| 0 <= j < cards.len() ==> card_of(#[trigger] cards[j], sources[j], stats)
}

/// `out` is `input` in `sort`'s order, as `DashboardSort::sorted` gives it.
pub open spec fn sorted_as(sort: DashboardSort, out: Seq<DashboardAgent>, input: Seq<DashboardAgent>) -> bool {
    &&& sort == DashboardSort::Manual ==> out == input
    &&& ordered(sort, out)
    &&& forall|k: DashboardAgent| #[trigger] class_of(sort, out, k) == class_of(sort, input, k)
}

fn recorded(stats: &BTreeMap<u128, Option<DiffStats>>, id: u128) -> (r: Option<DiffStats>)
    ensures
        r == recorded_stats(stats@, id),
{
    broadcast use vstd::std_specs::btree::group_btree_axioms;

    match stats.get(&id) {
        Some(s) => *s,
        None => None,
    }
}

/// The card the dashboard draws for `a`.
fn card_for(a: &StoreAgent, stats: &BTreeMap<u128, Option<DiffStats>>) -> (card: DashboardAgent)
    ensures
        card_of(card, *a, stats@),
{
    DashboardAgent {
        id: a.id,
        avatar: card_avatar(a.avatar.as_str()),
        name: a.name.clone(),
        folder_name: a.folder_name.clone(),
        state: a.state,
        is_shell: a.is_shell,
        header_title: a.header_title.clone(),
        git_stats: recorded(stats, a.id),
    }
}

/// The cards of one workspace, in the order it lists its agents.
fn workspace_cards(
    ids: &Vec<u128>,
    agents: &[StoreAgent],
    stats: &BTreeMap<u128, Option<DiffStats>>,
) -> (cards: Vec<DashboardAgent>)
    ensures
        cards_of(cards@, card_sources(ids@, agents@), stats@),
{
    let mut cards: Vec<DashboardAgent> = Vec::new();
    let mut i: usize = 0;
    while i < ids.len()
        invariant
            i <= ids@.len(),
            cards_of(cards@, card_sources(ids@.take(i as int), agents@), stats@),
        decreases ids@.len() - i,
    {
        proof {
            assert(ids@.take(i + 1).drop_last() =~= ids@.take(i as int));
            assert(ids@.take(i + 1).last() == ids@[i as int]);
        }
        match find_store_agent(agents, ids[i]) {
            Some(j) => {
                if !agents[j].is_companion {
                    let card = card_for(&agents[j], stats);
                    cards.push(card);
                }
            },
            None => {},
        }
        i = i + 1;
    }
    proof {
        assert(ids@.take(ids@.len() as int) =~= ids@);
    }
    cards
}

/// Every workspace's section of the grid, in store order: its cards are
/// the agents it lists that the store holds, companions left out, drawn in
/// `sort`'s order. An agent's diff stat is the one `diff_stats` recorded
/// for it, none when nothing was.
pub fn dashboard_workspaces(
    workspaces: &[StoreWorkspace],
    agents: &[StoreAgent],
    diff_stats: &BTreeMap<u128, Option<DiffStats>>,
    sort: DashboardSort,
) -> (r: Vec<DashboardWorkspace>)
    ensures
        r@.len() == workspaces@.len(),
        forall|i: int|
            0 <= i < r@.len() ==> {
                &&& (#[trigger] r@[i]).id == workspaces@[i].id
                &&& r@[i].name@ == workspaces@[i].name@
                &&& r@[i].color_hex@ == workspaces@[i].color_hex@
                &&& exists|cards: Seq<DashboardAgent>|
                    cards_of(cards, card_sources(workspaces@[i].agent_ids@, agents@), diff_stats@)
                        && sorted_as(sort, r@[i].agents@, cards)
            },
{
    let mut out: Vec<DashboardWorkspace> = Vec::new();
    let mut i: usize = 0;
    while i < workspaces.len()
        invariant
            i <= workspaces@.len(),
            out@.len() == i,
            forall|k: int|
                0 <= k < i ==> {
                    &&& (#[trigger] out@[k]).id == workspaces@[k].id
                    &&& out@[k].name@ == workspaces@[k].name@
                    &&& out@[k].color_hex@ == workspaces@[k].color_hex@
                    &&& exists|cards: Seq<DashboardAgent>|
                        cards_of(cards, card_sources(workspaces@[k].agent_ids@, agents@), diff_stats@)
                            && sorted_as(sort, out@[k].agents@, cards)
                },
        decreases workspaces@.len() - i,
    {
        let w = &workspaces[i];
        let cards = workspace_cards(&w.agent_ids, agents, diff_stats);
        let ghost before = cards@;
        let sorted = sort.sorted(cards);
        let ghost sorted_view = sorted@;
        let ghost prev = out@;
        out.push(DashboardWorkspace { id: w.id, name: w.name.clone(), color_hex: w.color_hex.clone(), agents: sorted });
        proof {
            assert(out@[i as int].agents@ == sorted_view);
            assert(cards_of(before, card_sources(workspaces@[i as int].agent_ids@, agents@), diff_stats@)
                && sorted_as(sort, out@[i as int].agents@, before));
            assert forall|k: int| 0 <= k < i implies #[trigger] out@[k] == prev[k] by {}
        }
        i = i + 1;
    }
    out
}

/// The first of `ids` whose agent the store holds.
pub open spec fn first_held(ids: Seq<u128>, agents: Seq<StoreAgent>) -> Option<StoreAgent>
    decreases ids.len(),
{
    if ids.len() == 0 {
        None
    } else if store_agent(agents, ids[0]) is Some {
        store_agent(agents, ids[0])
    } else {
        first_held(ids.drop_first(), agents)
    }
}

/// The first workspace of `ws` that lists agent `id`.
pub open spec fn workspace_listing(ws: Seq<StoreWorkspace>, id: u128) -> Option<StoreWorkspace>
    decreases ws.len(),
{
    if ws.len() == 0 {
        None
    } else if ws[0].agent_ids@.contains(id) {
        Some(ws[0])
    } else {
        workspace_listing(ws.drop_first(), id)
    }
}

/// What the "Add Agent" tile of workspace `workspace_id` fills in: the
/// folder of the first of its agents the store holds, and the last agent it
/// lists, after which the new one is inserted. Nothing for a workspace the
/// store does not hold.
pub fn add_agent_prefill(workspaces: &[StoreWorkspace], agents: &[StoreAgent], workspace_id: u128) -> (r: (
    Option<String>,
    Option<u128>,
))
    ensures
        match store_workspace(workspaces@, workspace_id) {
            Some(w) => {
                &&& match first_held(w.agent_ids@, agents@) {
                    Some(a) => r.0 matches Some(f) && f@ == a.folder@,
                    None => r.0 is None,
                }
                &&& r.1 == if w.agent_ids@.len() == 0 {
                    None
                } else {
                    Some(w.agent_ids@.last())
                }
            },
            None => r.0 is None && r.1 is None,
        },
{
    match find_workspace_index(workspaces, workspace_id) {
        None => (None, None),
        Some(k) => {
            let ids = &workspaces[k].agent_ids;
            let mut folder: Option<String> = None;
            let mut i: usize = 0;
            proof {
                assert(ids@.subrange(0, ids@.len() as int) =~= ids@);
            }
            while i < ids.len() && folder.is_none()
                invariant
                    i <= ids@.len(),
                    folder is None ==> first_held(ids@, agents@) == first_held(
                        ids@.subrange(i as int, ids@.len() as int),
                        agents@,
                    ),
                    folder matches Some(f) ==> (first_held(ids@, agents@) matches Some(a) && f@ == a.folder@),
                decreases ids@.len() - i,
            {
                proof {
                    assert(ids@.subrange(i as int, ids@.len() as int).drop_first() =~= ids@.subrange(
                        i + 1,
                        ids@.len() as int,
                    ));
                }
                match find_store_agent(agents, ids[i]) {
                    Some(j) => {
                        folder = Some(agents[j].folder.clone());
                    },
                    None => {},
                }
                i = i + 1;
            }
            let last = if ids.len() == 0 {
                None
            } else {
                Some(ids[ids.len() - 1])
            };
            (folder, last)
        },
    }
}

/// The workspace whose window a tapped card opens: the first that lists
/// agent `agent_id`, or none.
pub fn workspace_of_agent(workspaces: &[StoreWorkspace], agent_id: u128) -> (r: Option<u128>)
    ensures
        r == match workspace_listing(workspaces@, agent_id) {
            Some(w) => Some(w.id),
            None => None,
        },
{
    let mut k: usize = 0;
    proof {
        assert(workspaces@.subrange(0, workspaces@.len() as int) =~= workspaces@);
    }
    while k < workspaces.len()
        invariant
            k <= workspaces@.len(),
            workspace_listing(workspaces@, agent_id) == workspace_listing(
                workspaces@.subrange(k as int, workspaces@.len() as int),
                agent_id,
            ),
        decreases workspaces@.len() - k,
    {
        proof {
            assert(workspaces@.subrange(k as int, workspaces@.len() as int).drop_first() =~= workspaces@.subrange(
                k + 1,
                workspaces@.len() as int,
            ));
        }
        if lists(workspaces[k].agent_ids.as_slice(), agent_id) {
            return Some(workspaces[k].id);
        }
        k = k + 1;
    }
    None
}

} // verus!
