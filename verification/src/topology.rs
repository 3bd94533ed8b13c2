//! The topology engine: the live, in-memory routing state.
//!
//! The topology binds transport connections (client identifiers) to
//! logical placements: a browser client occupies one role of one project,
//! an external client one address of one app network.  All mutations are
//! serialized by a single writer; each command here is one such mutation,
//! specified as a pure transition on the topology's mathematical model.
//!
//! Commands that require outside work (a metadata fetch for a room-state
//! broadcast, a store dispatch for project cleanup) return effects; the
//! embedding layer performs them and calls back in.

use vstd::prelude::*;

use crate::ids::{ClientId, ProjectId};
use crate::strmap::StrMap;
use crate::address::{BrowserAddress, ClientAddress};
use crate::strutil::str_eq;
use crate::types::{ClientState, ClientStateModel, OccupantState, RoleState, RoomState, SaveState};
use crate::types::ProjectMetadata;

verus! {

/// Outside work a topology command asks of the embedding layer.
pub enum TopologyEffect {
    /// Fetch the project's metadata and, if it still exists, broadcast its
    /// room state.
    BroadcastRoom(ProjectId),
    /// Fetch the project's save state and apply the cleanup policy.
    CleanupProject(ProjectId),
}

/// The mathematical value of an effect.
pub enum EffectModel {
    Broadcast(Seq<char>),
    Cleanup(Seq<char>),
}

impl View for TopologyEffect {
    type V = EffectModel;

    open spec fn view(&self) -> EffectModel {
        match self {
            TopologyEffect::BroadcastRoom(p) => EffectModel::Broadcast(p@),
            TopologyEffect::CleanupProject(p) => EffectModel::Cleanup(p@),
        }
    }
}

pub open spec fn effect_views(v: Seq<TopologyEffect>) -> Seq<EffectModel> {
    v.map(|i: int, e: TopologyEffect| e@)
}

/// What to do with a project's stored row once its room has been fully
/// evacuated.
#[derive(Clone, Copy, Debug, PartialEq, Eq, Structural)]
pub enum ProjectCleanup {
    Untouched,
    Immediately,
    Delayed,
}

/// How long a broken project's row survives after its room empties.
pub const CLEANUP_DELAY_SECS: u64 = 600;

/// The cleanup policy for an evacuated project: transient rows are deleted
/// at once, broken rows are scheduled for delayed deletion, anything saved
/// or merely created is left alone.
pub fn cleanup_policy(s: SaveState) -> (r: ProjectCleanup)
    ensures
        r == match s {
            SaveState::Transient => ProjectCleanup::Immediately,
            SaveState::Broken => ProjectCleanup::Delayed,
            SaveState::Created => ProjectCleanup::Untouched,
            SaveState::Saved => ProjectCleanup::Untouched,
        },
{
    match s {
        SaveState::Transient => ProjectCleanup::Immediately,
        SaveState::Broken => ProjectCleanup::Delayed,
        SaveState::Created => ProjectCleanup::Untouched,
        SaveState::Saved => ProjectCleanup::Untouched,
    }
}

/// When a delayed deletion falls due.
pub fn delete_at_time(now: u64) -> (r: u64)
    requires
        now + CLEANUP_DELAY_SECS <= u64::MAX,
    ensures
        r == now + CLEANUP_DELAY_SECS,
{
    now + CLEANUP_DELAY_SECS
}

/// The save-state transition applied when a client's transport breaks
/// while its project is unsaved.
pub fn broken_save_state(s: SaveState) -> (r: SaveState)
    ensures
        r == if s == SaveState::Transient {
            SaveState::Broken
        } else {
            s
        },
{
    match s {
        SaveState::Transient => SaveState::Broken,
        _ => s,
    }
}

/// The live occupancy of one project: role identifier to occupant list.
pub struct ProjectNetwork {
    pub id: String,
    pub roles: StrMap<Vec<String>>,
}

impl ProjectNetwork {
    pub open spec fn wf(self) -> bool {
        self.roles.wf()
    }

    pub fn new(id: String) -> (r: ProjectNetwork)
        ensures
            r.id == id,
            r.wf(),
            r.roles@ == Map::<Seq<char>, Vec<String>>::empty(),
            r.roles.entries() == Seq::<(String, Vec<String>)>::empty(),
    {
        ProjectNetwork { id, roles: StrMap::new() }
    }
}

/// The views of an occupant list.
pub open spec fn occ_views(v: Seq<String>) -> Seq<Seq<char>> {
    v.map(|i: int, c: String| c@)
}

/// The occupancy map of one project, by role identifier.
pub open spec fn room_view(pn: ProjectNetwork) -> Map<Seq<char>, Seq<Seq<char>>> {
    pn.roles@.map_values(|v: Vec<String>| occ_views(v@))
}

pub open spec fn rooms_view(m: Map<Seq<char>, ProjectNetwork>) -> Map<
    Seq<char>,
    Map<Seq<char>, Seq<Seq<char>>>,
> {
    m.map_values(|pn: ProjectNetwork| room_view(pn))
}

pub open spec fn net_view(net: StrMap<String>) -> Map<Seq<char>, Seq<char>> {
    net@.map_values(|c: String| c@)
}

pub open spec fn external_view(m: Map<Seq<char>, StrMap<String>>) -> Map<
    Seq<char>,
    Map<Seq<char>, Seq<char>>,
> {
    m.map_values(|net: StrMap<String>| net_view(net))
}

pub open spec fn states_view(m: Map<Seq<char>, ClientState>) -> Map<Seq<char>, ClientStateModel> {
    m.map_values(|s: ClientState| s@)
}

pub open spec fn usernames_view(m: Map<Seq<char>, String>) -> Map<Seq<char>, Seq<char>> {
    m.map_values(|u: String| u@)
}

/// The mathematical value of the whole topology.
#[verifier::ext_equal]
pub struct TopoModel {
    /// Identifiers of the live connections.
    pub clients: Set<Seq<char>>,
    /// Placement of each placed client.
    pub states: Map<Seq<char>, ClientStateModel>,
    /// Username attached to a client, for room-state broadcasts.
    pub usernames: Map<Seq<char>, Seq<char>>,
    /// Project identifier to role identifier to occupant list.
    pub rooms: Map<Seq<char>, Map<Seq<char>, Seq<Seq<char>>>>,
    /// App identifier to address to client identifier.
    pub external: Map<Seq<char>, Map<Seq<char>, Seq<char>>>,
    /// Room-state broadcast counter.
    pub version: nat,
}

/// The live routing topology.  All five indexes are owned by a single
/// writer; every command is one call here.
pub struct Topology {
    pub clients: StrMap<bool>,
    pub states: StrMap<ClientState>,
    pub usernames: StrMap<String>,
    pub rooms: StrMap<ProjectNetwork>,
    pub external: StrMap<StrMap<String>>,
    pub version: u64,
}

impl View for Topology {
    type V = TopoModel;

    open spec fn view(&self) -> TopoModel {
        TopoModel {
            clients: self.clients@.dom(),
            states: states_view(self.states@),
            usernames: usernames_view(self.usernames@),
            rooms: rooms_view(self.rooms@),
            external: external_view(self.external@),
            version: self.version as nat,
        }
    }
}

/// Position of the first occurrence of `id` in an occupant list.
pub open spec fn spec_occ_index(occ: Seq<Seq<char>>, id: Seq<char>, i: nat) -> Option<nat>
    decreases occ.len() + 1 - i,
{
    if i >= occ.len() {
        None
    } else if occ[i as int] == id {
        Some(i)
    } else {
        spec_occ_index(occ, id, i + 1)
    }
}

pub proof fn lemma_occ_index_props(occ: Seq<Seq<char>>, id: Seq<char>, i: nat)
    ensures
        match spec_occ_index(occ, id, i) {
            Some(j) => i <= j < occ.len() && occ[j as int] == id
                && forall|l: int| i <= l < j ==> occ[l] != id,
            None => forall|l: int| i <= l < occ.len() ==> occ[l] != id,
        },
    decreases occ.len() + 1 - i,
{
    if i < occ.len() && occ[i as int] != id {
        lemma_occ_index_props(occ, id, i + 1);
    }
}

/// An occupant list with the first occurrence of `id` swap-removed: the
/// last entry moves into its place.
pub open spec fn spec_remove_occ(occ: Seq<Seq<char>>, id: Seq<char>) -> Seq<Seq<char>> {
    match spec_occ_index(occ, id, 0) {
        Some(i) => occ.update(i as int, occ.last()).drop_last(),
        None => occ,
    }
}

/// The reset transition: forgets the client's username and placement and
/// removes it from whichever index its placement occupied, pruning emptied
/// roles, projects and app networks.  Evacuating a project asks for its
/// cleanup; any other occupancy change asks for a room-state broadcast.
pub open spec fn spec_reset(t: TopoModel, id: Seq<char>) -> (TopoModel, Seq<EffectModel>) {
    let t1 = TopoModel { usernames: t.usernames.remove(id), states: t.states.remove(id), ..t };
    if !t.states.contains_key(id) {
        (t1, Seq::empty())
    } else {
        match t.states[id] {
            ClientStateModel::Browser { project_id: p, role_id: r } => {
                if !t.rooms.contains_key(p) {
                    (t1, Seq::empty())
                } else {
                    let room = t.rooms[p];
                    let occ = if room.contains_key(r) {
                        room[r]
                    } else {
                        Seq::empty()
                    };
                    let occ2 = spec_remove_occ(occ, id);
                    if occ2.len() == 0 {
                        if room.dom().len() == 1 {
                            (
                                TopoModel { rooms: t1.rooms.remove(p), ..t1 },
                                seq![EffectModel::Cleanup(p)],
                            )
                        } else {
                            (
                                TopoModel { rooms: t1.rooms.insert(p, room.remove(r)), ..t1 },
                                seq![EffectModel::Broadcast(p)],
                            )
                        }
                    } else {
                        (
                            TopoModel { rooms: t1.rooms.insert(p, room.insert(r, occ2)), ..t1 },
                            seq![EffectModel::Broadcast(p)],
                        )
                    }
                }
            },
            ClientStateModel::External { address: a, app_id: app } => {
                if !t.external.contains_key(app) {
                    (t1, Seq::empty())
                } else {
                    let net = t.external[app].remove(a);
                    if net.dom().len() == 0 {
                        (TopoModel { external: t1.external.remove(app), ..t1 }, Seq::empty())
                    } else {
                        (TopoModel { external: t1.external.insert(app, net), ..t1 }, Seq::empty())
                    }
                }
            },
        }
    }
}

/// The placement transition: stores the username if one was given,
/// records the new state, and installs the client in the index the state
/// names, creating missing entries.  A browser placement asks for a
/// room-state broadcast.
pub open spec fn spec_place(
    t: TopoModel,
    id: Seq<char>,
    s: ClientStateModel,
    username: Option<Seq<char>>,
) -> (TopoModel, Seq<EffectModel>) {
    let t1 = TopoModel {
        usernames: match username {
            Some(u) => t.usernames.insert(id, u),
            None => t.usernames,
        },
        states: t.states.insert(id, s),
        ..t
    };
    match s {
        ClientStateModel::Browser { project_id: p, role_id: r } => {
            let room = if t.rooms.contains_key(p) {
                t.rooms[p]
            } else {
                Map::empty()
            };
            let occ = if room.contains_key(r) {
                room[r]
            } else {
                Seq::empty()
            };
            (
                TopoModel { rooms: t1.rooms.insert(p, room.insert(r, occ.push(id))), ..t1 },
                seq![EffectModel::Broadcast(p)],
            )
        },
        ClientStateModel::External { address: a, app_id: app } => {
            let net = if t.external.contains_key(app) {
                t.external[app]
            } else {
                Map::empty()
            };
            (TopoModel { external: t1.external.insert(app, net.insert(a, id)), ..t1 }, Seq::empty())
        },
    }
}

/// The state-change transition: unknown clients are dropped; otherwise the
/// prior placement is reset and the new one installed.
pub open spec fn spec_set_client_state(
    t: TopoModel,
    id: Seq<char>,
    s: ClientStateModel,
    username: Option<Seq<char>>,
) -> (TopoModel, Seq<EffectModel>) {
    if !t.clients.contains(id) {
        (t, Seq::empty())
    } else {
        let reset = spec_reset(t, id);
        let placed = spec_place(reset.0, id, s, username);
        (placed.0, reset.1 + placed.1)
    }
}

/// The disconnect transition: the connection is dropped and its placement
/// reset.
pub open spec fn spec_remove_client(t: TopoModel, id: Seq<char>) -> (TopoModel, Seq<EffectModel>) {
    spec_reset(TopoModel { clients: t.clients.remove(id), ..t }, id)
}

/// The occupancy cell of one role of one project, empty when absent.
pub open spec fn cell(t: TopoModel, p: Seq<char>, r: Seq<char>) -> Seq<Seq<char>> {
    if t.rooms.contains_key(p) && t.rooms[p].contains_key(r) {
        t.rooms[p][r]
    } else {
        Seq::empty()
    }
}

pub open spec fn has_cell(t: TopoModel, p: Seq<char>, r: Seq<char>) -> bool {
    t.rooms.contains_key(p) && t.rooms[p].contains_key(r)
}

pub open spec fn has_binding(t: TopoModel, app: Seq<char>, a: Seq<char>) -> bool {
    t.external.contains_key(app) && t.external[app].contains_key(a)
}

pub open spec fn binding(t: TopoModel, app: Seq<char>, a: Seq<char>) -> Seq<char> {
    t.external[app][a]
}

/// The topology's consistency invariant, holding in every state reachable
/// from the empty topology by non-colliding command sequences:
///
/// - the room index holds no empty role list and no project without
///   roles;
/// - every occupant of a cell is a registered client whose recorded state
///   is exactly that browser placement, and occurs in no other cell and
///   only once in its own (so each client occupies at most one cell);
/// - every external binding points at a registered client whose recorded
///   state is exactly that external placement, and conversely every
///   recorded placement is present in its index;
/// - app networks are never empty, and usernames belong to registered
///   clients.
pub open spec fn model_inv(t: TopoModel) -> bool {
    model_inv_without(t, Seq::empty())
        && (forall|c: Seq<char>| #[trigger] t.states.contains_key(c) ==> t.clients.contains(c))
        && (forall|c: Seq<char>| #[trigger] t.usernames.contains_key(c) ==> t.clients.contains(c))
        && (forall|p: Seq<char>, r: Seq<char>, i: int|
            #![trigger cell(t, p, r)[i]]
            has_cell(t, p, r) && 0 <= i < cell(t, p, r).len() ==> t.clients.contains(
                cell(t, p, r)[i],
            ))
        && (forall|app: Seq<char>, a: Seq<char>| #[trigger] has_binding(t, app, a)
            ==> t.clients.contains(binding(t, app, a)))
}

/// The invariant's structural core, with client registration required of
/// every identifier but `ex`: the intermediate shape during a disconnect,
/// after the connection is dropped and before its placement is reset.
pub open spec fn model_inv_without(t: TopoModel, ex: Seq<char>) -> bool {
    &&& t.rooms.dom().finite()
    &&& (forall|p: Seq<char>| #[trigger] t.rooms.contains_key(p) ==> t.rooms[p].dom().finite()
        && t.rooms[p].dom().len() > 0)
    &&& (forall|p: Seq<char>, r: Seq<char>| #[trigger] has_cell(t, p, r)
        ==> cell(t, p, r).len() > 0)
    &&& (forall|p: Seq<char>, r: Seq<char>, i: int, j: int|
        #![trigger cell(t, p, r)[i], cell(t, p, r)[j]]
        has_cell(t, p, r) && 0 <= i < j < cell(t, p, r).len() ==> cell(t, p, r)[i] != cell(
            t,
            p,
            r,
        )[j])
    &&& (forall|p: Seq<char>, r: Seq<char>, i: int|
        #![trigger cell(t, p, r)[i]]
        has_cell(t, p, r) && 0 <= i < cell(t, p, r).len() ==> (ex == cell(t, p, r)[i]
            || t.clients.contains(cell(t, p, r)[i])) && t.states.contains_key(cell(t, p, r)[i])
            && t.states[cell(t, p, r)[i]] == (ClientStateModel::Browser {
            project_id: p,
            role_id: r,
        }))
    &&& (forall|c: Seq<char>| #[trigger] t.states.contains_key(c) ==> (c == ex
        || t.clients.contains(c)) && match t.states[c] {
        ClientStateModel::Browser { project_id, role_id } => cell(
            t,
            project_id,
            role_id,
        ).contains(c),
        ClientStateModel::External { address, app_id } => has_binding(t, app_id, address)
            && binding(t, app_id, address) == c,
    })
    &&& (forall|c: Seq<char>| #[trigger] t.usernames.contains_key(c) ==> c == ex
        || t.clients.contains(c))
    &&& t.external.dom().finite()
    &&& (forall|app: Seq<char>| #[trigger] t.external.contains_key(app)
        ==> t.external[app].dom().finite() && t.external[app].dom().len() > 0)
    &&& (forall|app: Seq<char>, a: Seq<char>| #[trigger] has_binding(t, app, a) ==> (binding(
        t,
        app,
        a,
    ) == ex || t.clients.contains(binding(t, app, a))) && t.states.contains_key(binding(t, app, a))
        && t.states[binding(t, app, a)] == (ClientStateModel::External {
        address: a,
        app_id: app,
    }))
}

/// The identifier occurs in no index of the topology.
pub open spec fn spec_scrubbed(t: TopoModel, id: Seq<char>) -> bool {
    &&& !t.states.contains_key(id)
    &&& !t.usernames.contains_key(id)
    &&& (forall|p: Seq<char>, r: Seq<char>| !(#[trigger] cell(t, p, r)).contains(id))
    &&& (forall|app: Seq<char>, a: Seq<char>| #[trigger] has_binding(t, app, a) ==> binding(
        t,
        app,
        a,
    ) != id)
}

/// Installing an external placement collides when its address is already
/// bound in its app network once the client's own placement is reset.
/// The indexes stay consistent exactly for non-colliding commands: a
/// collision silently overwrites the prior holder's binding, as the
/// behaviour of the state-change command specifies.
pub open spec fn spec_no_collision(t: TopoModel, id: Seq<char>, s: ClientStateModel) -> bool {
    match s {
        ClientStateModel::Browser { project_id, role_id } => true,
        ClientStateModel::External { address, app_id } => !has_binding(
            spec_reset(t, id).0,
            app_id,
            address,
        ),
    }
}

/// The view of an optional username.
pub open spec fn opt_view(u: Option<String>) -> Option<Seq<char>> {
    match u {
        Some(s) => Some(s@),
        None => None,
    }
}

/// What swap-removing the first occurrence leaves: one occurrence fewer,
/// the others intact, order aside.
pub proof fn lemma_remove_occ_props(occ: Seq<Seq<char>>, id: Seq<char>)
    requires
        forall|i: int, j: int| 0 <= i < j < occ.len() ==> occ[i] != occ[j],
    ensures
        occ.contains(id) ==> spec_remove_occ(occ, id).len() == occ.len() - 1,
        !occ.contains(id) ==> spec_remove_occ(occ, id) == occ,
        forall|j: int| 0 <= j < spec_remove_occ(occ, id).len() ==> occ.contains(
            #[trigger] spec_remove_occ(occ, id)[j],
        ) && spec_remove_occ(occ, id)[j] != id,
        forall|c: Seq<char>| occ.contains(c) && c != id ==> #[trigger] spec_remove_occ(
            occ,
            id,
        ).contains(c),
        forall|i: int, j: int| 0 <= i < j < spec_remove_occ(occ, id).len()
            ==> spec_remove_occ(occ, id)[i] != spec_remove_occ(occ, id)[j],
{
    lemma_occ_index_props(occ, id, 0);
    let out = spec_remove_occ(occ, id);
    match spec_occ_index(occ, id, 0) {
        Some(i0) => {
            assert(occ[i0 as int] == id);
            assert(occ.contains(id));
            assert(out == occ.update(i0 as int, occ.last()).drop_last());
            assert(out.len() == occ.len() - 1);
            assert forall|j: int| 0 <= j < out.len() implies occ.contains(#[trigger] out[j])
                && out[j] != id by {
                if j == i0 {
                    assert(out[j] == occ[occ.len() - 1]);
                } else {
                    assert(out[j] == occ[j]);
                }
            }
            assert forall|c: Seq<char>| occ.contains(c) && c != id implies #[trigger] out.contains(
                c,
            ) by {
                let w = choose|w: int| 0 <= w < occ.len() && occ[w] == c;
                if w == occ.len() - 1 {
                    assert(i0 < occ.len() - 1);
                    assert(out[i0 as int] == c);
                } else {
                    assert(out[w] == c);
                }
            }
            assert forall|i: int, j: int| 0 <= i < j < out.len() implies out[i] != out[j] by {
                assert(out[i] == if i == i0 { occ[occ.len() - 1] } else { occ[i] });
                assert(out[j] == if j == i0 { occ[occ.len() - 1] } else { occ[j] });
            }
        },
        None => {
            assert forall|w: int| 0 <= w < occ.len() implies occ[w] != id by {}
            assert(!occ.contains(id));
        },
    }
}

/// Resetting a client removes exactly its own traces and preserves the
/// invariant; the connection set and version are untouched.
pub proof fn lemma_reset_inv(t: TopoModel, id: Seq<char>)
    requires
        model_inv_without(t, id),
    ensures
        model_inv_without(spec_reset(t, id).0, id),
        spec_scrubbed(spec_reset(t, id).0, id),
        spec_reset(t, id).0.clients == t.clients,
        spec_reset(t, id).0.version == t.version,
{
    let t2 = spec_reset(t, id).0;
    if !t.states.contains_key(id) {
        assert(t2.rooms == t.rooms);
        assert(t2.external == t.external);
        assert(t2.states == t.states.remove(id));
        assert(t2.states =~= t.states);
        assert forall|p: Seq<char>, r: Seq<char>| #[trigger] has_cell(t2, p, r) implies cell(
            t2,
            p,
            r,
        ).len() > 0 by {
            assert(has_cell(t, p, r));
            assert(cell(t2, p, r) == cell(t, p, r));
        }
        assert forall|p: Seq<char>, r: Seq<char>| !(#[trigger] cell(t2, p, r)).contains(id) by {
            if cell(t2, p, r).contains(id) {
                let w = choose|w: int| 0 <= w < cell(t2, p, r).len() && cell(t2, p, r)[w] == id;
                assert(cell(t, p, r)[w] == id);
                assert(t.states.contains_key(id));
            }
        }
        assert forall|app: Seq<char>, a: Seq<char>| #[trigger] has_binding(t2, app, a) implies
            binding(t2, app, a) != id by {
            assert(has_binding(t, app, a));
            if binding(t2, app, a) == id {
                assert(t.states.contains_key(id));
            }
        }
        assert forall|p: Seq<char>, r: Seq<char>, i: int|
            has_cell(t2, p, r) && 0 <= i < cell(t2, p, r).len() implies (id == #[trigger] cell(
            t2,
            p,
            r,
        )[i] || t2.clients.contains(cell(t2, p, r)[i])) && t2.states.contains_key(
            cell(t2, p, r)[i],
        ) && t2.states[cell(t2, p, r)[i]] == (ClientStateModel::Browser {
            project_id: p,
            role_id: r,
        }) by {
            assert(cell(t, p, r)[i] == cell(t2, p, r)[i]);
        }
        assert forall|app: Seq<char>, a: Seq<char>| #[trigger] has_binding(t2, app, a) implies
            (binding(t2, app, a) == id || t2.clients.contains(binding(t2, app, a)))
            && t2.states.contains_key(binding(t2, app, a)) && t2.states[binding(t2, app, a)]
            == (ClientStateModel::External { address: a, app_id: app }) by {
            assert(has_binding(t, app, a));
        }
    } else {
        match t.states[id] {
            ClientStateModel::Browser { project_id: p, role_id: r } => {
                assert(cell(t, p, r).contains(id));
                assert(has_cell(t, p, r));
                let room = t.rooms[p];
                let occ = room[r];
                lemma_remove_occ_props(occ, id);
                let occ2 = spec_remove_occ(occ, id);
                prove_reset_inv_clauses(t, t2, id, p, r);
            },
            ClientStateModel::External { address: a, app_id: app } => {
                assert(has_binding(t, app, a));
                assert(binding(t, app, a) == id);
                prove_reset_inv_external(t, t2, id, app, a);
            },
        }
    }
}

/// The invariant clauses after a browser reset: every cell of `t2` is
/// either an untouched cell of `t` or the client's own cell with the
/// client swap-removed.
proof fn prove_reset_inv_clauses(t: TopoModel, t2: TopoModel, id: Seq<char>, p: Seq<char>, r: Seq<char>)
    requires
        model_inv_without(t, id),
        t.states.contains_key(id),
        t.states[id] == (ClientStateModel::Browser { project_id: p, role_id: r }),
        t2 == spec_reset(t, id).0,
    ensures
        model_inv_without(t2, id),
        spec_scrubbed(t2, id),
{
    assert(cell(t, p, r).contains(id));
    assert(has_cell(t, p, r));
    let room = t.rooms[p];
    let occ = t.rooms[p][r];
    lemma_remove_occ_props(occ, id);
    let occ2 = spec_remove_occ(occ, id);
    assert(t2.states == t.states.remove(id));
    assert(t2.usernames == t.usernames.remove(id));
    assert(t2.external == t.external);
    if occ2.len() == 0 && room.dom().len() == 1 {
        // the evacuated role was the project's only role
        assert(room.dom() =~= Set::empty().insert(r)) by {
            if exists|r2: Seq<char>| room.dom().contains(r2) && r2 != r {
                let r2 = choose|r2: Seq<char>| room.dom().contains(r2) && r2 != r;
                broadcast use vstd::set_lib::group_set_properties;
                assert(room.dom().contains(r));
                assert(Set::empty().insert(r).insert(r2).subset_of(room.dom()));
                vstd::set_lib::lemma_len_subset(Set::empty().insert(r).insert(r2), room.dom());
            }
        }
    }

    // every cell of t2 relates to a cell of t
    assert forall|q: Seq<char>, s: Seq<char>| #[trigger] has_cell(t2, q, s) implies has_cell(
        t,
        q,
        s,
    ) && cell(t2, q, s) == (if q == p && s == r { occ2 } else { cell(t, q, s) }) by {}

    assert forall|q: Seq<char>, s: Seq<char>| !(#[trigger] cell(t2, q, s)).contains(id) by {
        if cell(t2, q, s).contains(id) {
            let w = choose|w: int| 0 <= w < cell(t2, q, s).len() && cell(t2, q, s)[w] == id;
            if q == p && s == r && has_cell(t2, q, s) {
                assert(occ2[w] != id);
            } else if has_cell(t2, q, s) {
                assert(cell(t, q, s)[w] == id);
                assert(t.states[id] == (ClientStateModel::Browser { project_id: q, role_id: s }));
            }
        }
    }

    assert forall|app: Seq<char>, a: Seq<char>| #[trigger] has_binding(t2, app, a) implies
        binding(t2, app, a) != id && (binding(t2, app, a) == id
        || t2.clients.contains(binding(t2, app, a))) && t2.states.contains_key(
        binding(t2, app, a),
    ) && t2.states[binding(t2, app, a)] == (ClientStateModel::External {
        address: a,
        app_id: app,
    }) by {
        assert(has_binding(t, app, a));
        assert(binding(t2, app, a) == binding(t, app, a));
        if binding(t, app, a) == id {
            assert(t.states[id] is External);
        }
    }

    // occupants of untouched cells keep their placements; the client's
    // own cell keeps everyone else's
    assert forall|q: Seq<char>, s: Seq<char>, i: int|
        has_cell(t2, q, s) && 0 <= i < cell(t2, q, s).len() implies (id == #[trigger] cell(
        t2,
        q,
        s,
    )[i] || t2.clients.contains(cell(t2, q, s)[i])) && t2.states.contains_key(cell(t2, q, s)[i])
        && t2.states[cell(t2, q, s)[i]] == (ClientStateModel::Browser {
        project_id: q,
        role_id: s,
    }) by {
        let c = cell(t2, q, s)[i];
        if q == p && s == r {
            assert(occ.contains(c));
            let w = choose|w: int| 0 <= w < occ.len() && occ[w] == c;
            assert(cell(t, p, r)[w] == c);
            assert(c != id);
        } else {
            assert(cell(t, q, s)[i] == c);
            assert(c != id) by {
                if c == id {
                    assert(t.states[id] == (ClientStateModel::Browser {
                        project_id: q,
                        role_id: s,
                    }));
                }
            }
        }
    }

    // placed clients other than the reset one keep their cells
    assert forall|c: Seq<char>| #[trigger] t2.states.contains_key(c) implies (c == id
        || t2.clients.contains(c)) && match t2.states[c] {
        ClientStateModel::Browser { project_id, role_id } => cell(
            t2,
            project_id,
            role_id,
        ).contains(c),
        ClientStateModel::External { address, app_id } => has_binding(t2, app_id, address)
            && binding(t2, app_id, address) == c,
    } by {
        assert(c != id);
        assert(t.states.contains_key(c));
        match t.states[c] {
            ClientStateModel::Browser { project_id: q, role_id: s } => {
                assert(cell(t, q, s).contains(c));
                if q == p && s == r {
                    assert(occ2.contains(c));
                } else {
                    assert(cell(t2, q, s) == cell(t, q, s));
                }
            },
            ClientStateModel::External { address, app_id } => {},
        }
    }
}

/// The invariant clauses after an external reset.
proof fn prove_reset_inv_external(t: TopoModel, t2: TopoModel, id: Seq<char>, app: Seq<char>, a: Seq<char>)
    requires
        model_inv_without(t, id),
        t.states.contains_key(id),
        t.states[id] == (ClientStateModel::External { address: a, app_id: app }),
        t2 == spec_reset(t, id).0,
    ensures
        model_inv_without(t2, id),
        spec_scrubbed(t2, id),
{
    assert(has_binding(t, app, a));
    assert(binding(t, app, a) == id);
    assert(t2.rooms == t.rooms);
    assert(t2.states == t.states.remove(id));
    assert(t2.usernames == t.usernames.remove(id));

    assert forall|q: Seq<char>, s2: Seq<char>| #[trigger] has_cell(t2, q, s2) implies cell(
        t2,
        q,
        s2,
    ).len() > 0 by {
        assert(has_cell(t, q, s2));
        assert(cell(t2, q, s2) == cell(t, q, s2));
    }

    assert forall|b: Seq<char>, x: Seq<char>| #[trigger] has_binding(t2, b, x) implies
        has_binding(t, b, x) && binding(t2, b, x) == binding(t, b, x) && !(b == app && x == a) by {}

    assert forall|b: Seq<char>, x: Seq<char>| #[trigger] has_binding(t2, b, x) implies binding(
        t2,
        b,
        x,
    ) != id by {
        if binding(t, b, x) == id {
            assert(t.states[id] == (ClientStateModel::External { address: x, app_id: b }));
        }
    }

    assert forall|q: Seq<char>, s: Seq<char>| !(#[trigger] cell(t2, q, s)).contains(id) by {
        if cell(t2, q, s).contains(id) {
            let w = choose|w: int| 0 <= w < cell(t2, q, s).len() && cell(t2, q, s)[w] == id;
            assert(cell(t, q, s)[w] == id);
            assert(t.states[id] is Browser);
        }
    }

    assert forall|c: Seq<char>| #[trigger] t2.states.contains_key(c) implies (c == id
        || t2.clients.contains(c)) && match t2.states[c] {
        ClientStateModel::Browser { project_id, role_id } => cell(
            t2,
            project_id,
            role_id,
        ).contains(c),
        ClientStateModel::External { address, app_id } => has_binding(t2, app_id, address)
            && binding(t2, app_id, address) == c,
    } by {
        assert(c != id);
        assert(t.states.contains_key(c));
        match t.states[c] {
            ClientStateModel::Browser { project_id: q, role_id: s } => {},
            ClientStateModel::External { address: x, app_id: b } => {
                assert(has_binding(t, b, x) && binding(t, b, x) == c);
                assert(!(b == app && x == a)) by {
                    if b == app && x == a {
                        assert(c == id);
                    }
                }
                if b == app {
                    assert(t.external[app].remove(a).contains_key(x));
                    assert(t.external[app].remove(a).dom().len() > 0) by {
                        broadcast use vstd::set_lib::group_set_properties;
                        assert(t.external[app].remove(a).dom().contains(x));
                        if t.external[app].remove(a).dom().len() == 0 {
                            assert(t.external[app].remove(a).dom().finite());
                            vstd::set_lib::lemma_set_empty_equivalency_len(
                                t.external[app].remove(a).dom(),
                            );
                        }
                    }
                }
            },
        }
    }

    // pruned or kept, the remaining app networks are finite and non-empty
    assert forall|b: Seq<char>| #[trigger] t2.external.contains_key(b) implies
        t2.external[b].dom().finite() && t2.external[b].dom().len() > 0 by {
        let net = t.external[app].remove(a);
        if net.dom().len() == 0 {
            assert(t2.external == t.external.remove(app));
        } else {
            assert(t2.external == t.external.insert(app, net));
            if b == app {
                assert(net.dom() =~= t.external[app].dom().remove(a));
                broadcast use vstd::set_lib::group_set_properties;
            }
        }
    }

    // occupants keep their registration and placements
    assert forall|q: Seq<char>, s: Seq<char>, i: int|
        has_cell(t2, q, s) && 0 <= i < cell(t2, q, s).len() implies (id == #[trigger] cell(
        t2,
        q,
        s,
    )[i] || t2.clients.contains(cell(t2, q, s)[i])) && t2.states.contains_key(cell(t2, q, s)[i])
        && t2.states[cell(t2, q, s)[i]] == (ClientStateModel::Browser {
        project_id: q,
        role_id: s,
    }) by {
        assert(cell(t, q, s)[i] == cell(t2, q, s)[i]);
        assert(cell(t, q, s)[i] != id) by {
            if cell(t, q, s)[i] == id {
                assert(t.states[id] is Browser);
            }
        }
    }

    // surviving bindings keep their registration and placements
    assert forall|b: Seq<char>, x: Seq<char>| #[trigger] has_binding(t2, b, x) implies (binding(
        t2,
        b,
        x,
    ) == id || t2.clients.contains(binding(t2, b, x))) && t2.states.contains_key(binding(t2, b, x))
        && t2.states[binding(t2, b, x)] == (ClientStateModel::External {
        address: x,
        app_id: b,
    }) by {
        assert(has_binding(t, b, x));
        assert(binding(t2, b, x) == binding(t, b, x));
        assert(binding(t, b, x) != id) by {
            if binding(t, b, x) == id {
                assert(t.states[id] == (ClientStateModel::External { address: x, app_id: b }));
            }
        }
    }
}

impl Topology {
    /// The indexes are well-formed maps, with well-formed maps inside.
    pub open spec fn wf(self) -> bool {
        &&& self.clients.wf()
        &&& self.states.wf()
        &&& self.usernames.wf()
        &&& self.rooms.wf()
        &&& self.external.wf()
        &&& forall|p: Seq<char>| #[trigger] self.rooms@.contains_key(p) ==> self.rooms@[p].wf()
        &&& forall|a: Seq<char>| #[trigger] self.external@.contains_key(a)
            ==> self.external@[a].wf()
    }

    pub fn new() -> (r: Topology)
        ensures
            r.wf(),
            model_inv(r@),
            r@ == (TopoModel {
                clients: Set::empty(),
                states: Map::empty(),
                usernames: Map::empty(),
                rooms: Map::empty(),
                external: Map::empty(),
                version: 0,
            }),
    {
        let r = Topology {
            clients: StrMap::new(),
            states: StrMap::new(),
            usernames: StrMap::new(),
            rooms: StrMap::new(),
            external: StrMap::new(),
            version: 0,
        };
        proof {
            assert(r@ =~= TopoModel {
                clients: Set::empty(),
                states: Map::empty(),
                usernames: Map::empty(),
                rooms: Map::empty(),
                external: Map::empty(),
                version: 0,
            });
        }
        r
    }

    /// Registers a connection.  The placement, if any, is untouched; an
    /// existing registration is overwritten.
    pub fn add_client(&mut self, id: String)
        requires
            old(self).wf(),
        ensures
            final(self).wf(),
            final(self)@ == (TopoModel { clients: old(self)@.clients.insert(id@), ..old(self)@ }),
            model_inv(old(self)@) ==> model_inv(final(self)@),
    {
        proof {
            if model_inv(old(self)@) {
                lemma_add_client_inv(old(self)@, id@);
            }
        }
        self.clients.insert(id, true);
        proof {
            assert(final(self)@ =~= TopoModel {
                clients: old(self)@.clients.insert(final(self).clients.entries().last().0@),
                ..old(self)@
            });
        }
    }

    /// Whether a connection is registered.
    pub fn has_client(&self, id: &str) -> (r: bool)
        ensures
            r == self@.clients.contains(id@),
    {
        self.clients.contains_key(id)
    }

    /// Removes the client's prior placement from every index, forgetting
    /// its username and state: the internal transition behind state
    /// changes and disconnects.
    pub fn reset_client_state(&mut self, id: &str) -> (effects: Vec<TopologyEffect>)
        requires
            old(self).wf(),
        ensures
            final(self).wf(),
            final(self)@ == spec_reset(old(self)@, id@).0,
            effect_views(effects@) == spec_reset(old(self)@, id@).1,
            model_inv(old(self)@) ==> model_inv(final(self)@),
    {
        proof {
            if model_inv(old(self)@) {
                lemma_inv_exempt(old(self)@, id@);
                lemma_reset_inv(old(self)@, id@);
                lemma_inv_unexempt(spec_reset(old(self)@, id@).0, id@);
            }
        }
        let ghost t = old(self)@;
        self.usernames.remove(id);
        proof {
            assert(usernames_view(self.usernames@) =~= t.usernames.remove(id@));
        }
        let state = self.states.remove(id);
        proof {
            assert(states_view(self.states@) =~= t.states.remove(id@));
            if state is None {
                assert(!t.states.contains_key(id@));
            } else {
                assert(t.states.contains_key(id@));
                assert(t.states[id@] == state.unwrap()@);
            }
        }
        match state {
            None => {
                let effects: Vec<TopologyEffect> = Vec::new();
                proof {
                    assert(final(self)@ =~= spec_reset(t, id@).0);
                    assert(effect_views(effects@) =~= spec_reset(t, id@).1);
                }
                effects
            },
            Some(ClientState::Browser(bs)) => {
                let ghost p = bs.project_id@;
                let ghost r = bs.role_id@;
                match self.rooms.remove(bs.project_id.as_str()) {
                    None => {
                        let effects: Vec<TopologyEffect> = Vec::new();
                        proof {
                            assert(!t.rooms.contains_key(p));
                            assert(rooms_view(self.rooms@) =~= t.rooms);
                            assert(final(self)@ =~= spec_reset(t, id@).0);
                            assert(effect_views(effects@) =~= spec_reset(t, id@).1);
                        }
                        effects
                    },
                    Some(mut room) => {
                        proof {
                            assert(t.rooms.contains_key(p));
                            assert(room_view(room) == t.rooms[p]);
                            assert(room.wf());
                        }
                        let role_count = room.roles.len();
                        proof {
                            crate::strmap::lemma_map_of_dom_len(room.roles.entries());
                            assert(room_view(room).dom() =~= room.roles@.dom());
                            assert(role_count == t.rooms[p].dom().len());
                        }
                        let mut occ: Vec<String> = match room.roles.remove(bs.role_id.as_str()) {
                            Some(v) => v,
                            None => Vec::new(),
                        };
                        let ghost occ0 = if t.rooms[p].contains_key(r) {
                            t.rooms[p][r]
                        } else {
                            Seq::<Seq<char>>::empty()
                        };
                        proof {
                            assert(occ_views(occ@) =~= occ0);
                        }
                        remove_occupant(&mut occ, id);
                        if occ.is_empty() {
                            if role_count == 1 {
                                // the project has been fully evacuated
                                let mut effects: Vec<TopologyEffect> = Vec::new();
                                effects.push(TopologyEffect::CleanupProject(ProjectId(
                                    bs.project_id.0,
                                )));
                                proof {
                                    assert(rooms_view(self.rooms@) =~= t.rooms.remove(p));
                                    assert(final(self)@ =~= spec_reset(t, id@).0);
                                    assert(effect_views(effects@) =~= spec_reset(t, id@).1);
                                }
                                effects
                            } else {
                                // drop the emptied role, keep the project
                                let key = bs.project_id.0.clone();
                                self.rooms.insert(key, room);
                                let mut effects: Vec<TopologyEffect> = Vec::new();
                                effects.push(TopologyEffect::BroadcastRoom(ProjectId(
                                    bs.project_id.0.clone(),
                                )));
                                proof {
                                    assert(room_view(room) =~= t.rooms[p].remove(r));
                                    assert(rooms_view(self.rooms@) =~= t.rooms.insert(
                                        p,
                                        t.rooms[p].remove(r),
                                    ));
                                    assert(final(self)@ =~= spec_reset(t, id@).0);
                                    assert(effect_views(effects@) =~= spec_reset(t, id@).1);
                                }
                                effects
                            }
                        } else {
                            let ghost occ2 = occ_views(occ@);
                            room.roles.insert(bs.role_id.0, occ);
                            proof {
                                assert(room_view(room) =~= t.rooms[p].insert(r, occ2));
                            }
                            self.rooms.insert(bs.project_id.0.clone(), room);
                            let mut effects: Vec<TopologyEffect> = Vec::new();
                            effects.push(TopologyEffect::BroadcastRoom(ProjectId(
                                bs.project_id.0,
                            )));
                            proof {
                                assert(rooms_view(self.rooms@) =~= t.rooms.insert(
                                    p,
                                    t.rooms[p].insert(r, occ2),
                                ));
                                assert(final(self)@ =~= spec_reset(t, id@).0);
                                assert(effect_views(effects@) =~= spec_reset(t, id@).1);
                            }
                            effects
                        }
                    },
                }
            },
            Some(ClientState::External(es)) => {
                let ghost app = es.app_id@;
                let ghost a = es.address@;
                let effects: Vec<TopologyEffect> = Vec::new();
                match self.external.remove(es.app_id.as_str()) {
                    None => {
                        proof {
                            assert(!t.external.contains_key(app));
                            assert(external_view(self.external@) =~= t.external);
                            assert(final(self)@ =~= spec_reset(t, id@).0);
                            assert(effect_views(effects@) =~= spec_reset(t, id@).1);
                        }
                        effects
                    },
                    Some(mut net) => {
                        proof {
                            assert(net_view(net) == t.external[app]);
                            assert(net.wf());
                        }
                        net.remove(es.address.as_str());
                        proof {
                            assert(net_view(net) =~= t.external[app].remove(a));
                            crate::strmap::lemma_map_of_dom_len(net.entries());
                            assert(net_view(net).dom() =~= net@.dom());
                        }
                        if net.is_empty() {
                            proof {
                                assert(external_view(self.external@) =~= t.external.remove(app));
                                assert(final(self)@ =~= spec_reset(t, id@).0);
                                assert(effect_views(effects@) =~= spec_reset(t, id@).1);
                            }
                            effects
                        } else {
                            self.external.insert(es.app_id.0, net);
                            proof {
                                assert(external_view(self.external@) =~= t.external.insert(
                                    app,
                                    t.external[app].remove(a),
                                ));
                                assert(final(self)@ =~= spec_reset(t, id@).0);
                                assert(effect_views(effects@) =~= spec_reset(t, id@).1);
                            }
                            effects
                        }
                    },
                }
            },
        }
    }
}

/// The room index's own invariant: no empty role list, no project
/// without roles, and every occupant a registered client whose recorded
/// state is exactly that browser placement, once per cell.  Unlike the
/// full invariant this holds of every reachable topology, colliding
/// external placements included, since those touch only the external
/// index.
pub open spec fn room_inv(t: TopoModel) -> bool {
    room_inv_without(t, Seq::empty()) && (forall|p: Seq<char>, r: Seq<char>, i: int|
        #![trigger cell(t, p, r)[i]]
        has_cell(t, p, r) && 0 <= i < cell(t, p, r).len() ==> t.clients.contains(
            cell(t, p, r)[i],
        ))
}

/// The room invariant's structural core, with client registration
/// required of every occupant but `ex`.
pub open spec fn room_inv_without(t: TopoModel, ex: Seq<char>) -> bool {
    &&& t.rooms.dom().finite()
    &&& (forall|p: Seq<char>| #[trigger] t.rooms.contains_key(p) ==> t.rooms[p].dom().finite()
        && t.rooms[p].dom().len() > 0)
    &&& (forall|p: Seq<char>, r: Seq<char>| #[trigger] has_cell(t, p, r)
        ==> cell(t, p, r).len() > 0)
    &&& (forall|p: Seq<char>, r: Seq<char>, i: int, j: int|
        #![trigger cell(t, p, r)[i], cell(t, p, r)[j]]
        has_cell(t, p, r) && 0 <= i < j < cell(t, p, r).len() ==> cell(t, p, r)[i] != cell(
            t,
            p,
            r,
        )[j])
    &&& (forall|p: Seq<char>, r: Seq<char>, i: int|
        #![trigger cell(t, p, r)[i]]
        has_cell(t, p, r) && 0 <= i < cell(t, p, r).len() ==> (ex == cell(t, p, r)[i]
            || t.clients.contains(cell(t, p, r)[i])) && t.states.contains_key(cell(t, p, r)[i])
            && t.states[cell(t, p, r)[i]] == (ClientStateModel::Browser {
            project_id: p,
            role_id: r,
        }))
    &&& (forall|c: Seq<char>| #[trigger] t.states.contains_key(c) && t.states[c] is Browser
        ==> (c == ex || t.clients.contains(c)) && cell(
            t,
            t.states[c].arrow_Browser_project_id(),
            t.states[c].arrow_Browser_role_id(),
        ).contains(c))
}

/// The full invariant includes the room index's own.
pub proof fn lemma_model_inv_room_inv(t: TopoModel)
    requires
        model_inv(t),
    ensures
        room_inv(t),
{
    assert forall|c: Seq<char>| #[trigger] t.states.contains_key(c) && t.states[c] is Browser
        implies (c == Seq::<char>::empty() || t.clients.contains(c)) && cell(
        t,
        t.states[c].arrow_Browser_project_id(),
        t.states[c].arrow_Browser_role_id(),
    ).contains(c) by {
        match t.states[c] {
            ClientStateModel::Browser { project_id, role_id } => {},
            ClientStateModel::External { address, app_id } => {},
        }
    }
}

/// The client occurs in no cell, and its recorded state, if any, is not a
/// browser placement.
pub open spec fn room_scrubbed(t: TopoModel, id: Seq<char>) -> bool {
    &&& !(t.states.contains_key(id) && t.states[id] is Browser)
    &&& (forall|p: Seq<char>, r: Seq<char>| !(#[trigger] cell(t, p, r)).contains(id))
}

/// Resetting a client scrubs it from the room index and preserves the
/// room invariant, whatever the external index holds.
pub proof fn lemma_reset_room_inv(t: TopoModel, id: Seq<char>)
    requires
        room_inv_without(t, id),
    ensures
        room_inv_without(spec_reset(t, id).0, id),
        room_scrubbed(spec_reset(t, id).0, id),
        spec_reset(t, id).0.clients == t.clients,
{
    let t2 = spec_reset(t, id).0;
    if t.states.contains_key(id) && t.states[id] is Browser {
        let p = t.states[id].arrow_Browser_project_id();
        let r = t.states[id].arrow_Browser_role_id();
        prove_reset_room_inv_clauses(t, t2, id, p, r);
    } else {
        assert(t2.rooms == t.rooms);
        assert forall|p: Seq<char>, r: Seq<char>| #[trigger] has_cell(t2, p, r) implies cell(
            t2,
            p,
            r,
        ).len() > 0 by {
            assert(has_cell(t, p, r));
            assert(cell(t2, p, r) == cell(t, p, r));
        }
        assert forall|p: Seq<char>, r: Seq<char>| !(#[trigger] cell(t2, p, r)).contains(id) by {
            if cell(t2, p, r).contains(id) {
                let w = choose|w: int| 0 <= w < cell(t2, p, r).len() && cell(t2, p, r)[w] == id;
                assert(cell(t, p, r)[w] == id);
                assert(t.states[id] is Browser);
            }
        }
        assert forall|p: Seq<char>, r: Seq<char>, i: int|
            has_cell(t2, p, r) && 0 <= i < cell(t2, p, r).len() implies (id == #[trigger] cell(
            t2,
            p,
            r,
        )[i] || t2.clients.contains(cell(t2, p, r)[i])) && t2.states.contains_key(
            cell(t2, p, r)[i],
        ) && t2.states[cell(t2, p, r)[i]] == (ClientStateModel::Browser {
            project_id: p,
            role_id: r,
        }) by {
            assert(cell(t, p, r)[i] == cell(t2, p, r)[i]);
            assert(cell(t, p, r)[i] != id);
        }
        assert forall|c: Seq<char>| #[trigger] t2.states.contains_key(c) && t2.states[c] is Browser
            implies (c == id || t2.clients.contains(c)) && cell(
            t2,
            t2.states[c].arrow_Browser_project_id(),
            t2.states[c].arrow_Browser_role_id(),
        ).contains(c) by {
            assert(t.states.contains_key(c) && t.states[c] == t2.states[c]);
            let q = t.states[c].arrow_Browser_project_id();
            let w = t.states[c].arrow_Browser_role_id();
            assert(cell(t, q, w).contains(c));
            assert(cell(t2, q, w) == cell(t, q, w));
        }
    }
}

/// The room clauses after resetting a browser-placed client.
proof fn prove_reset_room_inv_clauses(
    t: TopoModel,
    t2: TopoModel,
    id: Seq<char>,
    p: Seq<char>,
    r: Seq<char>,
)
    requires
        room_inv_without(t, id),
        t.states.contains_key(id),
        t.states[id] == (ClientStateModel::Browser { project_id: p, role_id: r }),
        t2 == spec_reset(t, id).0,
    ensures
        room_inv_without(t2, id),
        room_scrubbed(t2, id),
        t2.clients == t.clients,
{
    broadcast use vstd::set_lib::group_set_properties;
    assert(cell(t, p, r).contains(id));
    assert(has_cell(t, p, r));
    let room = t.rooms[p];
    let occ = t.rooms[p][r];
    lemma_remove_occ_props(occ, id);
    let occ2 = spec_remove_occ(occ, id);
    assert(t2.states == t.states.remove(id));
    if occ2.len() == 0 && room.dom().len() == 1 {
        assert(room.dom() =~= Set::empty().insert(r)) by {
            if exists|r2: Seq<char>| room.dom().contains(r2) && r2 != r {
                let r2 = choose|r2: Seq<char>| room.dom().contains(r2) && r2 != r;
                assert(Set::empty().insert(r).insert(r2).subset_of(room.dom()));
                vstd::set_lib::lemma_len_subset(Set::empty().insert(r).insert(r2), room.dom());
            }
        }
    }

    assert forall|q: Seq<char>, s: Seq<char>| #[trigger] has_cell(t2, q, s) implies has_cell(
        t,
        q,
        s,
    ) && cell(t2, q, s) == (if q == p && s == r {
        occ2
    } else {
        cell(t, q, s)
    }) by {}

    assert forall|q: Seq<char>, s: Seq<char>| !(#[trigger] cell(t2, q, s)).contains(id) by {
        if cell(t2, q, s).contains(id) {
            let w = choose|w: int| 0 <= w < cell(t2, q, s).len() && cell(t2, q, s)[w] == id;
            if q == p && s == r && has_cell(t2, q, s) {
                assert(occ2[w] != id);
            } else if has_cell(t2, q, s) {
                assert(cell(t, q, s)[w] == id);
                assert(t.states[id] == (ClientStateModel::Browser { project_id: q, role_id: s }));
            }
        }
    }

    assert forall|q: Seq<char>, s: Seq<char>, i: int|
        has_cell(t2, q, s) && 0 <= i < cell(t2, q, s).len() implies (id == #[trigger] cell(
        t2,
        q,
        s,
    )[i] || t2.clients.contains(cell(t2, q, s)[i])) && t2.states.contains_key(cell(t2, q, s)[i])
        && t2.states[cell(t2, q, s)[i]] == (ClientStateModel::Browser {
        project_id: q,
        role_id: s,
    }) by {
        let c = cell(t2, q, s)[i];
        if q == p && s == r {
            assert(occ.contains(c));
            let w = choose|w: int| 0 <= w < occ.len() && occ[w] == c;
            assert(cell(t, p, r)[w] == c);
            assert(c != id);
        } else {
            assert(cell(t, q, s)[i] == c);
            assert(c != id) by {
                if c == id {
                    assert(t.states[id] == (ClientStateModel::Browser {
                        project_id: q,
                        role_id: s,
                    }));
                }
            }
        }
    }

    assert forall|c: Seq<char>| #[trigger] t2.states.contains_key(c) && t2.states[c] is Browser
        implies (c == id || t2.clients.contains(c)) && cell(
        t2,
        t2.states[c].arrow_Browser_project_id(),
        t2.states[c].arrow_Browser_role_id(),
    ).contains(c) by {
        assert(c != id);
        assert(t.states.contains_key(c));
        let q = t.states[c].arrow_Browser_project_id();
        let s = t.states[c].arrow_Browser_role_id();
        assert(cell(t, q, s).contains(c));
        if q == p && s == r {
            assert(occ2.contains(c));
        } else {
            assert(cell(t2, q, s) == cell(t, q, s));
        }
    }
}

/// Placing a client that no cell holds preserves the room invariant; an
/// external placement leaves the room index untouched.
pub proof fn lemma_place_room_inv(
    t: TopoModel,
    id: Seq<char>,
    s: ClientStateModel,
    u: Option<Seq<char>>,
)
    requires
        room_inv_without(t, id),
        t.clients.contains(id),
        room_scrubbed(t, id),
    ensures
        room_inv_without(spec_place(t, id, s, u).0, id),
        forall|p: Seq<char>, r: Seq<char>, i: int|
            #![trigger cell(spec_place(t, id, s, u).0, p, r)[i]]
            has_cell(spec_place(t, id, s, u).0, p, r) && 0 <= i < cell(
                spec_place(t, id, s, u).0,
                p,
                r,
            ).len() ==> spec_place(t, id, s, u).0.clients.contains(
                cell(spec_place(t, id, s, u).0, p, r)[i],
            ),
{
    broadcast use vstd::set_lib::group_set_properties;
    let t3 = spec_place(t, id, s, u).0;
    match s {
        ClientStateModel::Browser { project_id: p, role_id: r } => {
            let room = if t.rooms.contains_key(p) {
                t.rooms[p]
            } else {
                Map::<Seq<char>, Seq<Seq<char>>>::empty()
            };
            let occ = if room.contains_key(r) {
                room[r]
            } else {
                Seq::<Seq<char>>::empty()
            };
            assert(!occ.contains(id)) by {
                if t.rooms.contains_key(p) && room.contains_key(r) {
                    assert(!cell(t, p, r).contains(id));
                }
            }
            let occ3 = occ.push(id);
            assert(t3.rooms == t.rooms.insert(p, room.insert(r, occ3)));

            assert forall|q: Seq<char>| #[trigger] t3.rooms.contains_key(q) implies
                t3.rooms[q].dom().finite() && t3.rooms[q].dom().len() > 0 by {
                if q == p {
                    if t.rooms.contains_key(p) {
                        assert(t3.rooms[q].dom() =~= t.rooms[p].dom().insert(r));
                    } else {
                        assert(t3.rooms[q].dom() =~= Set::empty().insert(r));
                    }
                }
            }

            assert forall|q: Seq<char>, w: Seq<char>| #[trigger] has_cell(t3, q, w) implies cell(
                t3,
                q,
                w,
            ).len() > 0 && cell(t3, q, w) == (if q == p && w == r {
                occ3
            } else {
                cell(t, q, w)
            }) && (!(q == p && w == r) ==> has_cell(t, q, w)) by {
                if q == p && w == r {
                    assert(cell(t3, q, w) == occ3);
                } else {
                    assert(has_cell(t, q, w));
                    assert(cell(t3, q, w) == cell(t, q, w));
                    assert(cell(t, q, w).len() > 0);
                }
            }

            assert forall|q: Seq<char>, w: Seq<char>, i: int, j: int|
                has_cell(t3, q, w) && 0 <= i < j < cell(t3, q, w).len() implies #[trigger] cell(
                t3,
                q,
                w,
            )[i] != #[trigger] cell(t3, q, w)[j] by {
                if q == p && w == r {
                    if j == occ3.len() - 1 {
                        assert(occ3[j] == id);
                        assert(occ3[i] == occ[i]);
                        assert(occ.contains(occ[i]));
                    } else {
                        assert(has_cell(t, p, r));
                        assert(cell(t, p, r)[i] == occ3[i]);
                        assert(cell(t, p, r)[j] == occ3[j]);
                    }
                } else {
                    assert(cell(t, q, w)[i] == cell(t3, q, w)[i]);
                    assert(cell(t, q, w)[j] == cell(t3, q, w)[j]);
                }
            }

            assert forall|q: Seq<char>, w: Seq<char>, i: int|
                has_cell(t3, q, w) && 0 <= i < cell(t3, q, w).len() implies t3.clients.contains(
                #[trigger] cell(t3, q, w)[i],
            ) && t3.states.contains_key(cell(t3, q, w)[i]) && t3.states[cell(t3, q, w)[i]]
                == (ClientStateModel::Browser { project_id: q, role_id: w }) by {
                let c = cell(t3, q, w)[i];
                if q == p && w == r {
                    if i == occ3.len() - 1 {
                    } else {
                        assert(cell(t, p, r)[i] == c);
                        assert(c != id);
                    }
                } else {
                    assert(cell(t, q, w)[i] == c);
                    assert(c != id);
                }
            }

            assert forall|c: Seq<char>| #[trigger] t3.states.contains_key(c) && t3.states[c]
                is Browser implies (c == id || t3.clients.contains(c)) && cell(
                t3,
                t3.states[c].arrow_Browser_project_id(),
                t3.states[c].arrow_Browser_role_id(),
            ).contains(c) by {
                if c == id {
                    assert(cell(t3, p, r) == occ3);
                    assert(occ3[occ3.len() - 1] == id);
                } else {
                    assert(t.states.contains_key(c) && t.states[c] == t3.states[c]);
                    let q = t.states[c].arrow_Browser_project_id();
                    let w = t.states[c].arrow_Browser_role_id();
                    assert(cell(t, q, w).contains(c));
                    if q == p && w == r {
                        let x = choose|x: int|
                            0 <= x < cell(t, p, r).len() && cell(t, p, r)[x] == c;
                        assert(occ3[x] == c);
                    } else {
                        assert(cell(t3, q, w) == cell(t, q, w));
                    }
                }
            }
        },
        ClientStateModel::External { address: a, app_id: app } => {
            assert(t3.rooms == t.rooms);
            assert forall|q: Seq<char>, w: Seq<char>| #[trigger] has_cell(t3, q, w) implies cell(
                t3,
                q,
                w,
            ).len() > 0 by {
                assert(has_cell(t, q, w));
                assert(cell(t3, q, w) == cell(t, q, w));
            }
            assert forall|q: Seq<char>, w: Seq<char>, i: int|
                has_cell(t3, q, w) && 0 <= i < cell(t3, q, w).len() implies t3.clients.contains(
                #[trigger] cell(t3, q, w)[i],
            ) && t3.states.contains_key(cell(t3, q, w)[i]) && t3.states[cell(t3, q, w)[i]]
                == (ClientStateModel::Browser { project_id: q, role_id: w }) by {
                assert(cell(t, q, w)[i] == cell(t3, q, w)[i]);
                assert(cell(t, q, w)[i] != id);
            }
            assert forall|c: Seq<char>| #[trigger] t3.states.contains_key(c) && t3.states[c]
                is Browser implies (c == id || t3.clients.contains(c)) && cell(
                t3,
                t3.states[c].arrow_Browser_project_id(),
                t3.states[c].arrow_Browser_role_id(),
            ).contains(c) by {
                assert(c != id);
                assert(t.states.contains_key(c) && t.states[c] == t3.states[c]);
                let q = t.states[c].arrow_Browser_project_id();
                let w = t.states[c].arrow_Browser_role_id();
                assert(cell(t, q, w).contains(c));
                assert(cell(t3, q, w) == cell(t, q, w));
            }
        },
    }
}

/// Every topology command preserves the room index's invariant, colliding
/// placements included: with the empty initial state, the room index of
/// every reachable topology is consistent.
pub proof fn lemma_set_client_state_room_inv(
    t: TopoModel,
    id: Seq<char>,
    s: ClientStateModel,
    u: Option<Seq<char>>,
)
    requires
        room_inv(t),
    ensures
        room_inv(spec_set_client_state(t, id, s, u).0),
{
    if t.clients.contains(id) {
        lemma_reset_room_inv(t, id);
        let t1 = spec_reset(t, id).0;
        lemma_place_room_inv(t1, id, s, u);
        let t3 = spec_place(t1, id, s, u).0;
        assert forall|p: Seq<char>, r: Seq<char>, i: int|
            has_cell(t3, p, r) && 0 <= i < cell(t3, p, r).len() implies t3.clients.contains(
            #[trigger] cell(t3, p, r)[i],
        ) by {}
    }
}

/// A disconnect preserves the room index's invariant.
pub proof fn lemma_remove_client_room_inv(t: TopoModel, id: Seq<char>)
    requires
        room_inv(t),
    ensures
        room_inv(spec_remove_client(t, id).0),
{
    let tp = TopoModel { clients: t.clients.remove(id), ..t };
    assert(room_inv_without(tp, id)) by {
        assert forall|p: Seq<char>, r: Seq<char>| #[trigger] has_cell(tp, p, r) implies cell(
            tp,
            p,
            r,
        ).len() > 0 by {
            assert(has_cell(t, p, r));
            assert(cell(tp, p, r) == cell(t, p, r));
        }
        assert forall|p: Seq<char>, r: Seq<char>, i: int|
            has_cell(tp, p, r) && 0 <= i < cell(tp, p, r).len() implies (id == #[trigger] cell(
            tp,
            p,
            r,
        )[i] || tp.clients.contains(cell(tp, p, r)[i])) && tp.states.contains_key(
            cell(tp, p, r)[i],
        ) && tp.states[cell(tp, p, r)[i]] == (ClientStateModel::Browser {
            project_id: p,
            role_id: r,
        }) by {
            assert(cell(tp, p, r) == cell(t, p, r));
        }
        assert forall|c: Seq<char>| #[trigger] tp.states.contains_key(c) && tp.states[c]
            is Browser implies (c == id || tp.clients.contains(c)) && cell(
            tp,
            tp.states[c].arrow_Browser_project_id(),
            tp.states[c].arrow_Browser_role_id(),
        ).contains(c) by {
            let q = t.states[c].arrow_Browser_project_id();
            let w = t.states[c].arrow_Browser_role_id();
            assert(cell(t, q, w).contains(c));
            assert(cell(tp, q, w) == cell(t, q, w));
        }
    }
    lemma_reset_room_inv(tp, id);
    let t2 = spec_reset(tp, id).0;
    assert forall|p: Seq<char>, r: Seq<char>, i: int|
        has_cell(t2, p, r) && 0 <= i < cell(t2, p, r).len() implies t2.clients.contains(
        #[trigger] cell(t2, p, r)[i],
    ) by {
        assert(!cell(t2, p, r).contains(id));
        assert(cell(t2, p, r)[i] != id);
    }
}

/// Registering a connection preserves the room index's invariant.
pub proof fn lemma_add_client_room_inv(t: TopoModel, id: Seq<char>)
    requires
        room_inv(t),
    ensures
        room_inv(TopoModel { clients: t.clients.insert(id), ..t }),
{
    let t2 = TopoModel { clients: t.clients.insert(id), ..t };
    assert forall|p: Seq<char>, r: Seq<char>| #[trigger] has_cell(t2, p, r) implies cell(
        t2,
        p,
        r,
    ).len() > 0 by {
        assert(has_cell(t, p, r));
        assert(cell(t2, p, r) == cell(t, p, r));
    }
    assert forall|p: Seq<char>, r: Seq<char>, i: int|
        has_cell(t2, p, r) && 0 <= i < cell(t2, p, r).len() implies t2.clients.contains(
        #[trigger] cell(t2, p, r)[i],
    ) && t2.states.contains_key(cell(t2, p, r)[i]) && t2.states[cell(t2, p, r)[i]]
        == (ClientStateModel::Browser { project_id: p, role_id: r }) by {
        assert(cell(t2, p, r) == cell(t, p, r));
    }
    assert forall|c: Seq<char>| #[trigger] t2.states.contains_key(c) && t2.states[c] is Browser
        implies (c == Seq::<char>::empty() || t2.clients.contains(c)) && cell(
        t2,
        t2.states[c].arrow_Browser_project_id(),
        t2.states[c].arrow_Browser_role_id(),
    ).contains(c) by {
        let q = t.states[c].arrow_Browser_project_id();
        let w = t.states[c].arrow_Browser_role_id();
        assert(cell(t, q, w).contains(c));
        assert(cell(t2, q, w) == cell(t, q, w));
    }
}

/// One project's occupancy with every trace of a client removed: each
/// cell swap-removed, emptied cells dropped.
pub open spec fn spec_scrub_room(room: Map<Seq<char>, Seq<Seq<char>>>, id: Seq<char>) -> Map<
    Seq<char>,
    Seq<Seq<char>>,
> {
    Map::new(
        |r: Seq<char>| room.contains_key(r) && spec_remove_occ(room[r], id).len() > 0,
        |r: Seq<char>| spec_remove_occ(room[r], id),
    )
}

/// One app network with every binding of a client removed.
pub open spec fn spec_scrub_net(net: Map<Seq<char>, Seq<char>>, id: Seq<char>) -> Map<
    Seq<char>,
    Seq<char>,
> {
    Map::new(|a: Seq<char>| net.contains_key(a) && net[a] != id, |a: Seq<char>| net[a])
}

/// The topology with the client removed entirely: its state and username
/// forgotten, every cell swap-removed and pruned, every binding of it
/// unbound and pruned.
pub open spec fn spec_scrub(t: TopoModel, id: Seq<char>) -> TopoModel {
    TopoModel {
        clients: t.clients,
        states: t.states.remove(id),
        usernames: t.usernames.remove(id),
        rooms: Map::new(
            |p: Seq<char>|
                t.rooms.contains_key(p) && spec_scrub_room(t.rooms[p], id).dom().len() > 0,
            |p: Seq<char>| spec_scrub_room(t.rooms[p], id),
        ),
        external: Map::new(
            |app: Seq<char>|
                t.external.contains_key(app) && spec_scrub_net(t.external[app], id).dom().len()
                    > 0,
            |app: Seq<char>| spec_scrub_net(t.external[app], id),
        ),
        version: t.version,
    }
}

/// Under the invariant, resetting a client's placement leaves exactly
/// the indices of removing the client entirely: the reset touches only
/// the one cell or binding the client held.
pub proof fn lemma_reset_is_scrub(t: TopoModel, id: Seq<char>)
    requires
        model_inv(t),
    ensures
        spec_reset(t, id).0 == spec_scrub(t, id),
{
    broadcast use vstd::set_lib::group_set_properties;
    let t2 = spec_reset(t, id).0;
    let ts = spec_scrub(t, id);

    // a cell holds the client only when the client's state names it
    assert forall|p: Seq<char>, r: Seq<char>|
        has_cell(t, p, r) && !(t.states.contains_key(id) && t.states[id]
            == (ClientStateModel::Browser { project_id: p, role_id: r })) implies !(
    #[trigger] cell(t, p, r)).contains(id) by {
        if cell(t, p, r).contains(id) {
            let w = choose|w: int| 0 <= w < cell(t, p, r).len() && cell(t, p, r)[w] == id;
            assert(t.states[cell(t, p, r)[w]] == (ClientStateModel::Browser {
                project_id: p,
                role_id: r,
            }));
        }
    }

    // an untouched project scrubs to itself
    assert forall|p: Seq<char>| t.rooms.contains_key(p) && !(t.states.contains_key(id)
        && t.states[id] is Browser && t.states[id].arrow_Browser_project_id() == p) implies
        #[trigger] spec_scrub_room(t.rooms[p], id) == t.rooms[p] by {
        let room = t.rooms[p];
        assert forall|r: Seq<char>| #[trigger] room.contains_key(r) implies spec_remove_occ(
            room[r],
            id,
        ) == room[r] && room[r].len() > 0 by {
            assert(has_cell(t, p, r));
            assert(cell(t, p, r) == room[r]);
            assert(!room[r].contains(id));
            lemma_occ_index_props(room[r], id, 0);
            if spec_occ_index(room[r], id, 0) is Some {
                let w = spec_occ_index(room[r], id, 0).unwrap();
                assert(room[r][w as int] == id);
                assert(room[r].contains(id));
            }
        }
        assert(spec_scrub_room(room, id) =~= room);
    }

    // an untouched app network scrubs to itself
    assert forall|app: Seq<char>| t.external.contains_key(app) && !(t.states.contains_key(id)
        && t.states[id] is External && t.states[id].arrow_External_app_id() == app) implies
        #[trigger] spec_scrub_net(t.external[app], id) == t.external[app] by {
        let net = t.external[app];
        assert forall|a: Seq<char>| #[trigger] net.contains_key(a) implies net[a] != id by {
            assert(has_binding(t, app, a));
            if binding(t, app, a) == id {
                assert(t.states[id] == (ClientStateModel::External { address: a, app_id: app }));
            }
        }
        assert(spec_scrub_net(net, id) =~= net);
    }

    if !t.states.contains_key(id) {
        assert(ts.rooms =~= t.rooms) by {
            assert forall|p: Seq<char>| #[trigger] t.rooms.contains_key(p) implies
                spec_scrub_room(t.rooms[p], id) == t.rooms[p] && spec_scrub_room(
                t.rooms[p],
                id,
            ).dom().len() > 0 by {}
        }
        assert(ts.external =~= t.external) by {
            assert forall|app: Seq<char>| #[trigger] t.external.contains_key(app) implies
                spec_scrub_net(t.external[app], id) == t.external[app] && spec_scrub_net(
                t.external[app],
                id,
            ).dom().len() > 0 by {}
        }
        assert(t2 =~= ts);
    } else {
        match t.states[id] {
            ClientStateModel::Browser { project_id: p, role_id: r } => {
                assert(cell(t, p, r).contains(id));
                assert(has_cell(t, p, r));
                let room = t.rooms[p];
                let occ = room[r];
                lemma_remove_occ_props(occ, id);
                let occ2 = spec_remove_occ(occ, id);
                assert forall|r2: Seq<char>| #[trigger] room.contains_key(r2) && r2 != r implies
                    spec_remove_occ(room[r2], id) == room[r2] && room[r2].len() > 0 by {
                    assert(has_cell(t, p, r2));
                    assert(cell(t, p, r2) == room[r2]);
                    assert(!room[r2].contains(id));
                    lemma_occ_index_props(room[r2], id, 0);
                    if spec_occ_index(room[r2], id, 0) is Some {
                        let w = spec_occ_index(room[r2], id, 0).unwrap();
                        assert(room[r2][w as int] == id);
                    }
                }
                if occ2.len() == 0 {
                    if room.dom().len() == 1 {
                        assert(room.dom() =~= Set::empty().insert(r)) by {
                            if exists|r2: Seq<char>| room.dom().contains(r2) && r2 != r {
                                let r2 = choose|r2: Seq<char>|
                                    room.dom().contains(r2) && r2 != r;
                                assert(Set::empty().insert(r).insert(r2).subset_of(room.dom()));
                                vstd::set_lib::lemma_len_subset(
                                    Set::empty().insert(r).insert(r2),
                                    room.dom(),
                                );
                            }
                        }
                        assert(spec_scrub_room(room, id).dom() =~= Set::<Seq<char>>::empty());
                        assert(ts.rooms =~= t.rooms.remove(p));
                        assert(ts.external =~= t.external);
                        assert(t2 =~= ts);
                    } else {
                        assert(spec_scrub_room(room, id) =~= room.remove(r));
                        assert(spec_scrub_room(room, id).dom() =~= room.dom().remove(r));
                        assert(room.dom().remove(r).len() == room.dom().len() - 1);
                        assert(ts.rooms =~= t.rooms.insert(p, room.remove(r)));
                        assert(ts.external =~= t.external);
                        assert(t2 =~= ts);
                    }
                } else {
                    assert(spec_scrub_room(room, id) =~= room.insert(r, occ2));
                    assert(spec_scrub_room(room, id).dom() =~= room.dom().insert(r));
                    assert(ts.rooms =~= t.rooms.insert(p, room.insert(r, occ2)));
                    assert(ts.external =~= t.external);
                    assert(t2 =~= ts);
                }
            },
            ClientStateModel::External { address: a, app_id: app } => {
                assert(has_binding(t, app, a));
                assert(binding(t, app, a) == id);
                let net = t.external[app];
                assert forall|a2: Seq<char>| #[trigger] net.contains_key(a2) && a2 != a implies
                    net[a2] != id by {
                    assert(has_binding(t, app, a2));
                    if binding(t, app, a2) == id {
                        assert(t.states[id] == (ClientStateModel::External {
                            address: a2,
                            app_id: app,
                        }));
                    }
                }
                assert(spec_scrub_net(net, id) =~= net.remove(a));
                let net2 = net.remove(a);
                assert(net2.dom() =~= net.dom().remove(a));
                assert(net2.dom().len() == net.dom().len() - 1);
                if net2.dom().len() == 0 {
                    assert(ts.external =~= t.external.remove(app));
                    assert(ts.rooms =~= t.rooms);
                    assert(t2 =~= ts);
                } else {
                    assert(ts.external =~= t.external.insert(app, net2));
                    assert(ts.rooms =~= t.rooms);
                    assert(t2 =~= ts);
                }
            },
        }
    }
}

/// A state change for a registered client leaves the indices equal to
/// removing the client entirely and then placing it with the new state:
/// the reset before installation erases exactly the client.
pub proof fn lemma_set_state_is_scrub_then_place(
    t: TopoModel,
    id: Seq<char>,
    s: ClientStateModel,
    u: Option<Seq<char>>,
)
    requires
        model_inv(t),
        t.clients.contains(id),
    ensures
        spec_set_client_state(t, id, s, u).0 == spec_place(spec_scrub(t, id), id, s, u).0,
{
    lemma_reset_is_scrub(t, id);
}

/// The full invariant is the structural core with every client
/// registered; nothing is special about the exempted identifier once the
/// indexes hold no trace of it.
pub proof fn lemma_inv_unexempt(t: TopoModel, id: Seq<char>)
    requires
        model_inv_without(t, id),
        spec_scrubbed(t, id),
    ensures
        model_inv(t),
{
    assert forall|p: Seq<char>, r: Seq<char>, i: int|
        has_cell(t, p, r) && 0 <= i < cell(t, p, r).len() implies t.clients.contains(
        #[trigger] cell(t, p, r)[i],
    ) by {
        assert(!cell(t, p, r).contains(id));
        assert(cell(t, p, r)[i] != id);
    }
    assert forall|app: Seq<char>, a: Seq<char>| #[trigger] has_binding(t, app, a) implies
        t.clients.contains(binding(t, app, a)) by {
        assert(binding(t, app, a) != id);
    }
}

/// The structural core is monotone in the exemption.
pub proof fn lemma_inv_exempt(t: TopoModel, id: Seq<char>)
    requires
        model_inv(t),
    ensures
        model_inv_without(t, id),
{
}

/// Placing a client that no index holds preserves the invariant, as long
/// as an external placement does not collide with an existing binding.
pub proof fn lemma_place_inv(
    t: TopoModel,
    id: Seq<char>,
    s: ClientStateModel,
    u: Option<Seq<char>>,
)
    requires
        model_inv(t),
        t.clients.contains(id),
        spec_scrubbed(t, id),
        match s {
            ClientStateModel::Browser { project_id, role_id } => true,
            ClientStateModel::External { address, app_id } => !has_binding(t, app_id, address),
        },
    ensures
        model_inv(spec_place(t, id, s, u).0),
{
    let t3 = spec_place(t, id, s, u).0;
    broadcast use vstd::set_lib::group_set_properties;
    match s {
        ClientStateModel::Browser { project_id: p, role_id: r } => {
            let room = if t.rooms.contains_key(p) {
                t.rooms[p]
            } else {
                Map::<Seq<char>, Seq<Seq<char>>>::empty()
            };
            let occ = if room.contains_key(r) {
                room[r]
            } else {
                Seq::<Seq<char>>::empty()
            };
            assert(!occ.contains(id)) by {
                if t.rooms.contains_key(p) && room.contains_key(r) {
                    assert(!cell(t, p, r).contains(id));
                }
            }
            let occ3 = occ.push(id);
            assert(t3.rooms == t.rooms.insert(p, room.insert(r, occ3)));

            assert forall|q: Seq<char>| #[trigger] t3.rooms.contains_key(q) implies
                t3.rooms[q].dom().finite() && t3.rooms[q].dom().len() > 0 by {
                if q == p {
                    if t.rooms.contains_key(p) {
                        assert(t3.rooms[q].dom() =~= t.rooms[p].dom().insert(r));
                    } else {
                        assert(t3.rooms[q].dom() =~= Set::empty().insert(r));
                    }
                }
            }

            assert forall|q: Seq<char>, w: Seq<char>| #[trigger] has_cell(t3, q, w) implies cell(
                t3,
                q,
                w,
            ).len() > 0 && cell(t3, q, w) == (if q == p && w == r {
                occ3
            } else {
                cell(t, q, w)
            }) && (!(q == p && w == r) ==> has_cell(t, q, w)) by {
                if q == p && w == r {
                    assert(cell(t3, q, w) == occ3);
                } else {
                    assert(has_cell(t, q, w));
                    assert(cell(t3, q, w) == cell(t, q, w));
                    assert(cell(t, q, w).len() > 0);
                }
            }

            assert forall|q: Seq<char>, w: Seq<char>, i: int, j: int|
                has_cell(t3, q, w) && 0 <= i < j < cell(t3, q, w).len() implies #[trigger] cell(
                t3,
                q,
                w,
            )[i] != #[trigger] cell(t3, q, w)[j] by {
                if q == p && w == r {
                    if j == occ3.len() - 1 {
                        assert(occ3[j] == id);
                        assert(occ3[i] == occ[i]);
                        assert(occ.contains(occ[i]));
                    } else {
                        assert(has_cell(t, p, r));
                        assert(cell(t, p, r)[i] == occ3[i]);
                        assert(cell(t, p, r)[j] == occ3[j]);
                    }
                } else {
                    assert(cell(t, q, w)[i] == cell(t3, q, w)[i]);
                    assert(cell(t, q, w)[j] == cell(t3, q, w)[j]);
                }
            }

            assert forall|q: Seq<char>, w: Seq<char>, i: int|
                has_cell(t3, q, w) && 0 <= i < cell(t3, q, w).len() implies t3.clients.contains(
                #[trigger] cell(t3, q, w)[i],
            ) && t3.states.contains_key(cell(t3, q, w)[i]) && t3.states[cell(t3, q, w)[i]]
                == (ClientStateModel::Browser { project_id: q, role_id: w }) by {
                let c = cell(t3, q, w)[i];
                if q == p && w == r {
                    if i == occ3.len() - 1 {
                    } else {
                        assert(cell(t, p, r)[i] == c);
                        assert(c != id);
                    }
                } else {
                    assert(cell(t, q, w)[i] == c);
                    assert(c != id);
                }
            }

            assert forall|c: Seq<char>| #[trigger] t3.states.contains_key(c) implies
                t3.clients.contains(c) && match t3.states[c] {
                ClientStateModel::Browser { project_id: q, role_id: w } => cell(
                    t3,
                    q,
                    w,
                ).contains(c),
                ClientStateModel::External { address, app_id } => has_binding(t3, app_id, address)
                    && binding(t3, app_id, address) == c,
            } by {
                if c == id {
                    assert(cell(t3, p, r) == occ3);
                    assert(occ3[occ3.len() - 1] == id);
                } else {
                    assert(t.states.contains_key(c));
                    match t.states[c] {
                        ClientStateModel::Browser { project_id: q, role_id: w } => {
                            assert(cell(t, q, w).contains(c));
                            if q == p && w == r {
                                let x = choose|x: int|
                                    0 <= x < cell(t, p, r).len() && cell(t, p, r)[x] == c;
                                assert(occ3[x] == c);
                            } else {
                                assert(cell(t3, q, w) == cell(t, q, w));
                            }
                        },
                        ClientStateModel::External { address, app_id } => {},
                    }
                }
            }

            assert forall|app: Seq<char>, a: Seq<char>| #[trigger] has_binding(t3, app, a) implies
                t3.clients.contains(binding(t3, app, a)) && t3.states.contains_key(
                binding(t3, app, a),
            ) && t3.states[binding(t3, app, a)] == (ClientStateModel::External {
                address: a,
                app_id: app,
            }) by {
                assert(has_binding(t, app, a));
                assert(binding(t3, app, a) == binding(t, app, a));
                assert(binding(t, app, a) != id);
            }
        },
        ClientStateModel::External { address: a, app_id: app } => {
            let net = if t.external.contains_key(app) {
                t.external[app]
            } else {
                Map::<Seq<char>, Seq<char>>::empty()
            };
            let net3 = net.insert(a, id);
            assert(t3.external == t.external.insert(app, net3));

            assert forall|b: Seq<char>| #[trigger] t3.external.contains_key(b) implies
                t3.external[b].dom().finite() && t3.external[b].dom().len() > 0 by {
                if b == app {
                    if t.external.contains_key(app) {
                        assert(t3.external[b].dom() =~= t.external[app].dom().insert(a));
                    } else {
                        assert(t3.external[b].dom() =~= Set::empty().insert(a));
                    }
                }
            }

            assert forall|b: Seq<char>, x: Seq<char>| #[trigger] has_binding(t3, b, x) implies
                binding(t3, b, x) == (if b == app && x == a {
                id
            } else {
                binding(t, b, x)
            }) && (!(b == app && x == a) ==> has_binding(t, b, x)) by {}

            assert forall|b: Seq<char>, x: Seq<char>| #[trigger] has_binding(t3, b, x) implies
                t3.clients.contains(binding(t3, b, x)) && t3.states.contains_key(
                binding(t3, b, x),
            ) && t3.states[binding(t3, b, x)] == (ClientStateModel::External {
                address: x,
                app_id: b,
            }) by {
                if !(b == app && x == a) {
                    assert(has_binding(t, b, x));
                    assert(binding(t, b, x) != id);
                }
            }

            assert forall|q: Seq<char>, w: Seq<char>, i: int|
                has_cell(t3, q, w) && 0 <= i < cell(t3, q, w).len() implies t3.clients.contains(
                #[trigger] cell(t3, q, w)[i],
            ) && t3.states.contains_key(cell(t3, q, w)[i]) && t3.states[cell(t3, q, w)[i]]
                == (ClientStateModel::Browser { project_id: q, role_id: w }) by {
                assert(cell(t3, q, w) == cell(t, q, w));
                assert(cell(t, q, w)[i] != id);
            }

            assert forall|q: Seq<char>, w: Seq<char>| #[trigger] has_cell(t3, q, w) implies cell(
                t3,
                q,
                w,
            ).len() > 0 by {
                assert(has_cell(t, q, w));
                assert(cell(t3, q, w) == cell(t, q, w));
            }

            assert forall|c: Seq<char>| #[trigger] t3.states.contains_key(c) implies
                t3.clients.contains(c) && match t3.states[c] {
                ClientStateModel::Browser { project_id: q, role_id: w } => cell(
                    t3,
                    q,
                    w,
                ).contains(c),
                ClientStateModel::External { address: x, app_id: b } => has_binding(t3, b, x)
                    && binding(t3, b, x) == c,
            } by {
                if c == id {
                } else {
                    assert(t.states.contains_key(c));
                    match t.states[c] {
                        ClientStateModel::Browser { project_id: q, role_id: w } => {
                            assert(cell(t, q, w).contains(c));
                            assert(cell(t3, q, w) == cell(t, q, w));
                        },
                        ClientStateModel::External { address: x, app_id: b } => {
                            assert(has_binding(t, b, x) && binding(t, b, x) == c);
                            assert(!(b == app && x == a));
                        },
                    }
                }
            }
        },
    }
}

/// A state change preserves the invariant whenever it does not collide;
/// together with [`lemma_remove_client_inv`], [`lemma_add_client_inv`]
/// and the empty initial state this shows the invariant of every
/// reachable topology.
pub proof fn lemma_set_client_state_inv(
    t: TopoModel,
    id: Seq<char>,
    s: ClientStateModel,
    u: Option<Seq<char>>,
)
    requires
        model_inv(t),
        spec_no_collision(t, id, s),
    ensures
        model_inv(spec_set_client_state(t, id, s, u).0),
{
    if t.clients.contains(id) {
        lemma_inv_exempt(t, id);
        lemma_reset_inv(t, id);
        let t1 = spec_reset(t, id).0;
        lemma_inv_unexempt(t1, id);
        lemma_place_inv(t1, id, s, u);
    }
}

/// A disconnect preserves the invariant.
pub proof fn lemma_remove_client_inv(t: TopoModel, id: Seq<char>)
    requires
        model_inv(t),
    ensures
        model_inv(spec_remove_client(t, id).0),
{
    let tp = TopoModel { clients: t.clients.remove(id), ..t };
    assert(model_inv_without(tp, id)) by {
        assert forall|p: Seq<char>, r: Seq<char>, i: int|
            has_cell(tp, p, r) && 0 <= i < cell(tp, p, r).len() implies (id == #[trigger] cell(
            tp,
            p,
            r,
        )[i] || tp.clients.contains(cell(tp, p, r)[i])) && tp.states.contains_key(
            cell(tp, p, r)[i],
        ) && tp.states[cell(tp, p, r)[i]] == (ClientStateModel::Browser {
            project_id: p,
            role_id: r,
        }) by {
            assert(cell(tp, p, r) == cell(t, p, r));
        }
        assert forall|app: Seq<char>, a: Seq<char>| #[trigger] has_binding(tp, app, a) implies
            (binding(tp, app, a) == id || tp.clients.contains(binding(tp, app, a)))
            && tp.states.contains_key(binding(tp, app, a)) && tp.states[binding(tp, app, a)]
            == (ClientStateModel::External { address: a, app_id: app }) by {
            assert(has_binding(t, app, a));
        }
        assert forall|p: Seq<char>, r: Seq<char>| #[trigger] has_cell(tp, p, r) implies cell(
            tp,
            p,
            r,
        ).len() > 0 by {
            assert(has_cell(t, p, r));
            assert(cell(tp, p, r) == cell(t, p, r));
        }
    }
    lemma_reset_inv(tp, id);
    lemma_inv_unexempt(spec_reset(tp, id).0, id);
}

/// Registering a connection preserves the invariant.
pub proof fn lemma_add_client_inv(t: TopoModel, id: Seq<char>)
    requires
        model_inv(t),
    ensures
        model_inv(TopoModel { clients: t.clients.insert(id), ..t }),
{
    let t2 = TopoModel { clients: t.clients.insert(id), ..t };
    assert forall|p: Seq<char>, r: Seq<char>| #[trigger] has_cell(t2, p, r) implies cell(
        t2,
        p,
        r,
    ).len() > 0 by {
        assert(has_cell(t, p, r));
        assert(cell(t2, p, r) == cell(t, p, r));
    }
    assert forall|p: Seq<char>, r: Seq<char>, i: int|
        has_cell(t2, p, r) && 0 <= i < cell(t2, p, r).len() implies t2.clients.contains(
        #[trigger] cell(t2, p, r)[i],
    ) && t2.states.contains_key(cell(t2, p, r)[i]) && t2.states[cell(t2, p, r)[i]]
        == (ClientStateModel::Browser { project_id: p, role_id: r }) by {
        assert(cell(t2, p, r) == cell(t, p, r));
    }
    assert forall|app: Seq<char>, a: Seq<char>| #[trigger] has_binding(t2, app, a) implies
        t2.clients.contains(binding(t2, app, a)) && t2.states.contains_key(binding(t2, app, a))
        && t2.states[binding(t2, app, a)] == (ClientStateModel::External {
        address: a,
        app_id: app,
    }) by {
        assert(has_binding(t, app, a));
    }
    assert forall|c: Seq<char>| #[trigger] t2.states.contains_key(c) implies t2.clients.contains(
        c,
    ) && match t2.states[c] {
        ClientStateModel::Browser { project_id: q, role_id: w } => cell(t2, q, w).contains(c),
        ClientStateModel::External { address: x, app_id: b } => has_binding(t2, b, x) && binding(
            t2,
            b,
            x,
        ) == c,
    } by {
        match t.states[c] {
            ClientStateModel::Browser { project_id: q, role_id: w } => {
                assert(cell(t2, q, w) == cell(t, q, w));
            },
            ClientStateModel::External { address: x, app_id: b } => {},
        }
    }
}

/// The room index of a consistent topology holds no empty role list and
/// no project without roles, and every occupant is a registered client
/// whose recorded state is exactly that browser placement — occurring in
/// its own cell once and in no other cell.
pub proof fn lemma_inv_room_index(t: TopoModel, p: Seq<char>, r: Seq<char>, i: int)
    requires
        model_inv(t),
        has_cell(t, p, r),
        0 <= i < cell(t, p, r).len(),
    ensures
        cell(t, p, r).len() > 0,
        t.rooms[p].dom().len() > 0,
        t.clients.contains(cell(t, p, r)[i]),
        t.states.contains_key(cell(t, p, r)[i]),
        t.states[cell(t, p, r)[i]] == (ClientStateModel::Browser { project_id: p, role_id: r }),
        forall|j: int| 0 <= j < cell(t, p, r).len() && j != i ==> cell(t, p, r)[j] != cell(
            t,
            p,
            r,
        )[i],
        forall|p2: Seq<char>, r2: Seq<char>|
            has_cell(t, p2, r2) && !(p2 == p && r2 == r) ==> !(#[trigger] cell(
                t,
                p2,
                r2,
            )).contains(cell(t, p, r)[i]),
{
    let c = cell(t, p, r)[i];
    assert forall|p2: Seq<char>, r2: Seq<char>|
        has_cell(t, p2, r2) && !(p2 == p && r2 == r) implies !(#[trigger] cell(
        t,
        p2,
        r2,
    )).contains(c) by {
        if cell(t, p2, r2).contains(c) {
            let w = choose|w: int| 0 <= w < cell(t, p2, r2).len() && cell(t, p2, r2)[w] == c;
            assert(t.states[c] == (ClientStateModel::Browser { project_id: p2, role_id: r2 }));
        }
    }
}

/// The external index of a consistent topology is a bijection between
/// bindings and placed external clients: an app files a client under an
/// address exactly when the client's recorded state is that placement.
pub proof fn lemma_inv_external_bijection(t: TopoModel, app: Seq<char>, a: Seq<char>, c: Seq<char>)
    requires
        model_inv(t),
    ensures
        (has_binding(t, app, a) && binding(t, app, a) == c) <==> (t.states.contains_key(c)
            && t.states[c] == (ClientStateModel::External { address: a, app_id: app })),
{
}

/// The empty topology satisfies the invariant: with the preservation
/// lemmas, every state reachable from it by non-colliding commands does.
pub proof fn lemma_empty_inv()
    ensures
        model_inv(
            TopoModel {
                clients: Set::empty(),
                states: Map::empty(),
                usernames: Map::empty(),
                rooms: Map::empty(),
                external: Map::empty(),
                version: 0,
            },
        ),
{
}

impl Topology {
    /// Handles a state change: unknown clients are dropped; otherwise the
    /// prior placement is reset, the username stored if given, and the new
    /// placement installed.
    pub fn set_client_state(&mut self, id: &str, state: ClientState, username: Option<String>)
        -> (effects: Vec<TopologyEffect>)
        requires
            old(self).wf(),
        ensures
            final(self).wf(),
            final(self)@ == spec_set_client_state(old(self)@, id@, state@, opt_view(username)).0,
            effect_views(effects@) == spec_set_client_state(
                old(self)@,
                id@,
                state@,
                opt_view(username),
            ).1,
            model_inv(old(self)@) && spec_no_collision(old(self)@, id@, state@) ==> model_inv(
                final(self)@,
            ),
    {
        proof {
            if model_inv(old(self)@) && spec_no_collision(old(self)@, id@, state@) {
                lemma_set_client_state_inv(old(self)@, id@, state@, opt_view(username));
            }
        }
        let ghost t = old(self)@;
        if !self.clients.contains_key(id) {
            let effects: Vec<TopologyEffect> = Vec::new();
            proof {
                assert(effect_views(effects@) =~= spec_set_client_state(
                    t,
                    id@,
                    state@,
                    opt_view(username),
                ).1);
            }
            return effects;
        }
        let mut effects = self.reset_client_state(id);
        let ghost t1 = spec_reset(t, id@).0;
        match username {
            Some(u) => {
                self.usernames.insert(id.to_owned(), u);
                proof {
                    assert(usernames_view(self.usernames@) =~= t1.usernames.insert(
                        id@,
                        opt_view(username).unwrap(),
                    ));
                }
            },
            None => {},
        }
        match &state {
            ClientState::Browser(bs) => {
                let ghost p = bs.project_id@;
                let ghost rl = bs.role_id@;
                let mut room = match self.rooms.remove(bs.project_id.as_str()) {
                    Some(room) => room,
                    None => ProjectNetwork::new(bs.project_id.0.clone()),
                };
                proof {
                    if t1.rooms.contains_key(p) {
                        assert(room_view(room) == t1.rooms[p]);
                    } else {
                        assert(room_view(room) =~= Map::<Seq<char>, Seq<Seq<char>>>::empty());
                    }
                }
                let ghost room0: Map<Seq<char>, Seq<Seq<char>>> = room_view(room);
                let mut occ: Vec<String> = match room.roles.remove(bs.role_id.as_str()) {
                    Some(v) => v,
                    None => Vec::new(),
                };
                let ghost occ0 = occ_views(occ@);
                proof {
                    if room0.contains_key(rl) {
                        assert(occ0 == room0[rl]);
                    } else {
                        assert(occ0 =~= Seq::<Seq<char>>::empty());
                    }
                }
                occ.push(id.to_owned());
                proof {
                    assert(occ_views(occ@) =~= occ0.push(id@));
                }
                let ghost occ1 = occ_views(occ@);
                room.roles.insert(bs.role_id.0.clone(), occ);
                proof {
                    assert(room_view(room) =~= room0.insert(rl, occ1));
                }
                self.rooms.insert(bs.project_id.0.clone(), room);
                effects.push(TopologyEffect::BroadcastRoom(ProjectId(bs.project_id.0.clone())));
                proof {
                    assert(rooms_view(self.rooms@) =~= t1.rooms.insert(p, room0.insert(rl, occ1)));
                    assert(effect_views(effects@) =~= spec_reset(t, id@).1 + seq![
                        EffectModel::Broadcast(p),
                    ]);
                }
            },
            ClientState::External(es) => {
                let ghost app = es.app_id@;
                let ghost a = es.address@;
                let mut net: StrMap<String> = match self.external.remove(es.app_id.as_str()) {
                    Some(net) => net,
                    None => StrMap::new(),
                };
                proof {
                    if t1.external.contains_key(app) {
                        assert(net_view(net) == t1.external[app]);
                    } else {
                        assert(net_view(net) =~= Map::<Seq<char>, Seq<char>>::empty());
                    }
                }
                let ghost net0 = net_view(net);
                net.insert(es.address.clone(), id.to_owned());
                proof {
                    assert(net_view(net) =~= net0.insert(a, id@));
                }
                self.external.insert(es.app_id.0.clone(), net);
                proof {
                    assert(external_view(self.external@) =~= t1.external.insert(
                        app,
                        net0.insert(a, id@),
                    ));
                    assert(effect_views(effects@) =~= spec_reset(t, id@).1 + Seq::<
                        EffectModel,
                    >::empty());
                }
            },
        }
        self.states.insert(id.to_owned(), state);
        proof {
            assert(states_view(self.states@) =~= t1.states.insert(id@, state@));
            assert(self@ =~= spec_set_client_state(t, id@, state@, opt_view(username)).0);
        }
        effects
    }

    /// Handles a disconnect: drops the connection and resets its
    /// placement.
    pub fn remove_client(&mut self, id: &str) -> (effects: Vec<TopologyEffect>)
        requires
            old(self).wf(),
        ensures
            final(self).wf(),
            final(self)@ == spec_remove_client(old(self)@, id@).0,
            effect_views(effects@) == spec_remove_client(old(self)@, id@).1,
            model_inv(old(self)@) ==> model_inv(final(self)@),
    {
        proof {
            if model_inv(old(self)@) {
                lemma_remove_client_inv(old(self)@, id@);
            }
        }
        let ghost t = old(self)@;
        self.clients.remove(id);
        proof {
            assert(self@ =~= TopoModel { clients: t.clients.remove(id@), ..t });
        }
        self.reset_client_state(id)
    }

    /// The project whose save state a broken transport should mark, if
    /// the client was placed in one: the store applies
    /// [`broken_save_state`] to it.
    pub fn set_broken_client(&self, id: &str) -> (r: Option<ProjectId>)
        requires
            self.wf(),
        ensures
            match r {
                Some(p) => self@.states.contains_key(id@) && (self@.states[id@] matches
                    ClientStateModel::Browser { project_id, role_id } && project_id == p@),
                None => !(self@.states.contains_key(id@) && self@.states[id@] is Browser),
            },
    {
        match self.states.get(id) {
            Some(ClientState::Browser(bs)) => Some(ProjectId(bs.project_id.0.clone())),
            _ => None,
        }
    }

    /// The occupant asked for the current contents of a role: the first
    /// occupant of the cell, absent when the cell is empty or missing.
    pub fn get_role_request(&self, state: &crate::types::BrowserClientState) -> (r: Option<
        ClientId,
    >)
        requires
            self.wf(),
        ensures
            match r {
                Some(c) => self@.rooms.contains_key(state.project_id@)
                    && self@.rooms[state.project_id@].contains_key(state.role_id@)
                    && self@.rooms[state.project_id@][state.role_id@].len() > 0
                    && c@ == self@.rooms[state.project_id@][state.role_id@][0],
                None => !(self@.rooms.contains_key(state.project_id@)
                    && self@.rooms[state.project_id@].contains_key(state.role_id@)
                    && self@.rooms[state.project_id@][state.role_id@].len() > 0),
            },
    {
        match self.rooms.get(state.project_id.as_str()) {
            None => None,
            Some(room) => match room.roles.get(state.role_id.as_str()) {
                None => None,
                Some(occ) => {
                    if occ.len() > 0 {
                        proof {
                            assert(self@.rooms[state.project_id@][state.role_id@]
                                == occ_views(occ@));
                        }
                        Some(ClientId(occ[0].clone()))
                    } else {
                        None
                    }
                },
            },
        }
    }
}

/// The identifier occurs in a list of client identifiers.
pub open spec fn id_in(v: Seq<ClientId>, c: Seq<char>) -> bool {
    exists|i: int| 0 <= i < v.len() && v[i]@ == c
}

/// The client occupies some role of the project's room.
pub open spec fn spec_in_room(t: TopoModel, pid: Seq<char>, c: Seq<char>) -> bool {
    exists|rid: Seq<char>| cell(t, pid, rid).contains(c)
}

/// The views of an occupant-state list: identifier and display name.
pub open spec fn occ_state_views(v: Seq<OccupantState>) -> Seq<(Seq<char>, Seq<char>)> {
    v.map(|i: int, o: OccupantState| (o.id@, o.name@))
}

/// The display name of an occupant: its username, or `guest`.
pub open spec fn spec_username_of(t: TopoModel, c: Seq<char>) -> Seq<char> {
    if t.usernames.contains_key(c) {
        t.usernames[c]
    } else {
        "guest"@
    }
}

/// What a room-state broadcast reports for one role: each occupant of the
/// cell with its display name, in occupancy order.
pub open spec fn spec_role_occupants(t: TopoModel, p: Seq<char>, rid: Seq<char>) -> Seq<
    (Seq<char>, Seq<char>),
> {
    cell(t, p, rid).map(|i: int, c: Seq<char>| (c, spec_username_of(t, c)))
}

impl Topology {
    /// Builds the room-state broadcast for a project whose room is live:
    /// one role entry per role of the metadata, carrying the occupants
    /// and their display names, under a version strictly greater than
    /// every version this topology has issued before.  Returns the frame
    /// and its recipients: every occupant of the room, each exactly once.
    pub fn send_room_state(&mut self, project: &ProjectMetadata) -> (r: Option<
        (RoomState, Vec<ClientId>),
    >)
        requires
            old(self).wf(),
            project.wf(),
            old(self).version < u64::MAX,
        ensures
            final(self).wf(),
            final(self).clients == old(self).clients,
            final(self).states == old(self).states,
            final(self).usernames == old(self).usernames,
            final(self).rooms == old(self).rooms,
            final(self).external == old(self).external,
            match r {
                None => !old(self)@.rooms.contains_key(project.id@) && final(self).version
                    == old(self).version,
                Some((msg, recipients)) => {
                    let t = old(self)@;
                    let pid = project.id@;
                    &&& t.rooms.contains_key(pid)
                    &&& final(self).version == old(self).version + 1
                    &&& msg.version == final(self).version
                    &&& msg.id@ == pid
                    &&& msg.owner == project.owner
                    &&& msg.name == project.name
                    &&& msg.collaborators@ == project.collaborators@
                    &&& msg.roles.wf()
                    &&& (forall|k: Seq<char>| msg.roles@.contains_key(k)
                        <==> project.roles@.contains_key(k))
                    &&& (forall|k: Seq<char>| #[trigger] msg.roles@.contains_key(k)
                        ==> msg.roles@[k].name == project.roles@[k].name && occ_state_views(
                            msg.roles@[k].occupants@,
                        ) == spec_role_occupants(t, pid, k))
                    &&& (forall|c: Seq<char>| #[trigger] id_in(recipients@, c) <==> spec_in_room(
                        t,
                        pid,
                        c,
                    ))
                    &&& (model_inv(t) ==> forall|i: int, j: int|
                        0 <= i < j < recipients@.len() ==> recipients@[i]@ != recipients@[j]@)
                },
            },
    {
        let ghost t = old(self)@;
        let ghost pid = project.id@;
        let room = match self.rooms.get(project.id.as_str()) {
            None => {
                return None;
            },
            Some(room) => room,
        };
        proof {
            assert(t.rooms.contains_key(pid));
            assert(room_view(*room) == t.rooms[pid]);
        }

        // the role table: the metadata's roles joined with the occupancy
        let n = project.roles.len();
        let mut roles: StrMap<RoleState> = StrMap::new();
        let ghost entries = project.roles.entries();
        let mut i: usize = 0;
        while i < n
            invariant
                self == old(self),
                old(self).wf(),
                project.wf(),
                entries == project.roles.entries(),
                t == old(self)@,
                pid == project.id@,
                t.rooms.contains_key(pid),
                n == entries.len(),
                i <= n,
                roles.wf(),
                forall|k: Seq<char>| roles@.contains_key(k) <==> exists|j: int|
                    0 <= j < i && entries[j].0@ == k,
                forall|j: int| 0 <= j < i ==> roles@.contains_key(#[trigger] entries[j].0@)
                    && roles@[entries[j].0@].name == entries[j].1.name && occ_state_views(
                    roles@[entries[j].0@].occupants@,
                ) == spec_role_occupants(t, pid, entries[j].0@),
            decreases n - i,
        {
            let rid = project.roles.key_at(i);
            let rmd = project.roles.value_at(i);
            let ghost ridv = entries[i as int].0@;
            let mut occupants: Vec<OccupantState> = Vec::new();
            match self.rooms.get(project.id.as_str()).unwrap().roles.get(rid.as_str()) {
                None => {
                    proof {
                        assert(!has_cell(t, pid, ridv));
                        assert(occ_state_views(occupants@) =~= spec_role_occupants(t, pid, ridv));
                    }
                },
                Some(occ) => {
                    proof {
                        assert(cell(t, pid, ridv) == occ_views(occ@));
                    }
                    let m = occ.len();
                    let mut j: usize = 0;
                    while j < m
                        invariant
                            self == old(self),
                            old(self).wf(),
                            t == old(self)@,
                            m == occ@.len(),
                            j <= m,
                            cell(t, pid, ridv) == occ_views(occ@),
                            occupants@.len() == j,
                            forall|l: int| 0 <= l < j ==> (#[trigger] occupants@[l]).id@
                                == occ@[l]@ && occupants@[l].name@ == spec_username_of(
                                t,
                                occ@[l]@,
                            ),
                        decreases m - j,
                    {
                        let cid = occ[j].clone();
                        let name = match self.usernames.get(cid.as_str()) {
                            Some(u) => u.clone(),
                            None => "guest".to_owned(),
                        };
                        occupants.push(OccupantState { id: ClientId(cid), name });
                        j = j + 1;
                    }
                    proof {
                        assert(occ_state_views(occupants@) =~= spec_role_occupants(t, pid, ridv));
                    }
                },
            }
            let state = RoleState { name: rmd.name.clone(), occupants };
            roles.insert(rid.clone(), state);
            proof {
                assert forall|k: Seq<char>| roles@.contains_key(k) implies exists|j: int|
                    0 <= j < i + 1 && entries[j].0@ == k by {
                    if k == ridv {
                        assert(entries[i as int].0@ == k);
                    } else {
                        let j = choose|j: int| 0 <= j < i && entries[j].0@ == k;
                        assert(entries[j].0@ == k);
                    }
                }
            }
            i = i + 1;
        }
        proof {
            crate::strmap::lemma_map_of_contains(entries, Seq::empty());
            assert forall|k: Seq<char>| roles@.contains_key(k) implies project.roles@.contains_key(
                k,
            ) by {
                crate::strmap::lemma_map_of_contains(entries, k);
            }
            assert forall|k: Seq<char>| project.roles@.contains_key(k) implies
                roles@.contains_key(k) by {
                crate::strmap::lemma_map_of_contains(entries, k);
            }
            assert forall|k: Seq<char>| #[trigger] roles@.contains_key(k) implies
                roles@[k].name == project.roles@[k].name && occ_state_views(
                roles@[k].occupants@,
            ) == spec_role_occupants(t, pid, k) by {
                crate::strmap::lemma_map_of_contains(entries, k);
                let j = choose|j: int| 0 <= j < entries.len() && entries[j].0@ == k;
                assert forall|l: int| j < l < entries.len() implies entries[l].0@
                    != entries[j].0@ by {}
                crate::strmap::lemma_map_of_get(entries, j);
            }
        }

        // every occupant of the room receives the frame
        let room = self.rooms.get(project.id.as_str()).unwrap();
        let rn = room.roles.len();
        let ghost rentries = room.roles.entries();
        let mut recipients: Vec<ClientId> = Vec::new();
        let mut i2: usize = 0;
        while i2 < rn
            invariant
                self == old(self),
                old(self).wf(),
                t == old(self)@,
                pid == project.id@,
                t.rooms.contains_key(pid),
                room_view(*room) == t.rooms[pid],
                room.wf(),
                rentries == room.roles.entries(),
                rn == rentries.len(),
                i2 <= rn,
                forall|c: Seq<char>| #[trigger] id_in(recipients@, c) <==> exists|j: int|
                    0 <= j < i2 && occ_views((#[trigger] rentries[j]).1@).contains(c),
                forall|j: int, l: int|
                    0 <= j < i2 && 0 <= l < rentries[j].1@.len()
                        ==> cell(t, pid, rentries[j].0@).contains(rentries[j].1@[l]@),
                model_inv(t) ==> forall|x: int, y: int|
                    0 <= x < y < recipients@.len() ==> recipients@[x]@ != recipients@[y]@,
                model_inv(t) ==> forall|l: int| 0 <= l < recipients@.len()
                    ==> t.states.contains_key((#[trigger] recipients@[l])@)
                        && (t.states[recipients@[l]@] matches ClientStateModel::Browser {
                            project_id,
                            role_id,
                        } && project_id == pid && (exists|j: int|
                            0 <= j < i2 && rentries[j].0@ == role_id)),
            decreases rn - i2,
        {
            let occ = room.roles.value_at(i2);
            let ghost ridv = rentries[i2 as int].0@;
            proof {
                assert(room.roles@.contains_key(ridv)) by {
                    crate::strmap::lemma_map_of_contains(rentries, ridv);
                    assert(rentries[i2 as int].0@ == ridv);
                }
                assert(room.roles@[ridv] == rentries[i2 as int].1) by {
                    assert forall|l: int| i2 < l < rentries.len() implies rentries[l].0@
                        != rentries[i2 as int].0@ by {}
                    crate::strmap::lemma_map_of_get(rentries, i2 as int);
                }
                assert(cell(t, pid, ridv) == occ_views(rentries[i2 as int].1@));
            }
            let m = occ.len();
            let mut j2: usize = 0;
            while j2 < m
                invariant
                    old(self).wf(),
                    t == old(self)@,
                    pid == project.id@,
                    room.wf(),
                    rentries == room.roles.entries(),
                    ridv == rentries[i2 as int].0@,
                    0 <= i2 < rentries.len(),
                    occ == rentries[i2 as int].1,
                    m == occ@.len(),
                    j2 <= m,
                    cell(t, pid, ridv) == occ_views(occ@),
                    forall|c: Seq<char>| #[trigger] id_in(recipients@, c) <==> (exists|j: int|
                        0 <= j < i2 && occ_views((#[trigger] rentries[j]).1@).contains(c)) || (
                    exists|l: int| 0 <= l < j2 && occ@[l]@ == c),
                    forall|j: int, l: int|
                        0 <= j < i2 && 0 <= l < rentries[j].1@.len()
                            ==> cell(t, pid, rentries[j].0@).contains(rentries[j].1@[l]@),
                    model_inv(t) ==> forall|x: int, y: int|
                        0 <= x < y < recipients@.len() ==> recipients@[x]@ != recipients@[y]@,
                    model_inv(t) ==> forall|l: int| 0 <= l < recipients@.len()
                        ==> t.states.contains_key((#[trigger] recipients@[l])@)
                            && (t.states[recipients@[l]@] matches ClientStateModel::Browser {
                                project_id,
                                role_id,
                            } && project_id == pid && ((exists|j: int|
                                0 <= j < i2 && rentries[j].0@ == role_id) || role_id == ridv)),
                decreases m - j2,
            {
                let cid = occ[j2].clone();
                proof {
                    assert(cell(t, pid, ridv)[j2 as int] == occ@[j2 as int]@);
                    assert(cell(t, pid, ridv).contains(cid@));
                    if model_inv(t) {
                        assert(t.states.contains_key(cid@) && t.states[cid@]
                            == (ClientStateModel::Browser { project_id: pid, role_id: ridv }));
                        assert forall|x: int| 0 <= x < recipients@.len() implies recipients@[x]@
                            != cid@ by {
                            if recipients@[x]@ == cid@ {
                                assert(id_in(recipients@, cid@)) by {
                                    assert(0 <= x < recipients@.len() && recipients@[x]@ == cid@);
                                }
                                if exists|j: int| 0 <= j < i2 && occ_views(
                                    (#[trigger] rentries[j]).1@,
                                ).contains(cid@) {
                                    let j = choose|j: int| 0 <= j < i2 && occ_views(
                                        (#[trigger] rentries[j]).1@,
                                    ).contains(cid@);
                                    let l = choose|l: int|
                                        0 <= l < occ_views(rentries[j].1@).len() && occ_views(
                                            rentries[j].1@,
                                        )[l] == cid@;
                                    assert(cell(t, pid, rentries[j].0@).contains(
                                        rentries[j].1@[l]@,
                                    ));
                                    let w = choose|w: int|
                                        0 <= w < cell(t, pid, rentries[j].0@).len() && cell(
                                            t,
                                            pid,
                                            rentries[j].0@,
                                        )[w] == cid@;
                                    assert(t.states[cid@] == (ClientStateModel::Browser {
                                        project_id: pid,
                                        role_id: rentries[j].0@,
                                    }));
                                    assert(rentries[j].0@ == ridv);
                                    assert(rentries[j].0@ != rentries[i2 as int].0@);
                                } else {
                                    let l = choose|l: int| 0 <= l < j2 && occ@[l]@ == cid@;
                                    assert(cell(t, pid, ridv)[l] == cid@);
                                    assert(cell(t, pid, ridv)[j2 as int] == cid@);
                                    assert(has_cell(t, pid, ridv));
                                }
                            }
                        }
                    }
                }
                let ghost before = recipients@;
                recipients.push(ClientId(cid));
                proof {
                    assert forall|c: Seq<char>| #[trigger] id_in(recipients@, c) <==> (exists|
                        j: int,
                    |
                        0 <= j < i2 && occ_views((#[trigger] rentries[j]).1@).contains(c)) || (
                    exists|l: int| 0 <= l < j2 + 1 && occ@[l]@ == c) by {
                        if id_in(recipients@, c) {
                            let x = choose|x: int|
                                0 <= x < recipients@.len() && recipients@[x]@ == c;
                            if x == recipients@.len() - 1 {
                                assert(occ@[j2 as int]@ == c);
                            } else {
                                assert(before[x]@ == c);
                                assert(id_in(before, c));
                            }
                        }
                        if (exists|j: int|
                            0 <= j < i2 && occ_views((#[trigger] rentries[j]).1@).contains(c)) || (
                        exists|l: int| 0 <= l < j2 + 1 && occ@[l]@ == c) {
                            if exists|l: int| 0 <= l < j2 + 1 && occ@[l]@ == c {
                                let l = choose|l: int| 0 <= l < j2 + 1 && occ@[l]@ == c;
                                if l == j2 {
                                    assert(recipients@[recipients@.len() - 1]@ == c);
                                } else {
                                    assert(id_in(before, c));
                                    let x = choose|x: int|
                                        0 <= x < before.len() && before[x]@ == c;
                                    assert(recipients@[x]@ == c);
                                }
                            } else {
                                assert(id_in(before, c));
                                let x = choose|x: int| 0 <= x < before.len() && before[x]@ == c;
                                assert(recipients@[x]@ == c);
                            }
                        }
                    }
                }
                j2 = j2 + 1;
            }
            proof {
                assert forall|l: int| 0 <= l < rentries[i2 as int].1@.len() implies cell(
                    t,
                    pid,
                    rentries[i2 as int].0@,
                ).contains(rentries[i2 as int].1@[l]@) by {
                    assert(occ_views(occ@)[l] == occ@[l]@);
                }
                if model_inv(t) {
                    assert forall|l: int| 0 <= l < recipients@.len() implies
                        t.states.contains_key((#[trigger] recipients@[l])@)
                        && (t.states[recipients@[l]@] matches ClientStateModel::Browser {
                            project_id,
                            role_id,
                        } && project_id == pid && (exists|j: int|
                            0 <= j < i2 + 1 && rentries[j].0@ == role_id)) by {
                        match t.states[recipients@[l]@] {
                            ClientStateModel::Browser { project_id: q, role_id: w } => {
                                if w == ridv {
                                    assert(rentries[i2 as int].0@ == w);
                                }
                            },
                            ClientStateModel::External { address, app_id } => {},
                        }
                    }
                }
                assert forall|c: Seq<char>| #[trigger] id_in(recipients@, c) <==> exists|j: int|
                    0 <= j < i2 + 1 && occ_views((#[trigger] rentries[j]).1@).contains(c) by {
                    if id_in(recipients@, c) {
                        if exists|l: int| 0 <= l < m && occ@[l]@ == c {
                            let l = choose|l: int| 0 <= l < m && occ@[l]@ == c;
                            assert(occ_views(rentries[i2 as int].1@)[l] == c);
                            assert(occ_views(rentries[i2 as int].1@).contains(c));
                        }
                    }
                    if exists|j: int| 0 <= j < i2 + 1 && occ_views(
                        (#[trigger] rentries[j]).1@,
                    ).contains(c) {
                        let j = choose|j: int| 0 <= j < i2 + 1 && occ_views(
                            (#[trigger] rentries[j]).1@,
                        ).contains(c);
                        if j == i2 {
                            let l = choose|l: int| 0 <= l < occ_views(rentries[j].1@).len()
                                && occ_views(rentries[j].1@)[l] == c;
                            assert(occ@[l]@ == c);
                        }
                    }
                }
            }
            i2 = i2 + 1;
        }
        proof {
            assert forall|c: Seq<char>|
                (#[trigger] id_in(recipients@, c) <==> spec_in_room(t, pid, c)) by {
                if exists|j: int| 0 <= j < rn && occ_views((#[trigger] rentries[j]).1@).contains(
                    c,
                ) {
                    let j = choose|j: int| 0 <= j < rn && occ_views(
                        (#[trigger] rentries[j]).1@,
                    ).contains(c);
                    assert(cell(t, pid, rentries[j].0@).contains(c)) by {
                        let l = choose|l: int| 0 <= l < occ_views(rentries[j].1@).len()
                            && occ_views(rentries[j].1@)[l] == c;
                        assert(cell(t, pid, rentries[j].0@).contains(rentries[j].1@[l]@));
                    }
                }
                if exists|rid: Seq<char>| #[trigger] cell(t, pid, rid).contains(c) {
                    let rid = choose|rid: Seq<char>| #[trigger] cell(t, pid, rid).contains(c);
                    assert(has_cell(t, pid, rid));
                    assert(t.rooms[pid].contains_key(rid));
                    crate::strmap::lemma_map_of_contains(rentries, rid);
                    let j = choose|j: int| 0 <= j < rentries.len() && rentries[j].0@ == rid;
                    assert forall|l: int| j < l < rentries.len() implies rentries[l].0@
                        != rentries[j].0@ by {}
                    crate::strmap::lemma_map_of_get(rentries, j);
                    assert(cell(t, pid, rid) == occ_views(rentries[j].1@));
                }
            }
        }

        self.version = self.version + 1;
        let msg = RoomState {
            id: ProjectId(project.id.0.clone()),
            owner: project.owner.clone(),
            name: project.name.clone(),
            roles,
            collaborators: clone_strings(&project.collaborators),
            version: self.version,
        };
        Some((msg, recipients))
    }
}

/// The views of a list of client identifiers.
pub open spec fn client_id_views(v: Seq<ClientId>) -> Seq<Seq<char>> {
    v.map(|i: int, c: ClientId| c@)
}

/// The clients a list of browser targets reaches: the occupants of each
/// target cell, concatenated in target order.
pub open spec fn spec_browser_clients(t: TopoModel, targets: Seq<(Seq<char>, Seq<char>)>) -> Seq<
    Seq<char>,
>
    decreases targets.len(),
{
    if targets.len() == 0 {
        Seq::empty()
    } else {
        spec_browser_clients(t, targets.drop_last()) + cell(
            t,
            targets.last().0,
            targets.last().1,
        )
    }
}

/// The clients one parsed address reaches: per requested app, the
/// occupants of the resolved browser targets for the built-in app, or the
/// client bound under the address text in that app's network.
pub open spec fn spec_clients_at(
    t: TopoModel,
    apps: Seq<Seq<char>>,
    targets: Seq<(Seq<char>, Seq<char>)>,
    key: Seq<char>,
) -> Seq<Seq<char>>
    decreases apps.len(),
{
    if apps.len() == 0 {
        Seq::empty()
    } else {
        let rest = spec_clients_at(t, apps.drop_last(), targets, key);
        let last = apps.last();
        rest + if last == crate::ids::default_app_id() {
            spec_browser_clients(t, targets)
        } else if has_binding(t, last, key) {
            seq![binding(t, last, key)]
        } else {
            Seq::empty()
        }
    }
}

impl Topology {
    /// The recipients one parsed address reaches, given the browser
    /// targets its resolution produced.
    pub fn clients_at(&self, addr: &ClientAddress, browser_targets: &Vec<BrowserAddress>) -> (r:
        Vec<ClientId>)
        requires
            self.wf(),
            model_inv(self@),
        ensures
            client_id_views(r@) == spec_clients_at(
                self@,
                crate::address::app_views(addr.app_ids@),
                crate::address::browser_views(browser_targets@),
                crate::address::spec_app_string(addr@),
            ),
            forall|i: int| 0 <= i < r@.len() ==> self@.clients.contains((#[trigger] r@[i])@),
    {
        let ghost t = self@;
        let ghost apps = crate::address::app_views(addr.app_ids@);
        let ghost targets = crate::address::browser_views(browser_targets@);
        let key = addr.to_app_string();
        let ghost keyv = crate::address::spec_app_string(addr@);
        let an = addr.app_ids.len();
        let mut r: Vec<ClientId> = Vec::new();
        let mut i: usize = 0;
        while i < an
            invariant
                self.wf(),
                model_inv(self@),
                t == self@,
                apps == crate::address::app_views(addr.app_ids@),
                targets == crate::address::browser_views(browser_targets@),
                key@ == keyv,
                keyv == crate::address::spec_app_string(addr@),
                an == addr.app_ids@.len(),
                i <= an,
                client_id_views(r@) == spec_clients_at(t, apps.subrange(0, i as int), targets, keyv),
                forall|l: int| 0 <= l < r@.len() ==> t.clients.contains((#[trigger] r@[l])@),
            decreases an - i,
        {
            proof {
                let pre = apps.subrange(0, i + 1);
                assert(pre.drop_last() =~= apps.subrange(0, i as int));
                assert(pre.last() == apps[i as int]);
                assert(apps[i as int] == addr.app_ids@[i as int]@);
            }
            let app = &addr.app_ids[i];
            if str_eq(app.as_str(), crate::ids::default_app_id_str()) {
                let bn = browser_targets.len();
                let mut j: usize = 0;
                while j < bn
                    invariant
                        self.wf(),
                        model_inv(self@),
                        t == self@,
                        targets == crate::address::browser_views(browser_targets@),
                        bn == browser_targets@.len(),
                        j <= bn,
                        client_id_views(r@) == spec_clients_at(
                            t,
                            apps.subrange(0, i as int),
                            targets,
                            keyv,
                        ) + spec_browser_clients(t, targets.subrange(0, j as int)),
                        forall|l: int| 0 <= l < r@.len() ==> t.clients.contains(
                            (#[trigger] r@[l])@,
                        ),
                    decreases bn - j,
                {
                    proof {
                        let bpre = targets.subrange(0, j + 1);
                        assert(bpre.drop_last() =~= targets.subrange(0, j as int));
                        assert(bpre.last() == targets[j as int]);
                        assert(targets[j as int] == browser_targets@[j as int]@);
                    }
                    let target = &browser_targets[j];
                    match self.rooms.get(target.project_id.as_str()) {
                        None => {
                            proof {
                                assert(cell(t, target.project_id@, target.role_id@)
                                    =~= Seq::<Seq<char>>::empty());
                                assert(client_id_views(r@) =~= spec_clients_at(
                                    t,
                                    apps.subrange(0, i as int),
                                    targets,
                                    keyv,
                                ) + spec_browser_clients(t, targets.subrange(0, j + 1)));
                            }
                        },
                        Some(room) => {
                            proof {
                                assert(room_view(*room) == t.rooms[target.project_id@]);
                            }
                            match room.roles.get(target.role_id.as_str()) {
                                None => {
                                    proof {
                                        assert(cell(t, target.project_id@, target.role_id@)
                                            =~= Seq::<Seq<char>>::empty());
                                        assert(client_id_views(r@) =~= spec_clients_at(
                                            t,
                                            apps.subrange(0, i as int),
                                            targets,
                                            keyv,
                                        ) + spec_browser_clients(t, targets.subrange(0, j + 1)));
                                    }
                                },
                                Some(occ) => {
                                    proof {
                                        assert(cell(t, target.project_id@, target.role_id@)
                                            == occ_views(occ@));
                                    }
                                    let ghost cellv = occ_views(occ@);
                                    let ghost p = target.project_id@;
                                    let ghost rl = target.role_id@;
                                    let m = occ.len();
                                    let mut l: usize = 0;
                                    while l < m
                                        invariant
                                            t == self@,
                                            model_inv(t),
                                            m == occ@.len(),
                                            l <= m,
                                            cellv == occ_views(occ@),
                                            cell(t, p, rl) == cellv,
                                            client_id_views(r@) == spec_clients_at(
                                                t,
                                                apps.subrange(0, i as int),
                                                targets,
                                                keyv,
                                            ) + spec_browser_clients(
                                                t,
                                                targets.subrange(0, j as int),
                                            ) + cellv.subrange(0, l as int),
                                            forall|w: int| 0 <= w < r@.len()
                                                ==> t.clients.contains((#[trigger] r@[w])@),
                                        decreases m - l,
                                    {
                                        proof {
                                            assert(cell(t, p, rl)[l as int] == occ@[l as int]@);
                                            assert(cellv.subrange(0, l + 1) =~= cellv.subrange(
                                                0,
                                                l as int,
                                            ).push(cellv[l as int]));
                                        }
                                        let ghost prev = client_id_views(r@);
                                        r.push(ClientId(occ[l].clone()));
                                        proof {
                                            assert(client_id_views(r@) =~= prev.push(
                                                cellv[l as int],
                                            ));
                                            assert(prev.push(cellv[l as int]) =~= spec_clients_at(
                                                t,
                                                apps.subrange(0, i as int),
                                                targets,
                                                keyv,
                                            ) + spec_browser_clients(
                                                t,
                                                targets.subrange(0, j as int),
                                            ) + cellv.subrange(0, l + 1));
                                        }
                                        l = l + 1;
                                    }
                                    proof {
                                        assert(cellv.subrange(0, m as int) =~= cellv);
                                        assert(client_id_views(r@) =~= spec_clients_at(
                                            t,
                                            apps.subrange(0, i as int),
                                            targets,
                                            keyv,
                                        ) + spec_browser_clients(t, targets.subrange(0, j + 1)));
                                    }
                                },
                            }
                        },
                    }
                    j = j + 1;
                }
                proof {
                    assert(targets.subrange(0, bn as int) =~= targets);
                    assert(client_id_views(r@) =~= spec_clients_at(
                        t,
                        apps.subrange(0, i + 1),
                        targets,
                        keyv,
                    ));
                }
            } else {
                match self.external.get(app.as_str()) {
                    None => {
                        proof {
                            assert(!has_binding(t, apps[i as int], keyv));
                            assert(client_id_views(r@) =~= spec_clients_at(
                                t,
                                apps.subrange(0, i + 1),
                                targets,
                                keyv,
                            ));
                        }
                    },
                    Some(net) => {
                        proof {
                            assert(net_view(*net) == t.external[apps[i as int]]);
                        }
                        match net.get(key.as_str()) {
                            None => {
                                proof {
                                    assert(!has_binding(t, apps[i as int], keyv));
                                    assert(client_id_views(r@) =~= spec_clients_at(
                                        t,
                                        apps.subrange(0, i + 1),
                                        targets,
                                        keyv,
                                    ));
                                }
                            },
                            Some(c) => {
                                proof {
                                    assert(has_binding(t, apps[i as int], keyv));
                                    assert(binding(t, apps[i as int], keyv) == c@);
                                }
                                r.push(ClientId(c.clone()));
                                proof {
                                    assert(client_id_views(r@) =~= spec_clients_at(
                                        t,
                                        apps.subrange(0, i + 1),
                                        targets,
                                        keyv,
                                    ));
                                }
                            },
                        }
                    },
                }
            }
            i = i + 1;
        }
        proof {
            assert(apps.subrange(0, an as int) =~= apps);
        }
        r
    }
}

/// The list with later repetitions of an identifier dropped: each
/// identifier keeps its first occurrence.
pub open spec fn spec_dedup(s: Seq<Seq<char>>) -> Seq<Seq<char>>
    decreases s.len(),
{
    if s.len() == 0 {
        Seq::empty()
    } else if s.drop_last().contains(s.last()) {
        spec_dedup(s.drop_last())
    } else {
        spec_dedup(s.drop_last()).push(s.last())
    }
}

/// Deduplication keeps exactly the distinct identifiers, each once.
pub proof fn lemma_dedup_props(s: Seq<Seq<char>>)
    ensures
        forall|c: Seq<char>| #[trigger] spec_dedup(s).contains(c) <==> s.contains(c),
        forall|i: int, j: int| 0 <= i < j < spec_dedup(s).len() ==> spec_dedup(s)[i]
            != spec_dedup(s)[j],
    decreases s.len(),
{
    if s.len() > 0 {
        lemma_dedup_props(s.drop_last());
        let out = spec_dedup(s);
        assert forall|c: Seq<char>| #[trigger] out.contains(c) implies s.contains(c) by {
            if spec_dedup(s.drop_last()).contains(c) {
                let w = choose|w: int|
                    0 <= w < s.drop_last().len() && s.drop_last()[w] == c;
                assert(s[w] == c);
            } else {
                assert(s[s.len() - 1] == c);
            }
        }
        assert forall|c: Seq<char>| s.contains(c) implies #[trigger] out.contains(c) by {
            let w = choose|w: int| 0 <= w < s.len() && s[w] == c;
            if w < s.len() - 1 {
                assert(s.drop_last()[w] == c);
                assert(spec_dedup(s.drop_last()).contains(c));
                if s.drop_last().contains(s.last()) {
                } else {
                    let x = choose|x: int|
                        0 <= x < spec_dedup(s.drop_last()).len() && spec_dedup(s.drop_last())[x]
                            == c;
                    assert(out[x] == c);
                }
            } else {
                if s.drop_last().contains(s.last()) {
                    assert(spec_dedup(s.drop_last()).contains(c));
                } else {
                    assert(out[out.len() - 1] == c);
                }
            }
        }
        if !s.drop_last().contains(s.last()) {
            assert forall|i: int, j: int| 0 <= i < j < out.len() implies out[i] != out[j] by {
                if j == out.len() - 1 {
                    assert(out[j] == s.last());
                    assert(spec_dedup(s.drop_last()).contains(out[i]));
                    assert(s.drop_last().contains(out[i]));
                }
            }
        }
    }
}

/// Drops every repeated identifier, keeping first occurrences: a message
/// reaches each matched client exactly once however many addresses or
/// roles matched it.
pub fn dedup_client_ids(ids: &Vec<ClientId>) -> (r: Vec<ClientId>)
    ensures
        client_id_views(r@) == spec_dedup(client_id_views(ids@)),
        forall|c: Seq<char>| #[trigger] id_in(r@, c) <==> id_in(ids@, c),
        forall|i: int, j: int| 0 <= i < j < r@.len() ==> r@[i]@ != r@[j]@,
{
    let ghost views = client_id_views(ids@);
    let n = ids.len();
    let mut r: Vec<ClientId> = Vec::new();
    let mut i: usize = 0;
    while i < n
        invariant
            views == client_id_views(ids@),
            n == ids@.len(),
            i <= n,
            client_id_views(r@) == spec_dedup(views.subrange(0, i as int)),
        decreases n - i,
    {
        proof {
            let pre = views.subrange(0, i + 1);
            assert(pre.drop_last() =~= views.subrange(0, i as int));
            assert(pre.last() == views[i as int]);
            assert(views[i as int] == ids@[i as int]@);
        }
        let mut seen = false;
        let mut j: usize = 0;
        while j < i
            invariant
                views == client_id_views(ids@),
                n == ids@.len(),
                i < n,
                j <= i,
                seen <==> exists|l: int| 0 <= l < j && views[l] == views[i as int],
            decreases i - j,
        {
            if str_eq(ids[j].as_str(), ids[i].as_str()) {
                proof {
                    assert(views[j as int] == views[i as int]);
                }
                seen = true;
            }
            j = j + 1;
        }
        proof {
            assert(seen <==> views.subrange(0, i as int).contains(views[i as int])) by {
                if seen {
                    let l = choose|l: int| 0 <= l < i && views[l] == views[i as int];
                    assert(views.subrange(0, i as int)[l] == views[i as int]);
                }
                if views.subrange(0, i as int).contains(views[i as int]) {
                    let l = choose|l: int|
                        0 <= l < i && views.subrange(0, i as int)[l] == views[i as int];
                    assert(views[l] == views[i as int]);
                }
            }
        }
        if !seen {
            r.push(ClientId(ids[i].0.clone()));
            proof {
                assert(client_id_views(r@) =~= spec_dedup(views.subrange(0, i + 1)));
            }
        } else {
            proof {
                assert(client_id_views(r@) =~= spec_dedup(views.subrange(0, i + 1)));
            }
        }
        i = i + 1;
    }
    proof {
        assert(views.subrange(0, n as int) =~= views);
        lemma_dedup_props(views);
        assert forall|c: Seq<char>| #[trigger] id_in(r@, c) <==> id_in(ids@, c) by {
            if id_in(r@, c) {
                let x = choose|x: int| 0 <= x < r@.len() && r@[x]@ == c;
                assert(client_id_views(r@)[x] == c);
                assert(spec_dedup(views).contains(c));
                let w = choose|w: int| 0 <= w < views.len() && views[w] == c;
                assert(ids@[w]@ == c);
            }
            if id_in(ids@, c) {
                let x = choose|x: int| 0 <= x < ids@.len() && ids@[x]@ == c;
                assert(views[x] == c);
                assert(views.contains(c));
                assert(spec_dedup(views).contains(c));
                let w = choose|w: int|
                    0 <= w < spec_dedup(views).len() && spec_dedup(views)[w] == c;
                assert(r@[w]@ == c);
            }
        }
        assert forall|i2: int, j2: int| 0 <= i2 < j2 < r@.len() implies r@[i2]@ != r@[j2]@ by {
            assert(client_id_views(r@)[i2] == r@[i2]@);
            assert(client_id_views(r@)[j2] == r@[j2]@);
        }
    }
    r
}

/// One address of a send command, with the browser targets its
/// resolution produced.
pub struct ResolvedTarget {
    pub address: ClientAddress,
    pub browser_targets: Vec<BrowserAddress>,
}

/// The clients a whole send command reaches, before deduplication.
pub open spec fn spec_send_clients(t: TopoModel, targets: Seq<ResolvedTarget>) -> Seq<Seq<char>>
    decreases targets.len(),
{
    if targets.len() == 0 {
        Seq::empty()
    } else {
        spec_send_clients(t, targets.drop_last()) + spec_clients_at(
            t,
            crate::address::app_views(targets.last().address.app_ids@),
            crate::address::browser_views(targets.last().browser_targets@),
            crate::address::spec_app_string(targets.last().address@),
        )
    }
}

impl Topology {
    /// The recipients of a send command: every client any of the
    /// addresses reaches, each exactly once, in first-match order.
    pub fn send_msg_recipients(&self, targets: &Vec<ResolvedTarget>) -> (r: Vec<ClientId>)
        requires
            self.wf(),
            model_inv(self@),
        ensures
            client_id_views(r@) == spec_dedup(spec_send_clients(self@, targets@)),
            forall|i: int, j: int| 0 <= i < j < r@.len() ==> r@[i]@ != r@[j]@,
            forall|c: Seq<char>| #[trigger] id_in(r@, c) <==> spec_send_clients(
                self@,
                targets@,
            ).contains(c),
    {
        let ghost t = self@;
        let n = targets.len();
        let mut all: Vec<ClientId> = Vec::new();
        let mut i: usize = 0;
        while i < n
            invariant
                self.wf(),
                model_inv(self@),
                t == self@,
                n == targets@.len(),
                i <= n,
                client_id_views(all@) == spec_send_clients(t, targets@.subrange(0, i as int)),
            decreases n - i,
        {
            proof {
                let pre = targets@.subrange(0, i + 1);
                assert(pre.drop_last() =~= targets@.subrange(0, i as int));
                assert(pre.last() == targets@[i as int]);
            }
            let target = &targets[i];
            let mut part = self.clients_at(&target.address, &target.browser_targets);
            let ghost partv = client_id_views(part@);
            let pn = part.len();
            let mut j: usize = 0;
            while j < pn
                invariant
                    pn == part@.len(),
                    partv == client_id_views(part@),
                    j <= pn,
                    client_id_views(all@) == spec_send_clients(t, targets@.subrange(0, i as int))
                        + partv.subrange(0, j as int),
                decreases pn - j,
            {
                proof {
                    assert(partv.subrange(0, j + 1) =~= partv.subrange(0, j as int).push(
                        partv[j as int],
                    ));
                    assert(partv[j as int] == part@[j as int]@);
                }
                let ghost prev = client_id_views(all@);
                all.push(ClientId(part[j].0.clone()));
                proof {
                    assert(client_id_views(all@) =~= prev.push(partv[j as int]));
                    assert(prev.push(partv[j as int]) =~= spec_send_clients(
                        t,
                        targets@.subrange(0, i as int),
                    ) + partv.subrange(0, j + 1));
                }
                j = j + 1;
            }
            proof {
                assert(partv.subrange(0, pn as int) =~= partv);
                assert(client_id_views(all@) =~= spec_send_clients(
                    t,
                    targets@.subrange(0, i + 1),
                ));
            }
            i = i + 1;
        }
        proof {
            assert(targets@.subrange(0, n as int) =~= targets@);
            lemma_dedup_props(client_id_views(all@));
        }
        let r = dedup_client_ids(&all);
        proof {
            assert forall|c: Seq<char>| #[trigger] id_in(r@, c) <==> spec_send_clients(
                t,
                targets@,
            ).contains(c) by {
                if id_in(r@, c) {
                    assert(id_in(all@, c));
                    let x = choose|x: int| 0 <= x < all@.len() && all@[x]@ == c;
                    assert(client_id_views(all@)[x] == c);
                }
                if spec_send_clients(t, targets@).contains(c) {
                    let x = choose|x: int|
                        0 <= x < client_id_views(all@).len() && client_id_views(all@)[x] == c;
                    assert(all@[x]@ == c);
                    assert(id_in(all@, c));
                }
            }
        }
        r
    }
}

/// Clones a list of strings, preserving each element's characters.
fn clone_strings(v: &Vec<String>) -> (r: Vec<String>)
    ensures
        r@ == v@,
{
    let mut r: Vec<String> = Vec::new();
    let n = v.len();
    let mut i: usize = 0;
    while i < n
        invariant
            n == v@.len(),
            i <= n,
            r@ == v@.subrange(0, i as int),
        decreases n - i,
    {
        r.push(v[i].clone());
        proof {
            assert(r@ =~= v@.subrange(0, i + 1));
        }
        i = i + 1;
    }
    proof {
        assert(v@.subrange(0, n as int) =~= v@);
        assert(r@ == v@);
    }
    r
}

/// Swap-removes the first occurrence of `id`, as the reset transition
/// specifies.
fn remove_occupant(occ: &mut Vec<String>, id: &str)
    ensures
        occ_views(final(occ)@) == spec_remove_occ(occ_views(old(occ)@), id@),
{
    let n = occ.len();
    let ghost views = occ_views(old(occ)@);
    let mut i: usize = 0;
    while i < n
        invariant
            n == occ@.len(),
            i <= n,
            occ@ == old(occ)@,
            views == occ_views(occ@),
            forall|j: int| 0 <= j < i ==> occ@[j]@ != id@,
            spec_occ_index(views, id@, 0) == spec_occ_index(views, id@, i as nat),
        decreases n - i,
    {
        if str_eq(occ[i].as_str(), id) {
            proof {
                assert(views[i as int] == id@);
                assert(spec_occ_index(views, id@, i as nat) == Some(i as nat));
            }
            occ.swap_remove(i);
            proof {
                assert(occ_views(occ@) =~= spec_remove_occ(views, id@));
                assert(occ_views(occ@) == spec_remove_occ(occ_views(old(occ)@), id@));
            }
            return;
        }
        proof {
            assert(views[i as int] != id@);
            assert(spec_occ_index(views, id@, i as nat) == spec_occ_index(views, id@, (i + 1) as nat));
        }
        i = i + 1;
    }
    proof {
        assert(spec_occ_index(views, id@, i as nat) is None);
        assert(occ_views(occ@) =~= spec_remove_occ(views, id@));
    }
}

} // verus!
