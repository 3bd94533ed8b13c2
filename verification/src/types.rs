//! The project data model: publish and save states, role and project
//! metadata, materialized projects, client placement states, and the small
//! account-facing types the wire protocol shares with the core.

use vstd::prelude::*;

use crate::ids::{AppId, ClientId, ProjectId, RoleId, S3Key};
use crate::strmap::StrMap;
use crate::strutil::push_char;

verus! {

/// How far a project has progressed toward being persisted.
#[derive(Clone, Copy, Debug, PartialEq, Eq, Structural)]
pub enum SaveState {
    Created,
    Transient,
    Broken,
    Saved,
}

/// Visibility of a project, ordered `Private < ApprovalDenied <
/// PendingApproval < Public`.
#[derive(Clone, Copy, Debug, PartialEq, Eq, PartialOrd, Ord, Structural)]
pub enum PublishState {
    Private,
    ApprovalDenied,
    PendingApproval,
    Public,
}

/// State of a collaboration invitation; terminal states are removed from
/// the store.
#[derive(Clone, Copy, Debug, PartialEq, Eq, Structural)]
pub enum InvitationState {
    Pending,
    Accepted,
    Rejected,
}

/// Privilege level of an account.
#[derive(Clone, Copy, Debug, PartialEq, Eq, PartialOrd, Ord, Structural)]
pub enum UserRole {
    User,
    Teacher,
    Moderator,
    Admin,
}

#[derive(Clone, Copy, Debug, PartialEq, Eq, Structural)]
pub struct UserRoleError;

/// The role denoted by its canonical lowercase name.
pub open spec fn spec_parse_user_role(s: Seq<char>) -> Result<UserRole, UserRoleError> {
    if s == "admin"@ {
        Ok(UserRole::Admin)
    } else if s == "moderator"@ {
        Ok(UserRole::Moderator)
    } else if s == "teacher"@ {
        Ok(UserRole::Teacher)
    } else if s == "user"@ {
        Ok(UserRole::User)
    } else {
        Err(UserRoleError)
    }
}

impl UserRole {
    pub fn parse(s: &str) -> (r: Result<UserRole, UserRoleError>)
        ensures
            r == spec_parse_user_role(s@),
    {
        if crate::strutil::str_eq(s, "admin") {
            Ok(UserRole::Admin)
        } else if crate::strutil::str_eq(s, "moderator") {
            Ok(UserRole::Moderator)
        } else if crate::strutil::str_eq(s, "teacher") {
            Ok(UserRole::Teacher)
        } else if crate::strutil::str_eq(s, "user") {
            Ok(UserRole::User)
        } else {
            Err(UserRoleError)
        }
    }
}

/// State of a friend link; the canonical serialized form is the lowercase
/// string value.
#[derive(Clone, Copy, Debug, PartialEq, Eq, Structural)]
pub enum FriendLinkState {
    Pending,
    Approved,
    Rejected,
    Blocked,
}

#[derive(Clone, Copy, Debug, PartialEq, Eq, Structural)]
pub struct ParseFriendLinkStateError;

pub open spec fn spec_parse_friend_link_state(s: Seq<char>) -> Result<
    FriendLinkState,
    ParseFriendLinkStateError,
> {
    if s == "pending"@ {
        Ok(FriendLinkState::Pending)
    } else if s == "approved"@ {
        Ok(FriendLinkState::Approved)
    } else if s == "rejected"@ {
        Ok(FriendLinkState::Rejected)
    } else if s == "blocked"@ {
        Ok(FriendLinkState::Blocked)
    } else {
        Err(ParseFriendLinkStateError)
    }
}

impl FriendLinkState {
    pub fn parse(s: &str) -> (r: Result<FriendLinkState, ParseFriendLinkStateError>)
        ensures
            r == spec_parse_friend_link_state(s@),
    {
        if crate::strutil::str_eq(s, "pending") {
            Ok(FriendLinkState::Pending)
        } else if crate::strutil::str_eq(s, "approved") {
            Ok(FriendLinkState::Approved)
        } else if crate::strutil::str_eq(s, "rejected") {
            Ok(FriendLinkState::Rejected)
        } else if crate::strutil::str_eq(s, "blocked") {
            Ok(FriendLinkState::Blocked)
        } else {
            Err(ParseFriendLinkStateError)
        }
    }
}

/// Login credentials for one of the supported strategies.
pub enum Credentials {
    Snap { username: String, password: String },
    NetsBlox { username: String, password: String },
}

/// An account on an external strategy linked to a local account.
pub struct LinkedAccount {
    pub username: String,
    pub strategy: String,
}

impl LinkedAccount {
    /// The linked account that a successful login with these credentials
    /// records: the username under the strategy's name.
    pub fn from_credentials(creds: Credentials) -> (r: LinkedAccount)
        ensures
            match creds {
                Credentials::Snap { username, .. } =>
                    r.username == username && r.strategy@ == "snap"@,
                Credentials::NetsBlox { username, .. } =>
                    r.username == username && r.strategy@ == "netsblox"@,
            },
    {
        match creds {
            Credentials::Snap { username, .. } => LinkedAccount {
                username,
                strategy: "snap".to_owned(),
            },
            Credentials::NetsBlox { username, .. } => LinkedAccount {
                username,
                strategy: "netsblox".to_owned(),
            },
        }
    }
}

/// A host providing extension services to a client.
pub struct ServiceHost {
    pub url: String,
    pub categories: Vec<String>,
}

/// Stored description of one role of a project: its name and the blob
/// keys of its code and media, with the time of its last update.
pub struct RoleMetadata {
    pub name: String,
    pub code: S3Key,
    pub media: S3Key,
    pub updated: u64,
}

impl Clone for RoleMetadata {
    fn clone(&self) -> (r: Self)
        ensures
            r == *self,
    {
        RoleMetadata {
            name: self.name.clone(),
            code: self.code.clone(),
            media: self.media.clone(),
            updated: self.updated,
        }
    }
}

/// Recorded window of network messages kept with a project.
pub struct NetworkTraceMetadata {
    pub id: String,
    pub start_time: u64,
    pub end_time: Option<u64>,
}

impl Clone for NetworkTraceMetadata {
    fn clone(&self) -> (r: Self)
        ensures
            r == *self,
    {
        NetworkTraceMetadata {
            id: self.id.clone(),
            start_time: self.start_time,
            end_time: self.end_time,
        }
    }
}

/// Stored description of a project, as the metadata store keeps it.
pub struct ProjectMetadata {
    pub id: ProjectId,
    pub owner: String,
    pub name: String,
    pub updated: u64,
    pub origin_time: u64,
    pub state: PublishState,
    pub save_state: SaveState,
    pub collaborators: Vec<String>,
    pub network_traces: Vec<NetworkTraceMetadata>,
    pub roles: StrMap<RoleMetadata>,
    /// When set, a reaper outside the core deletes the row at this time.
    pub delete_at: Option<u64>,
}

impl ProjectMetadata {
    /// Role identifiers are unique.
    pub open spec fn wf(self) -> bool {
        self.roles.wf()
    }
}

impl Clone for ProjectMetadata {
    fn clone(&self) -> (r: Self)
        ensures
            r.id == self.id,
            r.owner == self.owner,
            r.name == self.name,
            r.updated == self.updated,
            r.origin_time == self.origin_time,
            r.state == self.state,
            r.save_state == self.save_state,
            r.collaborators@ == self.collaborators@,
            r.network_traces@ == self.network_traces@,
            r.roles.entries() == self.roles.entries(),
            r.roles@ == self.roles@,
            r.delete_at == self.delete_at,
    {
        let n = self.roles.pairs.len();
        let mut pairs: Vec<(String, RoleMetadata)> = Vec::new();
        let mut i: usize = 0;
        while i < n
            invariant
                n == self.roles.pairs@.len(),
                i <= n,
                pairs@ == self.roles.pairs@.subrange(0, i as int),
            decreases n - i,
        {
            pairs.push((self.roles.pairs[i].0.clone(), self.roles.pairs[i].1.clone()));
            proof {
                assert(pairs@ =~= self.roles.pairs@.subrange(0, i + 1));
            }
            i = i + 1;
        }
        proof {
            assert(self.roles.pairs@.subrange(0, n as int) =~= self.roles.pairs@);
        }
        let m = self.network_traces.len();
        let mut traces: Vec<NetworkTraceMetadata> = Vec::new();
        let mut j: usize = 0;
        while j < m
            invariant
                m == self.network_traces@.len(),
                j <= m,
                traces@ == self.network_traces@.subrange(0, j as int),
            decreases m - j,
        {
            traces.push(self.network_traces[j].clone());
            proof {
                assert(traces@ =~= self.network_traces@.subrange(0, j + 1));
            }
            j = j + 1;
        }
        proof {
            assert(self.network_traces@.subrange(0, m as int) =~= self.network_traces@);
        }
        let k = self.collaborators.len();
        let mut collaborators: Vec<String> = Vec::new();
        let mut l: usize = 0;
        while l < k
            invariant
                k == self.collaborators@.len(),
                l <= k,
                collaborators@ == self.collaborators@.subrange(0, l as int),
            decreases k - l,
        {
            collaborators.push(self.collaborators[l].clone());
            proof {
                assert(collaborators@ =~= self.collaborators@.subrange(0, l + 1));
            }
            l = l + 1;
        }
        proof {
            assert(self.collaborators@.subrange(0, k as int) =~= self.collaborators@);
        }
        ProjectMetadata {
            id: self.id.clone(),
            owner: self.owner.clone(),
            name: self.name.clone(),
            updated: self.updated,
            origin_time: self.origin_time,
            state: self.state,
            save_state: self.save_state,
            collaborators,
            network_traces: traces,
            roles: StrMap { pairs },
            delete_at: self.delete_at,
        }
    }
}

/// The materialized contents of one role.
pub struct RoleData {
    pub name: String,
    pub code: String,
    pub media: String,
}

impl Clone for RoleData {
    fn clone(&self) -> (r: Self)
        ensures
            r.name@ == self.name@,
            r.code@ == self.code@,
            r.media@ == self.media@,
    {
        RoleData {
            name: self.name.clone(),
            code: self.code.clone(),
            media: self.media.clone(),
        }
    }
}

/// A project with every role's contents materialized from the blob store.
pub struct Project {
    pub id: ProjectId,
    pub owner: String,
    pub name: String,
    pub updated: u64,
    pub state: PublishState,
    pub collaborators: Vec<String>,
    pub origin_time: u64,
    pub save_state: SaveState,
    pub roles: StrMap<RoleData>,
}

/// A string with every double quote preceded by a backslash.
pub open spec fn spec_escape_quotes(s: Seq<char>) -> Seq<char>
    decreases s.len(),
{
    if s.len() == 0 {
        Seq::empty()
    } else if s.last() == '"' {
        spec_escape_quotes(s.drop_last()).push('\\').push('"')
    } else {
        spec_escape_quotes(s.drop_last()).push(s.last())
    }
}

pub fn escape_quotes(s: &str) -> (r: String)
    ensures
        r@ == spec_escape_quotes(s@),
{
    let len = s.unicode_len();
    let mut r = String::new();
    let mut i: usize = 0;
    while i < len
        invariant
            len == s@.len(),
            i <= len,
            r@ == spec_escape_quotes(s@.subrange(0, i as int)),
        decreases len - i,
    {
        let c = s.get_char(i);
        if c == '"' {
            push_char(&mut r, '\\');
            push_char(&mut r, '"');
        } else {
            push_char(&mut r, c);
        }
        proof {
            assert(s@.subrange(0, i + 1).drop_last() =~= s@.subrange(0, i as int));
            assert(s@.subrange(0, i + 1).last() == s@[i as int]);
        }
        i = i + 1;
    }
    proof {
        assert(s@.subrange(0, len as int) =~= s@);
    }
    r
}

/// The XML fragment for one role: its name attribute escaped, followed by
/// the code and media texts.
pub open spec fn spec_role_xml(r: RoleData) -> Seq<char> {
    "<role name=\""@ + spec_escape_quotes(r.name@) + "\">"@ + r.code@ + r.media@ + "</role>"@
}

impl RoleData {
    pub fn to_xml(&self) -> (r: String)
        ensures
            r@ == spec_role_xml(*self),
    {
        let escaped = escape_quotes(self.name.as_str());
        let mut r = String::new();
        r.append("<role name=\"");
        r.append(escaped.as_str());
        r.append("\">");
        r.append(self.code.as_str());
        r.append(self.media.as_str());
        r.append("</role>");
        r
    }
}

/// The role fragments of the entries, joined by single spaces.
pub open spec fn spec_roles_xml(entries: Seq<(String, RoleData)>) -> Seq<char>
    decreases entries.len(),
{
    if entries.len() == 0 {
        Seq::empty()
    } else if entries.len() == 1 {
        spec_role_xml(entries[0].1)
    } else {
        spec_roles_xml(entries.drop_last()) + " "@ + spec_role_xml(entries.last().1)
    }
}

impl Project {
    /// The project serialized as a room element holding each role's
    /// fragment, joined by spaces.
    pub fn to_xml(&self) -> (r: String)
        ensures
            r@ == "<room name=\""@ + self.name@ + "\" app=\"NetsBlox\">"@
                + spec_roles_xml(self.roles.entries()) + "</room>"@,
    {
        let n = self.roles.len();
        let mut body = String::new();
        let mut i: usize = 0;
        while i < n
            invariant
                n == self.roles.entries().len(),
                i <= n,
                body@ == spec_roles_xml(self.roles.entries().subrange(0, i as int)),
            decreases n - i,
        {
            if i > 0 {
                body.append(" ");
            }
            let fragment = self.roles.value_at(i).to_xml();
            body.append(fragment.as_str());
            proof {
                let sub = self.roles.entries().subrange(0, i + 1);
                assert(sub.drop_last() =~= self.roles.entries().subrange(0, i as int));
                assert(sub.last() == self.roles.entries()[i as int]);
            }
            i = i + 1;
        }
        proof {
            assert(self.roles.entries().subrange(0, n as int) =~= self.roles.entries());
        }
        let mut r = String::new();
        r.append("<room name=\"");
        r.append(self.name.as_str());
        r.append("\" app=\"NetsBlox\">");
        r.append(body.as_str());
        r.append("</room>");
        r
    }
}

/// Collected library metadata.
pub struct LibraryMetadata {
    pub owner: String,
    pub name: String,
    pub notes: String,
    pub state: PublishState,
}

impl LibraryMetadata {
    pub fn new(owner: String, name: String, state: PublishState, notes: Option<String>) -> (r:
        LibraryMetadata)
        ensures
            r.owner == owner,
            r.name == name,
            r.state == state,
            match notes {
                Some(n) => r.notes == n,
                None => r.notes@ == Seq::<char>::empty(),
            },
    {
        let notes_text = match notes {
            Some(n) => n,
            None => String::new(),
        };
        LibraryMetadata { owner, name, notes: notes_text, state }
    }
}

/// A client editing or running a role of a project in a browser.
pub struct BrowserClientState {
    pub role_id: RoleId,
    pub project_id: ProjectId,
}

impl Clone for BrowserClientState {
    fn clone(&self) -> (r: Self)
        ensures
            r.role_id@ == self.role_id@,
            r.project_id@ == self.project_id@,
    {
        BrowserClientState { role_id: self.role_id.clone(), project_id: self.project_id.clone() }
    }
}

/// A non-browser client reachable under an app-scoped flat address.
pub struct ExternalClientState {
    pub address: String,
    pub app_id: AppId,
}

impl Clone for ExternalClientState {
    fn clone(&self) -> (r: Self)
        ensures
            r.address@ == self.address@,
            r.app_id@ == self.app_id@,
    {
        ExternalClientState { address: self.address.clone(), app_id: self.app_id.clone() }
    }
}

/// Where a connected client is placed, if anywhere.
pub enum ClientState {
    Browser(BrowserClientState),
    External(ExternalClientState),
}

impl Clone for ClientState {
    fn clone(&self) -> (r: Self)
        ensures
            r@ == self@,
    {
        match self {
            ClientState::Browser(s) => ClientState::Browser(s.clone()),
            ClientState::External(s) => ClientState::External(s.clone()),
        }
    }
}

/// The mathematical value of a client state: its identifying strings.
pub enum ClientStateModel {
    Browser { project_id: Seq<char>, role_id: Seq<char> },
    External { address: Seq<char>, app_id: Seq<char> },
}

impl View for ClientState {
    type V = ClientStateModel;

    open spec fn view(&self) -> ClientStateModel {
        match self {
            ClientState::Browser(s) => ClientStateModel::Browser {
                project_id: s.project_id@,
                role_id: s.role_id@,
            },
            ClientState::External(s) => ClientStateModel::External {
                address: s.address@,
                app_id: s.app_id@,
            },
        }
    }
}

/// One live occupant of a role, as the room-state broadcast reports it.
pub struct OccupantState {
    pub id: ClientId,
    pub name: String,
}

/// One role of a room, as the room-state broadcast reports it.
pub struct RoleState {
    pub name: String,
    pub occupants: Vec<OccupantState>,
}

/// The frame broadcast to every occupant whenever a room's occupancy,
/// name, roles, or collaborators change.
pub struct RoomState {
    pub id: ProjectId,
    pub owner: String,
    pub name: String,
    pub roles: StrMap<RoleState>,
    pub collaborators: Vec<String>,
    pub version: u64,
}

} // verus!
