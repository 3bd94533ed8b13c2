//! Groups and authorized service hosts: the decisions their store-backed
//! operations make.
//!
//! Each operation of the embedding layer is a store read or upsert around
//! one of these functions: the conflict decisions and the document edits
//! are here, the store calls outside.

use vstd::prelude::*;

use crate::errors::UserError;
use crate::ids::GroupId;
use crate::strmap::StrMap;
use crate::types::ServiceHost;

verus! {

/// A group of users managed by one owner.
pub struct Group {
    pub id: GroupId,
    pub owner: String,
    pub name: String,
    pub services_hosts: Option<Vec<ServiceHost>>,
    pub service_settings: StrMap<String>,
}

impl Group {
    pub open spec fn wf(self) -> bool {
        self.service_settings.wf()
    }

    /// A fresh group with no hosts and no settings.
    pub fn new(owner: String, name: String, id: GroupId) -> (r: Group)
        ensures
            r.owner == owner,
            r.name == name,
            r.id == id,
            r.services_hosts is None,
            r.service_settings@ == Map::<Seq<char>, String>::empty(),
            r.wf(),
    {
        Group { id, owner, name, services_hosts: None, service_settings: StrMap::new() }
    }
}

/// The creation decision: a group upsert that matched an existing row is
/// a conflict, otherwise the new group stands.
pub fn create_group(group: Group, already_exists: bool) -> (r: Result<Group, UserError>)
    ensures
        match r {
            Ok(g) => !already_exists && g == group,
            Err(e) => already_exists && e == UserError::GroupExistsError,
        },
{
    if already_exists {
        Err(UserError::GroupExistsError)
    } else {
        Ok(group)
    }
}

/// Renames a group.
pub fn rename_group(group: Group, name: String) -> (r: Group)
    ensures
        r == (Group { name: r.name, ..group }),
        r.name == name,
{
    Group { name, ..group }
}

/// Replaces a group's service hosts.
pub fn set_group_hosts(group: Group, hosts: Vec<ServiceHost>) -> (r: Group)
    ensures
        r == (Group { services_hosts: r.services_hosts, ..group }),
        r.services_hosts == Some(hosts),
{
    Group { services_hosts: Some(hosts), ..group }
}

/// Sets the settings a service host keeps for the group.
pub fn set_service_settings(group: Group, host: String, settings: String) -> (r: Group)
    requires
        group.wf(),
    ensures
        r == (Group { service_settings: r.service_settings, ..group }),
        r.wf(),
        r.service_settings@ == group.service_settings@.insert(host@, settings),
{
    let mut group = group;
    group.service_settings.insert(host, settings);
    group
}

/// Removes the settings a service host keeps for the group.
pub fn delete_service_settings(group: Group, host: &str) -> (r: Group)
    requires
        group.wf(),
    ensures
        r == (Group { service_settings: r.service_settings, ..group }),
        r.wf(),
        r.service_settings@ == group.service_settings@.remove(host@),
{
    let mut group = group;
    group.service_settings.remove(host);
    group
}

/// The read decision shared by group lookups: an absent row is an error.
pub fn view_group(found: Option<Group>) -> (r: Result<Group, UserError>)
    ensures
        match r {
            Ok(g) => found == Some(g),
            Err(e) => found is None && e == UserError::GroupNotFoundError,
        },
{
    match found {
        Some(g) => Ok(g),
        None => Err(UserError::GroupNotFoundError),
    }
}

/// The deletion decision: the removed row is handed back, an absent row
/// is an error.
pub fn delete_group(found: Option<Group>) -> (r: Result<Group, UserError>)
    ensures
        match r {
            Ok(g) => found == Some(g),
            Err(e) => found is None && e == UserError::GroupNotFoundError,
        },
{
    match found {
        Some(g) => Ok(g),
        None => Err(UserError::GroupNotFoundError),
    }
}

/// The settings a group keeps per service host; a missing group reads as
/// a missing user, as the settings endpoint reports it.
pub fn get_service_settings(found: Option<Group>) -> (r: Result<StrMap<String>, UserError>)
    ensures
        match r {
            Ok(settings) => (found matches Some(g) && g.service_settings == settings),
            Err(e) => found is None && e == UserError::UserNotFoundError,
        },
{
    match found {
        Some(g) => Ok(g.service_settings),
        None => Err(UserError::UserNotFoundError),
    }
}

/// How far a service host is visible.
pub enum ServiceHostScope {
    Public(Vec<String>),
    Private,
}

/// A service host authorized to send messages through the cloud, with
/// the secret issued to it.
pub struct AuthorizedServiceHost {
    pub url: String,
    pub id: String,
    pub visibility: ServiceHostScope,
    pub secret: String,
}

/// The authorization decision: an upsert that matched an existing row is
/// a conflict; otherwise the caller learns the stored secret.
pub fn authorize_host(host: AuthorizedServiceHost, already_exists: bool) -> (r: Result<
    String,
    UserError,
>)
    ensures
        match r {
            Ok(secret) => !already_exists && secret == host.secret,
            Err(e) => already_exists && e == UserError::ServiceHostAlreadyAuthorizedError,
        },
{
    if already_exists {
        Err(UserError::ServiceHostAlreadyAuthorizedError)
    } else {
        Ok(host.secret)
    }
}

/// The deauthorization decision: removing an absent host is an error,
/// otherwise the removed row is returned.
pub fn unauthorize_host(found: Option<AuthorizedServiceHost>) -> (r: Result<
    AuthorizedServiceHost,
    UserError,
>)
    ensures
        match r {
            Ok(h) => found == Some(h),
            Err(e) => found is None && e == UserError::ServiceHostNotFoundError,
        },
{
    match found {
        Some(h) => Ok(h),
        None => Err(UserError::ServiceHostNotFoundError),
    }
}

} // verus!
