//! Identifier newtypes: opaque strings compared as character sequences.

use vstd::prelude::*;

use crate::errors::UserError;
use crate::strutil::{lower_of, to_lowercase};

verus! {

/// A client identifier is valid when it begins with an underscore, the
/// convention the transport layer uses when it issues new connections.
pub open spec fn spec_valid_client_id(s: Seq<char>) -> bool {
    s.len() > 0 && s[0] == '_'
}

/// Identifier of a stored project.
pub struct ProjectId(pub String);

impl ProjectId {
    pub fn new(id: String) -> (r: Self)
        ensures
            r@ == id@,
    {
        ProjectId(id)
    }

    pub fn as_str(&self) -> (r: &str)
        ensures
            r@ == self@,
    {
        self.0.as_str()
    }
}

impl View for ProjectId {
    type V = Seq<char>;

    open spec fn view(&self) -> Seq<char> {
        self.0@
    }
}

impl Clone for ProjectId {
    fn clone(&self) -> (r: Self)
        ensures
            r == *self,
    {
        ProjectId(self.0.clone())
    }
}

/// Identifier of a role within a project.
pub struct RoleId(pub String);

impl RoleId {
    pub fn new(id: String) -> (r: Self)
        ensures
            r@ == id@,
    {
        RoleId(id)
    }

    pub fn as_str(&self) -> (r: &str)
        ensures
            r@ == self@,
    {
        self.0.as_str()
    }
}

impl View for RoleId {
    type V = Seq<char>;

    open spec fn view(&self) -> Seq<char> {
        self.0@
    }
}

impl Clone for RoleId {
    fn clone(&self) -> (r: Self)
        ensures
            r == *self,
    {
        RoleId(self.0.clone())
    }
}

/// Key of a blob in the content-addressed blob store.
pub struct S3Key(pub String);

impl S3Key {
    pub fn new(key: String) -> (r: Self)
        ensures
            r@ == key@,
    {
        S3Key(key)
    }

    pub fn as_str(&self) -> (r: &str)
        ensures
            r@ == self@,
    {
        self.0.as_str()
    }
}

impl View for S3Key {
    type V = Seq<char>;

    open spec fn view(&self) -> Seq<char> {
        self.0@
    }
}

impl Clone for S3Key {
    fn clone(&self) -> (r: Self)
        ensures
            r == *self,
    {
        S3Key(self.0.clone())
    }
}

/// Identifier of a user group.
pub struct GroupId(pub String);

impl GroupId {
    pub fn new(name: String) -> (r: Self)
        ensures
            r@ == name@,
    {
        GroupId(name)
    }

    pub fn as_str(&self) -> (r: &str)
        ensures
            r@ == self@,
    {
        self.0.as_str()
    }
}

impl View for GroupId {
    type V = Seq<char>;

    open spec fn view(&self) -> Seq<char> {
        self.0@
    }
}

impl Clone for GroupId {
    fn clone(&self) -> (r: Self)
        ensures
            r == *self,
    {
        GroupId(self.0.clone())
    }
}

/// Identifier of a collaboration invitation.
pub struct InvitationId(pub String);

impl InvitationId {
    pub fn new(id: String) -> (r: Self)
        ensures
            r@ == id@,
    {
        InvitationId(id)
    }

    pub fn as_str(&self) -> (r: &str)
        ensures
            r@ == self@,
    {
        self.0.as_str()
    }
}

impl View for InvitationId {
    type V = Seq<char>;

    open spec fn view(&self) -> Seq<char> {
        self.0@
    }
}

impl Clone for InvitationId {
    fn clone(&self) -> (r: Self)
        ensures
            r == *self,
    {
        InvitationId(self.0.clone())
    }
}

/// Identifier issued by the transport to each live connection.
pub struct ClientId(pub String);

impl ClientId {
    pub fn new(addr: String) -> (r: Self)
        ensures
            r@ == addr@,
    {
        ClientId(addr)
    }

    pub fn as_str(&self) -> (r: &str)
        ensures
            r@ == self@,
    {
        self.0.as_str()
    }

    /// Accepts only identifiers that begin with an underscore.
    pub fn parse(s: &str) -> (r: Result<ClientId, UserError>)
        ensures
            match r {
                Ok(id) => spec_valid_client_id(s@) && id@ == s@,
                Err(e) => !spec_valid_client_id(s@) && e == UserError::InvalidClientIdError,
            },
    {
        if s.unicode_len() > 0 && s.get_char(0) == '_' {
            Ok(ClientId(s.to_owned()))
        } else {
            Err(UserError::InvalidClientIdError)
        }
    }
}

impl View for ClientId {
    type V = Seq<char>;

    open spec fn view(&self) -> Seq<char> {
        self.0@
    }
}

impl Clone for ClientId {
    fn clone(&self) -> (r: Self)
        ensures
            r == *self,
    {
        ClientId(self.0.clone())
    }
}

/// The application identifier of the built-in (browser) namespace; app
/// identifiers are case-insensitive and stored lowercased.
pub open spec fn default_app_id() -> Seq<char> {
    "netsblox"@
}

pub fn default_app_id_str() -> (r: &'static str)
    ensures
        r@ == default_app_id(),
{
    "netsblox"
}

/// An application identifier: case-insensitive, stored lowercased.
#[derive(Debug)]
pub struct AppId(pub String);

impl AppId {
    pub fn new(addr: &str) -> (r: Self)
        ensures
            r@ == lower_of(addr@),
    {
        AppId(to_lowercase(addr))
    }

    pub fn as_str(&self) -> (r: &str)
        ensures
            r@ == self@,
    {
        self.0.as_str()
    }
}

impl View for AppId {
    type V = Seq<char>;

    open spec fn view(&self) -> Seq<char> {
        self.0@
    }
}

impl Clone for AppId {
    fn clone(&self) -> (r: Self)
        ensures
            r == *self,
    {
        AppId(self.0.clone())
    }
}

impl PartialEq for AppId {
    fn eq(&self, other: &Self) -> (r: bool) {
        self.0 == other.0
    }
}

impl vstd::std_specs::cmp::PartialEqSpecImpl for AppId {
    open spec fn obeys_eq_spec() -> bool {
        true
    }

    open spec fn eq_spec(&self, other: &Self) -> bool {
        self.0@ == other.0@
    }
}

} // verus!
