//! Collaboration invitations: issue, list, and respond.
//!
//! Each invitation moves from pending to accepted or rejected; terminal
//! states are removed from the store, so the stored set holds only
//! pending invitations, at most one per sender, recipient and project.
//! The operations here are transitions on that set; the store writes and
//! the notification frames happen outside the core.

use vstd::prelude::*;

use crate::errors::UserError;
use crate::ids::ProjectId;
use crate::strutil::str_eq;
use crate::types::InvitationState;

verus! {

/// A pending (or just-resolved) collaboration invitation.
pub struct CollaborationInvite {
    pub id: String,
    pub sender: String,
    pub receiver: String,
    pub project_id: ProjectId,
    pub state: InvitationState,
    pub created_at: u64,
}

impl Clone for CollaborationInvite {
    fn clone(&self) -> (r: Self)
        ensures
            r == *self,
    {
        CollaborationInvite {
            id: self.id.clone(),
            sender: self.sender.clone(),
            receiver: self.receiver.clone(),
            project_id: self.project_id.clone(),
            state: self.state,
            created_at: self.created_at,
        }
    }
}

/// Relies on `uuid::Uuid::new_v4` and its `Display` impl: a fresh random
/// version-4 identifier, rendered in the hyphenated form of 36 characters.
#[verifier::external_body]
fn new_invite_id() -> (r: String)
    ensures
        r@.len() == 36,
{
    uuid::Uuid::new_v4().to_string()
}

/// Relies on `std::time::SystemTime::now` and `duration_since`: the
/// seconds since the Unix epoch, zero if the clock precedes it.
#[verifier::external_body]
fn now_secs() -> (r: u64)
{
    std::time::SystemTime::now()
        .duration_since(std::time::SystemTime::UNIX_EPOCH)
        .map(|d| d.as_secs())
        .unwrap_or(0)
}

impl CollaborationInvite {
    /// A fresh pending invitation from the sender to the receiver over
    /// the project, stamped with the current time.
    pub fn new(sender: String, receiver: String, project_id: ProjectId) -> (r:
        CollaborationInvite)
        ensures
            r.sender == sender,
            r.receiver == receiver,
            r.project_id == project_id,
            r.state == InvitationState::Pending,
            r.id@.len() == 36,
    {
        CollaborationInvite {
            id: new_invite_id(),
            sender,
            receiver,
            project_id,
            state: InvitationState::Pending,
            created_at: now_secs(),
        }
    }
}

/// An invitation for this sender, recipient and project is already
/// stored.
pub open spec fn spec_invite_exists(
    invites: Seq<CollaborationInvite>,
    sender: Seq<char>,
    receiver: Seq<char>,
    project_id: Seq<char>,
) -> bool {
    exists|i: int|
        0 <= i < invites.len() && invites[i].sender@ == sender && invites[i].receiver@ == receiver
            && invites[i].project_id@ == project_id
}

fn invite_exists(
    invites: &Vec<CollaborationInvite>,
    sender: &str,
    receiver: &str,
    project_id: &str,
) -> (r: bool)
    ensures
        r == spec_invite_exists(invites@, sender@, receiver@, project_id@),
{
    let n = invites.len();
    let mut i: usize = 0;
    while i < n
        invariant
            n == invites@.len(),
            i <= n,
            forall|j: int| 0 <= j < i ==> !((#[trigger] invites@[j]).sender@ == sender@
                && invites@[j].receiver@ == receiver@ && invites@[j].project_id@ == project_id@),
        decreases n - i,
    {
        let inv = &invites[i];
        if str_eq(inv.sender.as_str(), sender) && str_eq(inv.receiver.as_str(), receiver)
            && str_eq(inv.project_id.as_str(), project_id) {
            proof {
                assert(invites@[i as int].sender@ == sender@);
            }
            return true;
        }
        i = i + 1;
    }
    false
}

/// Stores an invitation unless one for the same sender, recipient and
/// project already exists; the upsert is idempotent in that a second
/// identical request is refused while the first is pending.
pub fn send_invite(invites: &mut Vec<CollaborationInvite>, invite: CollaborationInvite) -> (r:
    Result<(), UserError>)
    ensures
        match r {
            Ok(u) => !spec_invite_exists(
                old(invites)@,
                invite.sender@,
                invite.receiver@,
                invite.project_id@,
            ) && final(invites)@ == old(invites)@.push(invite),
            Err(e) => spec_invite_exists(
                old(invites)@,
                invite.sender@,
                invite.receiver@,
                invite.project_id@,
            ) && e == UserError::InviteAlreadyExistsError && final(invites)@ == old(invites)@,
        },
{
    if invite_exists(
        invites,
        invite.sender.as_str(),
        invite.receiver.as_str(),
        invite.project_id.as_str(),
    ) {
        Err(UserError::InviteAlreadyExistsError)
    } else {
        invites.push(invite);
        Ok(())
    }
}

/// The stored invitations addressed to a recipient, in store order.
pub fn list_invites(invites: &Vec<CollaborationInvite>, receiver: &str) -> (r: Vec<
    CollaborationInvite,
>)
    ensures
        r@ == invites@.filter(|inv: CollaborationInvite| inv.receiver@ == receiver@),
{
    let n = invites.len();
    let mut r: Vec<CollaborationInvite> = Vec::new();
    proof {
        reveal(Seq::filter);
        assert(invites@.subrange(0, 0) =~= Seq::<CollaborationInvite>::empty());
    }
    let mut i: usize = 0;
    while i < n
        invariant
            n == invites@.len(),
            i <= n,
            r@ == invites@.subrange(0, i as int).filter(
                |inv: CollaborationInvite| inv.receiver@ == receiver@,
            ),
        decreases n - i,
    {
        proof {
            reveal(Seq::filter);
            let f = |inv: CollaborationInvite| inv.receiver@ == receiver@;
            let prefix = invites@.subrange(0, i + 1);
            assert(prefix.drop_last() =~= invites@.subrange(0, i as int));
            assert(prefix.last() == invites@[i as int]);
            assert(prefix.filter(f) == if f(prefix.last()) {
                prefix.drop_last().filter(f).push(prefix.last())
            } else {
                prefix.drop_last().filter(f)
            });
        }
        let inv = &invites[i];
        if str_eq(inv.receiver.as_str(), receiver) {
            r.push(inv.clone());
        }
        i = i + 1;
    }
    proof {
        assert(invites@.subrange(0, n as int) =~= invites@);
    }
    r
}

/// Position of the first stored invitation with this identifier.
pub open spec fn spec_invite_index(
    invites: Seq<CollaborationInvite>,
    id: Seq<char>,
    i: nat,
) -> Option<nat>
    decreases invites.len() + 1 - i,
{
    if i >= invites.len() {
        None
    } else if invites[i as int].id@ == id {
        Some(i)
    } else {
        spec_invite_index(invites, id, i + 1)
    }
}

/// Resolves an invitation: the stored row is removed whatever the
/// response, and the caller must add the recipient to the project's
/// collaborators exactly when the response accepts.
pub fn respond_to_invite(
    invites: &mut Vec<CollaborationInvite>,
    id: &str,
    state: InvitationState,
) -> (r: Result<(CollaborationInvite, bool), UserError>)
    ensures
        match r {
            Ok((inv, accept)) => {
                &&& accept == (state == InvitationState::Accepted)
                &&& spec_invite_index(old(invites)@, id@, 0) matches Some(i)
                    && inv == old(invites)@[i as int] && final(invites)@ == old(invites)@.remove(
                    i as int,
                )
            },
            Err(e) => spec_invite_index(old(invites)@, id@, 0) is None && e
                == UserError::InviteNotFoundError && final(invites)@ == old(invites)@,
        },
{
    let n = invites.len();
    let mut i: usize = 0;
    while i < n
        invariant
            invites@ == old(invites)@,
            n == invites@.len(),
            i <= n,
            spec_invite_index(invites@, id@, 0) == spec_invite_index(invites@, id@, i as nat),
        decreases n - i,
    {
        if str_eq(invites[i].id.as_str(), id) {
            proof {
                assert(spec_invite_index(invites@, id@, i as nat) == Some(i as nat));
            }
            let inv = invites.remove(i);
            let accept = match state {
                InvitationState::Accepted => true,
                _ => false,
            };
            return Ok((inv, accept));
        }
        proof {
            assert(spec_invite_index(invites@, id@, i as nat) == spec_invite_index(
                invites@,
                id@,
                (i + 1) as nat,
            ));
        }
        i = i + 1;
    }
    proof {
        assert(spec_invite_index(invites@, id@, i as nat) is None);
    }
    Err(UserError::InviteNotFoundError)
}

} // verus!
