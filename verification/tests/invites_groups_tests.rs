use netsblox_cloud::errors::UserError;
use netsblox_cloud::groups::{
    authorize_host, create_group, delete_service_settings, rename_group, set_group_hosts,
    set_service_settings, unauthorize_host, AuthorizedServiceHost, Group, ServiceHostScope,
};
use netsblox_cloud::ids::{GroupId, ProjectId, S3Key};
use netsblox_cloud::invites::{
    list_invites, respond_to_invite, send_invite, CollaborationInvite,
};
use netsblox_cloud::projects::add_collaborator;
use netsblox_cloud::strmap::StrMap;
use netsblox_cloud::types::{
    InvitationState, ProjectMetadata, PublishState, RoleMetadata, SaveState, ServiceHost,
};

fn project(owner: &str) -> ProjectMetadata {
    let mut roles: StrMap<RoleMetadata> = StrMap::new();
    roles.insert(
        "r1".to_string(),
        RoleMetadata {
            name: "one".to_string(),
            code: S3Key::new("c".to_string()),
            media: S3Key::new("m".to_string()),
            updated: 0,
        },
    );
    ProjectMetadata {
        id: ProjectId::new("p1".to_string()),
        owner: owner.to_string(),
        name: "demo".to_string(),
        updated: 10,
        origin_time: 1,
        state: PublishState::Private,
        save_state: SaveState::Saved,
        collaborators: Vec::new(),
        network_traces: Vec::new(),
        roles,
        delete_at: None,
    }
}

#[test]
fn test_send_invite() {
    let mut invites: Vec<CollaborationInvite> = Vec::new();
    let invite = CollaborationInvite::new(
        "sender".to_string(),
        "rcvr".to_string(),
        ProjectId::new("p1".to_string()),
    );
    assert_eq!(invite.state, InvitationState::Pending);
    assert_eq!(invite.id.chars().count(), 36);
    assert!(send_invite(&mut invites, invite).is_ok());
    assert_eq!(invites.len(), 1);
}

#[test]
fn duplicate_invite_is_a_conflict() {
    let mut invites: Vec<CollaborationInvite> = Vec::new();
    let first = CollaborationInvite::new(
        "alice".to_string(),
        "bob".to_string(),
        ProjectId::new("p1".to_string()),
    );
    let second = CollaborationInvite::new(
        "alice".to_string(),
        "bob".to_string(),
        ProjectId::new("p1".to_string()),
    );
    assert_ne!(first.id, second.id);
    assert!(send_invite(&mut invites, first).is_ok());
    assert_eq!(
        send_invite(&mut invites, second).err(),
        Some(UserError::InviteAlreadyExistsError)
    );
    assert_eq!(invites.len(), 1);
}

#[test]
fn accepting_an_invite_adds_the_collaborator_and_frees_the_triple() {
    let mut invites: Vec<CollaborationInvite> = Vec::new();
    let invite = CollaborationInvite::new(
        "alice".to_string(),
        "bob".to_string(),
        ProjectId::new("p1".to_string()),
    );
    let id = invite.id.clone();
    send_invite(&mut invites, invite).unwrap();

    let (resolved, accept) =
        respond_to_invite(&mut invites, &id, InvitationState::Accepted).unwrap();
    assert!(accept);
    assert_eq!(resolved.receiver, "bob");
    assert!(invites.is_empty());

    let md = project("alice");
    let md = add_collaborator(md, resolved.receiver.clone());
    assert_eq!(md.collaborators, vec!["bob".to_string()]);

    // the triple is free again: a second invitation succeeds
    let again = CollaborationInvite::new(
        "alice".to_string(),
        "bob".to_string(),
        ProjectId::new("p1".to_string()),
    );
    assert!(send_invite(&mut invites, again).is_ok());
}

#[test]
fn rejecting_an_invite_leaves_no_record() {
    let mut invites: Vec<CollaborationInvite> = Vec::new();
    let invite = CollaborationInvite::new(
        "alice".to_string(),
        "bob".to_string(),
        ProjectId::new("p1".to_string()),
    );
    let id = invite.id.clone();
    send_invite(&mut invites, invite).unwrap();
    let (_, accept) =
        respond_to_invite(&mut invites, &id, InvitationState::Rejected).unwrap();
    assert!(!accept);
    assert!(invites.is_empty());
}

#[test]
fn responding_to_an_unknown_invite_fails() {
    let mut invites: Vec<CollaborationInvite> = Vec::new();
    assert_eq!(
        respond_to_invite(&mut invites, "nope", InvitationState::Accepted).err(),
        Some(UserError::InviteNotFoundError)
    );
}

#[test]
fn test_view_invites() {
    let mut invites: Vec<CollaborationInvite> = Vec::new();
    for (sender, rcvr) in [("a", "bob"), ("b", "carol"), ("c", "bob")] {
        let invite = CollaborationInvite::new(
            sender.to_string(),
            rcvr.to_string(),
            ProjectId::new(format!("p-{}", sender)),
        );
        send_invite(&mut invites, invite).unwrap();
    }
    let bobs = list_invites(&invites, "bob");
    assert_eq!(bobs.len(), 2);
    assert!(bobs.iter().all(|i| i.receiver == "bob"));
    assert!(list_invites(&invites, "nobody").is_empty());
}

#[test]
fn group_creation_detects_conflicts() {
    let g = Group::new(
        "alice".to_string(),
        "class".to_string(),
        GroupId::new("g1".to_string()),
    );
    let ok = create_group(g, false).unwrap();
    assert_eq!(ok.name, "class");
    let g2 = Group::new(
        "alice".to_string(),
        "class".to_string(),
        GroupId::new("g1".to_string()),
    );
    assert_eq!(create_group(g2, true).err(), Some(UserError::GroupExistsError));
}

#[test]
fn group_edits() {
    let g = Group::new(
        "alice".to_string(),
        "class".to_string(),
        GroupId::new("g1".to_string()),
    );
    let g = rename_group(g, "class of 26".to_string());
    assert_eq!(g.name, "class of 26");

    let host = ServiceHost { url: "https://host".to_string(), categories: Vec::new() };
    let g = set_group_hosts(g, vec![host]);
    assert_eq!(g.services_hosts.as_ref().unwrap().len(), 1);

    let g = set_service_settings(g, "svc".to_string(), "on".to_string());
    assert_eq!(g.service_settings.get("svc").unwrap(), "on");
    let g = delete_service_settings(g, "svc");
    assert!(g.service_settings.get("svc").is_none());
}

#[test]
fn host_authorization_decisions() {
    let host = AuthorizedServiceHost {
        url: "https://svc".to_string(),
        id: "svc1".to_string(),
        visibility: ServiceHostScope::Private,
        secret: "SECRET-REDACTED".to_string(),
    };
    assert_eq!(authorize_host(host, false).unwrap(), "SECRET-REDACTED");

    let host2 = AuthorizedServiceHost {
        url: "https://svc".to_string(),
        id: "svc1".to_string(),
        visibility: ServiceHostScope::Public(vec!["cat".to_string()]),
        secret: "SECRET-REDACTED".to_string(),
    };
    assert_eq!(
        authorize_host(host2, true).err(),
        Some(UserError::ServiceHostAlreadyAuthorizedError)
    );

    let host3 = AuthorizedServiceHost {
        url: "https://svc".to_string(),
        id: "svc1".to_string(),
        visibility: ServiceHostScope::Private,
        secret: "SECRET-REDACTED".to_string(),
    };
    assert_eq!(unauthorize_host(Some(host3)).unwrap().id, "svc1");
    assert_eq!(unauthorize_host(None).err(), Some(UserError::ServiceHostNotFoundError));
}
