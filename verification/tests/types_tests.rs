use netsblox_cloud::ids::{AppId, ClientId, ProjectId, RoleId, S3Key};
use netsblox_cloud::errors::UserError;
use netsblox_cloud::strmap::StrMap;
use netsblox_cloud::types::{
    Credentials, FriendLinkState, LibraryMetadata, LinkedAccount, Project, PublishState, RoleData,
    SaveState, UserRole,
};

#[test]
fn should_compare_roles() {
    assert!(UserRole::Teacher > UserRole::User);
    assert!(UserRole::Moderator > UserRole::User);
    assert!(UserRole::Admin > UserRole::User);

    assert!(UserRole::Moderator > UserRole::Teacher);
    assert!(UserRole::Admin > UserRole::Teacher);

    assert!(UserRole::Admin > UserRole::Moderator);

    assert!(UserRole::User == UserRole::User);
    assert!(UserRole::Teacher == UserRole::Teacher);
    assert!(UserRole::Moderator == UserRole::Moderator);
    assert!(UserRole::Admin == UserRole::Admin);
}

#[test]
fn publish_state_priv_lt_pending() {
    assert!(PublishState::Private < PublishState::PendingApproval);
}

#[test]
fn publish_state_pending_lt_public() {
    assert!(PublishState::PendingApproval < PublishState::Public);
}

#[test]
fn publish_state_public_eq() {
    assert!(PublishState::Public == PublishState::Public);
}

#[test]
fn deserialize_app_id_lowercase() {
    let app_id = AppId::new("NetsBlox");
    assert_eq!(&app_id.as_str(), &"netsblox");
    assert_eq!(app_id, AppId::new("netsblox"));
}

#[test]
fn user_role_parse_canonical_names() {
    assert_eq!(UserRole::parse("admin"), Ok(UserRole::Admin));
    assert_eq!(UserRole::parse("moderator"), Ok(UserRole::Moderator));
    assert_eq!(UserRole::parse("teacher"), Ok(UserRole::Teacher));
    assert_eq!(UserRole::parse("user"), Ok(UserRole::User));
    assert!(UserRole::parse("Admin").is_err());
    assert!(UserRole::parse("").is_err());
}

#[test]
fn friend_link_state_parse_lowercase() {
    assert_eq!(FriendLinkState::parse("pending"), Ok(FriendLinkState::Pending));
    assert_eq!(FriendLinkState::parse("approved"), Ok(FriendLinkState::Approved));
    assert_eq!(FriendLinkState::parse("rejected"), Ok(FriendLinkState::Rejected));
    assert_eq!(FriendLinkState::parse("blocked"), Ok(FriendLinkState::Blocked));
    assert!(FriendLinkState::parse("Pending").is_err());
}

#[test]
fn client_id_must_start_with_underscore() {
    let ok = ClientId::parse("_netsblox123");
    assert!(ok.is_ok());
    assert_eq!(ok.unwrap().as_str(), "_netsblox123");
    let err = ClientId::parse("netsblox123");
    assert_eq!(err.err(), Some(UserError::InvalidClientIdError));
    assert_eq!(ClientId::parse("").err(), Some(UserError::InvalidClientIdError));
}

#[test]
fn linked_account_from_credentials() {
    let snap = LinkedAccount::from_credentials(Credentials::Snap {
        username: "alice".to_string(),
        password: "secret".to_string(),
    });
    assert_eq!(snap.username, "alice");
    assert_eq!(snap.strategy, "snap");

    let local = LinkedAccount::from_credentials(Credentials::NetsBlox {
        username: "bob".to_string(),
        password: "secret".to_string(),
    });
    assert_eq!(local.username, "bob");
    assert_eq!(local.strategy, "netsblox");
}

#[test]
fn role_data_to_xml_escapes_name() {
    let role = RoleData {
        name: "My \"Role\"".to_string(),
        code: "<code/>".to_string(),
        media: "<media/>".to_string(),
    };
    assert_eq!(
        role.to_xml(),
        "<role name=\"My \\\"Role\\\"\"><code/><media/></role>"
    );
}

#[test]
fn project_to_xml_joins_roles() {
    let mut roles: StrMap<RoleData> = StrMap::new();
    roles.insert(
        "r1".to_string(),
        RoleData { name: "one".to_string(), code: "<c1/>".to_string(), media: "".to_string() },
    );
    roles.insert(
        "r2".to_string(),
        RoleData { name: "two".to_string(), code: "<c2/>".to_string(), media: "".to_string() },
    );
    let project = Project {
        id: ProjectId::new("p1".to_string()),
        owner: "alice".to_string(),
        name: "demo".to_string(),
        updated: 3,
        state: PublishState::Private,
        collaborators: Vec::new(),
        origin_time: 1,
        save_state: SaveState::Saved,
        roles,
    };
    assert_eq!(
        project.to_xml(),
        "<room name=\"demo\" app=\"NetsBlox\"><role name=\"one\"><c1/></role> <role name=\"two\"><c2/></role></room>"
    );
}

#[test]
fn library_metadata_new_defaults_notes() {
    let md = LibraryMetadata::new(
        "alice".to_string(),
        "shapes".to_string(),
        PublishState::Private,
        None,
    );
    assert_eq!(md.notes, "");
    let md2 = LibraryMetadata::new(
        "alice".to_string(),
        "shapes".to_string(),
        PublishState::Public,
        Some("note".to_string()),
    );
    assert_eq!(md2.notes, "note");
    assert_eq!(md2.state, PublishState::Public);
}

#[test]
fn id_newtypes_round_trip() {
    assert_eq!(ProjectId::new("p".to_string()).as_str(), "p");
    assert_eq!(RoleId::new("r".to_string()).as_str(), "r");
    assert_eq!(S3Key::new("k".to_string()).as_str(), "k");
}
