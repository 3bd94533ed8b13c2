use netsblox_cloud::errors::{InternalError, UserError};
use netsblox_cloud::ids::{ProjectId, RoleId, S3Key};
use netsblox_cloud::projects::{
    add_collaborator, add_role, assemble_project, delete_role, ensure_valid_name, find_role,
    get_unique_name, get_valid_project_name, latest_role, publish_project, remove_collaborator,
    rename_project, rename_role, thumbnail_fragment, thumbnail_png_data, unpublish_project,
};
use netsblox_cloud::strmap::StrMap;
use netsblox_cloud::types::{ProjectMetadata, PublishState, RoleMetadata, SaveState};

fn role(name: &str, updated: u64) -> RoleMetadata {
    RoleMetadata {
        name: name.to_string(),
        code: S3Key::new(format!("{}-code", name)),
        media: S3Key::new(format!("{}-media", name)),
        updated,
    }
}

fn metadata(name: &str, roles: Vec<(&str, RoleMetadata)>) -> ProjectMetadata {
    let mut role_map: StrMap<RoleMetadata> = StrMap::new();
    for (id, md) in roles {
        role_map.insert(id.to_string(), md);
    }
    ProjectMetadata {
        id: ProjectId::new("p1".to_string()),
        owner: "alice".to_string(),
        name: name.to_string(),
        updated: 10,
        origin_time: 1,
        state: PublishState::Private,
        save_state: SaveState::Transient,
        collaborators: Vec::new(),
        network_traces: Vec::new(),
        roles: role_map,
        delete_at: None,
    }
}

#[test]
fn unique_name_uses_free_base() {
    let existing = vec!["other".to_string()];
    assert_eq!(get_unique_name(&existing, "mine"), "mine");
}

#[test]
fn unique_name_appends_counter() {
    let existing = vec!["mine".to_string()];
    assert_eq!(get_unique_name(&existing, "mine"), "mine (2)");
}

#[test]
fn unique_name_takes_smallest_free_counter() {
    let existing = vec!["b".to_string(), "b (2)".to_string(), "b (4)".to_string()];
    assert_eq!(get_unique_name(&existing, "b"), "b (3)");
}

#[test]
fn unique_name_skips_dense_prefix() {
    let existing = vec!["b".to_string(), "b (2)".to_string(), "b (3)".to_string()];
    assert_eq!(get_unique_name(&existing, "b"), "b (4)");
}

#[test]
fn valid_name_rules() {
    assert!(ensure_valid_name("project one").is_ok());
    assert_eq!(ensure_valid_name("").err(), Some(UserError::InvalidNameError));
    assert_eq!(ensure_valid_name("a@b").err(), Some(UserError::InvalidNameError));
    let long = "x".repeat(129);
    assert_eq!(ensure_valid_name(&long).err(), Some(UserError::InvalidNameError));
    let boundary = "x".repeat(128);
    assert!(ensure_valid_name(&boundary).is_ok());
}

#[test]
fn get_valid_project_name_validates_and_dedupes() {
    let existing = vec!["demo".to_string()];
    assert_eq!(get_valid_project_name(&existing, "demo").unwrap(), "demo (2)");
    assert_eq!(
        get_valid_project_name(&existing, "a@b").err(),
        Some(UserError::InvalidNameError)
    );
}

#[test]
fn rename_project_picks_unique_name() {
    let md = metadata("old", vec![("r1", role("one", 1))]);
    let existing = vec!["fresh".to_string()];
    let renamed = rename_project(md, &existing, "fresh").unwrap();
    assert_eq!(renamed.name, "fresh (2)");
    assert_eq!(renamed.owner, "alice");
}

#[test]
fn rename_role_requires_known_role() {
    let md = metadata("p", vec![("r1", role("one", 1))]);
    let renamed = rename_role(md, &RoleId::new("r1".to_string()), "fresh").unwrap();
    assert_eq!(renamed.roles.get("r1").unwrap().name, "fresh");

    let md2 = metadata("p", vec![("r1", role("one", 1))]);
    assert_eq!(
        rename_role(md2, &RoleId::new("nope".to_string()), "fresh").err(),
        Some(UserError::RoleNotFoundError)
    );

    let md3 = metadata("p", vec![("r1", role("one", 1))]);
    assert_eq!(
        rename_role(md3, &RoleId::new("r1".to_string()), "bad@name").err(),
        Some(UserError::InvalidNameError)
    );
}

#[test]
fn delete_role_keeps_at_least_one() {
    let md = metadata("p", vec![("r1", role("one", 1))]);
    assert_eq!(
        delete_role(md, &RoleId::new("r1".to_string())).err(),
        Some(UserError::CannotDeleteLastRoleError)
    );

    let md2 = metadata("p", vec![("r1", role("one", 1)), ("r2", role("two", 2))]);
    let after = delete_role(md2, &RoleId::new("r1".to_string())).unwrap();
    assert!(after.roles.get("r1").is_none());
    assert!(after.roles.get("r2").is_some());
}

#[test]
fn add_role_inserts() {
    let md = metadata("p", vec![("r1", role("one", 1))]);
    let after = add_role(md, &RoleId::new("r2".to_string()), role("two", 2));
    assert_eq!(after.roles.get("r2").unwrap().name, "two");
}

#[test]
fn find_role_reports_missing() {
    let md = metadata("p", vec![("r1", role("one", 1))]);
    assert_eq!(find_role(&md, &RoleId::new("r1".to_string())).unwrap().name, "one");
    assert_eq!(
        find_role(&md, &RoleId::new("r9".to_string())).err(),
        Some(UserError::RoleNotFoundError)
    );
}

#[test]
fn collaborators_form_a_set() {
    let md = metadata("p", vec![("r1", role("one", 1))]);
    let md = add_collaborator(md, "bob".to_string());
    let md = add_collaborator(md, "bob".to_string());
    assert_eq!(md.collaborators, vec!["bob".to_string()]);
    let md = add_collaborator(md, "carol".to_string());
    let md = remove_collaborator(md, "bob");
    assert_eq!(md.collaborators, vec!["carol".to_string()]);
}

#[test]
fn publish_sets_visibility() {
    let md = metadata("p", vec![("r1", role("one", 1))]);
    let (md, state) = publish_project(md, false);
    assert_eq!(state, PublishState::Public);
    assert_eq!(md.state, PublishState::Public);

    let (md, state) = publish_project(md, true);
    assert_eq!(state, PublishState::PendingApproval);
    assert_eq!(md.state, PublishState::PendingApproval);

    let (md, state) = unpublish_project(md);
    assert_eq!(state, PublishState::Private);
    assert_eq!(md.state, PublishState::Private);
}

#[test]
fn publish_without_approval_is_idempotent() {
    let md = metadata("p", vec![("r1", role("one", 1))]);
    let (once, s1) = publish_project(md, false);
    let name_once = once.name.clone();
    let (twice, s2) = publish_project(once, false);
    assert_eq!(s1, s2);
    assert_eq!(twice.state, PublishState::Public);
    assert_eq!(twice.name, name_once);

    let (u1, p1) = unpublish_project(twice);
    let (u2, p2) = unpublish_project(u1);
    assert_eq!(p1, p2);
    assert_eq!(u2.state, PublishState::Private);
}

#[test]
fn latest_role_takes_last_maximum() {
    let md = metadata(
        "p",
        vec![("r1", role("one", 5)), ("r2", role("two", 9)), ("r3", role("three", 9))],
    );
    assert_eq!(latest_role(&md).unwrap().name, "three");

    let empty = metadata("p", vec![]);
    assert_eq!(latest_role(&empty).err(), Some(UserError::ThumbnailNotFoundError));
}

#[test]
fn thumbnail_fragment_between_markers() {
    let code = "<x><thumbnail>data:image/png;base64,aGVsbG8=</thumbnail></x>";
    assert_eq!(thumbnail_fragment(code).unwrap(), "aGVsbG8=");
    assert!(thumbnail_fragment("<x>no marker</x>").is_none());
}

#[test]
fn thumbnail_fragment_without_end_tag_runs_to_the_end() {
    let code = "pre<thumbnail>data:image/png;base64,QUJD";
    assert_eq!(thumbnail_fragment(code).unwrap(), "QUJD");
}

#[test]
fn thumbnail_png_data_decodes_base64() {
    let code = "<thumbnail>data:image/png;base64,aGVsbG8=</thumbnail>";
    assert_eq!(thumbnail_png_data(code).unwrap(), b"hello".to_vec());

    let missing = thumbnail_png_data("<x/>");
    assert_eq!(missing.err(), Some(UserError::ThumbnailNotFoundError));

    let malformed = thumbnail_png_data("<thumbnail>data:image/png;base64,!!!</thumbnail>");
    assert_eq!(
        malformed.err(),
        Some(UserError::InternalError(InternalError::Base64DecodeError))
    );
}

#[test]
fn assemble_project_copies_metadata() {
    let md = metadata("p", vec![("r1", role("one", 1))]);
    let roles: StrMap<netsblox_cloud::types::RoleData> = StrMap::new();
    let project = assemble_project(md, roles);
    assert_eq!(project.name, "p");
    assert_eq!(project.owner, "alice");
    assert_eq!(project.id.as_str(), "p1");
}
