use netsblox_cloud::address::{resolve_address, BrowserAddress, ClientAddress};
use netsblox_cloud::ids::{AppId, ProjectId, RoleId, S3Key};
use netsblox_cloud::strmap::StrMap;
use netsblox_cloud::topology::{
    broken_save_state, cleanup_policy, dedup_client_ids, delete_at_time, ProjectCleanup,
    ResolvedTarget, Topology, TopologyEffect,
};
use netsblox_cloud::types::{
    BrowserClientState, ClientState, ExternalClientState, ProjectMetadata, PublishState,
    RoleMetadata, SaveState,
};

fn browser(project: &str, role: &str) -> ClientState {
    ClientState::Browser(BrowserClientState {
        role_id: RoleId::new(role.to_string()),
        project_id: ProjectId::new(project.to_string()),
    })
}

fn external(address: &str, app: &str) -> ClientState {
    ClientState::External(ExternalClientState {
        address: address.to_string(),
        app_id: AppId::new(app),
    })
}

fn metadata(id: &str, name: &str, owner: &str, roles: Vec<(&str, &str)>) -> ProjectMetadata {
    let mut role_map: StrMap<RoleMetadata> = StrMap::new();
    for (rid, rname) in roles {
        role_map.insert(
            rid.to_string(),
            RoleMetadata {
                name: rname.to_string(),
                code: S3Key::new(format!("{}-code", rid)),
                media: S3Key::new(format!("{}-media", rid)),
                updated: 0,
            },
        );
    }
    ProjectMetadata {
        id: ProjectId::new(id.to_string()),
        owner: owner.to_string(),
        name: name.to_string(),
        updated: 10,
        origin_time: 1,
        state: PublishState::Private,
        save_state: SaveState::Transient,
        collaborators: Vec::new(),
        network_traces: Vec::new(),
        roles: role_map,
        delete_at: None,
    }
}

#[test]
fn occupants_receive_room_state_with_names() {
    let mut topo = Topology::new();
    topo.add_client("_c1".to_string());
    topo.add_client("_c2".to_string());
    topo.set_client_state("_c1", browser("p1", "r1"), Some("alice".to_string()));
    topo.set_client_state("_c2", browser("p1", "r1"), Some("bob".to_string()));

    let md = metadata("p1", "demo", "alice", vec![("r1", "myRole")]);
    let (msg, recipients) = topo.send_room_state(&md).unwrap();
    assert_eq!(msg.id.as_str(), "p1");
    assert_eq!(msg.owner, "alice");
    assert_eq!(msg.name, "demo");
    let role_state = msg.roles.get("r1").unwrap();
    assert_eq!(role_state.name, "myRole");
    let occupants: Vec<(String, String)> = role_state
        .occupants
        .iter()
        .map(|o| (o.id.as_str().to_string(), o.name.clone()))
        .collect();
    assert_eq!(
        occupants,
        vec![
            ("_c1".to_string(), "alice".to_string()),
            ("_c2".to_string(), "bob".to_string()),
        ]
    );
    let mut ids: Vec<String> = recipients.iter().map(|c| c.as_str().to_string()).collect();
    ids.sort();
    assert_eq!(ids, vec!["_c1".to_string(), "_c2".to_string()]);
}

#[test]
fn unnamed_occupants_are_guests() {
    let mut topo = Topology::new();
    topo.add_client("_c1".to_string());
    topo.set_client_state("_c1", browser("p1", "r1"), None);
    let md = metadata("p1", "demo", "alice", vec![("r1", "myRole")]);
    let (msg, _) = topo.send_room_state(&md).unwrap();
    assert_eq!(msg.roles.get("r1").unwrap().occupants[0].name, "guest");
}

#[test]
fn room_state_versions_strictly_increase() {
    let mut topo = Topology::new();
    topo.add_client("_c1".to_string());
    topo.set_client_state("_c1", browser("p1", "r1"), None);
    let md = metadata("p1", "demo", "alice", vec![("r1", "myRole")]);
    let (m1, _) = topo.send_room_state(&md).unwrap();
    let (m2, _) = topo.send_room_state(&md).unwrap();
    let (m3, _) = topo.send_room_state(&md).unwrap();
    assert!(m1.version < m2.version);
    assert!(m2.version < m3.version);
}

#[test]
fn send_room_state_without_room_is_silent() {
    let mut topo = Topology::new();
    let md = metadata("p1", "demo", "alice", vec![("r1", "myRole")]);
    assert!(topo.send_room_state(&md).is_none());
}

#[test]
fn test_remove_client_clear_state() {
    let mut topo = Topology::new();
    topo.add_client("_c1".to_string());
    topo.set_client_state("_c1", browser("p1", "r1"), None);
    let effects = topo.remove_client("_c1");
    // the project was fully evacuated: its row must be cleaned up
    assert_eq!(effects.len(), 1);
    match &effects[0] {
        TopologyEffect::CleanupProject(p) => assert_eq!(p.as_str(), "p1"),
        TopologyEffect::BroadcastRoom(_) => panic!("expected a cleanup"),
    }
    let state = BrowserClientState {
        role_id: RoleId::new("r1".to_string()),
        project_id: ProjectId::new("p1".to_string()),
    };
    assert!(topo.get_role_request(&state).is_none());
}

#[test]
fn test_remove_client_clear_external_state() {
    let mut topo = Topology::new();
    topo.add_client("_x".to_string());
    topo.set_client_state("_x", external("sensors/1", "IoTHub"), None);
    topo.remove_client("_x");

    let addr = ClientAddress::parse("sensors/1#IoTHub");
    let recipients = topo.clients_at(&addr, &Vec::new());
    assert!(recipients.is_empty());
}

#[test]
fn departure_of_one_occupant_broadcasts() {
    let mut topo = Topology::new();
    topo.add_client("_c1".to_string());
    topo.add_client("_c2".to_string());
    topo.set_client_state("_c1", browser("p1", "r1"), None);
    topo.set_client_state("_c2", browser("p1", "r1"), None);
    let effects = topo.remove_client("_c2");
    assert_eq!(effects.len(), 1);
    match &effects[0] {
        TopologyEffect::BroadcastRoom(p) => assert_eq!(p.as_str(), "p1"),
        TopologyEffect::CleanupProject(_) => panic!("project still occupied"),
    }
}

#[test]
fn moving_between_roles_leaves_one_placement() {
    let mut topo = Topology::new();
    topo.add_client("_c1".to_string());
    topo.set_client_state("_c1", browser("p1", "r1"), None);
    topo.set_client_state("_c1", browser("p1", "r2"), None);

    let r1 = BrowserClientState {
        role_id: RoleId::new("r1".to_string()),
        project_id: ProjectId::new("p1".to_string()),
    };
    let r2 = BrowserClientState {
        role_id: RoleId::new("r2".to_string()),
        project_id: ProjectId::new("p1".to_string()),
    };
    assert!(topo.get_role_request(&r1).is_none());
    assert_eq!(topo.get_role_request(&r2).unwrap().as_str(), "_c1");
}

#[test]
fn unknown_clients_are_dropped() {
    let mut topo = Topology::new();
    let effects = topo.set_client_state("_ghost", browser("p1", "r1"), None);
    assert!(effects.is_empty());
    let state = BrowserClientState {
        role_id: RoleId::new("r1".to_string()),
        project_id: ProjectId::new("p1".to_string()),
    };
    assert!(topo.get_role_request(&state).is_none());
}

#[test]
fn get_role_request_returns_first_occupant() {
    let mut topo = Topology::new();
    topo.add_client("_c1".to_string());
    topo.add_client("_c2".to_string());
    topo.set_client_state("_c1", browser("p1", "r1"), None);
    topo.set_client_state("_c2", browser("p1", "r1"), None);
    let state = BrowserClientState {
        role_id: RoleId::new("r1".to_string()),
        project_id: ProjectId::new("p1".to_string()),
    };
    assert_eq!(topo.get_role_request(&state).unwrap().as_str(), "_c1");
}

#[test]
fn set_broken_client_names_the_project() {
    let mut topo = Topology::new();
    topo.add_client("_c1".to_string());
    topo.set_client_state("_c1", browser("p1", "r1"), None);
    assert_eq!(topo.set_broken_client("_c1").unwrap().as_str(), "p1");
    assert!(topo.set_broken_client("_nobody").is_none());

    let mut topo2 = Topology::new();
    topo2.add_client("_x".to_string());
    topo2.set_client_state("_x", external("a", "app"), None);
    assert!(topo2.set_broken_client("_x").is_none());
}

#[test]
fn cleanup_policy_follows_save_state() {
    assert_eq!(cleanup_policy(SaveState::Transient), ProjectCleanup::Immediately);
    assert_eq!(cleanup_policy(SaveState::Broken), ProjectCleanup::Delayed);
    assert_eq!(cleanup_policy(SaveState::Saved), ProjectCleanup::Untouched);
    assert_eq!(cleanup_policy(SaveState::Created), ProjectCleanup::Untouched);
}

#[test]
fn delayed_deletion_falls_due_ten_minutes_later() {
    assert_eq!(delete_at_time(100), 700);
}

#[test]
fn broken_transition_marks_transient_projects() {
    assert_eq!(broken_save_state(SaveState::Transient), SaveState::Broken);
    assert_eq!(broken_save_state(SaveState::Saved), SaveState::Saved);
    assert_eq!(broken_save_state(SaveState::Broken), SaveState::Broken);
    assert_eq!(broken_save_state(SaveState::Created), SaveState::Created);
}

#[test]
fn message_reaches_external_client_only() {
    let mut topo = Topology::new();
    topo.add_client("_x".to_string());
    topo.add_client("_other".to_string());
    topo.set_client_state("_x", external("sensors/1", "IoTHub"), None);
    topo.set_client_state("_other", browser("p1", "r1"), None);

    let addr = ClientAddress::parse("sensors/1#IoTHub");
    let targets = vec![ResolvedTarget { address: addr, browser_targets: Vec::new() }];
    let recipients = topo.send_msg_recipients(&targets);
    let ids: Vec<&str> = recipients.iter().map(|c| c.as_str()).collect();
    assert_eq!(ids, vec!["_x"]);
}

#[test]
fn message_fans_out_to_every_occupant_once() {
    let mut topo = Topology::new();
    for id in ["_a", "_b", "_c"] {
        topo.add_client(id.to_string());
    }
    topo.set_client_state("_a", browser("p1", "ra"), None);
    topo.set_client_state("_b", browser("p1", "rb"), None);
    topo.set_client_state("_c", browser("p1", "rc"), None);

    let md = metadata(
        "p1",
        "P",
        "alice",
        vec![("ra", "a"), ("rb", "b"), ("rc", "c")],
    );
    let addr = ClientAddress::parse("@P@alice");
    let browser_targets = resolve_address(&addr, Some(&md));
    assert_eq!(browser_targets.len(), 3);

    let targets = vec![ResolvedTarget { address: addr, browser_targets }];
    let recipients = topo.send_msg_recipients(&targets);
    let mut ids: Vec<&str> = recipients.iter().map(|c| c.as_str()).collect();
    ids.sort();
    assert_eq!(ids, vec!["_a", "_b", "_c"]);
}

#[test]
fn duplicate_recipients_are_dropped() {
    let ids = vec![
        netsblox_cloud::ids::ClientId::new("_a".to_string()),
        netsblox_cloud::ids::ClientId::new("_b".to_string()),
        netsblox_cloud::ids::ClientId::new("_a".to_string()),
        netsblox_cloud::ids::ClientId::new("_c".to_string()),
        netsblox_cloud::ids::ClientId::new("_b".to_string()),
    ];
    let out = dedup_client_ids(&ids);
    let names: Vec<&str> = out.iter().map(|c| c.as_str()).collect();
    assert_eq!(names, vec!["_a", "_b", "_c"]);
}

#[test]
fn address_parsing_splits_role_project_owner_and_apps() {
    let addr = ClientAddress::parse("role1@proj@owner#App1,App2");
    assert_eq!(addr.address, "role1@proj");
    assert_eq!(addr.user_id, "owner");
    let apps: Vec<&str> = addr.app_ids.iter().map(|a| a.as_str()).collect();
    assert_eq!(apps, vec!["app1", "app2"]);
    assert_eq!(addr.to_app_string(), "role1@proj@owner");
    let (project, owner) = addr.project_query();
    assert_eq!(project, "proj");
    assert_eq!(owner, "owner");
    assert_eq!(addr.requested_role().unwrap(), "role1");
}

#[test]
fn address_without_role_requests_all_roles() {
    let addr = ClientAddress::parse("proj@owner");
    assert_eq!(addr.address, "proj");
    assert_eq!(addr.user_id, "owner");
    let apps: Vec<&str> = addr.app_ids.iter().map(|a| a.as_str()).collect();
    assert_eq!(apps, vec!["netsblox"]);
    assert!(addr.requested_role().is_none());
    assert_eq!(addr.to_app_string(), "proj@owner");
}

#[test]
fn resolve_address_maps_role_names_to_identifiers() {
    let md = metadata("p9", "Proj", "alice", vec![("r1", "one"), ("r2", "two")]);
    let addr = ClientAddress::parse("two@Proj@alice");
    let targets = resolve_address(&addr, Some(&md));
    assert_eq!(targets.len(), 1);
    assert_eq!(targets[0].project_id, "p9");
    assert_eq!(targets[0].role_id, "r2");

    let unknown = ClientAddress::parse("missing@Proj@alice");
    assert!(resolve_address(&unknown, Some(&md)).is_empty());
    assert!(resolve_address(&addr, None).is_empty());
}

#[test]
fn resolve_address_without_role_yields_every_role() {
    let md = metadata("p9", "Proj", "alice", vec![("r1", "one"), ("r2", "two")]);
    let addr = ClientAddress::parse("Proj@alice");
    let targets = resolve_address(&addr, Some(&md));
    let roles: Vec<&str> = targets.iter().map(|t| t.role_id.as_str()).collect();
    assert_eq!(roles, vec!["r1", "r2"]);
}

#[test]
fn clients_at_ignores_unbound_addresses() {
    let topo = Topology::new();
    let addr = ClientAddress::parse("sensors/9#IoTHub");
    assert!(topo.clients_at(&addr, &Vec::new()).is_empty());

    let browser_targets = vec![BrowserAddress {
        project_id: "p1".to_string(),
        role_id: "r1".to_string(),
    }];
    let default_addr = ClientAddress::parse("Proj@alice");
    assert!(topo.clients_at(&default_addr, &browser_targets).is_empty());
}

#[test]
fn external_binding_survives_other_clients() {
    let mut topo = Topology::new();
    topo.add_client("_x".to_string());
    topo.add_client("_y".to_string());
    topo.set_client_state("_x", external("a/1", "Hub"), None);
    topo.set_client_state("_y", external("a/2", "Hub"), None);
    topo.remove_client("_y");

    let addr = ClientAddress::parse("a/1#Hub");
    let found = topo.clients_at(&addr, &Vec::new());
    assert_eq!(found.len(), 1);
    assert_eq!(found[0].as_str(), "_x");
}

#[test]
fn broken_client_then_disconnect_schedules_delayed_cleanup() {
    let mut topo = Topology::new();
    topo.add_client("_c1".to_string());
    topo.set_client_state("_c1", browser("p1", "r1"), None);

    // the transport breaks: the unsaved project is marked broken
    let project = topo.set_broken_client("_c1").unwrap();
    assert_eq!(project.as_str(), "p1");
    let marked = broken_save_state(SaveState::Transient);
    assert_eq!(marked, SaveState::Broken);

    // the disconnect then evacuates the project, and the broken row is
    // scheduled for deletion ten minutes later rather than deleted
    let effects = topo.remove_client("_c1");
    assert_eq!(effects.len(), 1);
    assert!(matches!(effects[0], TopologyEffect::CleanupProject(_)));
    assert_eq!(cleanup_policy(marked), ProjectCleanup::Delayed);
    assert_eq!(delete_at_time(1000), 1600);
}

#[test]
fn has_client_tracks_connections() {
    let mut topo = Topology::new();
    assert!(!topo.has_client("_c1"));
    topo.add_client("_c1".to_string());
    assert!(topo.has_client("_c1"));
    topo.remove_client("_c1");
    assert!(!topo.has_client("_c1"));
}
