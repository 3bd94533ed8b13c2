use netsblox_cloud::cache::{get_cached_project_metadata, update_project_cache, ProjectCache};
use netsblox_cloud::ids::ProjectId;
use netsblox_cloud::strmap::StrMap;
use netsblox_cloud::types::{ProjectMetadata, PublishState, SaveState};

fn metadata(id: &str, name: &str) -> ProjectMetadata {
    ProjectMetadata {
        id: ProjectId::new(id.to_string()),
        owner: "alice".to_string(),
        name: name.to_string(),
        updated: 10,
        origin_time: 1,
        state: PublishState::Private,
        save_state: SaveState::Saved,
        collaborators: Vec::new(),
        network_traces: Vec::new(),
        roles: StrMap::new(),
        delete_at: None,
    }
}

#[test]
fn cache_round_trips_metadata() {
    let mut cache = ProjectCache::new(500);
    update_project_cache(&mut cache, metadata("p1", "demo"));
    let hit = cache.get("p1").unwrap();
    assert_eq!(hit.name, "demo");
    assert!(cache.get("p2").is_none());
}

#[test]
fn cache_overwrites_newer_metadata() {
    let mut cache = ProjectCache::new(500);
    update_project_cache(&mut cache, metadata("p1", "old"));
    update_project_cache(&mut cache, metadata("p1", "new"));
    assert_eq!(cache.get("p1").unwrap().name, "new");
}

#[test]
fn cache_is_bounded() {
    let mut cache = ProjectCache::new(1);
    update_project_cache(&mut cache, metadata("p1", "one"));
    update_project_cache(&mut cache, metadata("p2", "two"));
    // the least recently used entry was evicted to admit the new one
    assert!(cache.get("p1").is_none());
    assert_eq!(cache.get("p2").unwrap().name, "two");
}

#[test]
fn cached_and_missing_identifiers_are_split() {
    let mut cache = ProjectCache::new(10);
    update_project_cache(&mut cache, metadata("p1", "one"));
    update_project_cache(&mut cache, metadata("p3", "three"));
    let ids = vec![
        ProjectId::new("p1".to_string()),
        ProjectId::new("p2".to_string()),
        ProjectId::new("p3".to_string()),
        ProjectId::new("p4".to_string()),
    ];
    let (found, missing) = get_cached_project_metadata(&mut cache, &ids);
    let names: Vec<&str> = found.iter().map(|m| m.name.as_str()).collect();
    assert_eq!(names, vec!["one", "three"]);
    let missing_ids: Vec<&str> = missing.iter().map(|m| m.as_str()).collect();
    assert_eq!(missing_ids, vec!["p2", "p4"]);
}
