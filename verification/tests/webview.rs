use multi_app::model::Instance;
use multi_app::webview_registry::{label_for, spawn_target, SpawnError, SpawnPlan, WebviewRegistry};

#[test]
fn label_for_uses_instance_uuid_simple_form() {
    let id = uuid::Uuid::from_u128(0xDEAD_BEEF_DEAD_BEEF_DEAD_BEEF_DEAD_BEEF).as_u128();
    let label = label_for(id);
    assert!(label.starts_with("instance-"));
    assert_eq!(label.len(), "instance-".len() + 32);
    assert_eq!(label, "instance-deadbeefdeadbeefdeadbeefdeadbeef");
}

#[test]
fn label_collisions_are_impossible_for_distinct_uuids() {
    let a = label_for(uuid::Uuid::from_u128(1).as_u128());
    let b = label_for(uuid::Uuid::from_u128(2).as_u128());
    assert_ne!(a, b);
}

#[test]
fn manager_starts_empty() {
    let mgr = WebviewRegistry::new();
    assert_eq!(mgr.active(), None);
    assert!(!mgr.is_spawned(0));
}

#[test]
fn label_for_pads_small_ids_with_zeros() {
    assert_eq!(label_for(0), "instance-00000000000000000000000000000000");
    assert_eq!(label_for(0xa1), "instance-000000000000000000000000000000a1");
}

#[test]
fn registry_tracks_spawn_activate_and_destroy() {
    let mut reg = WebviewRegistry::new();
    assert!(reg.activate(1).is_none());
    reg.record_spawned(1, label_for(1));
    reg.record_spawned(2, label_for(2));
    assert!(reg.is_spawned(1));
    assert_eq!(reg.spawned_label(2), Some(label_for(2)));

    let (prev, shown) = reg.activate(1).unwrap();
    assert_eq!(prev, None);
    assert_eq!(shown, label_for(1));
    assert_eq!(reg.active(), Some(1));
    assert_eq!(reg.active_label(), Some(label_for(1)));

    let (prev, shown) = reg.activate(2).unwrap();
    assert_eq!(prev, Some(label_for(1)));
    assert_eq!(shown, label_for(2));

    assert_eq!(reg.deactivate(), Some(label_for(2)));
    assert_eq!(reg.active(), None);

    reg.activate(1).unwrap();
    assert_eq!(reg.destroy(1), Some(label_for(1)));
    assert!(!reg.is_spawned(1));
    assert_eq!(reg.active(), None);
    assert_eq!(reg.destroy(7), None);
}

fn instance_at(url: &str) -> Instance {
    Instance {
        id: 5,
        website_id: 1,
        parent_instance_id: None,
        user_name: None,
        page_title: None,
        current_url: url.into(),
        created_at_ms: 0,
        icon: None,
    }
}

#[test]
fn spawn_target_pins_to_the_registered_domain() {
    let (url, root) = spawn_target(&instance_at("https://mail.google.com/inbox")).unwrap();
    assert_eq!(root, "google.com");
    assert_eq!(url.href, "https://mail.google.com/inbox");
    assert!(matches!(spawn_target(&instance_at("not a url")), Err(SpawnError::InvalidUrl(_))));
    assert!(matches!(
        spawn_target(&instance_at("about:blank")),
        Err(SpawnError::NoRegisteredDomain(_))
    ));
}

#[test]
fn spawn_plan_spawns_once_then_reports_the_label() {
    let mut reg = WebviewRegistry::new();
    let inst = instance_at("https://docs.google.com/x");
    let label = match reg.spawn_plan(&inst).unwrap() {
        SpawnPlan::Spawn { label, url, root } => {
            assert_eq!(url.href, "https://docs.google.com/x");
            assert_eq!(root, "google.com");
            label
        }
        SpawnPlan::Spawned(_) => panic!("nothing was spawned yet"),
    };
    assert_eq!(label, label_for(5));
    reg.record_spawned(5, label.clone());
    assert!(matches!(reg.spawn_plan(&inst), Ok(SpawnPlan::Spawned(l)) if l == label));
    assert!(matches!(
        WebviewRegistry::new().spawn_plan(&instance_at("about:blank")),
        Err(SpawnError::NoRegisteredDomain(_))
    ));
}
