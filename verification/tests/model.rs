use multi_app::model::{
    deserialize, project_tree, AppState, Instance, ModelError, StoreSchema, Website, SCHEMA_VERSION,
};

fn fixed_uuid(n: u8) -> u128 {
    let mut bytes = [0u8; 16];
    bytes[0] = n;
    uuid::Uuid::from_bytes(bytes).as_u128()
}

fn website(id_byte: u8, title: &str) -> Website {
    Website {
        id: fixed_uuid(id_byte),
        url_root: format!("https://{title}.test"),
        display_title: title.into(),
        root_instance_ids: vec![],
        active_instance_id: None,
        created_at_ms: 1_000_000,
    }
}

fn instance(id_byte: u8, website_id: u128, parent: Option<u128>, created_ms: i64) -> Instance {
    Instance {
        id: fixed_uuid(id_byte),
        website_id,
        parent_instance_id: parent,
        user_name: None,
        page_title: None,
        current_url: "https://example.test".into(),
        created_at_ms: created_ms,
        icon: None,
    }
}

#[test]
fn rejects_incompatible_schema_version() {
    let blob = StoreSchema { version: 99, app: AppState::default() };
    let err = deserialize(Ok(blob)).unwrap_err();
    match err {
        ModelError::IncompatibleVersion { found, supported } => {
            assert_eq!(found, 99);
            assert_eq!(supported, SCHEMA_VERSION);
        }
        other => panic!("expected IncompatibleVersion, got {other:?}"),
    }
}

#[test]
fn project_tree_shapes_nested_children_in_chronological_order() {
    let mut state = AppState::default();

    let mut w = website(1, "google");
    let root = instance(10, w.id, None, 100);
    let child_old = instance(11, w.id, Some(root.id), 200);
    let child_new = instance(12, w.id, Some(root.id), 300);
    let grand = instance(13, w.id, Some(child_old.id), 400);

    w.root_instance_ids = vec![root.id];
    state.websites = vec![w.clone()];
    for inst in [&root, &child_old, &child_new, &grand] {
        state.instances.insert(inst.id, inst.clone());
    }

    let tree = project_tree(&state, w.id);
    assert_eq!(tree.len(), 1);
    let root_node = &tree[0];
    assert_eq!(root_node.instance.id, root.id);
    assert_eq!(root_node.children.len(), 2);

    assert_eq!(root_node.children[0].instance.id, child_old.id);
    assert_eq!(root_node.children[1].instance.id, child_new.id);
    assert_eq!(root_node.children[0].children.len(), 1);
    assert_eq!(root_node.children[0].children[0].instance.id, grand.id);
    assert!(root_node.children[1].children.is_empty());
}

#[test]
fn project_tree_scopes_by_website() {
    let mut state = AppState::default();

    let mut w_a = website(1, "google");
    let mut w_b = website(2, "github");

    let a_root = instance(10, w_a.id, None, 1);
    let b_root = instance(20, w_b.id, None, 1);

    w_a.root_instance_ids = vec![a_root.id];
    w_b.root_instance_ids = vec![b_root.id];

    state.websites = vec![w_a.clone(), w_b.clone()];
    state.instances.insert(a_root.id, a_root.clone());
    state.instances.insert(b_root.id, b_root.clone());

    let tree_a = project_tree(&state, w_a.id);
    let tree_b = project_tree(&state, w_b.id);
    assert_eq!(tree_a.len(), 1);
    assert_eq!(tree_b.len(), 1);
    assert_eq!(tree_a[0].instance.id, a_root.id);
    assert_eq!(tree_b[0].instance.id, b_root.id);
}

#[test]
fn project_tree_for_unknown_website_returns_empty() {
    let state = AppState::default();
    assert!(project_tree(&state, fixed_uuid(99)).is_empty());
}

#[test]
fn deserialize_accepts_current_version() {
    let mut app = AppState::default();
    let w = website(1, "google");
    app.active_website_id = Some(w.id);
    app.websites.push(w);
    let got = deserialize(Ok(StoreSchema::current(app))).unwrap();
    assert_eq!(got.websites.len(), 1);
    assert_eq!(got.websites[0].id, fixed_uuid(1));
    assert_eq!(got.active_website_id, Some(fixed_uuid(1)));
}

#[test]
fn deserialize_keeps_the_parse_error() {
    let parse_err = serde_json::from_str::<u32>("not json").unwrap_err();
    let line = parse_err.line();
    match deserialize(Err(parse_err)) {
        Err(ModelError::Json(e)) => assert_eq!(e.line(), line),
        other => panic!("expected a JSON error, got {other:?}"),
    }
}

#[test]
fn store_schema_current_stamps_the_layout_version() {
    let s = StoreSchema::current(AppState::default());
    assert_eq!(s.version, SCHEMA_VERSION);
    assert_eq!(SCHEMA_VERSION, 1);
}

#[test]
fn project_tree_skips_missing_roots_and_other_websites_children() {
    let mut state = AppState::default();
    let mut w = website(1, "google");
    let other = website(2, "github");
    let root = instance(10, w.id, None, 5);
    // A child that claims the root as parent but belongs to another website.
    let stray = instance(11, other.id, Some(root.id), 6);
    w.root_instance_ids = vec![fixed_uuid(50), root.id];
    state.websites = vec![w.clone(), other];
    state.instances.insert(root.id, root.clone());
    state.instances.insert(stray.id, stray);
    let tree = project_tree(&state, w.id);
    assert_eq!(tree.len(), 1);
    assert_eq!(tree[0].instance.id, root.id);
    assert!(tree[0].children.is_empty());
}

#[test]
fn project_tree_sorts_siblings_by_creation_time() {
    let mut state = AppState::default();
    let mut w = website(1, "google");
    let root = instance(10, w.id, None, 1);
    let late = instance(11, w.id, Some(root.id), 900);
    let early = instance(12, w.id, Some(root.id), 50);
    let mid = instance(13, w.id, Some(root.id), 300);
    w.root_instance_ids = vec![root.id];
    state.websites = vec![w.clone()];
    for inst in [&root, &late, &early, &mid] {
        state.instances.insert(inst.id, inst.clone());
    }
    let tree = project_tree(&state, w.id);
    let kids: Vec<u128> = tree[0].children.iter().map(|n| n.instance.id).collect();
    assert_eq!(kids, vec![early.id, mid.id, late.id]);
}
