use multi_app::commands::state_ops::{
    add_instance, add_website, fork_instance, remove_instance, remove_website, rename_instance,
    sanitize, set_active_instance,
};
use multi_app::commands::OpError;
use multi_app::model::AppState;

fn empty_state() -> AppState {
    AppState::default()
}

#[test]
fn add_website_canonicalizes_to_etld_plus_one() {
    let mut state = empty_state();
    let w = add_website(&mut state, "https://mail.google.com/inbox/u/1", 100).unwrap();
    assert_eq!(w.url_root, "google.com");
    assert_eq!(w.display_title, "mail.google.com");
    assert_eq!(state.active_website_id, Some(w.id));
}

#[test]
fn add_website_accepts_raw_hostname_without_scheme() {
    let mut state = empty_state();
    let w = add_website(&mut state, "google.com", 100).unwrap();
    assert_eq!(w.url_root, "google.com");
}

#[test]
fn add_website_deduplicates_by_etld_plus_one() {
    let mut state = empty_state();
    let w1 = add_website(&mut state, "https://google.com", 100).unwrap();
    let w2 = add_website(&mut state, "https://mail.google.com/", 200).unwrap();
    assert_eq!(w1.id, w2.id);
    assert_eq!(state.websites.len(), 1);
}

#[test]
fn add_website_rejects_garbage_input() {
    let mut state = empty_state();
    let err = add_website(&mut state, "not a url at all !!!", 100).unwrap_err();
    match err {
        OpError::InvalidUrl(_) | OpError::UrlNoRegisteredDomain(_) => {}
        other => panic!("unexpected: {other:?}"),
    }
}

#[test]
fn add_instance_first_call_becomes_root_and_active() {
    let mut state = empty_state();
    let w = add_website(&mut state, "google.com", 100).unwrap();
    let inst = add_instance(&mut state, w.id, Some("Personal".into()), None, 200).unwrap();
    assert_eq!(inst.parent_instance_id, None);
    assert_eq!(inst.user_name.as_deref(), Some("Personal"));
    let w_after = &state.websites[0];
    assert_eq!(w_after.root_instance_ids, vec![inst.id]);
    assert_eq!(w_after.active_instance_id, Some(inst.id));
}

#[test]
fn add_instance_for_missing_website_errors() {
    let mut state = empty_state();
    let err = add_instance(&mut state, 0, None, None, 100).unwrap_err();
    assert!(matches!(err, OpError::WebsiteNotFound(_)));
}

#[test]
fn rename_to_empty_string_errors_and_preserves_existing_name() {
    let mut state = empty_state();
    let w = add_website(&mut state, "google.com", 0).unwrap();
    let i = add_instance(&mut state, w.id, Some("original".into()), None, 0).unwrap();

    let err = rename_instance(&mut state, i.id, "   ").unwrap_err();
    assert!(matches!(err, OpError::EmptyName));

    let still = state.instances.get(&i.id).unwrap();
    assert_eq!(still.user_name.as_deref(), Some("original"));
}

#[test]
fn rename_trims_whitespace() {
    let mut state = empty_state();
    let w = add_website(&mut state, "google.com", 0).unwrap();
    let i = add_instance(&mut state, w.id, None, None, 0).unwrap();
    let renamed = rename_instance(&mut state, i.id, "  Work  ").unwrap();
    assert_eq!(renamed.user_name.as_deref(), Some("Work"));
}

#[test]
fn fork_creates_child_instance_under_parent() {
    let mut state = empty_state();
    let w = add_website(&mut state, "google.com", 0).unwrap();
    let parent = add_instance(&mut state, w.id, None, None, 100).unwrap();
    let child = fork_instance(&mut state, parent.id, "https://stripe.com/checkout", 200).unwrap();
    assert_eq!(child.parent_instance_id, Some(parent.id));
    assert_eq!(child.website_id, w.id);
    // Children do not appear among the roots; the tree finds them by parent.
    let w_after = &state.websites[0];
    assert_eq!(w_after.root_instance_ids, vec![parent.id]);
}

#[test]
fn remove_instance_cascades_through_descendants() {
    let mut state = empty_state();
    let w = add_website(&mut state, "google.com", 0).unwrap();
    let root = add_instance(&mut state, w.id, None, None, 1).unwrap();
    let child = fork_instance(&mut state, root.id, "https://stripe.com", 2).unwrap();
    let grand = fork_instance(&mut state, child.id, "https://docs.stripe.com", 3).unwrap();
    let _sibling_under_root = add_instance(&mut state, w.id, Some("Other".into()), None, 4).unwrap();

    let removed = remove_instance(&mut state, root.id).unwrap();
    assert_eq!(removed.len(), 3);
    for r in &[root.id, child.id, grand.id] {
        assert!(removed.contains(r));
        assert!(!state.instances.contains_key(r));
    }
    let w_after = &state.websites[0];
    // The sibling root remains; the removed root left the roots.
    assert_eq!(w_after.root_instance_ids.len(), 1);
    assert_ne!(w_after.root_instance_ids[0], root.id);
}

#[test]
fn remove_website_drops_all_its_instances_including_forks() {
    let mut state = empty_state();
    let wa = add_website(&mut state, "google.com", 0).unwrap();
    let wb = add_website(&mut state, "github.com", 0).unwrap();
    let ia = add_instance(&mut state, wa.id, None, None, 0).unwrap();
    let ia_fork = fork_instance(&mut state, ia.id, "https://stripe.com", 0).unwrap();
    let ib = add_instance(&mut state, wb.id, None, None, 0).unwrap();

    let removed = remove_website(&mut state, wa.id).unwrap();
    assert!(removed.contains(&ia.id));
    assert!(removed.contains(&ia_fork.id));
    assert!(!removed.contains(&ib.id));
    assert_eq!(state.websites.len(), 1);
    assert_eq!(state.websites[0].id, wb.id);
    assert!(state.instances.contains_key(&ib.id));
    assert!(!state.instances.contains_key(&ia.id));
    assert!(!state.instances.contains_key(&ia_fork.id));
    // The active website moves to the remaining one.
    assert_eq!(state.active_website_id, Some(wb.id));
}

#[test]
fn set_active_instance_also_sets_active_website() {
    let mut state = empty_state();
    let wa = add_website(&mut state, "google.com", 0).unwrap();
    let wb = add_website(&mut state, "github.com", 0).unwrap();
    let ib = add_instance(&mut state, wb.id, None, None, 0).unwrap();
    // start with wa active
    state.active_website_id = Some(wa.id);

    set_active_instance(&mut state, ib.id).unwrap();
    assert_eq!(state.active_website_id, Some(wb.id));
    let w_after = state.websites.iter().find(|w| w.id == wb.id).unwrap();
    assert_eq!(w_after.active_instance_id, Some(ib.id));
}

#[test]
fn sanitize_clears_dangling_active_instance() {
    let mut state = empty_state();
    let w = add_website(&mut state, "google.com", 0).unwrap();
    let i = add_instance(&mut state, w.id, None, None, 0).unwrap();
    // Tamper: the persisted file lost the instance.
    state.instances.remove(&i.id);

    let fixed = sanitize(&mut state);
    assert!(fixed >= 1);
    let w_after = &state.websites[0];
    assert!(w_after.root_instance_ids.is_empty());
    assert_eq!(w_after.active_instance_id, None);
}

#[test]
fn sanitize_drops_orphan_instances_whose_website_is_gone() {
    let mut state = empty_state();
    let wa = add_website(&mut state, "google.com", 0).unwrap();
    let _ia = add_instance(&mut state, wa.id, None, None, 0).unwrap();
    // Tamper: drop the website but leave the instance.
    let orphans: Vec<u128> = state
        .instances
        .values()
        .filter(|i| i.website_id == wa.id)
        .map(|i| i.id)
        .collect();
    state.websites.retain(|w| w.id != wa.id);

    sanitize(&mut state);
    for o in &orphans {
        assert!(!state.instances.contains_key(o));
    }
}

#[test]
fn sanitize_falls_back_active_website_to_first_remaining() {
    let mut state = empty_state();
    let wa = add_website(&mut state, "google.com", 0).unwrap();
    let wb = add_website(&mut state, "github.com", 0).unwrap();
    state.active_website_id = Some(wa.id);
    // Tamper: drop wa.
    state.websites.retain(|w| w.id != wa.id);
    sanitize(&mut state);
    assert_eq!(state.active_website_id, Some(wb.id));
}

#[test]
fn sanitize_is_idempotent_on_clean_state() {
    let mut state = empty_state();
    let w = add_website(&mut state, "google.com", 0).unwrap();
    let _i = add_instance(&mut state, w.id, None, None, 0).unwrap();
    assert_eq!(sanitize(&mut state), 0);
    assert_eq!(sanitize(&mut state), 0);
}

#[test]
fn set_active_instance_unknown_errors() {
    let mut state = empty_state();
    let err = set_active_instance(&mut state, 0).unwrap_err();
    assert!(matches!(err, OpError::InstanceNotFound(_)));
}
