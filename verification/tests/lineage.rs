use multi_app::commands::state_ops::{add_instance, add_website, fork_instance};
use multi_app::descent::descent_is_finite;
use multi_app::commands::state_ops::{remove_instance, sanitize};
use multi_app::model::{AppState, Instance, Website};

fn inst(id: u128, website_id: u128, parent: Option<u128>) -> Instance {
    Instance {
        id,
        website_id,
        parent_instance_id: parent,
        user_name: None,
        page_title: None,
        current_url: "https://example.com".into(),
        created_at_ms: id as i64,
        icon: None,
    }
}

fn site(id: u128, roots: Vec<u128>) -> Website {
    Website {
        id,
        url_root: "example.com".into(),
        display_title: "example.com".into(),
        active_instance_id: roots.first().copied(),
        root_instance_ids: roots,
        created_at_ms: 0,
    }
}

#[test]
fn removing_an_instance_on_a_parent_cycle_ends() {
    let mut state = AppState::default();
    state.websites.push(site(1, vec![10]));
    for i in [inst(10, 1, Some(12)), inst(11, 1, Some(10)), inst(12, 1, Some(11)), inst(13, 1, Some(12)), inst(20, 1, Some(20)), inst(30, 1, None)] {
        state.instances.insert(i.id, i);
    }
    let removed = remove_instance(&mut state, 10).unwrap();
    assert_eq!(removed[0], 10);
    assert_eq!(removed.len(), 4);
    for id in [10, 11, 12, 13] {
        assert!(removed.contains(&id));
        assert!(!state.instances.contains_key(&id));
    }
    assert!(state.websites[0].root_instance_ids.is_empty());
    assert_eq!(state.websites[0].active_instance_id, None);
    assert_eq!(remove_instance(&mut state, 20).unwrap(), vec![20]);
    assert!(state.instances.contains_key(&30));
}

#[test]
fn states_built_by_the_operations_have_finite_trees() {
    let mut state = AppState::default();
    let w = add_website(&mut state, "google.com", 0).unwrap();
    let r = add_instance(&mut state, w.id, None, None, 1).unwrap();
    let c = fork_instance(&mut state, r.id, "https://stripe.com", 2).unwrap();
    fork_instance(&mut state, c.id, "https://github.com", 3).unwrap();
    assert!(descent_is_finite(&state, w.id));
    assert!(descent_is_finite(&state, 12345));
    assert_eq!(sanitize(&mut state), 0);
}

#[test]
fn a_reachable_cycle_of_links_is_refused() {
    let mut state = AppState::default();
    state.websites.push(site(1, vec![10]));
    state.instances.insert(10, inst(10, 1, Some(11)));
    state.instances.insert(11, inst(11, 1, Some(10)));
    assert!(!descent_is_finite(&state, 1));
}

#[test]
fn an_unreachable_cycle_does_not_matter() {
    let mut state = AppState::default();
    state.websites.push(site(1, vec![10]));
    state.instances.insert(10, inst(10, 1, None));
    state.instances.insert(11, inst(11, 1, Some(10)));
    state.instances.insert(20, inst(20, 1, Some(21)));
    state.instances.insert(21, inst(21, 1, Some(20)));
    assert!(descent_is_finite(&state, 1));
    let tree = multi_app::model::project_tree(&state, 1);
    assert_eq!(tree.len(), 1);
    assert_eq!(tree[0].children.len(), 1);
    assert_eq!(tree[0].children[0].instance.id, 11);
}
