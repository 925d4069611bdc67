use multi_app::commands::state_ops::{
    add_instance, add_website, find_website, fork_instance, normalize_website_url, remove_instance,
    remove_website, rename_instance, sanitize, set_active_instance, set_active_website,
    set_instance_icon, update_instance_title, update_instance_url,
};
use multi_app::commands::activation::{
    activate_instance_target, activate_website_target, add_instance_and_activate, fork_and_activate,
};
use multi_app::commands::OpError;
use multi_app::model::{epoch_ms, now_ms, AppState, Website};
use multi_app::text::concat_str;

fn google_with_instance() -> (AppState, u128, u128) {
    let mut state = AppState::default();
    let w = add_website(&mut state, "google.com", 10).unwrap();
    let i = add_instance(&mut state, w.id, Some("Me".into()), None, 20).unwrap();
    (state, w.id, i.id)
}

#[test]
fn normalize_reports_each_refusal() {
    assert!(matches!(normalize_website_url("   "), Err(OpError::InvalidUrl(s)) if s == "   "));
    assert!(matches!(normalize_website_url("http://"), Err(OpError::InvalidUrl(_))));
    assert!(matches!(
        normalize_website_url("file:///tmp/page.html"),
        Err(OpError::UrlMissingHost(s)) if s == "file:///tmp/page.html"
    ));
    assert!(matches!(
        normalize_website_url("https://co.uk"),
        Err(OpError::UrlNoRegisteredDomain(s)) if s == "https://co.uk"
    ));
}

#[test]
fn normalize_adds_a_scheme_and_lowercases_the_title() {
    let (url, root, title) = normalize_website_url("  Mail.Google.com/inbox ").unwrap();
    assert_eq!(url.href, "https://mail.google.com/inbox");
    assert_eq!(root, "google.com");
    assert_eq!(title, "mail.google.com");
}

#[test]
fn add_website_dedup_ignores_case_of_the_root() {
    let mut state = AppState::default();
    let a = add_website(&mut state, "https://docs.github.com", 1).unwrap();
    let b = add_website(&mut state, "GITHUB.com", 2).unwrap();
    assert_eq!(a.id, b.id);
    assert_eq!(b.display_title, "docs.github.com");
    assert_eq!(state.websites.len(), 1);
}

#[test]
fn only_the_first_website_becomes_active() {
    let mut state = AppState::default();
    let a = add_website(&mut state, "google.com", 1).unwrap();
    let b = add_website(&mut state, "github.com", 2).unwrap();
    assert_ne!(a.id, b.id);
    assert_eq!(state.active_website_id, Some(a.id));
    assert_eq!(b.created_at_ms, 2);
    set_active_website(&mut state, b.id).unwrap();
    assert_eq!(state.active_website_id, Some(b.id));
    assert!(matches!(set_active_website(&mut state, 12345), Err(OpError::WebsiteNotFound(12345))));
    assert_eq!(state.active_website_id, Some(b.id));
}

#[test]
fn add_instance_starts_at_the_root_and_keeps_the_active_one() {
    let (mut state, wid, first) = google_with_instance();
    let second = add_instance(&mut state, wid, Some("  ".into()), Some(" ico ".into()), 30).unwrap();
    assert_eq!(second.current_url, "https://google.com");
    assert_eq!(second.user_name, None);
    assert_eq!(second.icon.as_deref(), Some("ico"));
    assert_eq!(state.websites[0].root_instance_ids, vec![first, second.id]);
    assert_eq!(state.websites[0].active_instance_id, Some(first));
}

#[test]
fn a_root_that_is_already_a_url_is_the_starting_url() {
    let mut state = AppState::default();
    state.websites.push(Website {
        id: 7,
        url_root: "http://intranet.example.com".into(),
        display_title: "intranet".into(),
        root_instance_ids: vec![],
        active_instance_id: None,
        created_at_ms: 0,
    });
    let i = add_instance(&mut state, 7, None, None, 0).unwrap();
    assert_eq!(i.current_url, "http://intranet.example.com");
}

#[test]
fn fork_refuses_bad_targets_before_looking_up_the_parent() {
    let (mut state, _wid, root) = google_with_instance();
    assert!(matches!(fork_instance(&mut state, 999, "::nope", 1), Err(OpError::InvalidUrl(_))));
    assert!(matches!(
        fork_instance(&mut state, 999, "about:blank", 1),
        Err(OpError::UrlNoRegisteredDomain(_))
    ));
    assert!(matches!(
        fork_instance(&mut state, 999, "https://stripe.com", 1),
        Err(OpError::InstanceNotFound(999))
    ));
    assert_eq!(state.instances.len(), 1);
    let child = fork_instance(&mut state, root, "https://stripe.com", 5).unwrap();
    assert_ne!(child.id, root);
    assert_eq!(child.current_url, "https://stripe.com");
    assert_eq!(child.created_at_ms, 5);
    assert_eq!(state.instances.len(), 2);
}

#[test]
fn instance_edits_touch_only_their_field() {
    let (mut state, _wid, id) = google_with_instance();
    let with_icon = set_instance_icon(&mut state, id, Some("  🙂 ".into())).unwrap();
    assert_eq!(with_icon.icon.as_deref(), Some("🙂"));
    let cleared = set_instance_icon(&mut state, id, Some("".into())).unwrap();
    assert_eq!(cleared.icon, None);
    update_instance_url(&mut state, id, "https://mail.google.com/x");
    update_instance_title(&mut state, id, "Inbox");
    let inst = state.instances.get(&id).unwrap();
    assert_eq!(inst.current_url, "https://mail.google.com/x");
    assert_eq!(inst.page_title.as_deref(), Some("Inbox"));
    assert_eq!(inst.user_name.as_deref(), Some("Me"));
    // Unknown ids are ignored by the update calls and refused by the others.
    update_instance_url(&mut state, 1, "https://x.com");
    update_instance_title(&mut state, 1, "x");
    assert_eq!(state.instances.len(), 1);
    assert!(matches!(set_instance_icon(&mut state, 1, None), Err(OpError::InstanceNotFound(1))));
    assert!(matches!(rename_instance(&mut state, 1, "x"), Err(OpError::InstanceNotFound(1))));
}

#[test]
fn removing_the_active_root_activates_the_next_root() {
    let (mut state, wid, first) = google_with_instance();
    let second = add_instance(&mut state, wid, None, None, 30).unwrap();
    let removed = remove_instance(&mut state, first).unwrap();
    assert_eq!(removed, vec![first]);
    assert_eq!(state.websites[0].active_instance_id, Some(second.id));
    assert!(matches!(remove_instance(&mut state, first), Err(OpError::InstanceNotFound(_))));
    let removed = remove_instance(&mut state, second.id).unwrap();
    assert_eq!(removed, vec![second.id]);
    assert_eq!(state.websites[0].active_instance_id, None);
    assert!(state.websites[0].root_instance_ids.is_empty());
}

#[test]
fn removing_a_fork_keeps_its_parent_and_siblings() {
    let (mut state, _wid, root) = google_with_instance();
    let a = fork_instance(&mut state, root, "https://stripe.com", 1).unwrap();
    let b = fork_instance(&mut state, root, "https://github.com", 2).unwrap();
    let a1 = fork_instance(&mut state, a.id, "https://gitlab.com", 3).unwrap();
    let removed = remove_instance(&mut state, a.id).unwrap();
    assert_eq!(removed[0], a.id);
    assert_eq!(removed.len(), 2);
    assert!(removed.contains(&a1.id));
    assert!(state.instances.contains_key(&root));
    assert!(state.instances.contains_key(&b.id));
    assert_eq!(state.websites[0].root_instance_ids, vec![root]);
}

#[test]
fn removing_an_inactive_website_keeps_the_active_one() {
    let mut state = AppState::default();
    let a = add_website(&mut state, "google.com", 0).unwrap();
    let b = add_website(&mut state, "github.com", 0).unwrap();
    let removed = remove_website(&mut state, b.id).unwrap();
    assert!(removed.is_empty());
    assert_eq!(state.active_website_id, Some(a.id));
    assert!(matches!(remove_website(&mut state, b.id), Err(OpError::WebsiteNotFound(_))));
    remove_website(&mut state, a.id).unwrap();
    assert_eq!(state.active_website_id, None);
    assert!(state.websites.is_empty());
}

#[test]
fn operations_keep_a_clean_state_clean() {
    let (mut state, wid, root) = google_with_instance();
    let gh = add_website(&mut state, "github.com", 1).unwrap();
    let c = fork_instance(&mut state, root, "https://stripe.com", 2).unwrap();
    add_instance(&mut state, gh.id, None, None, 3).unwrap();
    set_active_instance(&mut state, c.id).unwrap();
    rename_instance(&mut state, c.id, "Pay").unwrap();
    assert_eq!(sanitize(&mut state), 0);
    remove_instance(&mut state, root).unwrap();
    assert_eq!(sanitize(&mut state), 0);
    remove_website(&mut state, wid).unwrap();
    assert_eq!(sanitize(&mut state), 0);
    assert_eq!(state.active_website_id, Some(gh.id));
}

#[test]
fn sanitize_drops_instances_that_cannot_be_spawned() {
    let (mut state, _wid, root) = google_with_instance();
    let bad = fork_instance(&mut state, root, "https://stripe.com", 1).unwrap();
    state.instances.get_mut(&bad.id).unwrap().current_url = "about:blank".into();
    state.instances.get_mut(&root).unwrap().current_url = "not a url".into();
    let fixed = sanitize(&mut state);
    // Two instances dropped, then the active pointer and the root repaired.
    assert_eq!(fixed, 4);
    assert!(state.instances.is_empty());
    assert!(state.websites[0].root_instance_ids.is_empty());
    assert_eq!(state.websites[0].active_instance_id, None);
}

#[test]
fn sanitize_falls_back_to_no_website_when_none_remain() {
    let mut state = AppState::default();
    state.active_website_id = Some(42);
    assert_eq!(sanitize(&mut state), 1);
    assert_eq!(state.active_website_id, None);
}

#[test]
fn find_website_gives_the_first_position() {
    let mut state = AppState::default();
    let a = add_website(&mut state, "google.com", 0).unwrap();
    let b = add_website(&mut state, "github.com", 0).unwrap();
    assert_eq!(find_website(&state.websites, a.id), Some(0));
    assert_eq!(find_website(&state.websites, b.id), Some(1));
    assert_eq!(find_website(&state.websites, 3), None);
}

#[test]
fn concat_str_joins() {
    assert_eq!(concat_str("ab", "cd"), "abcd");
    assert_eq!(concat_str("", "x"), "x");
}

#[test]
fn normalize_reports_the_parsed_url() {
    let (url, _, _) = normalize_website_url("HTTPS://Mail.Google.COM").unwrap();
    assert_eq!(url.href, "https://mail.google.com/");
    assert_eq!(url.host.as_deref(), Some("mail.google.com"));
    assert!(url.host_is_domain);
    let (ip, _, _) = normalize_website_url("http://10.0.0.1:8080/").unwrap();
    assert_eq!(ip.host.as_deref(), Some("10.0.0.1"));
    assert!(!ip.host_is_domain);
}

#[test]
fn the_display_title_is_the_lowercased_host() {
    // A URL of a scheme the URL standard does not know keeps its host's case.
    let mut state = AppState::default();
    let w = add_website(&mut state, "foo://MAIL.Google.com", 0).unwrap();
    assert_eq!(w.display_title, "mail.google.com");
    assert_eq!(w.url_root, "Google.com");
}

#[test]
fn rename_strips_unicode_white_space() {
    let (mut state, _wid, id) = google_with_instance();
    let renamed = rename_instance(&mut state, id, "\u{3000}\t Home \u{a0}\n").unwrap();
    assert_eq!(renamed.user_name.as_deref(), Some("Home"));
}

#[test]
fn clock_helpers_convert_milliseconds() {
    assert_eq!(epoch_ms(Some(1_700_000_000_123)), 1_700_000_000_123);
    assert_eq!(epoch_ms(None), 0);
    assert!(now_ms() > 1_600_000_000_000);
}

#[test]
fn sanitize_keeps_websites_and_only_spawnable_instances() {
    let mut state = AppState::default();
    let a = add_website(&mut state, "google.com", 0).unwrap();
    let b = add_website(&mut state, "github.com", 0).unwrap();
    let ia = add_instance(&mut state, a.id, None, None, 0).unwrap();
    let ib = add_instance(&mut state, b.id, None, None, 0).unwrap();
    state.instances.get_mut(&ib.id).unwrap().website_id = 777;
    state.instances.get_mut(&ia.id).unwrap().current_url = "data:text/plain,x".into();
    state.active_website_id = Some(778);
    sanitize(&mut state);
    assert_eq!(state.websites.len(), 2);
    assert_eq!(state.websites[0].id, a.id);
    assert_eq!(state.websites[1].id, b.id);
    assert!(state.instances.is_empty());
    assert_eq!(state.active_website_id, Some(a.id));
}

#[test]
fn new_instances_and_forks_become_active() {
    let mut state = AppState::default();
    let a = add_website(&mut state, "google.com", 0).unwrap();
    let b = add_website(&mut state, "github.com", 0).unwrap();
    let first = add_instance_and_activate(&mut state, a.id, None, None, 1).unwrap();
    let second = add_instance_and_activate(&mut state, a.id, None, None, 2).unwrap();
    assert_eq!(state.websites[0].active_instance_id, Some(second.id));
    let on_b = add_instance_and_activate(&mut state, b.id, None, None, 3).unwrap();
    assert_eq!(state.active_website_id, Some(b.id));
    let child = fork_and_activate(&mut state, first.id, "https://stripe.com", 4).unwrap();
    assert_eq!(state.active_website_id, Some(a.id));
    assert_eq!(state.websites[0].active_instance_id, Some(child.id));
    assert_eq!(state.websites[1].active_instance_id, Some(on_b.id));
    assert!(matches!(fork_and_activate(&mut state, first.id, "about:blank", 5), Err(OpError::UrlNoRegisteredDomain(_))));
    assert!(matches!(add_instance_and_activate(&mut state, 9, None, None, 6), Err(OpError::WebsiteNotFound(9))));
    assert_eq!(state.active_website_id, Some(a.id));
}

#[test]
fn activating_a_website_shows_its_active_instance() {
    let mut state = AppState::default();
    let a = add_website(&mut state, "google.com", 0).unwrap();
    let b = add_website(&mut state, "github.com", 0).unwrap();
    let ia = add_instance(&mut state, a.id, None, None, 0).unwrap();
    assert_eq!(activate_website_target(&mut state, a.id).unwrap().map(|i| i.id), Some(ia.id));
    assert!(activate_website_target(&mut state, b.id).unwrap().is_none());
    assert_eq!(state.active_website_id, Some(b.id));
    assert!(matches!(activate_website_target(&mut state, 5), Err(OpError::WebsiteNotFound(5))));
    let shown = activate_instance_target(&mut state, ia.id).unwrap();
    assert_eq!(shown.id, ia.id);
    assert_eq!(state.active_website_id, Some(a.id));
    assert!(matches!(activate_instance_target(&mut state, 5), Err(OpError::InstanceNotFound(5))));
}

#[test]
fn cloning_a_state_copies_it() {
    let (state, wid, iid) = google_with_instance();
    let copy = state.clone();
    assert_eq!(copy.websites.len(), 1);
    assert_eq!(copy.websites[0].id, wid);
    assert_eq!(copy.instances.get(&iid).unwrap().user_name.as_deref(), Some("Me"));
    assert_eq!(copy.active_website_id, Some(wid));
}

#[test]
fn sanitize_leaves_no_dangling_reference_and_a_second_call_does_nothing() {
    let mut state = AppState::default();
    let a = add_website(&mut state, "google.com", 0).unwrap();
    let b = add_website(&mut state, "github.com", 0).unwrap();
    let ib = add_instance(&mut state, b.id, None, None, 0).unwrap();
    // Tamper: the instance that is website b's root and active one claims
    // a website that does not exist.
    state.instances.get_mut(&ib.id).unwrap().website_id = 777;
    let fixed = sanitize(&mut state);
    // The instance goes, then the active id is cleared and the root pruned.
    assert_eq!(fixed, 3);
    assert!(state.instances.is_empty());
    assert!(state.websites[1].root_instance_ids.is_empty());
    assert_eq!(state.websites[1].active_instance_id, None);
    assert_eq!(sanitize(&mut state), 0);
    assert_eq!(state.websites.len(), 2);
    assert_eq!(state.websites[0].id, a.id);
}

#[test]
fn sanitize_drops_instances_whose_parent_is_gone_with_their_descendants() {
    let (mut state, _wid, root) = google_with_instance();
    let child = fork_instance(&mut state, root, "https://stripe.com", 1).unwrap();
    let grand = fork_instance(&mut state, child.id, "https://github.com", 2).unwrap();
    let other = fork_instance(&mut state, root, "https://gitlab.com", 3).unwrap();
    // Tamper: the child's parent is gone.
    state.instances.get_mut(&child.id).unwrap().parent_instance_id = Some(4242);
    let fixed = sanitize(&mut state);
    assert_eq!(fixed, 2);
    assert!(!state.instances.contains_key(&child.id));
    assert!(!state.instances.contains_key(&grand.id));
    assert!(state.instances.contains_key(&root));
    assert!(state.instances.contains_key(&other.id));
    assert_eq!(sanitize(&mut state), 0);
}

#[test]
fn sanitize_keeps_an_instance_stored_under_another_key() {
    let (mut state, _wid, root) = google_with_instance();
    let mut copy = state.instances.get(&root).unwrap().clone();
    copy.parent_instance_id = None;
    state.instances.insert(555, copy);
    assert_eq!(sanitize(&mut state), 0);
    assert!(state.instances.contains_key(&555));
    assert!(state.instances.contains_key(&root));
}

#[test]
fn removals_follow_the_ids_the_instances_record() {
    let (mut state, wid, root) = google_with_instance();
    // An instance of the website stored under key 7 that records id 8.
    let mut stray = state.instances.get(&root).unwrap().clone();
    stray.id = 8;
    stray.parent_instance_id = None;
    state.instances.insert(7, stray.clone());
    // A child of the root stored under key 9 that records id 10.
    let mut child = stray.clone();
    child.id = 10;
    child.parent_instance_id = Some(root);
    state.instances.insert(9, child);
    let removed = remove_instance(&mut state, root).unwrap();
    assert_eq!(removed, vec![root, 10]);
    assert!(state.instances.contains_key(&9));
    let removed = remove_website(&mut state, wid).unwrap();
    let mut sorted = removed.clone();
    sorted.sort();
    assert_eq!(sorted, vec![8, 10]);
    assert!(state.instances.contains_key(&7));
    assert!(state.instances.contains_key(&9));
}
