use multi_app::nav_guard::{is_same_site, navigation_decision, registered_domain, should_fork};
use multi_app::weburl::WebUrl;

fn u(s: &str) -> WebUrl {
    let parsed = url::Url::parse(s).expect("test URL must parse");
    WebUrl {
        href: parsed.as_str().to_string(),
        host: parsed.host_str().map(|h| h.to_string()),
        host_is_domain: matches!(parsed.host(), Some(url::Host::Domain(_))),
    }
}

#[test]
fn google_subdomains_are_same_site() {
    assert!(is_same_site("google.com", &u("https://mail.google.com/inbox")));
    assert!(is_same_site("google.com", &u("https://accounts.google.com/o/oauth2/v2/auth")));
    assert!(is_same_site("google.com", &u("https://docs.google.com/")));
    assert!(is_same_site("google.com", &u("https://www.google.com")));
}

#[test]
fn different_etld_plus_one_is_cross_site() {
    assert!(!is_same_site("google.com", &u("https://google.co.uk")));
    assert!(!is_same_site("google.com", &u("https://stripe.com/pricing")));
    assert!(!is_same_site("github.com", &u("https://github.io")));
    assert!(!is_same_site("github.com", &u("https://gitlab.com")));
}

#[test]
fn psl_handles_multi_level_suffixes_correctly() {
    // sub.example.co.uk has the registered domain example.co.uk.
    assert_eq!(
        registered_domain(&u("https://sub.example.co.uk")).as_deref(),
        Some("example.co.uk"),
    );
    assert!(is_same_site("example.co.uk", &u("https://sub.example.co.uk/path")));
    // A different registered domain entirely.
    assert!(!is_same_site("example.co.uk", &u("https://other.co.uk")));
}

#[test]
fn comparison_is_case_insensitive_on_the_root() {
    assert!(is_same_site("Google.COM", &u("https://mail.google.com")));
}

#[test]
fn urls_without_a_host_are_cross_site() {
    assert!(!is_same_site("google.com", &u("about:blank")));
    assert!(!is_same_site("google.com", &u("data:text/html,<h1>hi</h1>")));
}

#[test]
fn registered_domain_returns_none_for_hostless_url() {
    assert!(registered_domain(&u("file:///tmp/page.html")).is_none());
}

#[test]
fn should_fork_only_when_both_sides_have_a_real_registered_domain() {
    // Same registered domain: no fork.
    assert!(!should_fork("google.com", &u("https://mail.google.com")));
    // Different registered domain: fork.
    assert!(should_fork("google.com", &u("https://stripe.com/checkout")));
    // No registered domain at all: no fork.
    assert!(!should_fork("google.com", &u("about:blank")));
    assert!(!should_fork("google.com", &u("data:text/html,<h1>hi</h1>")));
    assert!(!should_fork("google.com", &u("file:///tmp/page.html")));
    assert!(!should_fork("google.com", &u("http://127.0.0.1:3000/")));
    assert!(!should_fork("google.com", &u("http://localhost:8080/")));
}

#[test]
fn ip_literals_are_not_same_site_as_any_domain() {
    assert!(!is_same_site("google.com", &u("http://127.0.0.1/")));
    assert!(!is_same_site("google.com", &u("http://10.0.0.1:8080/")));
}

#[test]
fn a_forking_navigation_is_never_same_site() {
    let targets = [
        "https://stripe.com/checkout",
        "https://mail.google.com",
        "about:blank",
        "http://127.0.0.1/",
        "https://GitHub.com/x",
    ];
    for t in targets {
        let url = u(t);
        if should_fork("google.com", &url) {
            assert!(!is_same_site("google.com", &url));
        }
    }
}

#[test]
fn for_real_domains_forking_is_exactly_cross_site() {
    for t in ["https://stripe.com/checkout", "https://mail.google.com", "https://gitlab.com"] {
        let url = u(t);
        assert!(url.host_is_domain);
        assert!(registered_domain(&url).is_some());
        assert_eq!(should_fork("google.com", &url), !is_same_site("google.com", &url));
    }
}

#[test]
fn root_case_never_changes_a_decision() {
    for t in ["https://mail.google.com", "https://stripe.com", "about:blank"] {
        let url = u(t);
        assert_eq!(is_same_site("google.com", &url), is_same_site("GOOGLE.com", &url));
        assert_eq!(should_fork("google.com", &url), should_fork("GoOgLe.CoM", &url));
    }
}

#[test]
fn registered_domain_strips_subdomains() {
    assert_eq!(registered_domain(&u("https://a.b.mail.google.com/")).as_deref(), Some("google.com"));
    // A bare public suffix has no registered domain.
    assert_eq!(registered_domain(&u("https://github.io/")), None);
}

#[test]
fn navigations_proceed_unless_they_fork() {
    assert_eq!(navigation_decision("google.com", &u("https://mail.google.com")), (true, false));
    assert_eq!(navigation_decision("google.com", &u("https://stripe.com/checkout")), (false, true));
    assert_eq!(navigation_decision("google.com", &u("about:blank")), (true, false));
}
