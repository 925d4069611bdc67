//! Same-site classification for navigation interception.
//!
//! Site identity is the registered domain (eTLD+1) of a URL's host under the
//! public suffix list, so redirects through different subdomains of one site
//! stay in one instance.

use vstd::prelude::*;

use crate::text::{
    eq_ignore_ascii_case, lemma_eq_ignore_ascii_case_equiv, opt_view, str_eq_ignore_ascii_case,
};
use crate::weburl::{psl_domain, psl_domain_str, WebUrl};

verus! {

/// The registered domain of a URL (by its view): that of its host, and none
/// when it has no host.
pub open spec fn url_registered_domain(u: (Seq<char>, Option<Seq<char>>, bool)) -> Option<
    Seq<char>,
> {
    match u.1 {
        Some(h) => psl_domain(h),
        None => None,
    }
}

/// A URL is same-site with `parent_root` when it has a registered domain and
/// that domain equals `parent_root` ignoring ASCII case.
pub open spec fn same_site(parent_root: Seq<char>, u: (Seq<char>, Option<Seq<char>>, bool)) -> bool {
    match url_registered_domain(u) {
        Some(d) => eq_ignore_ascii_case(parent_root, d),
        None => false,
    }
}

/// A navigation forks when the target's host is a domain name with a
/// registered domain that differs (ignoring ASCII case) from `parent_root`.
pub open spec fn forks(parent_root: Seq<char>, u: (Seq<char>, Option<Seq<char>>, bool)) -> bool {
    &&& u.2
    &&& match url_registered_domain(u) {
        Some(d) => !eq_ignore_ascii_case(parent_root, d),
        None => false,
    }
}

/// Returns the registered domain (eTLD+1) for the host of `url`, or `None`
/// if the URL has no host or no recognizable public suffix.
pub fn registered_domain(url: &WebUrl) -> (r: Option<String>)
    ensures
        opt_view(r) == url_registered_domain(url@),
{
    match &url.host {
        Some(h) => psl_domain_str(h.as_str()),
        None => None,
    }
}

/// `true` when `candidate` is reachable from a webview pinned to
/// `parent_root` without forking; `false` for any URL whose registered
/// domain cannot be determined.
pub fn is_same_site(parent_root: &str, candidate: &WebUrl) -> (r: bool)
    ensures
        r == same_site(parent_root@, candidate@),
        match url_registered_domain(candidate@) {
            Some(d) => r == eq_ignore_ascii_case(parent_root@, d),
            None => !r,
        },
{
    match registered_domain(candidate) {
        Some(root) => str_eq_ignore_ascii_case(parent_root, root.as_str()),
        None => false,
    }
}

/// `true` when navigating to `candidate` from a webview pinned to
/// `parent_root` should spawn a new child instance. URLs whose host is not a
/// domain name, or that have no registered domain, never fork.
pub fn should_fork(parent_root: &str, candidate: &WebUrl) -> (r: bool)
    ensures
        r == forks(parent_root@, candidate@),
        r <==> candidate.host_is_domain && match url_registered_domain(candidate@) {
            Some(d) => !eq_ignore_ascii_case(parent_root@, d),
            None => false,
        },
{
    if !candidate.host_is_domain {
        return false;
    }
    match registered_domain(candidate) {
        None => false,
        Some(root) => !str_eq_ignore_ascii_case(parent_root, root.as_str()),
    }
}

/// What a webview pinned to `parent_root` does with a navigation to
/// `candidate`: `(proceed, fork)`. A navigation that forks is cancelled and
/// handed to a new child instance; any other proceeds in place.
pub fn navigation_decision(parent_root: &str, candidate: &WebUrl) -> (r: (bool, bool))
    ensures
        r.1 == forks(parent_root@, candidate@),
        r.0 == !r.1,
{
    let fork = should_fork(parent_root, candidate);
    (!fork, fork)
}

/// A navigation that forks is never a same-site one.
pub proof fn lemma_fork_is_cross_site(parent_root: Seq<char>, u: (Seq<char>, Option<Seq<char>>, bool))
    ensures
        forks(parent_root, u) ==> !same_site(parent_root, u),
{
}

/// For a target whose host is a domain name with a registered domain, it
/// forks exactly when it is not same-site.
pub proof fn lemma_fork_iff_cross_site(parent_root: Seq<char>, u: (Seq<char>, Option<Seq<char>>, bool))
    requires
        u.2,
        url_registered_domain(u) is Some,
    ensures
        forks(parent_root, u) == !same_site(parent_root, u),
{
}

/// A target without a registered domain (no host, a bare public suffix)
/// is neither same-site nor a reason to fork.
pub proof fn lemma_no_registered_domain_stays(
    parent_root: Seq<char>,
    u: (Seq<char>, Option<Seq<char>>, bool),
)
    requires
        url_registered_domain(u) is None,
    ensures
        !same_site(parent_root, u),
        !forks(parent_root, u),
{
}

/// Both decisions depend on the parent's root only up to ASCII case.
pub proof fn lemma_root_case_insensitive(
    root_a: Seq<char>,
    root_b: Seq<char>,
    u: (Seq<char>, Option<Seq<char>>, bool),
)
    requires
        eq_ignore_ascii_case(root_a, root_b),
    ensures
        same_site(root_a, u) == same_site(root_b, u),
        forks(root_a, u) == forks(root_b, u),
{
    if let Some(d) = url_registered_domain(u) {
        lemma_eq_ignore_ascii_case_equiv(root_a, root_b, d);
        lemma_eq_ignore_ascii_case_equiv(root_b, root_a, d);
    }
}

/// Same-site is decided by the registered domain alone: a target with a
/// registered domain is same-site exactly when that domain equals the
/// parent's root ignoring ASCII case, whatever the rest of its host (`www.`,
/// `checkout.`, ...) or its path; a target without one never is.
pub proof fn lemma_same_site_is_registered_domain_match(
    parent_root: Seq<char>,
    u: (Seq<char>, Option<Seq<char>>, bool),
    v: (Seq<char>, Option<Seq<char>>, bool),
)
    ensures
        url_registered_domain(u) matches Some(d) ==> (same_site(parent_root, u) <==> eq_ignore_ascii_case(parent_root, d)),
        url_registered_domain(u) is None ==> !same_site(parent_root, u),
        url_registered_domain(u) == url_registered_domain(v) ==> same_site(parent_root, u) == same_site(parent_root, v),
{
}

/// A navigation to a domain host with a registered domain forks exactly
/// when that domain differs from the parent's root ignoring ASCII case,
/// whatever the rest of the host; other targets never fork. Two domain
/// targets with one registered domain get the same decision.
pub proof fn lemma_fork_is_registered_domain_mismatch(
    parent_root: Seq<char>,
    u: (Seq<char>, Option<Seq<char>>, bool),
    v: (Seq<char>, Option<Seq<char>>, bool),
)
    ensures
        url_registered_domain(u) matches Some(d) ==> (u.2 ==> (forks(parent_root, u) <==> !eq_ignore_ascii_case(parent_root, d))),
        !u.2 || url_registered_domain(u) is None ==> !forks(parent_root, u),
        u.2 == v.2 && url_registered_domain(u) == url_registered_domain(v) ==> forks(parent_root, u) == forks(parent_root, v),
{
}

} // verus!
