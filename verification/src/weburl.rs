//! URLs as the library reads them: the text of the URL, its host, and
//! whether that host is a domain name (not an IP literal). Parsing and the
//! public suffix list are the `url` and `psl` crates' work.

use vstd::prelude::*;

use crate::text::opt_view;

verus! {

/// A parsed URL, holding the parts the same-site rules look at.
#[derive(Debug)]
pub struct WebUrl {
    /// The serialization of the URL.
    pub href: String,
    /// The host as a string, when the URL has one.
    pub host: Option<String>,
    /// Whether the host is a domain name.
    pub host_is_domain: bool,
}

impl View for WebUrl {
    type V = (Seq<char>, Option<Seq<char>>, bool);

    open spec fn view(&self) -> (Seq<char>, Option<Seq<char>>, bool) {
        (self.href@, opt_view(self.host), self.host_is_domain)
    }
}

/// What `url::Url::parse` makes of a string: `None` when it is rejected,
/// else the URL's serialization, its host and whether the host is a domain.
pub uninterp spec fn url_parse(input: Seq<char>) -> Option<(Seq<char>, Option<Seq<char>>, bool)>;

/// What `psl::domain_str` returns for a host name: its registrable domain
/// (eTLD+1) under the public suffix list, if it has one.
pub uninterp spec fn psl_domain(host: Seq<char>) -> Option<Seq<char>>;

/// Calls `url::Url::parse` and reads the result's `as_str`, `host_str`
/// and `host` (whether it is `Host::Domain`). The result is named by
/// `url_parse`; a domain host always comes with a host string.
#[verifier::external_body]
pub(crate) fn parse_url(input: &str) -> (r: Option<WebUrl>)
    ensures
        url_parse(input@) == match r {
            Some(u) => Some(u@),
            None => None,
        },
        r matches Some(u) ==> (u.host_is_domain ==> u.host is Some),
{
    match url::Url::parse(input) {
        Ok(u) => Some(WebUrl {
            href: u.as_str().to_string(),
            host: u.host_str().map(|h| h.to_string()),
            host_is_domain: matches!(u.host(), Some(url::Host::Domain(_))),
        }),
        Err(_) => None,
    }
}

/// Calls `psl::domain_str`; the result is named by `psl_domain`.
#[verifier::external_body]
pub(crate) fn psl_domain_str(host: &str) -> (r: Option<String>)
    ensures
        opt_view(r) == psl_domain(host@),
{
    psl::domain_str(host).map(|d| d.to_string())
}

} // verus!
