//! Every mutation of the application state that is business logic. Each
//! takes the state by `&mut` and returns the affected value or an
//! [`OpError`]; refused operations leave the state unchanged.

use std::collections::HashMap;

use vstd::prelude::*;

use crate::commands::{OpError, OpErrorView};
use crate::ids::new_id;
use crate::model::{AppState, AppStateView, Instance, InstanceView, Website, WebsiteView, instance_ids};
use crate::lineage::{
    ancestor_at, id_child, id_subtree, lemma_ancestor_shift, lemma_closed_holds_subtree, parent_in, reaches,
};
use crate::nav_guard::{registered_domain, url_registered_domain};
use crate::seq_util::{first_index, lemma_first_index, lemma_first_index_is, lemma_first_index_none};
use crate::text::{
    lemma_eq_ignore_ascii_case_equiv, concat_str, contains_str, eq_ignore_ascii_case, has_prefix, has_substring, opt_view,
    starts_with_str, str_eq_ignore_ascii_case, to_lowercase, trim, trimmed, unicode_lowercase,
};
use crate::weburl::{WebUrl, parse_url, psl_domain, url_parse};

verus! {

broadcast use {vstd::std_specs::hash::group_hash_axioms, vstd::seq_lib::group_filter_ensures};

/// The scheme separator `://`.
pub open spec fn scheme_separator() -> Seq<char> {
    seq![':', '/', '/']
}

/// The prefix `https://` that is put before a bare host name.
pub open spec fn https_prefix() -> Seq<char> {
    seq!['h', 't', 't', 'p', 's', ':', '/', '/']
}

/// The prefix `http`, which marks a root that is already a URL.
pub open spec fn http_prefix() -> Seq<char> {
    seq!['h', 't', 't', 'p']
}

/// A trimmed input with `https://` put in front when it names no scheme.
pub open spec fn with_scheme(t: Seq<char>) -> Seq<char> {
    if has_substring(t, scheme_separator()) {
        t
    } else {
        https_prefix() + t
    }
}

/// What `normalize_website_url` makes of an input: the parsed URL, its
/// registered domain and its lower-cased host, or why it was refused.
pub open spec fn normalized(input: Seq<char>) -> Result<
    ((Seq<char>, Option<Seq<char>>, bool), Seq<char>, Seq<char>),
    OpErrorView,
> {
    let t = trimmed(input);
    if t.len() == 0 {
        Err(OpErrorView::InvalidUrl(input))
    } else {
        match url_parse(with_scheme(t)) {
            None => Err(OpErrorView::InvalidUrl(input)),
            Some(u) => match u.1 {
                None => Err(OpErrorView::UrlMissingHost(input)),
                Some(h) => match psl_domain(h) {
                    None => Err(OpErrorView::UrlNoRegisteredDomain(input)),
                    Some(d) => Ok((u, d, unicode_lowercase(h))),
                },
            },
        }
    }
}

/// Normalize a user-supplied URL into (parsed url, eTLD+1, display title).
/// Adds `https://` when no scheme is present so users can paste raw hostnames.
pub fn normalize_website_url(input: &str) -> (r: Result<(WebUrl, String, String), OpError>)
    ensures
        match r {
            Ok((u, d, h)) => normalized(input@) == Ok::<_, OpErrorView>((u@, d@, h@)),
            Err(e) => normalized(input@) == Err::<((Seq<char>, Option<Seq<char>>, bool), Seq<char>, Seq<char>), _>(e@),
        },
{
    let t = trim(input);
    if t.is_empty() {
        return Err(OpError::InvalidUrl(input.to_owned()));
    }
    proof {
        reveal_strlit("://");
        reveal_strlit("https://");
        assert("://"@ =~= scheme_separator());
        assert("https://"@ =~= https_prefix());
    }
    let full = if contains_str(t, "://") {
        t.to_owned()
    } else {
        concat_str("https://", t)
    };
    assert(full@ == with_scheme(trimmed(input@)));
    let url = match parse_url(full.as_str()) {
        Some(u) => u,
        None => {
            return Err(OpError::InvalidUrl(input.to_owned()));
        },
    };
    let host = match &url.host {
        Some(h) => to_lowercase(h.as_str()),
        None => {
            return Err(OpError::UrlMissingHost(input.to_owned()));
        },
    };
    let etld1 = match registered_domain(&url) {
        Some(d) => d,
        None => {
            return Err(OpError::UrlNoRegisteredDomain(input.to_owned()));
        },
    };
    Ok((url, etld1, host))
}

/// Selects the websites with the given id.
pub open spec fn has_id(id: u128) -> spec_fn(WebsiteView) -> bool {
    |w: WebsiteView| w.id == id
}

/// Selects the websites whose root equals `d` ignoring ASCII case.
pub open spec fn root_matches(d: Seq<char>) -> spec_fn(WebsiteView) -> bool {
    |w: WebsiteView| eq_ignore_ascii_case(w.url_root, d)
}

/// Position of the first website with id `id`, or -1.
pub open spec fn website_index(s: AppStateView, id: u128) -> int {
    first_index(s.websites, has_id(id))
}

/// Position of the first website with the given id.
pub fn find_website(ws: &Vec<Website>, id: u128) -> (r: Option<usize>)
    ensures
        match r {
            Some(i) => i < ws@.len() && i as int == first_index(crate::model::websites_view(ws@), has_id(id)),
            None => first_index(crate::model::websites_view(ws@), has_id(id)) == -1,
        },
{
    let ghost v = crate::model::websites_view(ws@);
    let mut i: usize = 0;
    while i < ws.len()
        invariant
            i <= ws@.len(),
            v == crate::model::websites_view(ws@),
            forall|j: int| 0 <= j < i ==> !has_id(id)(#[trigger] v[j]),
        decreases ws@.len() - i,
    {
        if ws[i].id == id {
            proof {
                lemma_first_index_is(v, has_id(id), i as int);
            }
            return Some(i);
        }
        i = i + 1;
    }
    proof {
        lemma_first_index_none(v, has_id(id));
    }
    None
}

/// Position of the first website whose root equals `root` ignoring ASCII case.
fn find_website_by_root(ws: &Vec<Website>, root: &str) -> (r: Option<usize>)
    ensures
        match r {
            Some(i) => i < ws@.len() && i as int == first_index(crate::model::websites_view(ws@), root_matches(root@)),
            None => first_index(crate::model::websites_view(ws@), root_matches(root@)) == -1,
        },
{
    let ghost v = crate::model::websites_view(ws@);
    let mut i: usize = 0;
    while i < ws.len()
        invariant
            i <= ws@.len(),
            v == crate::model::websites_view(ws@),
            forall|j: int| 0 <= j < i ==> !root_matches(root@)(#[trigger] v[j]),
        decreases ws@.len() - i,
    {
        if str_eq_ignore_ascii_case(ws[i].url_root.as_str(), root) {
            proof {
                lemma_first_index_is(v, root_matches(root@), i as int);
            }
            return Some(i);
        }
        i = i + 1;
    }
    proof {
        lemma_first_index_none(v, root_matches(root@));
    }
    None
}


/// The view of an operation's result.
pub open spec fn res_view<T: View, E: View>(r: Result<T, E>) -> Result<T::V, E::V> {
    match r {
        Ok(t) => Ok(t@),
        Err(e) => Err(e@),
    }
}

/// The id of a returned website, 0 for an error.
pub open spec fn website_id_of(r: Result<Website, OpError>) -> u128 {
    match r {
        Ok(w) => w.id,
        Err(_) => 0,
    }
}

/// The id of a returned instance, 0 for an error.
pub open spec fn instance_id_of(r: Result<Instance, OpError>) -> u128 {
    match r {
        Ok(i) => i.id,
        Err(_) => 0,
    }
}

/// The ids returned by a removal, as a set.
pub open spec fn ids_view(r: Result<Vec<u128>, OpError>) -> Result<Set<u128>, OpErrorView> {
    match r {
        Ok(ids) => Ok(ids@.to_set()),
        Err(e) => Err(e@),
    }
}

/// What `add_website` does to state `s` for `input`, a new website getting
/// id `id`: the new state and the result.
pub open spec fn add_website_spec(s: AppStateView, input: Seq<char>, now_ms: i64, id: u128) -> (AppStateView, Result<WebsiteView, OpErrorView>) {
    match normalized(input) {
        Err(e) => (s, Err(e)),
        Ok((_, d, h)) => {
            let i = first_index(s.websites, root_matches(d));
            if i >= 0 {
                (s, Ok(s.websites[i]))
            } else {
                let w = WebsiteView {
                    id: id,
                    url_root: d,
                    display_title: h,
                    root_instance_ids: Seq::empty(),
                    active_instance_id: None,
                    created_at_ms: now_ms,
                };
                (
                    AppStateView {
                        websites: s.websites.push(w),
                        instances: s.instances,
                        active_website_id: if s.active_website_id is None {
                            Some(id)
                        } else {
                            s.active_website_id
                        },
                    },
                    Ok(w),
                )
            }
        },
    }
}

/// Add a website for a user-supplied URL. Re-adding a registered domain
/// that is already present (ignoring ASCII case) returns the existing
/// website and changes nothing. The first website added becomes active.
pub fn add_website(state: &mut AppState, input: &str, now_ms: i64) -> (r: Result<Website, OpError>)
    ensures
        (final(state)@, res_view(r)) == add_website_spec(old(state)@, input@, now_ms, website_id_of(r)),
        normalized(input@) is Err ==> r is Err && final(state)@ == old(state)@,
        normalized(input@) matches Ok((u, d, h)) ==> {
            let (s0, s1) = (old(state)@, final(state)@);
            &&& r matches Ok(w) && eq_ignore_ascii_case(w.url_root@, d)
            &&& s1.instances == s0.instances
            &&& (exists|j: int| 0 <= j < s0.websites.len() && eq_ignore_ascii_case(
                (#[trigger] s0.websites[j]).url_root,
                d,
            )) ==> s1 == s0 && exists|j: int| 0 <= j < s0.websites.len() && #[trigger] s0.websites[j] == r->Ok_0@
            &&& (forall|j: int| 0 <= j < s0.websites.len() ==> !eq_ignore_ascii_case(
                (#[trigger] s0.websites[j]).url_root,
                d,
            )) ==> {
                let w = r->Ok_0;
                &&& s1.websites == s0.websites.push(w@)
                &&& w.url_root@ == d && w.display_title@ == h && w.root_instance_ids@.len() == 0
                &&& w.active_instance_id is None && w.created_at_ms == now_ms
                &&& s1.active_website_id == if s0.active_website_id is None {
                    Some(w.id)
                } else {
                    s0.active_website_id
                }
            }
        },
{
    proof {
        if let Ok((u, d, h)) = normalized(input@) {
            lemma_first_index(state@.websites, root_matches(d));
            lemma_eq_ignore_ascii_case_equiv(d, d, d);
        }
    }
    let (_url, etld1, host) = normalize_website_url(input)?;
    if let Some(i) = find_website_by_root(&state.websites, etld1.as_str()) {
        return Ok(state.websites[i].clone());
    }
    let website = Website {
        id: new_id(),
        url_root: etld1,
        display_title: host,
        root_instance_ids: Vec::new(),
        active_instance_id: None,
        created_at_ms: now_ms,
    };
    state.websites.push(website.clone());
    if state.active_website_id.is_none() {
        state.active_website_id = Some(website.id);
    }
    proof {
        assert(website@.root_instance_ids =~= Seq::<u128>::empty());
        assert(state@.websites =~= old(state)@.websites.push(website@));
    }
    Ok(website)
}

/// An optional user-supplied text, trimmed; empty text counts as absent.
pub open spec fn cleaned(o: Option<Seq<char>>) -> Option<Seq<char>> {
    match o {
        Some(s) => if trimmed(s).len() > 0 {
            Some(trimmed(s))
        } else {
            None
        },
        None => None,
    }
}

/// Trims an optional user-supplied text and drops it when empty.
fn clean_opt(o: Option<String>) -> (r: Option<String>)
    ensures
        opt_view(r) == cleaned(opt_view(o)),
{
    match o {
        Some(s) => {
            let t = trim(s.as_str());
            if t.is_empty() {
                None
            } else {
                Some(t.to_owned())
            }
        },
        None => None,
    }
}

/// The URL a new root instance of a website starts at: the root itself when
/// it already starts with `http`, else the root behind `https://`.
pub open spec fn starting_url(root: Seq<char>) -> Seq<char> {
    if has_prefix(root, http_prefix()) {
        root
    } else {
        https_prefix() + root
    }
}

/// The website `w` with `id` appended to its roots, and made active when it
/// had no active instance.
pub open spec fn with_new_root(w: WebsiteView, id: u128) -> WebsiteView {
    WebsiteView {
        root_instance_ids: w.root_instance_ids.push(id),
        active_instance_id: if w.active_instance_id is None {
            Some(id)
        } else {
            w.active_instance_id
        },
        ..w
    }
}


/// The new root instance an `add_instance` call makes.
pub open spec fn new_root_instance(
    website_id: u128,
    name: Option<Seq<char>>,
    icon: Option<Seq<char>>,
    url: Seq<char>,
    now_ms: i64,
    id: u128,
) -> InstanceView {
    InstanceView {
        id: id,
        website_id: website_id,
        parent_instance_id: None,
        user_name: cleaned(name),
        page_title: None,
        current_url: url,
        created_at_ms: now_ms,
        icon: cleaned(icon),
    }
}

/// What `add_instance` does to `s`, the new instance getting id `id`.
pub open spec fn add_instance_spec(
    s: AppStateView,
    website_id: u128,
    name: Option<Seq<char>>,
    icon: Option<Seq<char>>,
    now_ms: i64,
    id: u128,
) -> (AppStateView, Result<InstanceView, OpErrorView>) {
    let wi = website_index(s, website_id);
    if wi < 0 {
        (s, Err(OpErrorView::WebsiteNotFound(website_id)))
    } else {
        let inst = new_root_instance(website_id, name, icon, starting_url(s.websites[wi].url_root), now_ms, id);
        (
            AppStateView {
                websites: s.websites.update(wi, with_new_root(s.websites[wi], id)),
                instances: s.instances.insert(id, inst),
                active_website_id: s.active_website_id,
            },
            Ok(inst),
        )
    }
}

/// Add a root instance to a website. It starts at the website's root URL,
/// takes the trimmed name and icon (empty ones are dropped), and becomes the
/// website's active instance if it had none.
pub fn add_instance(
    state: &mut AppState,
    website_id: u128,
    name: Option<String>,
    icon: Option<String>,
    now_ms: i64,
) -> (r: Result<Instance, OpError>)
    ensures
        (final(state)@, res_view(r)) == add_instance_spec(
            old(state)@,
            website_id,
            opt_view(name),
            opt_view(icon),
            now_ms,
            instance_id_of(r),
        ),
        r is Ok <==> exists|j: int| 0 <= j < old(state)@.websites.len() && (#[trigger] old(state)@.websites[j]).id == website_id,
        r is Err ==> final(state)@ == old(state)@,
        r matches Ok(inst) ==> {
            let wi = website_index(old(state)@, website_id);
            let (w0, w1) = (old(state)@.websites[wi], final(state)@.websites[wi]);
            &&& inst.parent_instance_id is None
            &&& inst.website_id == website_id
            &&& inst.created_at_ms == now_ms
            &&& opt_view(inst.user_name) == cleaned(opt_view(name)) && opt_view(inst.icon) == cleaned(opt_view(icon))
            &&& final(state)@.instances == old(state)@.instances.insert(inst.id, inst@)
            &&& final(state)@.websites.len() == old(state)@.websites.len()
            &&& forall|j: int| 0 <= j < old(state)@.websites.len() && j != wi ==> #[trigger] final(state)@.websites[j]
                == old(state)@.websites[j]
            &&& w1.root_instance_ids == w0.root_instance_ids.push(inst.id)
            &&& w1.active_instance_id == if w0.active_instance_id is None { Some(inst.id) } else { w0.active_instance_id }
            &&& w1.id == w0.id && w1.url_root == w0.url_root
            &&& final(state)@.active_website_id == old(state)@.active_website_id
        },
{
    proof {
        lemma_first_index(state@.websites, has_id(website_id));
    }
    let wi = match find_website(&state.websites, website_id) {
        Some(i) => i,
        None => {
            return Err(OpError::WebsiteNotFound(website_id));
        },
    };
    proof {
        reveal_strlit("http");
        reveal_strlit("https://");
        assert("http"@ =~= http_prefix());
        assert("https://"@ =~= https_prefix());
    }
    let starting_url = if starts_with_str(state.websites[wi].url_root.as_str(), "http") {
        state.websites[wi].url_root.clone()
    } else {
        concat_str("https://", state.websites[wi].url_root.as_str())
    };
    let instance = Instance {
        id: new_id(),
        website_id,
        parent_instance_id: None,
        user_name: clean_opt(name),
        page_title: None,
        current_url: starting_url,
        created_at_ms: now_ms,
        icon: clean_opt(icon),
    };
    let mut w = state.websites[wi].clone();
    w.root_instance_ids.push(instance.id);
    if w.active_instance_id.is_none() {
        w.active_instance_id = Some(instance.id);
    }
    state.websites.set(wi, w);
    state.instances.insert(instance.id, instance.clone());
    proof {
        assert(state@.websites =~= old(state)@.websites.update(
            wi as int,
            with_new_root(old(state)@.websites[wi as int], instance.id),
        ));
        assert(state@.instances =~= old(state)@.instances.insert(instance.id, instance@));
    }
    Ok(instance)
}


/// `s` with instance `id` replaced by `inst`.
pub open spec fn with_instance(s: AppStateView, id: u128, inst: InstanceView) -> AppStateView {
    AppStateView { instances: s.instances.insert(id, inst), ..s }
}

/// What `set_instance_icon` does to `s`.
pub open spec fn set_instance_icon_spec(s: AppStateView, id: u128, icon: Option<Seq<char>>) -> (AppStateView, Result<InstanceView, OpErrorView>) {
    if s.instances.contains_key(id) {
        let inst = InstanceView { icon: cleaned(icon), ..s.instances[id] };
        (with_instance(s, id, inst), Ok(inst))
    } else {
        (s, Err(OpErrorView::InstanceNotFound(id)))
    }
}

/// Set (or, with an empty or absent icon, clear) an instance's icon.
pub fn set_instance_icon(state: &mut AppState, id: u128, icon: Option<String>) -> (r: Result<
    Instance,
    OpError,
>)
    ensures
        (final(state)@, res_view(r)) == set_instance_icon_spec(old(state)@, id, opt_view(icon)),
        r is Ok <==> old(state)@.instances.contains_key(id),
        r is Err ==> final(state)@ == old(state)@,
        r matches Ok(inst) ==> inst@ == (InstanceView { icon: cleaned(opt_view(icon)), ..old(state)@.instances[id] })
            && final(state)@.instances == old(state)@.instances.insert(id, inst@) && final(state)@.websites
            == old(state)@.websites && final(state)@.active_website_id == old(state)@.active_website_id,
{
    let mut instance = match state.instances.get(&id) {
        Some(i) => i.clone(),
        None => {
            return Err(OpError::InstanceNotFound(id));
        },
    };
    instance.icon = clean_opt(icon);
    state.instances.insert(id, instance.clone());
    proof {
        assert(state@.instances =~= old(state)@.instances.insert(id, instance@));
    }
    Ok(instance)
}

/// What `fork_instance` refuses a target URL for, if anything: it must parse
/// and have a registered domain.
pub open spec fn fork_target_error(target: Seq<char>) -> Option<OpErrorView> {
    match url_parse(target) {
        None => Some(OpErrorView::InvalidUrl(target)),
        Some(u) => if url_registered_domain(u) is None {
            Some(OpErrorView::UrlNoRegisteredDomain(target))
        } else {
            None
        },
    }
}


/// What `fork_instance` does to `s`, the new instance getting id `id`.
pub open spec fn fork_instance_spec(s: AppStateView, parent_id: u128, target: Seq<char>, now_ms: i64, id: u128) -> (AppStateView, Result<InstanceView, OpErrorView>) {
    match fork_target_error(target) {
        Some(e) => (s, Err(e)),
        None => if s.instances.contains_key(parent_id) {
            let inst = InstanceView {
                id: id,
                website_id: s.instances[parent_id].website_id,
                parent_instance_id: Some(parent_id),
                user_name: None,
                page_title: None,
                current_url: target,
                created_at_ms: now_ms,
                icon: None,
            };
            (with_instance(s, id, inst), Ok(inst))
        } else {
            (s, Err(OpErrorView::InstanceNotFound(parent_id)))
        },
    }
}

/// Spawn a child instance under `parent_id` for a cross-domain URL. The new
/// instance shares the parent's website and starts at `target_url`; it is
/// not added to the website's roots. A target without a registered domain
/// is refused before the parent is looked up.
pub fn fork_instance(state: &mut AppState, parent_id: u128, target_url: &str, now_ms: i64) -> (r:
    Result<Instance, OpError>)
    ensures
        (final(state)@, res_view(r)) == fork_instance_spec(old(state)@, parent_id, target_url@, now_ms, instance_id_of(r)),
        r is Ok <==> usable_url(target_url@) && old(state)@.instances.contains_key(parent_id),
        r is Err ==> final(state)@ == old(state)@,
        r matches Ok(inst) ==> {
            &&& inst.parent_instance_id == Some(parent_id)
            &&& inst.website_id == old(state)@.instances[parent_id].website_id
            &&& inst.current_url@ == target_url@
            &&& inst.created_at_ms == now_ms
            &&& inst.user_name is None && inst.page_title is None && inst.icon is None
            &&& final(state)@.instances == old(state)@.instances.insert(inst.id, inst@)
            &&& final(state)@.websites == old(state)@.websites
            &&& final(state)@.active_website_id == old(state)@.active_website_id
        },
{
    let parsed = match parse_url(target_url) {
        Some(u) => u,
        None => {
            return Err(OpError::InvalidUrl(target_url.to_owned()));
        },
    };
    if registered_domain(&parsed).is_none() {
        return Err(OpError::UrlNoRegisteredDomain(target_url.to_owned()));
    }
    let parent_website = match state.instances.get(&parent_id) {
        Some(p) => p.website_id,
        None => {
            return Err(OpError::InstanceNotFound(parent_id));
        },
    };
    let instance = Instance {
        id: new_id(),
        website_id: parent_website,
        parent_instance_id: Some(parent_id),
        user_name: None,
        page_title: None,
        current_url: target_url.to_owned(),
        created_at_ms: now_ms,
        icon: None,
    };
    state.instances.insert(instance.id, instance.clone());
    proof {
        assert(state@.instances =~= old(state)@.instances.insert(instance.id, instance@));
    }
    Ok(instance)
}


/// What `rename_instance` does to `s`.
pub open spec fn rename_instance_spec(s: AppStateView, id: u128, name: Seq<char>) -> (AppStateView, Result<InstanceView, OpErrorView>) {
    if trimmed(name).len() == 0 {
        (s, Err(OpErrorView::EmptyName))
    } else if s.instances.contains_key(id) {
        let inst = InstanceView { user_name: Some(trimmed(name)), ..s.instances[id] };
        (with_instance(s, id, inst), Ok(inst))
    } else {
        (s, Err(OpErrorView::InstanceNotFound(id)))
    }
}

/// Give an instance a user name: the trimmed `name`. A name that is empty
/// once trimmed is refused, before the instance is looked up.
pub fn rename_instance(state: &mut AppState, id: u128, name: &str) -> (r: Result<Instance, OpError>)
    ensures
        (final(state)@, res_view(r)) == rename_instance_spec(old(state)@, id, name@),
        trimmed(name@).len() == 0 ==> (r matches Err(OpError::EmptyName) && final(state)@ == old(state)@),
        trimmed(name@).len() > 0 && old(state)@.instances.contains_key(id) ==> (r matches Ok(inst) && inst@
            == (InstanceView { user_name: Some(trimmed(name@)), ..old(state)@.instances[id] })
            && final(state)@.instances == old(state)@.instances.insert(id, inst@)
            && final(state)@.websites == old(state)@.websites
            && final(state)@.active_website_id == old(state)@.active_website_id),
        trimmed(name@).len() > 0 && !old(state)@.instances.contains_key(id) ==> (r matches Err(
            OpError::InstanceNotFound(x),
        ) && x == id && final(state)@ == old(state)@),
{
    let t = trim(name);
    if t.is_empty() {
        return Err(OpError::EmptyName);
    }
    let mut instance = match state.instances.get(&id) {
        Some(i) => i.clone(),
        None => {
            return Err(OpError::InstanceNotFound(id));
        },
    };
    instance.user_name = Some(t.to_owned());
    state.instances.insert(id, instance.clone());
    proof {
        assert(state@.instances =~= old(state)@.instances.insert(id, instance@));
    }
    Ok(instance)
}


/// What `set_active_website` does to `s`.
pub open spec fn set_active_website_spec(s: AppStateView, id: u128) -> (AppStateView, Result<(), OpErrorView>) {
    if website_index(s, id) >= 0 {
        (AppStateView { active_website_id: Some(id), ..s }, Ok(()))
    } else {
        (s, Err(OpErrorView::WebsiteNotFound(id)))
    }
}

/// Make the website with id `id` the active one.
pub fn set_active_website(state: &mut AppState, id: u128) -> (r: Result<(), OpError>)
    ensures
        (final(state)@, res_view(r)) == set_active_website_spec(old(state)@, id),
        r is Ok <==> exists|j: int| 0 <= j < old(state)@.websites.len() && (#[trigger] old(state)@.websites[j]).id == id,
        r is Ok ==> final(state)@.active_website_id == Some(id),
        r is Err ==> final(state)@ == old(state)@,
        final(state)@.websites == old(state)@.websites,
        final(state)@.instances == old(state)@.instances,
{
    proof {
        lemma_first_index(state@.websites, has_id(id));
    }
    if find_website(&state.websites, id).is_none() {
        return Err(OpError::WebsiteNotFound(id));
    }
    state.active_website_id = Some(id);
    Ok(())
}

/// The website `w` with `id` as its active instance.
pub open spec fn with_active(w: WebsiteView, id: u128) -> WebsiteView {
    WebsiteView { active_instance_id: Some(id), ..w }
}


/// What `set_active_instance` does to `s`.
pub open spec fn set_active_instance_spec(s: AppStateView, id: u128) -> (AppStateView, Result<u128, OpErrorView>) {
    if s.instances.contains_key(id) {
        let wid = s.instances[id].website_id;
        let wi = website_index(s, wid);
        (
            AppStateView {
                websites: if wi >= 0 {
                    s.websites.update(wi, with_active(s.websites[wi], id))
                } else {
                    s.websites
                },
                instances: s.instances,
                active_website_id: Some(wid),
            },
            Ok(wid),
        )
    } else {
        (s, Err(OpErrorView::InstanceNotFound(id)))
    }
}

/// Make instance `id` active on its website, and its website the active
/// one. Returns the website's id.
pub fn set_active_instance(state: &mut AppState, id: u128) -> (r: Result<u128, OpError>)
    ensures
        (final(state)@, res_view(r)) == set_active_instance_spec(old(state)@, id),
        r is Ok <==> old(state)@.instances.contains_key(id),
        r is Err ==> final(state)@ == old(state)@,
        r matches Ok(wid) ==> wid == old(state)@.instances[id].website_id && final(state)@.active_website_id == Some(wid),
        final(state)@.instances == old(state)@.instances,
        final(state)@.websites.len() == old(state)@.websites.len(),
        forall|i: int| 0 <= i < old(state)@.websites.len() ==> {
            let (w0, w1) = (old(state)@.websites[i], #[trigger] final(state)@.websites[i]);
            &&& w1.id == w0.id
            &&& w1.root_instance_ids == w0.root_instance_ids
            &&& w1.active_instance_id == if r is Ok && w0.id == old(state)@.instances[id].website_id
                && i == website_index(old(state)@, w0.id) {
                Some(id)
            } else {
                w0.active_instance_id
            }
        },
{
    proof {
        if state@.instances.contains_key(id) {
            lemma_first_index(state@.websites, has_id(state@.instances[id].website_id));
        }
    }
    let website_id = match state.instances.get(&id) {
        Some(i) => i.website_id,
        None => {
            return Err(OpError::InstanceNotFound(id));
        },
    };
    if let Some(wi) = find_website(&state.websites, website_id) {
        let mut w = state.websites[wi].clone();
        w.active_instance_id = Some(id);
        state.websites.set(wi, w);
        proof {
            assert(state@.websites =~= old(state)@.websites.update(
                wi as int,
                with_active(old(state)@.websites[wi as int], id),
            ));
        }
    }
    state.active_website_id = Some(website_id);
    Ok(website_id)
}


/// What `update_instance_url` does to `s`.
pub open spec fn update_instance_url_spec(s: AppStateView, id: u128, url: Seq<char>) -> AppStateView {
    if s.instances.contains_key(id) {
        with_instance(s, id, InstanceView { current_url: url, ..s.instances[id] })
    } else {
        s
    }
}

/// What `update_instance_title` does to `s`.
pub open spec fn update_instance_title_spec(s: AppStateView, id: u128, title: Seq<char>) -> AppStateView {
    if s.instances.contains_key(id) {
        with_instance(s, id, InstanceView { page_title: Some(title), ..s.instances[id] })
    } else {
        s
    }
}

/// Record the URL an instance has navigated to; unknown ids are ignored.
pub fn update_instance_url(state: &mut AppState, id: u128, url: &str)
    ensures
        final(state)@ == update_instance_url_spec(old(state)@, id, url@),
        final(state)@.websites == old(state)@.websites,
        final(state)@.active_website_id == old(state)@.active_website_id,
        final(state)@.instances == if old(state)@.instances.contains_key(id) {
            old(state)@.instances.insert(id, InstanceView { current_url: url@, ..old(state)@.instances[id] })
        } else {
            old(state)@.instances
        },
{
    let mut instance = match state.instances.get(&id) {
        Some(i) => i.clone(),
        None => {
            return;
        },
    };
    instance.current_url = url.to_owned();
    state.instances.insert(id, instance);
    proof {
        assert(state@.instances =~= old(state)@.instances.insert(
            id,
            InstanceView { current_url: url@, ..old(state)@.instances[id] },
        ));
    }
}

/// Record the page title of an instance; unknown ids are ignored.
pub fn update_instance_title(state: &mut AppState, id: u128, title: &str)
    ensures
        final(state)@ == update_instance_title_spec(old(state)@, id, title@),
        final(state)@.websites == old(state)@.websites,
        final(state)@.active_website_id == old(state)@.active_website_id,
        final(state)@.instances == if old(state)@.instances.contains_key(id) {
            old(state)@.instances.insert(id, InstanceView { page_title: Some(title@), ..old(state)@.instances[id] })
        } else {
            old(state)@.instances
        },
{
    let mut instance = match state.instances.get(&id) {
        Some(i) => i.clone(),
        None => {
            return;
        },
    };
    instance.page_title = Some(title.to_owned());
    state.instances.insert(id, instance);
    proof {
        assert(state@.instances =~= old(state)@.instances.insert(
            id,
            InstanceView { page_title: Some(title@), ..old(state)@.instances[id] },
        ));
    }
}

/// The ids of the instances that belong to website `wid`.
pub open spec fn instances_of(m: Map<u128, InstanceView>, wid: u128) -> Set<u128> {
    Set::new(|k: u128| m.contains_key(k) && m[k].website_id == wid)
}

/// The first website's id, if there is a website.
pub open spec fn first_website_id(ws: Seq<WebsiteView>) -> Option<u128> {
    if ws.len() > 0 {
        Some(ws[0].id)
    } else {
        None
    }
}

/// The keys of the instances in `m` that satisfy `p` together with their
/// key.
pub open spec fn selected(m: Map<u128, InstanceView>, p: spec_fn(u128, InstanceView) -> bool) -> Set<u128> {
    Set::new(|k: u128| m.contains_key(k) && p(k, m[k]))
}

/// The keys among `ids` whose instance `keep` accepts, in order; `keep`
/// decides by `p` on the key and the instance's view.
fn select_ids<F: Fn(u128, &Instance) -> bool>(
    m: &HashMap<u128, Instance>,
    ids: &Vec<u128>,
    keep: F,
    Ghost(p): Ghost<spec_fn(u128, InstanceView) -> bool>,
) -> (r: Vec<u128>)
    requires
        ids@.no_duplicates(),
        ids@.to_set() == m@.dom(),
        forall|k: u128, i: &Instance| #[trigger] keep.requires((k, i)),
        forall|k: u128, i: &Instance, b: bool| keep.ensures((k, i), b) ==> b == p(k, i@),
    ensures
        r@.no_duplicates(),
        r@.to_set() == selected(crate::model::instances_view(m@), p),
{
    let ghost mv = crate::model::instances_view(m@);
    let ghost sel = selected(mv, p);
    let mut out: Vec<u128> = Vec::new();
    let mut i: usize = 0;
    while i < ids.len()
        invariant
            i <= ids@.len(),
            ids@.no_duplicates(),
            ids@.to_set() == m@.dom(),
            mv == crate::model::instances_view(m@),
            sel == selected(mv, p),
            forall|k: u128, i: &Instance| #[trigger] keep.requires((k, i)),
            forall|k: u128, i: &Instance, b: bool| keep.ensures((k, i), b) ==> b == p(k, i@),
            out@.no_duplicates(),
            forall|j: int| 0 <= j < i && sel.contains(#[trigger] ids@[j]) ==> out@.contains(ids@[j]),
            forall|x: u128| #[trigger] out@.contains(x) ==> sel.contains(x) && exists|j: int| 0 <= j < i && ids@[j] == x,
        decreases ids@.len() - i,
    {
        let k = ids[i];
        proof {
            assert(ids@.to_set().contains(k));
        }
        let belongs = match m.get(&k) {
            Some(inst) => keep(k, inst),
            None => false,
        };
        let ghost before = out@;
        assert(belongs == sel.contains(k));
        if belongs {
            proof {
                if out@.contains(k) {
                    let j = choose|j: int| 0 <= j < i && ids@[j] == k;
                    assert(ids@[j] == ids@[i as int]);
                }
            }
            out.push(k);
        }
        proof {
            assert forall|j: int| 0 <= j < i + 1 && sel.contains(#[trigger] ids@[j]) implies out@.contains(ids@[j]) by {
                if j < i {
                    assert(before.contains(ids@[j]));
                    let t = choose|t: int| 0 <= t < before.len() && before[t] == ids@[j];
                    assert(out@[t] == ids@[j]);
                } else {
                    assert(out@[out@.len() - 1] == k);
                }
            }
            assert forall|x: u128| #[trigger] out@.contains(x) implies sel.contains(x) && exists|j: int| 0 <= j < i + 1 && ids@[j] == x by {
                if x == k && belongs {
                    assert(ids@[i as int] == x);
                } else {
                    assert(before.contains(x));
                }
            }
        }
        i = i + 1;
    }
    proof {
        assert forall|k: u128| #[trigger] out@.to_set().contains(k) <==> sel.contains(k) by {
            if sel.contains(k) {
                assert(ids@.to_set().contains(k));
                let j = choose|j: int| 0 <= j < ids@.len() && ids@[j] == k;
                assert(out@.contains(ids@[j]));
            }
        }
        assert(out@.to_set() =~= sel);
    }
    out
}

/// The ids among `ids` whose instance belongs to website `wid`, in order.
fn ids_of_website(m: &HashMap<u128, Instance>, ids: &Vec<u128>, wid: u128) -> (r: Vec<u128>)
    requires
        ids@.no_duplicates(),
        ids@.to_set() == m@.dom(),
    ensures
        r@.no_duplicates(),
        r@.to_set() == instances_of(crate::model::instances_view(m@), wid),
{
    let ghost p = |k: u128, i: InstanceView| i.website_id == wid;
    let keep = |k: u128, inst: &Instance| -> (b: bool)
        ensures
            b == (inst.website_id == wid),
        { inst.website_id == wid };
    let r = select_ids(m, ids, keep, Ghost(p));
    proof {
        assert(selected(crate::model::instances_view(m@), p) =~= instances_of(crate::model::instances_view(m@), wid));
    }
    r
}

/// Removes every id of `ids` from the map.
fn remove_all(m: &mut HashMap<u128, Instance>, ids: &Vec<u128>)
    ensures
        final(m)@ == old(m)@.remove_keys(ids@.to_set()),
{
    let mut i: usize = 0;
    while i < ids.len()
        invariant
            i <= ids@.len(),
            m@ == old(m)@.remove_keys(ids@.take(i as int).to_set()),
        decreases ids@.len() - i,
    {
        m.remove(&ids[i]);
        proof {
            assert(ids@.take(i + 1) =~= ids@.take(i as int).push(ids@[i as int]));
            ids@.take(i as int).lemma_push_to_set_commute(ids@[i as int]);
            assert(m@ =~= old(m)@.remove_keys(ids@.take(i + 1).to_set()));
        }
        i = i + 1;
    }
    proof {
        assert(ids@.take(ids@.len() as int) =~= ids@);
    }
}


/// The ids that the instances of `m` under the keys `ks` record.
pub open spec fn recorded_ids(m: Map<u128, InstanceView>, ks: Set<u128>) -> Set<u128> {
    Set::new(|c: u128| exists|k: u128| ks.contains(k) && #[trigger] m[k].id == c)
}

/// What `remove_website` does to `s`; a success carries the removed ids:
/// the ids that the website's instances record, removed as keys.
pub open spec fn remove_website_spec(s: AppStateView, website_id: u128) -> (AppStateView, Result<Set<u128>, OpErrorView>) {
    let wi = website_index(s, website_id);
    if wi < 0 {
        (s, Err(OpErrorView::WebsiteNotFound(website_id)))
    } else {
        let removed = recorded_ids(s.instances, instances_of(s.instances, website_id));
        let websites = s.websites.remove(wi);
        (
            AppStateView {
                websites: websites,
                instances: s.instances.remove_keys(removed),
                active_website_id: if s.active_website_id == Some(website_id) {
                    first_website_id(websites)
                } else {
                    s.active_website_id
                },
            },
            Ok(removed),
        )
    }
}

/// The ids that the instances under `keys` record, in order.
fn recorded_id_list(m: &HashMap<u128, Instance>, keys: &Vec<u128>) -> (r: Vec<u128>)
    requires
        forall|i: int| 0 <= i < keys@.len() ==> m@.contains_key(#[trigger] keys@[i]),
    ensures
        r@ == keys@.map_values(|k: u128| crate::model::instances_view(m@)[k].id),
{
    let ghost mv = crate::model::instances_view(m@);
    let mut out: Vec<u128> = Vec::new();
    let mut i: usize = 0;
    while i < keys.len()
        invariant
            i <= keys@.len(),
            mv == crate::model::instances_view(m@),
            forall|i: int| 0 <= i < keys@.len() ==> m@.contains_key(#[trigger] keys@[i]),
            out@ == keys@.take(i as int).map_values(|k: u128| mv[k].id),
        decreases keys@.len() - i,
    {
        let k = keys[i];
        assert(m@.contains_key(k));
        let c = match m.get(&k) {
            Some(inst) => inst.id,
            None => 0,
        };
        out.push(c);
        proof {
            assert(out@ =~= keys@.take(i + 1).map_values(|k: u128| mv[k].id));
        }
        i = i + 1;
    }
    proof {
        assert(keys@.take(keys@.len() as int) =~= keys@);
    }
    out
}

/// Remove a website and every instance that belongs to it, forks included:
/// the ids its instances record are removed from the map. Returns those
/// ids, one per instance of the website. When the removed website was
/// active, the first remaining website (if any) becomes active.
pub fn remove_website(state: &mut AppState, website_id: u128) -> (r: Result<Vec<u128>, OpError>)
    ensures
        (final(state)@, ids_view(r)) == remove_website_spec(old(state)@, website_id),
        r is Err <==> forall|j: int| 0 <= j < old(state)@.websites.len() ==> (#[trigger] old(state)@.websites[j]).id != website_id,
        r is Err ==> final(state)@ == old(state)@,
        r is Ok ==> final(state)@.websites.len() + 1 == old(state)@.websites.len(),
        r is Ok && old(state)@.active_website_id != Some(website_id) ==> final(state)@.active_website_id == old(state)@.active_website_id,
        r is Ok && old(state)@.active_website_id == Some(website_id) ==> final(state)@.active_website_id
            == first_website_id(final(state)@.websites),
        r matches Ok(ids) ==> exists|e: Seq<u128>|
            #![trigger e.to_set()]
            e.no_duplicates() && e.to_set() == instances_of(old(state)@.instances, website_id) && ids@ == e.map_values(
                |k: u128| old(state)@.instances[k].id,
            ),
{
    proof {
        lemma_first_index(state@.websites, has_id(website_id));
    }
    let idx = match find_website(&state.websites, website_id) {
        Some(i) => i,
        None => {
            return Err(OpError::WebsiteNotFound(website_id));
        },
    };
    let ghost s0 = state@;
    let all = instance_ids(&state.instances);
    let keys = ids_of_website(&state.instances, &all, website_id);
    proof {
        assert forall|i: int| 0 <= i < keys@.len() implies state.instances@.contains_key(#[trigger] keys@[i]) by {
            assert(keys@.to_set().contains(keys@[i]));
        }
    }
    let removed = recorded_id_list(&state.instances, &keys);
    proof {
        let rs = recorded_ids(s0.instances, instances_of(s0.instances, website_id));
        assert forall|c: u128| removed@.to_set().contains(c) <==> rs.contains(c) by {
            if removed@.to_set().contains(c) {
                let j = choose|j: int| 0 <= j < removed@.len() && removed@[j] == c;
                assert(keys@.to_set().contains(keys@[j]));
                assert(s0.instances[keys@[j]].id == c);
            }
            if rs.contains(c) {
                let k = choose|k: u128| instances_of(s0.instances, website_id).contains(k) && #[trigger] s0.instances[k].id == c;
                assert(keys@.to_set().contains(k));
                let j = choose|j: int| 0 <= j < keys@.len() && keys@[j] == k;
                assert(removed@[j] == c);
            }
        }
        assert(removed@.to_set() =~= rs);
    }
    remove_all(&mut state.instances, &removed);
    state.websites.remove(idx);
    if state.active_website_id == Some(website_id) {
        state.active_website_id = if state.websites.len() > 0 {
            Some(state.websites[0].id)
        } else {
            None
        };
    }
    proof {
        assert(state@.websites =~= old(state)@.websites.remove(idx as int));
        assert(state@.instances =~= old(state)@.instances.remove_keys(removed@.to_set()));
    }
    Ok(removed)
}

/// `id` followed by every id reached from it through the ids that children
/// record, breadth first, each once.
fn collect_subtree(m: &HashMap<u128, Instance>, all: &Vec<u128>, id: u128) -> (r: Vec<u128>)
    requires
        all@.no_duplicates(),
        all@.to_set() == m@.dom(),
    ensures
        r@.len() >= 1,
        r@[0] == id,
        r@.no_duplicates(),
        r@.to_set() == id_subtree(crate::model::instances_view(m@), id),
{
    let ghost mv = crate::model::instances_view(m@);
    let mut out: Vec<u128> = Vec::new();
    out.push(id);
    let ghost mut used: Set<u128> = Set::empty();
    proof {
        assert(mv.dom() =~= m@.dom());
        vstd::std_specs::hash::axiom_hashmap_view_finite_dom(*m);
        assert(reaches(mv, id, id, 0));
    }
    let mut i: usize = 0;
    while i < out.len()
        invariant
            all@.no_duplicates(),
            all@.to_set() == m@.dom(),
            mv == crate::model::instances_view(m@),
            mv.dom() == m@.dom(),
            mv.dom().finite(),
            i <= out@.len(),
            out@.len() >= 1,
            out@[0] == id,
            out@.no_duplicates(),
            used.finite(),
            used <= mv.dom(),
            out@.len() == used.len() + 1,
            forall|k: u128| #[trigger] used.contains(k) ==> out@.contains(mv[k].id),
            forall|c: u128| #[trigger] out@.contains(c) ==> id_subtree(mv, id).contains(c),
            forall|k: u128|
                #![trigger mv[k]]
                mv.contains_key(k) && mv[k].parent_instance_id is Some && out@.take(i as int).contains(
                    mv[k].parent_instance_id->0,
                ) ==> out@.contains(mv[k].id),
        decreases mv.dom().len() + 1 - i,
    {
        proof {
            vstd::set_lib::lemma_len_subset(used, mv.dom());
        }
        let p = out[i];
        let ghost before = out@;
        let mut t: usize = 0;
        while t < all.len()
            invariant
                all@.no_duplicates(),
                all@.to_set() == m@.dom(),
                mv == crate::model::instances_view(m@),
                mv.dom() == m@.dom(),
                mv.dom().finite(),
                i < before.len(),
                p == before[i as int],
                t <= all@.len(),
                out@.len() >= before.len(),
                out@.take(before.len() as int) == before,
                out@.len() >= 1,
                out@[0] == id,
                out@.no_duplicates(),
                used.finite(),
                used <= mv.dom(),
                out@.len() == used.len() + 1,
                forall|k: u128| #[trigger] used.contains(k) ==> out@.contains(mv[k].id),
                forall|c: u128| #[trigger] out@.contains(c) ==> id_subtree(mv, id).contains(c),
                forall|u: int|
                    0 <= u < t && mv.contains_key(#[trigger] all@[u]) && mv[all@[u]].parent_instance_id == Some(p)
                        ==> out@.contains(mv[all@[u]].id),
            decreases all@.len() - t,
        {
            let x = all[t];
            let ghost prev = out@;
            proof {
                assert(all@.to_set().contains(x));
            }
            if let Some(inst) = m.get(&x) {
                let c = inst.id;
                let is_child = match inst.parent_instance_id {
                    Some(q) => q == p,
                    None => false,
                };
                if is_child && !vec_contains(&out, c) {
                    proof {
                        assert(!used.contains(x));
                        assert(prev.contains(p)) by {
                            assert(prev.take(before.len() as int)[i as int] == p);
                        }
                        let n = choose|n: nat| #[trigger] reaches(mv, id, p, n);
                        assert(id_child(mv, p, c)) by {
                            assert(mv[x].parent_instance_id == Some(p) && mv[x].id == c);
                        }
                        assert(reaches(mv, id, c, n + 1));
                    }
                    out.push(c);
                    proof {
                        used = used.insert(x);
                        assert forall|z: u128| prev.contains(z) implies #[trigger] out@.contains(z) by {
                            let q = choose|q: int| 0 <= q < prev.len() && prev[q] == z;
                            assert(out@[q] == z);
                        }
                        assert(out@[prev.len() as int] == c);
                        assert forall|z: u128| #[trigger] out@.contains(z) implies prev.contains(z) || z == c by {
                            let q = choose|q: int| 0 <= q < out@.len() && out@[q] == z;
                            if q < prev.len() {
                                assert(prev[q] == z);
                            }
                        }
                        assert(out@.take(before.len() as int) =~= before) by {
                            assert(prev.take(before.len() as int) == before);
                        }
                    }
                }
            }
            proof {
                assert forall|u: int|
                    0 <= u < t + 1 && mv.contains_key(#[trigger] all@[u]) && mv[all@[u]].parent_instance_id == Some(p)
                        implies out@.contains(mv[all@[u]].id) by {
                    if u < t {
                        assert(prev.contains(mv[all@[u]].id));
                        let q = choose|q: int| 0 <= q < prev.len() && prev[q] == mv[all@[u]].id;
                        assert(out@[q] == mv[all@[u]].id);
                    }
                }
            }
            t = t + 1;
        }
        proof {
            assert(out@.take(i + 1) =~= before.take(i + 1)) by {
                assert(out@.take(before.len() as int) == before);
            }
            assert(before.take(i + 1) =~= before.take(i as int).push(p));
            assert forall|k: u128|
                #![trigger mv[k]]
                mv.contains_key(k) && mv[k].parent_instance_id is Some && out@.take(i + 1).contains(
                    mv[k].parent_instance_id->0,
                ) implies out@.contains(mv[k].id) by {
                let q0 = mv[k].parent_instance_id->0;
                if q0 == p {
                    assert(all@.to_set().contains(k));
                    let u = choose|u: int| 0 <= u < all@.len() && all@[u] == k;
                    assert(mv.contains_key(all@[u]));
                } else {
                    let q = choose|q: int| 0 <= q < i + 1 && #[trigger] out@.take(i + 1)[q] == q0;
                    assert(q < i);
                    assert(before.take(i as int)[q] == q0);
                    assert(before.take(i as int).contains(q0));
                    assert(before.contains(mv[k].id));
                    let z = choose|z: int| 0 <= z < before.len() && before[z] == mv[k].id;
                    assert(out@.take(before.len() as int)[z] == mv[k].id);
                    assert(out@[z] == mv[k].id);
                }
            }
        }
        i = i + 1;
    }
    proof {
        assert(out@.take(out@.len() as int) =~= out@);
        let st = out@.to_set();
        assert forall|p: u128, c: u128| st.contains(p) && #[trigger] id_child(mv, p, c) implies st.contains(c) by {
            let k = choose|k: u128| #![trigger mv[k]] mv.contains_key(k) && mv[k].parent_instance_id == Some(p) && mv[k].id == c;
            assert(out@.take(i as int).contains(mv[k].parent_instance_id->0));
        }
        assert forall|c: u128| id_subtree(mv, id).contains(c) implies st.contains(c) by {
            let n = choose|n: nat| #[trigger] reaches(mv, id, c, n);
            assert(st.contains(id)) by {
                assert(out@[0] == id);
            }
            lemma_closed_holds_subtree(mv, id, st, c, n);
        }
        assert(st =~= id_subtree(mv, id));
    }
    out
}

/// Whether `x` occurs in `v`.
pub(crate) fn vec_contains(v: &Vec<u128>, x: u128) -> (r: bool)
    ensures
        r == v@.contains(x),
{
    let mut i: usize = 0;
    while i < v.len()
        invariant
            i <= v@.len(),
            forall|j: int| 0 <= j < i ==> v@[j] != x,
        decreases v@.len() - i,
    {
        if v[i] == x {
            return true;
        }
        i = i + 1;
    }
    false
}

/// The elements of `v` that do not occur in `drop`, in order.
fn retain_not_in(v: &Vec<u128>, drop: &Vec<u128>) -> (r: Vec<u128>)
    ensures
        r@ == v@.filter(|x: u128| !drop@.to_set().contains(x)),
{
    let ghost pred = |x: u128| !drop@.to_set().contains(x);
    let mut out: Vec<u128> = Vec::new();
    let mut i: usize = 0;
    while i < v.len()
        invariant
            i <= v@.len(),
            pred == (|x: u128| !drop@.to_set().contains(x)),
            out@ == v@.take(i as int).filter(pred),
        decreases v@.len() - i,
    {
        let x = v[i];
        proof {
            assert(v@.take(i + 1) =~= v@.take(i as int).push(x));
            v@.take(i as int).lemma_filter_push(x, pred);
        }
        if !vec_contains(drop, x) {
            out.push(x);
        }
        i = i + 1;
    }
    proof {
        assert(v@.take(v@.len() as int) =~= v@);
    }
    out
}

/// The first element of a sequence, if any.
pub open spec fn first_of(s: Seq<u128>) -> Option<u128> {
    if s.len() > 0 {
        Some(s[0])
    } else {
        None
    }
}

/// The website `w` with the instances in `d` pruned from its roots; when
/// its active instance is in `d`, the first remaining root becomes active.
pub open spec fn pruned(w: WebsiteView, d: Set<u128>) -> WebsiteView {
    let roots = w.root_instance_ids.filter(|x: u128| !d.contains(x));
    WebsiteView {
        root_instance_ids: roots,
        active_instance_id: match w.active_instance_id {
            Some(a) => if d.contains(a) {
                first_of(roots)
            } else {
                Some(a)
            },
            None => None,
        },
        ..w
    }
}


/// What `remove_instance` does to `s`; a success carries the removed ids.
pub open spec fn remove_instance_spec(s: AppStateView, id: u128) -> (AppStateView, Result<Set<u128>, OpErrorView>) {
    if s.instances.contains_key(id) {
        let d = id_subtree(s.instances, id);
        let wi = website_index(s, s.instances[id].website_id);
        (
            AppStateView {
                websites: if wi >= 0 {
                    s.websites.update(wi, pruned(s.websites[wi], d))
                } else {
                    s.websites
                },
                instances: s.instances.remove_keys(d),
                active_website_id: s.active_website_id,
            },
            Ok(d),
        )
    } else {
        (s, Err(OpErrorView::InstanceNotFound(id)))
    }
}

/// Remove an instance together with all its descendants: its id and every
/// id reached from it through the ids its children record are removed from
/// the map. Returns those ids, the target first, each once. The removed ids leave the roots
/// of the target's website; when its active instance was removed, its first
/// remaining root becomes active. The walk down visits each instance once,
/// so parent links that form a cycle do not keep it from ending.
pub fn remove_instance(state: &mut AppState, id: u128) -> (r: Result<Vec<u128>, OpError>)
    ensures
        (final(state)@, ids_view(r)) == remove_instance_spec(old(state)@, id),
        r matches Ok(ids) ==> ids@.len() >= 1 && ids@[0] == id && ids@.no_duplicates(),
        r is Err <==> !old(state)@.instances.contains_key(id),
        r is Err ==> final(state)@ == old(state)@,
        r matches Ok(ids) ==> {
            let (s0, s1) = (old(state)@, final(state)@);
            &&& s1.active_website_id == s0.active_website_id
            &&& s1.websites.len() == s0.websites.len()
            &&& forall|k: u128| #[trigger] ids@.contains(k) ==> !s1.instances.contains_key(k)
            &&& forall|k: u128| #[trigger] s0.instances.contains_key(k) && !ids@.contains(k) ==> s1.instances.contains_key(k)
                && s1.instances[k] == s0.instances[k]
            &&& forall|k: u128| #[trigger] s1.instances.contains_key(k) ==> s0.instances.contains_key(k)
            &&& forall|i: int| 0 <= i < s0.websites.len() ==> {
                let (w0, w1) = (s0.websites[i], #[trigger] s1.websites[i]);
                &&& w1.id == w0.id
                &&& w1.url_root == w0.url_root
                &&& (w0.active_instance_id matches Some(a) ==> (!ids@.contains(a) ==> w1.active_instance_id == Some(a)))
                &&& (w0.active_instance_id is None ==> w1.active_instance_id is None)
                &&& forall|x: u128| #[trigger] w0.root_instance_ids.contains(x) && !ids@.contains(x) ==> w1.root_instance_ids.contains(x)
                &&& forall|x: u128| #[trigger] w1.root_instance_ids.contains(x) ==> w0.root_instance_ids.contains(x)
            }
        },
{
    let website_id = match state.instances.get(&id) {
        Some(i) => i.website_id,
        None => {
            return Err(OpError::InstanceNotFound(id));
        },
    };
    let all = instance_ids(&state.instances);
    let to_remove = collect_subtree(&state.instances, &all, id);
    let ghost d = id_subtree(old(state)@.instances, id);
    remove_all(&mut state.instances, &to_remove);
    proof {
        assert(state@.instances =~= old(state)@.instances.remove_keys(d));
    }
    if let Some(wi) = find_website(&state.websites, website_id) {
        let mut w = state.websites[wi].clone();
        let roots = retain_not_in(&w.root_instance_ids, &to_remove);
        w.root_instance_ids = roots;
        if let Some(active) = w.active_instance_id {
            if vec_contains(&to_remove, active) {
                w.active_instance_id = if w.root_instance_ids.len() > 0 {
                    Some(w.root_instance_ids[0])
                } else {
                    None
                };
            }
        }
        proof {
            let ow = old(state)@.websites[wi as int];
            assert((|x: u128| !to_remove@.to_set().contains(x)) =~= (|x: u128| !d.contains(x)));
            assert(w@ =~= pruned(ow, d));
        }
        state.websites.set(wi, w);
        proof {
            assert(state@.websites =~= old(state)@.websites.update(
                wi as int,
                pruned(old(state)@.websites[wi as int], d),
            ));
        }
    }
    proof {
        let s0 = old(state)@;
        let s1 = state@;
        let wi = website_index(s0, s0.instances[id].website_id);
        assert forall|x: u128| #[trigger] to_remove@.contains(x) <==> d.contains(x) by {
            assert(to_remove@.to_set().contains(x) == to_remove@.contains(x));
        }
        assert forall|i: int| 0 <= i < s0.websites.len() implies {
            let (w0, w1) = (s0.websites[i], #[trigger] s1.websites[i]);
            &&& w1.id == w0.id
            &&& w1.url_root == w0.url_root
            &&& (w0.active_instance_id matches Some(a) ==> (!to_remove@.contains(a) ==> w1.active_instance_id == Some(a)))
            &&& (w0.active_instance_id is None ==> w1.active_instance_id is None)
            &&& forall|x: u128| #[trigger] w0.root_instance_ids.contains(x) && !to_remove@.contains(x) ==> w1.root_instance_ids.contains(x)
            &&& forall|x: u128| #[trigger] w1.root_instance_ids.contains(x) ==> w0.root_instance_ids.contains(x)
        } by {
            if i == wi {
                let w0 = s0.websites[i];
                let pred = |x: u128| !d.contains(x);
                assert forall|x: u128| #[trigger] w0.root_instance_ids.contains(x) && !to_remove@.contains(x)
                    implies w0.root_instance_ids.filter(pred).contains(x) by {
                    let j = choose|j: int| 0 <= j < w0.root_instance_ids.len() && w0.root_instance_ids[j] == x;
                    assert(pred(w0.root_instance_ids[j]));
                }
                assert forall|x: u128| #[trigger] w0.root_instance_ids.filter(pred).contains(x)
                    implies w0.root_instance_ids.contains(x) by {
                    w0.root_instance_ids.lemma_filter_contains_rev(pred, x);
                }
            }
        }
    }
    Ok(to_remove)
}

/// A URL an instance can be spawned at: it parses and has a registered domain.
pub open spec fn usable_url(u: Seq<char>) -> bool {
    match url_parse(u) {
        Some(p) => url_registered_domain(p) is Some,
        None => false,
    }
}

/// Selects the instances that can never be kept: their URL is not usable.
pub open spec fn junk() -> spec_fn(u128, InstanceView) -> bool {
    |k: u128, i: InstanceView| !usable_url(i.current_url)
}

/// The ids of the websites in `ws`.
pub open spec fn website_ids(ws: Seq<WebsiteView>) -> Set<u128> {
    Set::new(|id: u128| exists|j: int| 0 <= j < ws.len() && #[trigger] ws[j].id == id)
}

/// Instance `k` can stay: every instance that the parent links lead to from
/// `k`, `k` included, is present and belongs to one of the websites `ws`.
/// An instance whose website is gone, or with a parent that is gone or
/// cannot stay, cannot stay either.
pub open spec fn anchored(m: Map<u128, InstanceView>, ws: Seq<WebsiteView>, k: u128) -> bool {
    forall|j: nat|
        (#[trigger] ancestor_at(m, k, j)) is Some ==> m.contains_key(ancestor_at(m, k, j)->0)
            && website_ids(ws).contains(m[ancestor_at(m, k, j)->0].website_id)
}

/// The present instances of `m` that cannot stay.
pub open spec fn unanchored(m: Map<u128, InstanceView>, ws: Seq<WebsiteView>) -> Set<u128> {
    Set::new(|k: u128| m.contains_key(k) && !anchored(m, ws, k))
}

/// No reference in the state dangles: every instance sits at a usable URL,
/// belongs to an existing website and has its
/// parent, if any, present; every root and active instance of a website is
/// present, and a website without an active instance has no roots; the
/// active website, if any, exists.
pub open spec fn clean(s: AppStateView) -> bool {
    &&& forall|k: u128| #[trigger] s.instances.contains_key(k) ==> {
        &&& usable_url(s.instances[k].current_url)
        &&& website_ids(s.websites).contains(s.instances[k].website_id)
        &&& s.instances[k].parent_instance_id matches Some(p) ==> s.instances.contains_key(p)
    }
    &&& forall|i: int, j: int| 0 <= i < s.websites.len() && 0 <= j < s.websites[i].root_instance_ids.len()
        ==> s.instances.contains_key(#[trigger] s.websites[i].root_instance_ids[j])
    &&& forall|i: int| 0 <= i < s.websites.len() ==> match (#[trigger] s.websites[i]).active_instance_id {
        Some(a) => s.instances.contains_key(a),
        None => s.websites[i].root_instance_ids.len() == 0,
    }
    &&& s.active_website_id matches Some(a) ==> website_ids(s.websites).contains(a)
}

/// The active instance of `w`, dropped when it is not in `m`.
pub open spec fn checked_active(w: WebsiteView, m: Map<u128, InstanceView>) -> Option<u128> {
    match w.active_instance_id {
        Some(a) => if m.contains_key(a) {
            Some(a)
        } else {
            None
        },
        None => None,
    }
}

/// Website `w` with references to instances missing from `m` removed: a
/// dangling active instance is cleared, roots are pruned, and a website
/// left without an active instance falls back to its first root.
pub open spec fn repaired(w: WebsiteView, m: Map<u128, InstanceView>) -> WebsiteView {
    let roots = w.root_instance_ids.filter(|x: u128| m.contains_key(x));
    WebsiteView {
        root_instance_ids: roots,
        active_instance_id: if checked_active(w, m) is None {
            first_of(roots)
        } else {
            checked_active(w, m)
        },
        ..w
    }
}

/// How many dangling references `repaired` removes from `w`: the active
/// instance, if dangling, and each pruned root.
pub open spec fn repairs(w: WebsiteView, m: Map<u128, InstanceView>) -> nat {
    (if w.active_instance_id is Some && checked_active(w, m) is None { 1nat } else { 0nat })
        + (w.root_instance_ids.len() - w.root_instance_ids.filter(|x: u128| m.contains_key(x)).len()) as nat
}

/// Sum of `repairs` over a sequence of websites.
pub open spec fn total_repairs(ws: Seq<WebsiteView>, m: Map<u128, InstanceView>) -> nat
    decreases ws.len(),
{
    if ws.len() == 0 {
        0
    } else {
        total_repairs(ws.drop_last(), m) + repairs(ws.last(), m)
    }
}

/// Total number of root references over a sequence of websites.
pub open spec fn total_roots(ws: Seq<WebsiteView>) -> nat
    decreases ws.len(),
{
    if ws.len() == 0 {
        0
    } else {
        total_roots(ws.drop_last()) + ws.last().root_instance_ids.len()
    }
}

/// The sanitized state and the number of references dropped or repaired,
/// phase by phase: instances with unusable URLs or stored under another key
/// go; then every instance that cannot stay goes (its website is gone, or
/// its parent is gone or goes); then dangling website references are
/// repaired against what is left; a dangling active website falls back to
/// the first website.
pub open spec fn sanitized(s: AppStateView) -> (AppStateView, nat) {
    let bad = selected(s.instances, junk());
    let m1 = s.instances.remove_keys(bad);
    let dropped = unanchored(m1, s.websites);
    let m2 = m1.remove_keys(dropped);
    let stale = s.active_website_id matches Some(a) && !website_ids(s.websites).contains(a);
    (
        AppStateView {
            websites: s.websites.map_values(|w: WebsiteView| repaired(w, m2)),
            instances: m2,
            active_website_id: if stale {
                first_website_id(s.websites)
            } else {
                s.active_website_id
            },
        },
        bad.len() + dropped.len() + total_repairs(s.websites, m2) + if stale {
            1nat
        } else {
            0nat
        },
    )
}

/// Within a part `r` of `m` that holds the parent of each of its members,
/// the parent links from a member stay in `r`.
pub proof fn lemma_closed_part_holds_ancestors(
    m: Map<u128, InstanceView>,
    r: Map<u128, InstanceView>,
    k: u128,
    j: nat,
)
    requires
        forall|x: u128| #[trigger] r.contains_key(x) ==> m.contains_key(x) && r[x] == m[x],
        forall|x: u128| #[trigger] r.contains_key(x) ==> (r[x].parent_instance_id matches Some(p) ==> r.contains_key(p)),
        r.contains_key(k),
    ensures
        ancestor_at(m, k, j) matches Some(a) ==> r.contains_key(a),
    decreases j,
{
    if j > 0 {
        lemma_closed_part_holds_ancestors(m, r, k, (j - 1) as nat);
        assert(ancestor_at(m, k, j) == match ancestor_at(m, k, (j - 1) as nat) {
            Some(a) => parent_in(m, a),
            None => None,
        });
    }
}

/// The members of such a part whose websites all exist can stay.
pub proof fn lemma_closed_part_is_anchored(
    m: Map<u128, InstanceView>,
    ws: Seq<WebsiteView>,
    r: Map<u128, InstanceView>,
    k: u128,
)
    requires
        forall|x: u128| #[trigger] r.contains_key(x) ==> m.contains_key(x) && r[x] == m[x],
        forall|x: u128| #[trigger] r.contains_key(x) ==> (r[x].parent_instance_id matches Some(p) ==> r.contains_key(p)),
        forall|x: u128| #[trigger] r.contains_key(x) ==> website_ids(ws).contains(r[x].website_id),
        r.contains_key(k),
    ensures
        anchored(m, ws, k),
{
    assert forall|j: nat| (#[trigger] ancestor_at(m, k, j)) is Some implies m.contains_key(ancestor_at(m, k, j)->0)
        && website_ids(ws).contains(m[ancestor_at(m, k, j)->0].website_id) by {
        lemma_closed_part_holds_ancestors(m, r, k, j);
    }
}

/// An instance whose website is gone, or whose parent is gone or cannot
/// stay, cannot stay.
pub proof fn lemma_loose_is_unanchored(m: Map<u128, InstanceView>, ws: Seq<WebsiteView>, k: u128)
    requires
        m.contains_key(k),
        !website_ids(ws).contains(m[k].website_id) || (m[k].parent_instance_id matches Some(p) && (!m.contains_key(p)
            || !anchored(m, ws, p))),
    ensures
        !anchored(m, ws, k),
{
    assert(ancestor_at(m, k, 0) == Some(k));
    if website_ids(ws).contains(m[k].website_id) {
        let p = m[k].parent_instance_id->0;
        assert(parent_in(m, k) == Some(p));
        assert(ancestor_at(m, k, 1) == match ancestor_at(m, k, 0) {
            Some(a) => parent_in(m, a),
            None => None,
        });
        if m.contains_key(p) {
            let j = choose|j: nat| !((#[trigger] ancestor_at(m, p, j)) is Some ==> m.contains_key(ancestor_at(m, p, j)->0)
                && website_ids(ws).contains(m[ancestor_at(m, p, j)->0].website_id));
            lemma_ancestor_shift(m, k, p, j);
        }
    }
}

/// The parent of an instance that can stay can stay.
pub proof fn lemma_anchored_parent(m: Map<u128, InstanceView>, ws: Seq<WebsiteView>, k: u128, p: u128)
    requires
        m.contains_key(k),
        anchored(m, ws, k),
        m[k].parent_instance_id == Some(p),
    ensures
        m.contains_key(p),
        anchored(m, ws, p),
{
    assert(ancestor_at(m, k, 0) == Some(k));
    assert(parent_in(m, k) == Some(p));
    assert(ancestor_at(m, k, 1) == match ancestor_at(m, k, 0) {
        Some(a) => parent_in(m, a),
        None => None,
    });
    assert forall|j: nat| (#[trigger] ancestor_at(m, p, j)) is Some implies m.contains_key(ancestor_at(m, p, j)->0)
        && website_ids(ws).contains(m[ancestor_at(m, p, j)->0].website_id) by {
        lemma_ancestor_shift(m, k, p, j);
        assert(ancestor_at(m, k, j + 1) is Some);
    }
}

/// A sanitized state is clean.
pub proof fn lemma_sanitized_is_clean(s: AppStateView)
    ensures
        clean(sanitized(s).0),
{
    let bad = selected(s.instances, junk());
    let m1 = s.instances.remove_keys(bad);
    let dropped = unanchored(m1, s.websites);
    let m2 = m1.remove_keys(dropped);
    let t = sanitized(s).0;
    assert(t.instances == m2);
    assert(website_ids(t.websites) =~= website_ids(s.websites)) by {
        assert forall|id: u128| website_ids(s.websites).contains(id) implies website_ids(t.websites).contains(id) by {
            let j = choose|j: int| 0 <= j < s.websites.len() && #[trigger] s.websites[j].id == id;
            assert(t.websites[j].id == id);
        }
        assert forall|id: u128| website_ids(t.websites).contains(id) implies website_ids(s.websites).contains(id) by {
            let j = choose|j: int| 0 <= j < t.websites.len() && #[trigger] t.websites[j].id == id;
            assert(s.websites[j].id == id);
        }
    }
    assert forall|k: u128| #[trigger] m2.contains_key(k) implies {
        &&& usable_url(m2[k].current_url)
        &&& website_ids(t.websites).contains(m2[k].website_id)
        &&& m2[k].parent_instance_id matches Some(p) ==> m2.contains_key(p)
    } by {
        assert(!bad.contains(k));
        assert(anchored(m1, s.websites, k));
        assert(ancestor_at(m1, k, 0) == Some(k));
        if let Some(p) = m2[k].parent_instance_id {
            lemma_anchored_parent(m1, s.websites, k, p);
        }
    }
    assert forall|i: int, j: int| 0 <= i < t.websites.len() && 0 <= j < t.websites[i].root_instance_ids.len()
        implies m2.contains_key(#[trigger] t.websites[i].root_instance_ids[j]) by {
        let roots = s.websites[i].root_instance_ids;
        assert(t.websites[i].root_instance_ids == roots.filter(|x: u128| m2.contains_key(x)));
        roots.lemma_filter_pred(|x: u128| m2.contains_key(x), j);
    }
    assert forall|i: int| 0 <= i < t.websites.len() implies match (#[trigger] t.websites[i]).active_instance_id {
        Some(a) => m2.contains_key(a),
        None => t.websites[i].root_instance_ids.len() == 0,
    } by {
        let w = s.websites[i];
        let roots = w.root_instance_ids.filter(|x: u128| m2.contains_key(x));
        assert(t.websites[i] == repaired(w, m2));
        if checked_active(w, m2) is None && roots.len() > 0 {
            w.root_instance_ids.lemma_filter_pred(|x: u128| m2.contains_key(x), 0);
        }
    }
    if t.active_website_id is Some && s.websites.len() > 0 {
        assert(s.websites[0].id == t.websites[0].id);
        assert(website_ids(s.websites).contains(s.websites[0].id));
    }
}

/// The elements of `v` that are keys of `m`, in order.
fn retain_present(v: &Vec<u128>, m: &HashMap<u128, Instance>) -> (r: Vec<u128>)
    ensures
        r@ == v@.filter(|x: u128| m@.contains_key(x)),
{
    let ghost pred = |x: u128| m@.contains_key(x);
    let mut out: Vec<u128> = Vec::new();
    let mut i: usize = 0;
    while i < v.len()
        invariant
            i <= v@.len(),
            pred == (|x: u128| m@.contains_key(x)),
            out@ == v@.take(i as int).filter(pred),
        decreases v@.len() - i,
    {
        let x = v[i];
        proof {
            assert(v@.take(i + 1) =~= v@.take(i as int).push(x));
            v@.take(i as int).lemma_filter_push(x, pred);
        }
        if m.contains_key(&x) {
            out.push(x);
        }
        i = i + 1;
    }
    proof {
        assert(v@.take(v@.len() as int) =~= v@);
    }
    out
}

/// Repairs one website against the instances in `m`; returns the website,
/// whether a dangling active instance was cleared, and how many roots were
/// pruned.
fn repair_website(w: &Website, m: &HashMap<u128, Instance>) -> (r: (Website, bool, usize))
    ensures
        r.0@ == repaired(w@, crate::model::instances_view(m@)),
        (if r.1 { 1nat } else { 0nat }) + r.2 == repairs(w@, crate::model::instances_view(m@)),
        r.2 <= w@.root_instance_ids.len(),
{
    let ghost mv = crate::model::instances_view(m@);
    let mut out = w.clone();
    let mut cleared = false;
    if let Some(a) = out.active_instance_id {
        if !m.contains_key(&a) {
            out.active_instance_id = None;
            cleared = true;
        }
    }
    let before = out.root_instance_ids.len();
    let roots = retain_present(&out.root_instance_ids, m);
    proof {
        out.root_instance_ids@.lemma_filter_len(|x: u128| m@.contains_key(x));
        assert((|x: u128| m@.contains_key(x)) =~= (|x: u128| mv.contains_key(x)));
    }
    let dropped = before - roots.len();
    out.root_instance_ids = roots;
    if out.active_instance_id.is_none() {
        out.active_instance_id = if out.root_instance_ids.len() > 0 {
            Some(out.root_instance_ids[0])
        } else {
            None
        };
    }
    proof {
        assert(out@ =~= repaired(w@, mv));
    }
    (out, cleared, dropped)
}

/// `total_repairs` is at most one per website plus the number of roots.
proof fn lemma_total_repairs_bound(ws: Seq<WebsiteView>, m: Map<u128, InstanceView>)
    ensures
        total_repairs(ws, m) <= ws.len() + total_roots(ws),
    decreases ws.len(),
{
    if ws.len() > 0 {
        lemma_total_repairs_bound(ws.drop_last(), m);
        assert(ws.last().root_instance_ids.filter(|x: u128| m.contains_key(x)).len() <= ws.last().root_instance_ids.len());
    }
}

/// Removing distinct present keys shortens the map by their number.
proof fn lemma_remove_present_len(m: Map<u128, InstanceView>, ids: Seq<u128>)
    requires
        m.dom().finite(),
        ids.no_duplicates(),
        ids.to_set() <= m.dom(),
    ensures
        m.remove_keys(ids.to_set()).dom().len() + ids.len() == m.dom().len(),
        m.remove_keys(ids.to_set()).dom().finite(),
{
    ids.unique_seq_to_set();
    assert(m.remove_keys(ids.to_set()).dom() =~= m.dom().difference(ids.to_set()));
    vstd::set_lib::lemma_set_difference_len(m.dom(), ids.to_set());
    assert(m.dom().intersect(ids.to_set()) =~= ids.to_set());
}

/// Drop dangling references that an externally edited or truncated store
/// could leave behind. Returns the number of references dropped or
/// repaired. Afterwards no reference dangles, so a second call finds
/// nothing to do.
///
/// The counts involved must fit in `usize`.
pub fn sanitize(state: &mut AppState) -> (fixed: usize)
    requires
        old(state)@.instances.dom().len() + old(state)@.websites.len() + total_roots(old(state)@.websites) + 1
            <= usize::MAX,
    ensures
        (final(state)@, fixed as nat) == sanitized(old(state)@),
        clean(final(state)@),
        sanitized(final(state)@) == (final(state)@, 0nat),
{
    let ghost s0 = old(state)@;
    proof {
        vstd::std_specs::hash::axiom_hashmap_view_finite_dom(old(state).instances);
        assert(s0.instances.dom() =~= old(state).instances@.dom());
    }
    // Instances with junk URLs (about:blank, data:, ...) can never be
    // spawned.
    let all = instance_ids(&state.instances);
    let is_junk = |k: u128, inst: &Instance| -> (b: bool)
        ensures
            b == !usable_url(inst.current_url@),
        {
            match parse_url(inst.current_url.as_str()) {
                Some(u) => registered_domain(&u).is_none(),
                None => true,
            }
        };
    let bad = select_ids(&state.instances, &all, is_junk, Ghost(junk()));
    remove_all(&mut state.instances, &bad);
    let ghost bad_set = selected(s0.instances, junk());
    let ghost m1 = s0.instances.remove_keys(bad_set);
    proof {
        assert(bad@.to_set() == bad_set);
        bad@.unique_seq_to_set();
        assert(state@.instances =~= m1);
        assert(bad_set <= s0.instances.dom());
        lemma_remove_present_len(s0.instances, bad@);
    }
    let mut fixed: usize = bad.len();
    // The ids of the websites.
    let mut wids: Vec<u128> = Vec::new();
    let mut k: usize = 0;
    while k < state.websites.len()
        invariant
            k <= state@.websites.len(),
            state@.websites == s0.websites,
            wids@ == s0.websites.take(k as int).map_values(|w: WebsiteView| w.id),
        decreases state@.websites.len() - k,
    {
        proof {
            assert(state.websites@[k as int]@ == s0.websites[k as int]);
        }
        wids.push(state.websites[k].id);
        proof {
            assert(wids@ =~= s0.websites.take(k + 1).map_values(|w: WebsiteView| w.id));
        }
        k = k + 1;
    }
    proof {
        assert(s0.websites.take(s0.websites.len() as int) =~= s0.websites);
        assert forall|x: u128| wids@.contains(x) <==> website_ids(s0.websites).contains(x) by {
            if wids@.contains(x) {
                let j = choose|j: int| 0 <= j < wids@.len() && wids@[j] == x;
                assert(s0.websites[j].id == x);
            }
            if website_ids(s0.websites).contains(x) {
                let j = choose|j: int| 0 <= j < s0.websites.len() && #[trigger] s0.websites[j].id == x;
                assert(wids@[j] == x);
            }
        }
    }
    // Drop the instances that cannot stay, until none is left: an instance
    // whose website is gone or whose parent is gone.
    let mut more = true;
    while more
        invariant
            state@.websites == s0.websites,
            state@.active_website_id == s0.active_website_id,
            forall|x: u128| wids@.contains(x) <==> website_ids(s0.websites).contains(x),
            m1.dom().finite(),
            state@.instances.dom().finite(),
            forall|x: u128| #[trigger] state@.instances.contains_key(x) ==> m1.contains_key(x) && state@.instances[x] == m1[x],
            forall|x: u128| #[trigger] m1.contains_key(x) && !state@.instances.contains_key(x) ==> !anchored(m1, s0.websites, x),
            state@.instances.dom().len() <= m1.dom().len(),
            fixed as nat + state@.instances.dom().len() == bad_set.len() + m1.dom().len(),
            bad_set.len() + m1.dom().len() == s0.instances.dom().len(),
            s0.instances.dom().len() + s0.websites.len() + total_roots(s0.websites) + 1 <= usize::MAX,
            !more ==> forall|x: u128| #[trigger] state@.instances.contains_key(x) ==> website_ids(s0.websites).contains(
                state@.instances[x].website_id,
            ) && (state@.instances[x].parent_instance_id matches Some(p) ==> state@.instances.contains_key(p)),
        decreases state@.instances.dom().len() + if more { 1nat } else { 0nat },
    {
        let ghost cur = state@.instances;
        let keys = instance_ids(&state.instances);
        let current = &state.instances;
        let is_loose = |k: u128, inst: &Instance| -> (b: bool)
            ensures
                b == (!wids@.contains(inst.website_id) || match inst.parent_instance_id {
                    Some(p) => !current@.contains_key(p),
                    None => false,
                }),
            {
                if !vec_contains(&wids, inst.website_id) {
                    true
                } else {
                    match inst.parent_instance_id {
                        Some(p) => !current.contains_key(&p),
                        None => false,
                    }
                }
            };
        let ghost lp = |k: u128, i: InstanceView| !wids@.contains(i.website_id) || match i.parent_instance_id {
            Some(p) => !cur.contains_key(p),
            None => false,
        };
        proof {
            assert(cur.dom() =~= state.instances@.dom());
        }
        let doomed = select_ids(&state.instances, &keys, is_loose, Ghost(lp));
        if doomed.len() == 0 {
            proof {
                assert forall|x: u128| #[trigger] cur.contains_key(x) implies website_ids(s0.websites).contains(
                    cur[x].website_id,
                ) && (cur[x].parent_instance_id matches Some(p) ==> cur.contains_key(p)) by {
                    if !lp(x, cur[x]) {
                    } else {
                        assert(doomed@.to_set().contains(x));
                    }
                }
            }
            more = false;
        } else {
            proof {
                assert forall|x: u128| #[trigger] doomed@.to_set().contains(x) implies !anchored(m1, s0.websites, x) by {
                    assert(cur.contains_key(x) && lp(x, cur[x]));
                    if let Some(p) = m1[x].parent_instance_id {
                        if m1.contains_key(p) && !cur.contains_key(p) {
                            assert(!anchored(m1, s0.websites, p));
                        }
                    }
                    lemma_loose_is_unanchored(m1, s0.websites, x);
                }
                assert(doomed@.to_set() <= cur.dom());
                lemma_remove_present_len(cur, doomed@);
            }
            remove_all(&mut state.instances, &doomed);
            fixed = fixed + doomed.len();
            proof {
                assert(state@.instances =~= cur.remove_keys(doomed@.to_set()));
            }
        }
    }
    let ghost dropped = unanchored(m1, s0.websites);
    let ghost m2 = m1.remove_keys(dropped);
    proof {
        let cur = state@.instances;
        assert forall|x: u128| #[trigger] cur.contains_key(x) implies anchored(m1, s0.websites, x) by {
            lemma_closed_part_is_anchored(m1, s0.websites, cur, x);
        }
        assert(cur =~= m2);
        assert(dropped =~= m1.dom().difference(m2.dom()));
        vstd::set_lib::lemma_set_difference_len(m1.dom(), m2.dom());
        assert(m1.dom().intersect(m2.dom()) =~= m2.dom());
        assert(fixed as nat == bad_set.len() + dropped.len());
    }
    // Repair each website's references against what is left.
    let mut wi: usize = 0;
    while wi < state.websites.len()
        invariant
            state@.instances == m2,
            state@.active_website_id == s0.active_website_id,
            wi <= state@.websites.len(),
            state@.websites.len() == s0.websites.len(),
            forall|j: int| 0 <= j < wi ==> (#[trigger] state.websites@[j])@ == repaired(s0.websites[j], m2),
            forall|j: int| wi <= j < state@.websites.len() ==> (#[trigger] state.websites@[j])@ == s0.websites[j],
            fixed as nat == bad_set.len() + dropped.len() + total_repairs(s0.websites.take(wi as int), m2),
            bad_set.len() + dropped.len() <= s0.instances.dom().len(),
            total_repairs(s0.websites.take(wi as int), m2) <= wi + total_roots(s0.websites.take(wi as int)),
            total_roots(s0.websites.take(wi as int)) <= total_roots(s0.websites),
            s0.instances.dom().len() + s0.websites.len() + total_roots(s0.websites) + 1 <= usize::MAX,
        decreases s0.websites.len() - wi,
    {
        proof {
            assert(state.websites@[wi as int]@ == s0.websites[wi as int]);
            assert(crate::model::instances_view(state.instances@) == m2);
        }
        let (w, cleared, dropped_roots) = repair_website(&state.websites[wi], &state.instances);
        proof {
            assert(s0.websites.take(wi + 1).drop_last() =~= s0.websites.take(wi as int));
            assert(s0.websites.take(wi + 1).last() == s0.websites[wi as int]);
            lemma_total_roots_prefix(s0.websites, wi as int + 1);
            lemma_total_repairs_bound(s0.websites.take(wi + 1), m2);
        }
        if cleared {
            fixed = fixed + 1;
        }
        fixed = fixed + dropped_roots;
        state.websites.set(wi, w);
        wi = wi + 1;
    }
    proof {
        assert(s0.websites.take(s0.websites.len() as int) =~= s0.websites);
        assert(state@.websites =~= s0.websites.map_values(|w: WebsiteView| repaired(w, m2)));
        lemma_total_repairs_bound(s0.websites, m2);
    }
    // The active website may point to a gone website.
    if let Some(active) = state.active_website_id {
        if !vec_contains(&wids, active) {
            state.active_website_id = if state.websites.len() > 0 {
                Some(state.websites[0].id)
            } else {
                None
            };
            fixed = fixed + 1;
        }
    }
    proof {
        if state.websites@.len() > 0 {
            assert(state.websites@[0]@ == repaired(s0.websites[0], m2));
        }
        lemma_sanitized_is_clean(s0);
        crate::laws::lemma_sanitize_clean_is_identity(state@);
    }
    fixed
}

/// Total roots of a prefix grow with the prefix and stay below the total.
proof fn lemma_total_roots_prefix(ws: Seq<WebsiteView>, n: int)
    requires
        0 <= n <= ws.len(),
    ensures
        total_roots(ws.take(n)) <= total_roots(ws),
        n > 0 ==> total_roots(ws.take(n)) == total_roots(ws.take(n - 1)) + ws[n - 1].root_instance_ids.len(),
    decreases ws.len() - n,
{
    if n > 0 {
        assert(ws.take(n).drop_last() =~= ws.take(n - 1));
    }
    if n < ws.len() {
        lemma_total_roots_prefix(ws, n + 1);
    } else {
        assert(ws.take(n) =~= ws);
    }
}

} // verus!
