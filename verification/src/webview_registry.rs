//! Bookkeeping of the per-instance child webviews: which instances have a
//! spawned webview (by label) and which one is visible. The windowing work
//! itself happens outside the library.

use std::collections::HashMap;

use vstd::prelude::*;

use crate::ids::{lemma_hex_digits_len, lemma_simple_form_injective, simple_form, uuid_simple};
use crate::model::Instance;
use crate::nav_guard::{registered_domain, url_registered_domain};
use crate::text::concat_str;
use crate::weburl::{WebUrl, parse_url, url_parse};

verus! {

broadcast use vstd::std_specs::hash::group_hash_axioms;

/// The prefix `instance-` of every webview label.
pub open spec fn label_prefix() -> Seq<char> {
    seq!['i', 'n', 's', 't', 'a', 'n', 'c', 'e', '-']
}

/// The label of the webview of instance `id`.
pub open spec fn label_of(id: u128) -> Seq<char> {
    label_prefix() + simple_form(id)
}

/// The stable label `instance-<uuid as 32 hex digits>` of an instance's
/// webview.
pub fn label_for(id: u128) -> (r: String)
    ensures
        r@ == label_of(id),
{
    let hex = uuid_simple(id);
    proof {
        reveal_strlit("instance-");
        assert("instance-"@ =~= label_prefix());
    }
    concat_str("instance-", hex.as_str())
}

/// Distinct instances never share a webview label.
pub proof fn lemma_labels_distinct(a: u128, b: u128)
    requires
        a != b,
    ensures
        label_of(a) != label_of(b),
{
    if label_of(a) == label_of(b) {
        lemma_hex_digits_len(a as nat, 32);
        lemma_hex_digits_len(b as nat, 32);
        assert(simple_form(a) =~= label_of(a).subrange(9, 41));
        assert(simple_form(b) =~= label_of(b).subrange(9, 41));
        lemma_simple_form_injective(a, b);
    }
}

/// Why an instance's webview cannot be spawned.
#[derive(Debug)]
pub enum SpawnError {
    /// The instance's URL does not parse.
    InvalidUrl(String),
    /// The instance's URL has no registered domain to pin the webview to.
    NoRegisteredDomain(String),
}

/// What spawning the webview of an instance at URL `url` starts from: the
/// parsed URL and its registered domain, or why it cannot be spawned.
pub open spec fn spawn_target_of(url: Seq<char>) -> Option<((Seq<char>, Option<Seq<char>>, bool), Seq<char>)> {
    match url_parse(url) {
        Some(u) => match url_registered_domain(u) {
            Some(d) => Some((u, d)),
            None => None,
        },
        None => None,
    }
}

/// The parsed URL of an instance and the registered domain its webview is
/// pinned to (same-site navigations stay, cross-site ones fork).
pub fn spawn_target(instance: &Instance) -> (r: Result<(WebUrl, String), SpawnError>)
    ensures
        match r {
            Ok((u, d)) => spawn_target_of(instance.current_url@) == Some((u@, d@)),
            Err(SpawnError::InvalidUrl(s)) => url_parse(instance.current_url@) is None && s@ == instance.current_url@,
            Err(SpawnError::NoRegisteredDomain(s)) => url_parse(instance.current_url@) is Some
                && spawn_target_of(instance.current_url@) is None && s@ == instance.current_url@,
        },
{
    let url = match parse_url(instance.current_url.as_str()) {
        Some(u) => u,
        None => {
            return Err(SpawnError::InvalidUrl(instance.current_url.clone()));
        },
    };
    match registered_domain(&url) {
        Some(d) => Ok((url, d)),
        None => Err(SpawnError::NoRegisteredDomain(instance.current_url.clone())),
    }
}

/// Spawned webviews by instance id, and the instance whose webview is shown.
#[derive(Debug)]
pub struct WebviewRegistry {
    spawned: HashMap<u128, String>,
    active: Option<u128>,
}

/// The mathematical value of a [`WebviewRegistry`].
#[verifier::ext_equal]
pub struct WebviewRegistryView {
    pub spawned: Map<u128, Seq<char>>,
    pub active: Option<u128>,
}

impl View for WebviewRegistry {
    type V = WebviewRegistryView;

    closed spec fn view(&self) -> WebviewRegistryView {
        WebviewRegistryView {
            spawned: self.spawned@.map_values(|s: String| s@),
            active: self.active,
        }
    }
}

/// The label a registry holds for `id`, if any.
pub open spec fn label_in(r: WebviewRegistryView, id: u128) -> Option<Seq<char>> {
    if r.spawned.contains_key(id) {
        Some(r.spawned[id])
    } else {
        None
    }
}

/// The registry after the webview of `id` was spawned under `label`.
pub open spec fn with_spawned(r: WebviewRegistryView, id: u128, label: Seq<char>) -> WebviewRegistryView {
    WebviewRegistryView { spawned: r.spawned.insert(id, label), active: r.active }
}

/// The registry after showing the webview of `id`, when it was spawned;
/// unchanged otherwise.
pub open spec fn with_shown(r: WebviewRegistryView, id: u128) -> WebviewRegistryView {
    if r.spawned.contains_key(id) {
        WebviewRegistryView { active: Some(id), ..r }
    } else {
        r
    }
}

/// The registry with nothing shown.
pub open spec fn with_none_shown(r: WebviewRegistryView) -> WebviewRegistryView {
    WebviewRegistryView { active: None, ..r }
}

/// The registry after forgetting the webview of `id`.
pub open spec fn without(r: WebviewRegistryView, id: u128) -> WebviewRegistryView {
    WebviewRegistryView {
        spawned: r.spawned.remove(id),
        active: if r.active == Some(id) {
            None
        } else {
            r.active
        },
    }
}

/// The shown webview, if any, is a spawned one.
pub open spec fn shows_spawned(r: WebviewRegistryView) -> bool {
    r.active matches Some(a) ==> r.spawned.contains_key(a)
}

/// What to do to make sure the webview of an instance exists: nothing but
/// report its label when it was spawned, else spawn it under its label at
/// its parsed URL, pinned to its registered domain.
#[derive(Debug)]
pub enum SpawnPlan {
    Spawned(String),
    Spawn { label: String, url: WebUrl, root: String },
}

impl WebviewRegistry {
    /// Nothing spawned, nothing shown.
    pub fn new() -> (r: Self)
        ensures
            r@.spawned == Map::<u128, Seq<char>>::empty(),
            r@.active is None,
    {
        let r = WebviewRegistry { spawned: HashMap::new(), active: None };
        proof {
            assert(r@.spawned =~= Map::<u128, Seq<char>>::empty());
        }
        r
    }

    /// The label of the spawned webview of `id`, if it was spawned.
    pub fn spawned_label(&self, id: u128) -> (r: Option<String>)
        ensures
            crate::text::opt_view(r) == label_in(self@, id),
    {
        match self.spawned.get(&id) {
            Some(l) => Some(l.clone()),
            None => None,
        }
    }

    /// Records that the webview of `id` was spawned under `label`.
    pub fn record_spawned(&mut self, id: u128, label: String)
        ensures
            final(self)@ == with_spawned(old(self)@, id, label@),
            final(self)@.spawned == old(self)@.spawned.insert(id, label@),
            final(self)@.active == old(self)@.active,
    {
        let ghost l = label@;
        self.spawned.insert(id, label);
        proof {
            assert(self@.spawned =~= old(self)@.spawned.insert(id, l));
        }
    }

    /// Shows the webview of `id`: returns the label of the previously shown
    /// webview (when it is another, spawned one) and the label to show.
    /// Fails, changing nothing, when `id` has no spawned webview.
    pub fn activate(&mut self, id: u128) -> (r: Option<(Option<String>, String)>)
        ensures
            final(self)@ == with_shown(old(self)@, id),
            final(self)@.spawned == old(self)@.spawned,
            final(self)@.active == (if old(self)@.spawned.contains_key(id) {
                Some(id)
            } else {
                old(self)@.active
            }),
            (match label_in(old(self)@, id) {
                None => r is None,
                Some(target) => r matches Some((prev, t)) && t@ == target
                    && crate::text::opt_view(prev) == match old(self)@.active {
                        Some(p) => if p != id { label_in(old(self)@, p) } else { None },
                        None => None,
                    },
            }),
    {
        let prev = match self.active {
            Some(p) => if p != id {
                self.spawned_label(p)
            } else {
                None
            },
            None => None,
        };
        let target = match self.spawned_label(id) {
            Some(t) => t,
            None => {
                return None;
            },
        };
        self.active = Some(id);
        Some((prev, target))
    }

    /// Hides the shown webview: returns its label, and nothing is shown.
    pub fn deactivate(&mut self) -> (r: Option<String>)
        ensures
            crate::text::opt_view(r) == (match old(self)@.active {
                Some(a) => label_in(old(self)@, a),
                None => None,
            }),
            final(self)@ == with_none_shown(old(self)@),
            final(self)@.spawned == old(self)@.spawned,
            final(self)@.active is None,
    {
        let label = match self.active {
            Some(a) => self.spawned_label(a),
            None => None,
        };
        self.active = None;
        label
    }

    /// The label of the shown webview, if any.
    pub fn active_label(&self) -> (r: Option<String>)
        ensures
            crate::text::opt_view(r) == (match self@.active {
                Some(a) => label_in(self@, a),
                None => None,
            }),
    {
        match self.active {
            Some(a) => self.spawned_label(a),
            None => None,
        }
    }

    /// Forgets the webview of `id`, which is no longer shown: returns its
    /// label when it had been spawned.
    pub fn destroy(&mut self, id: u128) -> (r: Option<String>)
        ensures
            crate::text::opt_view(r) == label_in(old(self)@, id),
            final(self)@ == without(old(self)@, id),
            final(self)@.spawned == old(self)@.spawned.remove(id),
            final(self)@.active == (if old(self)@.active == Some(id) {
                None
            } else {
                old(self)@.active
            }),
    {
        if self.active == Some(id) {
            self.active = None;
        }
        let r = self.spawned.remove(&id);
        proof {
            assert(self@.spawned =~= old(self)@.spawned.remove(id));
        }
        r
    }

    /// The instance whose webview is shown.
    pub fn active(&self) -> (r: Option<u128>)
        ensures
            r == self@.active,
    {
        self.active
    }

    /// Whether the webview of `id` was spawned.
    pub fn is_spawned(&self, id: u128) -> (r: bool)
        ensures
            r == self@.spawned.contains_key(id),
    {
        self.spawned.contains_key(&id)
    }

    /// How to make sure the webview of `instance` exists: its label when it
    /// was spawned; else its label, parsed URL and registered domain, or
    /// why it cannot be spawned.
    pub fn spawn_plan(&self, instance: &Instance) -> (r: Result<SpawnPlan, SpawnError>)
        ensures
            match label_in(self@, instance.id) {
                Some(l) => r matches Ok(SpawnPlan::Spawned(x)) && x@ == l,
                None => match r {
                    Ok(SpawnPlan::Spawn { label, url, root }) => label@ == label_of(instance.id)
                        && spawn_target_of(instance.current_url@) == Some((url@, root@)),
                    Ok(SpawnPlan::Spawned(_)) => false,
                    Err(SpawnError::InvalidUrl(s)) => url_parse(instance.current_url@) is None
                        && s@ == instance.current_url@,
                    Err(SpawnError::NoRegisteredDomain(s)) => url_parse(instance.current_url@) is Some
                        && spawn_target_of(instance.current_url@) is None && s@ == instance.current_url@,
                },
            },
    {
        if let Some(l) = self.spawned_label(instance.id) {
            return Ok(SpawnPlan::Spawned(l));
        }
        let (url, root) = spawn_target(instance)?;
        Ok(SpawnPlan::Spawn { label: label_for(instance.id), url, root })
    }
}

/// A new registry shows nothing, and every operation keeps the shown
/// webview, if any, a spawned one.
pub proof fn lemma_shown_is_spawned(r: WebviewRegistryView, id: u128, label: Seq<char>)
    requires
        shows_spawned(r),
    ensures
        shows_spawned(WebviewRegistryView { spawned: Map::empty(), active: None }),
        shows_spawned(with_spawned(r, id, label)),
        shows_spawned(with_shown(r, id)),
        shows_spawned(with_none_shown(r)),
        shows_spawned(without(r, id)),
{
}

/// Once the webview of `id` is recorded under its label, planning to spawn
/// it again reports that label: making sure a webview exists is idempotent.
pub proof fn lemma_spawn_is_idempotent(r: WebviewRegistryView, id: u128)
    ensures
        label_in(with_spawned(r, id, label_of(id)), id) == Some(label_of(id)),
        with_spawned(with_spawned(r, id, label_of(id)), id, label_of(id)) == with_spawned(r, id, label_of(id)),
{
    assert(with_spawned(with_spawned(r, id, label_of(id)), id, label_of(id)).spawned =~= with_spawned(
        r,
        id,
        label_of(id),
    ).spawned);
}

} // verus!
