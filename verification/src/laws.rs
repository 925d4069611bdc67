//! Properties of the library as a whole: what every state operation keeps,
//! what repeating an operation does, and what a sequence of them leaves.

use vstd::prelude::*;

use crate::commands::state_ops::{
    recorded_ids,
    add_instance_spec, add_website_spec, anchored, clean, fork_instance_spec, fork_target_error,
    has_id, instances_of, junk, lemma_closed_part_is_anchored, lemma_sanitized_is_clean, normalized,
    remove_instance_spec, remove_website_spec, rename_instance_spec, repaired, repairs,
    root_matches, sanitized, selected, set_active_instance_spec, set_active_website_spec,
    set_instance_icon_spec, starting_url, total_repairs, unanchored, update_instance_title_spec,
    update_instance_url_spec, usable_url, website_ids, website_index,
};
use crate::descent::lemma_acyclic_descent_is_finite;
use crate::lineage::{
    acyclic, ancestor_at, descendants, descends_from, lemma_acyclic_insert, lemma_acyclic_kept,
    lemma_ancestor_first_step, on_cycle, parent_in, parents_kept,
};
use crate::model::finite_descent;
use crate::commands::activation::{activated, active_instance_of};
use crate::commands::OpErrorView;
use crate::commands::OpError;
use crate::model::Instance;
use crate::model::{AppStateView, InstanceView, WebsiteView};
use crate::seq_util::{first_index, lemma_first_index, lemma_first_index_is};
use crate::text::{eq_ignore_ascii_case, lemma_eq_ignore_ascii_case_equiv, trimmed};

verus! {

/// Instance `k` is present and belongs to website `wid`.
pub open spec fn refers(s: AppStateView, wid: u128, k: u128) -> bool {
    s.instances.contains_key(k) && s.instances[k].website_id == wid
}

/// The state holds no dangling or crossed references: instances are keyed
/// by their ids, belong to an existing website, sit at a usable URL, and
/// have their parent (if any) present and on their own website; website ids are distinct; every root and
/// active instance of a website is one of its own present instances, and a
/// website without an active instance has no roots; the active website
/// exists.
pub open spec fn well_formed(s: AppStateView) -> bool {
    &&& forall|k: u128| s.instances.contains_key(k) ==> #[trigger] s.instances[k].id == k
    &&& forall|k: u128| s.instances.contains_key(k) ==> website_ids(s.websites).contains(#[trigger] s.instances[k].website_id)
    &&& forall|k: u128| s.instances.contains_key(k) ==> usable_url(#[trigger] s.instances[k].current_url)
    &&& forall|k: u128| s.instances.contains_key(k) && (#[trigger] parent_in(s.instances, k)) is Some
        ==> s.instances.contains_key(parent_in(s.instances, k)->0)
        && s.instances[parent_in(s.instances, k)->0].website_id == s.instances[k].website_id
    &&& forall|i: int, j: int| 0 <= i < j < s.websites.len() ==> #[trigger] s.websites[i].id != #[trigger] s.websites[j].id
    &&& forall|i: int, j: int| 0 <= i < s.websites.len() && 0 <= j < s.websites[i].root_instance_ids.len()
        ==> refers(s, s.websites[i].id, #[trigger] s.websites[i].root_instance_ids[j])
    &&& forall|i: int| 0 <= i < s.websites.len() && (#[trigger] s.websites[i]).active_instance_id is Some
        ==> refers(s, s.websites[i].id, s.websites[i].active_instance_id->0)
    &&& forall|i: int| 0 <= i < s.websites.len() && (#[trigger] s.websites[i]).active_instance_id is None
        ==> s.websites[i].root_instance_ids.len() == 0
    &&& s.active_website_id matches Some(a) ==> website_ids(s.websites).contains(a)
}

/// The empty state is well formed and has no cycle of parent links.
pub proof fn lemma_empty_well_formed(s: AppStateView)
    requires
        s.websites.len() == 0,
        s.instances == Map::<u128, InstanceView>::empty(),
        s.active_website_id is None,
    ensures
        well_formed(s),
        acyclic(s.instances),
{
}

/// Adding a website keeps the state well formed when the new website's id
/// is not already taken.
pub proof fn lemma_add_website_keeps_well_formed(s: AppStateView, input: Seq<char>, now_ms: i64, id: u128)
    requires
        well_formed(s),
        !website_ids(s.websites).contains(id),
    ensures
        well_formed(add_website_spec(s, input, now_ms, id).0),
{
    let t = add_website_spec(s, input, now_ms, id).0;
    if t != s {
        assert(t.websites.len() == s.websites.len() + 1);
        assert forall|x: u128| website_ids(s.websites).contains(x) implies website_ids(t.websites).contains(x) by {
            let j = choose|j: int| 0 <= j < s.websites.len() && #[trigger] s.websites[j].id == x;
            assert(t.websites[j].id == x);
        }
        assert(t.websites[s.websites.len() as int].id == id);
        assert(website_ids(t.websites).contains(id));
        assert forall|i: int, j: int| 0 <= i < j < t.websites.len() implies #[trigger] t.websites[i].id != #[trigger] t.websites[j].id by {
            if j == s.websites.len() {
                assert(website_ids(s.websites).contains(t.websites[i].id)) by {
                    assert(s.websites[i].id == t.websites[i].id);
                }
            }
        }
    }
}

/// Adding a root instance keeps the state well formed when the new
/// instance's id is not already taken and the website's starting URL is
/// usable.
pub proof fn lemma_add_instance_keeps_well_formed(
    s: AppStateView,
    website_id: u128,
    name: Option<Seq<char>>,
    icon: Option<Seq<char>>,
    now_ms: i64,
    id: u128,
)
    requires
        well_formed(s),
        !s.instances.contains_key(id),
        website_index(s, website_id) >= 0 ==> usable_url(starting_url(s.websites[website_index(s, website_id)].url_root)),
    ensures
        well_formed(add_instance_spec(s, website_id, name, icon, now_ms, id).0),
{
    let wi = website_index(s, website_id);
    lemma_first_index(s.websites, has_id(website_id));
    if wi >= 0 {
        let t = add_instance_spec(s, website_id, name, icon, now_ms, id).0;
        assert(s.websites[wi].id == website_id);
        assert forall|x: u128| website_ids(s.websites).contains(x) implies website_ids(t.websites).contains(x) by {
            let j = choose|j: int| 0 <= j < s.websites.len() && #[trigger] s.websites[j].id == x;
            assert(t.websites[j].id == x);
        }
        assert(website_ids(s.websites).contains(website_id)) by {
            assert(s.websites[wi].id == website_id);
        }
        assert forall|i: int, j: int| 0 <= i < t.websites.len() && 0 <= j < t.websites[i].root_instance_ids.len()
            implies refers(t, t.websites[i].id, #[trigger] t.websites[i].root_instance_ids[j]) by {
            if i == wi {
                if j < s.websites[i].root_instance_ids.len() {
                    assert(t.websites[i].root_instance_ids[j] == s.websites[i].root_instance_ids[j]);
                    assert(refers(s, s.websites[i].id, s.websites[i].root_instance_ids[j]));
                }
            } else {
                assert(refers(s, s.websites[i].id, s.websites[i].root_instance_ids[j]));
            }
        }
        assert forall|i: int| 0 <= i < t.websites.len() && (#[trigger] t.websites[i]).active_instance_id is Some
            implies refers(t, t.websites[i].id, t.websites[i].active_instance_id->0) by {
            if i != wi || s.websites[i].active_instance_id is Some {
                assert(refers(s, s.websites[i].id, s.websites[i].active_instance_id->0));
            }
        }
        assert forall|k: u128| t.instances.contains_key(k) && (#[trigger] parent_in(t.instances, k)) is Some
            implies t.instances.contains_key(parent_in(t.instances, k)->0) && t.instances[parent_in(t.instances, k)->0].website_id == t.instances[k].website_id by {
            let p = parent_in(t.instances, k)->0;
            if k != id && p != id {
                assert(parent_in(s.instances, k) == Some(p));
            } else if k != id {
                assert(parent_in(s.instances, k) == Some(p));
            }
        }
    }
}

/// Setting an icon keeps the state well formed.
pub proof fn lemma_set_instance_icon_keeps_well_formed(s: AppStateView, id: u128, icon: Option<Seq<char>>)
    requires
        well_formed(s),
    ensures
        well_formed(set_instance_icon_spec(s, id, icon).0),
{
    let t = set_instance_icon_spec(s, id, icon).0;
    assert forall|k: u128| t.instances.contains_key(k) && (#[trigger] parent_in(t.instances, k)) is Some
        implies t.instances.contains_key(parent_in(t.instances, k)->0) && t.instances[parent_in(t.instances, k)->0].website_id == t.instances[k].website_id by {
        let p = parent_in(t.instances, k)->0;
        assert(parent_in(s.instances, k) == Some(p));
    }
}

/// Renaming keeps the state well formed.
pub proof fn lemma_rename_instance_keeps_well_formed(s: AppStateView, id: u128, name: Seq<char>)
    requires
        well_formed(s),
    ensures
        well_formed(rename_instance_spec(s, id, name).0),
{
    let t = rename_instance_spec(s, id, name).0;
    assert forall|k: u128| t.instances.contains_key(k) && (#[trigger] parent_in(t.instances, k)) is Some
        implies t.instances.contains_key(parent_in(t.instances, k)->0) && t.instances[parent_in(t.instances, k)->0].website_id == t.instances[k].website_id by {
        let p = parent_in(t.instances, k)->0;
        assert(parent_in(s.instances, k) == Some(p));
    }
}

/// Recording a page title keeps the state well formed.
pub proof fn lemma_update_instance_title_keeps_well_formed(s: AppStateView, id: u128, title: Seq<char>)
    requires
        well_formed(s),
    ensures
        well_formed(update_instance_title_spec(s, id, title)),
{
    let t = update_instance_title_spec(s, id, title);
    assert forall|k: u128| t.instances.contains_key(k) && (#[trigger] parent_in(t.instances, k)) is Some
        implies t.instances.contains_key(parent_in(t.instances, k)->0) && t.instances[parent_in(t.instances, k)->0].website_id == t.instances[k].website_id by {
        let p = parent_in(t.instances, k)->0;
        assert(parent_in(s.instances, k) == Some(p));
    }
}

/// Recording a usable URL keeps the state well formed.
pub proof fn lemma_update_instance_url_keeps_well_formed(s: AppStateView, id: u128, url: Seq<char>)
    requires
        well_formed(s),
        usable_url(url),
    ensures
        well_formed(update_instance_url_spec(s, id, url)),
{
    let t = update_instance_url_spec(s, id, url);
    assert forall|k: u128| t.instances.contains_key(k) && (#[trigger] parent_in(t.instances, k)) is Some
        implies t.instances.contains_key(parent_in(t.instances, k)->0) && t.instances[parent_in(t.instances, k)->0].website_id == t.instances[k].website_id by {
        let p = parent_in(t.instances, k)->0;
        assert(parent_in(s.instances, k) == Some(p));
    }
}

/// Forking keeps the state well formed when the new instance's id is not
/// already taken.
pub proof fn lemma_fork_instance_keeps_well_formed(s: AppStateView, parent_id: u128, target: Seq<char>, now_ms: i64, id: u128)
    requires
        well_formed(s),
        !s.instances.contains_key(id),
    ensures
        well_formed(fork_instance_spec(s, parent_id, target, now_ms, id).0),
{
    let t = fork_instance_spec(s, parent_id, target, now_ms, id).0;
    if fork_target_error(target) is None && s.instances.contains_key(parent_id) {
        assert forall|k: u128| t.instances.contains_key(k) && (#[trigger] parent_in(t.instances, k)) is Some
            implies t.instances.contains_key(parent_in(t.instances, k)->0) && t.instances[parent_in(t.instances, k)->0].website_id == t.instances[k].website_id by {
            let p = parent_in(t.instances, k)->0;
            if k != id && p != id {
                assert(parent_in(s.instances, k) == Some(p));
            } else if k != id {
                assert(parent_in(s.instances, k) == Some(p));
            }
        }
        assert forall|i: int, j: int| 0 <= i < t.websites.len() && 0 <= j < t.websites[i].root_instance_ids.len()
            implies refers(t, t.websites[i].id, #[trigger] t.websites[i].root_instance_ids[j]) by {
            assert(refers(s, s.websites[i].id, s.websites[i].root_instance_ids[j]));
        }
        assert forall|i: int| 0 <= i < t.websites.len() && (#[trigger] t.websites[i]).active_instance_id is Some
            implies refers(t, t.websites[i].id, t.websites[i].active_instance_id->0) by {
            assert(refers(s, s.websites[i].id, s.websites[i].active_instance_id->0));
        }
    }
}

/// Making a website active keeps the state well formed.
pub proof fn lemma_set_active_website_keeps_well_formed(s: AppStateView, id: u128)
    requires
        well_formed(s),
    ensures
        well_formed(set_active_website_spec(s, id).0),
{
    lemma_first_index(s.websites, has_id(id));
    if website_index(s, id) >= 0 {
        assert(s.websites[website_index(s, id)].id == id);
    }
}

/// Making an instance active keeps the state well formed.
pub proof fn lemma_set_active_instance_keeps_well_formed(s: AppStateView, id: u128)
    requires
        well_formed(s),
    ensures
        well_formed(set_active_instance_spec(s, id).0),
{
    if s.instances.contains_key(id) {
        let t = set_active_instance_spec(s, id).0;
        let wid = s.instances[id].website_id;
        let wi = website_index(s, wid);
        lemma_first_index(s.websites, has_id(wid));
        assert forall|x: u128| website_ids(s.websites).contains(x) implies website_ids(t.websites).contains(x) by {
            let j = choose|j: int| 0 <= j < s.websites.len() && #[trigger] s.websites[j].id == x;
            assert(t.websites[j].id == x);
        }
        assert forall|i: int, j: int| 0 <= i < t.websites.len() && 0 <= j < t.websites[i].root_instance_ids.len()
            implies refers(t, t.websites[i].id, #[trigger] t.websites[i].root_instance_ids[j]) by {
            assert(t.websites[i].root_instance_ids == s.websites[i].root_instance_ids);
            assert(refers(s, s.websites[i].id, s.websites[i].root_instance_ids[j]));
        }
        assert forall|i: int| 0 <= i < t.websites.len() && (#[trigger] t.websites[i]).active_instance_id is Some
            implies refers(t, t.websites[i].id, t.websites[i].active_instance_id->0) by {
            if i != wi {
                assert(refers(s, s.websites[i].id, s.websites[i].active_instance_id->0));
            }
        }
    }
}

/// Index `i` of a sequence with element `wi` removed.
proof fn lemma_remove_index<A>(s: Seq<A>, wi: int, i: int)
    requires
        0 <= wi < s.len(),
        0 <= i < s.len() - 1,
    ensures
        s.remove(wi).len() == s.len() - 1,
        s.remove(wi)[i] == if i < wi { s[i] } else { s[i + 1] },
{
    s.remove_ensures(wi);
}

/// Removing a website keeps the state well formed.
pub proof fn lemma_remove_website_keeps_well_formed(s: AppStateView, website_id: u128)
    requires
        well_formed(s),
    ensures
        well_formed(remove_website_spec(s, website_id).0),
{
    let wi = website_index(s, website_id);
    lemma_first_index(s.websites, has_id(website_id));
    if wi >= 0 {
        let t = remove_website_spec(s, website_id).0;
        let r = instances_of(s.instances, website_id);
        lemma_recorded_are_keys(s.instances, r);
        assert(s.websites[wi].id == website_id);
        assert(t.websites.len() == s.websites.len() - 1) by {
            s.websites.remove_ensures(wi);
        }
        // Where each website of `s` other than the removed one now stands.
        assert forall|j: int| 0 <= j < s.websites.len() && j != wi implies
            #[trigger] s.websites[j] == t.websites[if j < wi { j } else { j - 1 }] by {
            let i = if j < wi { j } else { j - 1 };
            lemma_remove_index(s.websites, wi, i);
        }
        assert forall|i: int| 0 <= i < t.websites.len() implies
            #[trigger] t.websites[i] == s.websites[if i < wi { i } else { i + 1 }] && (if i < wi { i } else { i + 1 }) != wi by {
            lemma_remove_index(s.websites, wi, i);
        }
        assert forall|x: u128| website_ids(s.websites).contains(x) && x != website_id implies website_ids(t.websites).contains(x) by {
            let j = choose|j: int| 0 <= j < s.websites.len() && #[trigger] s.websites[j].id == x;
            let i = if j < wi { j } else { j - 1 };
            assert(t.websites[i].id == x);
        }
        assert forall|k: u128| t.instances.contains_key(k) implies website_ids(t.websites).contains(#[trigger] t.instances[k].website_id) by {
            assert(!r.contains(k));
        }
        assert forall|k: u128| t.instances.contains_key(k) && (#[trigger] parent_in(t.instances, k)) is Some
            implies t.instances.contains_key(parent_in(t.instances, k)->0) && t.instances[parent_in(t.instances, k)->0].website_id == t.instances[k].website_id by {
            assert(parent_in(s.instances, k) == parent_in(t.instances, k));
            assert(!r.contains(k));
        }
        assert forall|i: int, j: int| 0 <= i < j < t.websites.len() implies #[trigger] t.websites[i].id != #[trigger] t.websites[j].id by {
            let si = if i < wi { i } else { i + 1 };
            let sj = if j < wi { j } else { j + 1 };
            assert(s.websites[si].id != s.websites[sj].id);
        }
        assert forall|i: int, j: int| 0 <= i < t.websites.len() && 0 <= j < t.websites[i].root_instance_ids.len()
            implies refers(t, t.websites[i].id, #[trigger] t.websites[i].root_instance_ids[j]) by {
            let si = if i < wi { i } else { i + 1 };
            assert(refers(s, s.websites[si].id, s.websites[si].root_instance_ids[j]));
            assert(s.websites[si].id != s.websites[wi].id);
        }
        assert forall|i: int| 0 <= i < t.websites.len() && (#[trigger] t.websites[i]).active_instance_id is Some
            implies refers(t, t.websites[i].id, t.websites[i].active_instance_id->0) by {
            let si = if i < wi { i } else { i + 1 };
            assert(refers(s, s.websites[si].id, s.websites[si].active_instance_id->0));
            assert(s.websites[si].id != s.websites[wi].id);
        }
        assert forall|i: int| 0 <= i < t.websites.len() && (#[trigger] t.websites[i]).active_instance_id is None
            implies t.websites[i].root_instance_ids.len() == 0 by {
            let si = if i < wi { i } else { i + 1 };
            assert(s.websites[si].active_instance_id is None);
        }
        if t.active_website_id is Some {
            if s.active_website_id == Some(website_id) {
                assert(t.websites[0].id == t.active_website_id->0);
            }
        }
    }
}

/// Every descendant of `id` is on `id`'s website.
proof fn lemma_descendants_share_website(s: AppStateView, id: u128, x: u128, k: nat)
    requires
        well_formed(s),
        s.instances.contains_key(x),
        ancestor_at(s.instances, x, k) == Some(id),
    ensures
        s.instances.contains_key(id),
        s.instances[x].website_id == s.instances[id].website_id,
    decreases k,
{
    if k > 0 {
        lemma_ancestor_first_step(s.instances, x, k);
        let p = parent_in(s.instances, x)->0;
        assert(s.instances.contains_key(p));
        lemma_descendants_share_website(s, id, p, (k - 1) as nat);
    }
}

/// A child of a descendant of `id` is a descendant of `id`.
proof fn lemma_child_descends(s: AppStateView, id: u128, p: u128, x: u128)
    requires
        descends_from(s.instances, p, id),
        s.instances.contains_key(x),
        parent_in(s.instances, x) == Some(p),
    ensures
        descends_from(s.instances, x, id),
{
    let k = choose|k: nat| #[trigger] ancestor_at(s.instances, p, k) == Some(id);
    crate::lineage::lemma_ancestor_shift(s.instances, x, p, k);
    assert(ancestor_at(s.instances, x, k + 1) == Some(id));
}

/// Removing an instance with its descendants keeps the state well formed.
pub proof fn lemma_remove_instance_keeps_well_formed(s: AppStateView, id: u128)
    requires
        well_formed(s),
    ensures
        well_formed(remove_instance_spec(s, id).0),
{
    if s.instances.contains_key(id) {
        let t = remove_instance_spec(s, id).0;
        crate::lineage::lemma_subtree_is_descendants(s.instances, id);
        let d = descendants(s.instances, id);
        let wid = s.instances[id].website_id;
        let wi = website_index(s, wid);
        lemma_first_index(s.websites, has_id(wid));
        assert(website_ids(s.websites).contains(wid));
        assert(wi >= 0) by {
            if wi < 0 {
                let j = choose|j: int| 0 <= j < s.websites.len() && #[trigger] s.websites[j].id == wid;
                assert(!has_id(wid)(s.websites[j]));
            }
        }
        assert(s.websites[wi].id == wid);
        assert forall|x: u128| d.contains(x) implies s.instances[x].website_id == wid by {
            let k = choose|k: nat| #[trigger] ancestor_at(s.instances, x, k) == Some(id);
            lemma_descendants_share_website(s, id, x, k);
        }
        assert forall|x: u128| website_ids(s.websites).contains(x) implies website_ids(t.websites).contains(x) by {
            let j = choose|j: int| 0 <= j < s.websites.len() && #[trigger] s.websites[j].id == x;
            assert(t.websites[j].id == x);
        }
        assert forall|k: u128| t.instances.contains_key(k) && (#[trigger] parent_in(t.instances, k)) is Some
            implies t.instances.contains_key(parent_in(t.instances, k)->0) && t.instances[parent_in(t.instances, k)->0].website_id == t.instances[k].website_id by {
            let p = parent_in(s.instances, k)->0;
            assert(parent_in(s.instances, k) == parent_in(t.instances, k));
            if d.contains(p) {
                lemma_child_descends(s, id, p, k);
            }
        }
        let ow = s.websites[wi];
        let keep = |x: u128| !d.contains(x);
        let roots = ow.root_instance_ids.filter(keep);
        assert forall|j: int| 0 <= j < roots.len() implies refers(t, wid, #[trigger] roots[j]) by {
            ow.root_instance_ids.lemma_filter_pred(keep, j);
            assert(roots.contains(roots[j]));
            ow.root_instance_ids.lemma_filter_contains_rev(keep, roots[j]);
            let q = choose|q: int| 0 <= q < ow.root_instance_ids.len() && ow.root_instance_ids[q] == roots[j];
            assert(refers(s, s.websites[wi].id, s.websites[wi].root_instance_ids[q]));
        }
        assert forall|i: int, j: int| 0 <= i < t.websites.len() && 0 <= j < t.websites[i].root_instance_ids.len()
            implies refers(t, t.websites[i].id, #[trigger] t.websites[i].root_instance_ids[j]) by {
            if i != wi {
                assert(refers(s, s.websites[i].id, s.websites[i].root_instance_ids[j]));
                assert(s.websites[i].id != wid);
            }
        }
        assert forall|i: int| 0 <= i < t.websites.len() && (#[trigger] t.websites[i]).active_instance_id is Some
            implies refers(t, t.websites[i].id, t.websites[i].active_instance_id->0) by {
            if i != wi {
                assert(refers(s, s.websites[i].id, s.websites[i].active_instance_id->0));
                assert(s.websites[i].id != wid);
            } else {
                assert(refers(s, s.websites[i].id, s.websites[i].active_instance_id->0));
                if d.contains(ow.active_instance_id->0) {
                    assert(refers(t, wid, roots[0]));
                }
            }
        }
        assert forall|i: int| 0 <= i < t.websites.len() && (#[trigger] t.websites[i]).active_instance_id is None
            implies t.websites[i].root_instance_ids.len() == 0 by {
            if i == wi && ow.active_instance_id is None {
                assert(ow.root_instance_ids.len() == 0);
                ow.root_instance_ids.lemma_filter_len(keep);
            }
        }
    }
}

/// Filtering a sequence by a predicate all its elements satisfy keeps it.
proof fn lemma_filter_keeps_all<A>(s: Seq<A>, p: spec_fn(A) -> bool)
    requires
        forall|i: int| 0 <= i < s.len() ==> p(#[trigger] s[i]),
    ensures
        s.filter(p) == s,
    decreases s.len(),
{
    reveal(Seq::filter);
    if s.len() > 0 {
        lemma_filter_keeps_all(s.drop_last(), p);
        assert(s.drop_last().push(s.last()) =~= s);
    }
}

/// `total_repairs` is zero when no website needs repair.
proof fn lemma_no_repairs(ws: Seq<WebsiteView>, m: Map<u128, InstanceView>)
    requires
        forall|i: int| 0 <= i < ws.len() ==> repairs(#[trigger] ws[i], m) == 0,
    ensures
        total_repairs(ws, m) == 0,
    decreases ws.len(),
{
    if ws.len() > 0 {
        lemma_no_repairs(ws.drop_last(), m);
        assert(repairs(ws[ws.len() - 1], m) == 0);
    }
}

/// Sanitizing a clean state changes nothing and repairs nothing.
pub proof fn lemma_sanitize_clean_is_identity(s: AppStateView)
    requires
        clean(s),
    ensures
        sanitized(s) == (s, 0nat),
{
    let bad = selected(s.instances, junk());
    assert(bad =~= Set::<u128>::empty());
    let m1 = s.instances.remove_keys(bad);
    assert(m1 =~= s.instances);
    let dropped = unanchored(m1, s.websites);
    assert forall|x: u128| m1.contains_key(x) implies #[trigger] anchored(m1, s.websites, x) by {
        lemma_closed_part_is_anchored(m1, s.websites, m1, x);
    }
    assert(dropped =~= Set::<u128>::empty());
    let m2 = m1.remove_keys(dropped);
    assert(m2 =~= s.instances);
    assert forall|i: int| 0 <= i < s.websites.len() implies repaired(#[trigger] s.websites[i], m2) == s.websites[i]
        && repairs(s.websites[i], m2) == 0 by {
        let w = s.websites[i];
        let pred = |x: u128| m2.contains_key(x);
        assert forall|j: int| 0 <= j < w.root_instance_ids.len() implies pred(#[trigger] w.root_instance_ids[j]) by {
            assert(s.instances.contains_key(s.websites[i].root_instance_ids[j]));
        }
        lemma_filter_keeps_all(w.root_instance_ids, pred);
        assert(repaired(w, m2) =~= w);
    }
    assert(s.websites.map_values(|w: WebsiteView| repaired(w, m2)) =~= s.websites);
    lemma_no_repairs(s.websites, m2);
}

/// A well-formed state is clean, so sanitizing it changes nothing and
/// repairs nothing.
pub proof fn lemma_sanitize_well_formed_is_identity(s: AppStateView)
    requires
        well_formed(s),
    ensures
        clean(s),
        sanitized(s) == (s, 0nat),
{
    assert forall|k: u128| #[trigger] s.instances.contains_key(k) implies (s.instances[k].parent_instance_id matches Some(
        p,
    ) ==> s.instances.contains_key(p)) by {
        if s.instances[k].parent_instance_id is Some {
            assert(parent_in(s.instances, k) is Some);
        }
    }
    assert forall|i: int, j: int| 0 <= i < s.websites.len() && 0 <= j < s.websites[i].root_instance_ids.len()
        implies s.instances.contains_key(#[trigger] s.websites[i].root_instance_ids[j]) by {
        assert(refers(s, s.websites[i].id, s.websites[i].root_instance_ids[j]));
    }
    assert forall|i: int| 0 <= i < s.websites.len() implies match (#[trigger] s.websites[i]).active_instance_id {
        Some(a) => s.instances.contains_key(a),
        None => s.websites[i].root_instance_ids.len() == 0,
    } by {
        if s.websites[i].active_instance_id is Some {
            assert(refers(s, s.websites[i].id, s.websites[i].active_instance_id->0));
        }
    }
    lemma_sanitize_clean_is_identity(s);
}

/// Sanitizing twice is sanitizing once: the second call changes nothing and
/// repairs nothing.
pub proof fn lemma_sanitize_is_idempotent(s: AppStateView)
    ensures
        sanitized(sanitized(s).0) == (sanitized(s).0, 0nat),
{
    lemma_sanitized_is_clean(s);
    lemma_sanitize_clean_is_identity(sanitized(s).0);
}

/// Adding two URLs of one registered domain (equal ignoring ASCII case):
/// the second call finds the website the first one returned and changes
/// nothing.
pub proof fn lemma_add_website_same_domain_twice(
    s: AppStateView,
    a: Seq<char>,
    b: Seq<char>,
    now1: i64,
    id1: u128,
    now2: i64,
    id2: u128,
)
    requires
        normalized(a) is Ok,
        normalized(b) is Ok,
        eq_ignore_ascii_case(normalized(a)->Ok_0.1, normalized(b)->Ok_0.1),
    ensures
        ({
            let (s1, r1) = add_website_spec(s, a, now1, id1);
            add_website_spec(s1, b, now2, id2) == (s1, r1)
        }),
{
    let (s1, r1) = add_website_spec(s, a, now1, id1);
    let d = normalized(a)->Ok_0.1;
    let d2 = normalized(b)->Ok_0.1;
    assert(root_matches(d) =~= root_matches(d2)) by {
        assert forall|w: WebsiteView| #[trigger] root_matches(d)(w) == root_matches(d2)(w) by {
            lemma_eq_ignore_ascii_case_equiv(w.url_root, d, d2);
            lemma_eq_ignore_ascii_case_equiv(w.url_root, d2, d);
            lemma_eq_ignore_ascii_case_equiv(d, d2, d2);
        }
    }
    let i = first_index(s.websites, root_matches(d));
    lemma_first_index(s.websites, root_matches(d));
    if i < 0 {
        let n = s.websites.len() as int;
        assert(root_matches(d)(s1.websites[n])) by {
            assert(s1.websites[n].url_root == d);
            lemma_eq_ignore_ascii_case_equiv(d, d, d);
        }
        assert forall|j: int| 0 <= j < n implies !root_matches(d)(#[trigger] s1.websites[j]) by {
            assert(s1.websites[j] == s.websites[j]);
        }
        lemma_first_index_is(s1.websites, root_matches(d), n);
    }
}

/// Removing a website leaves no instance of it, forks included, and keeps
/// every instance of the other websites.
pub proof fn lemma_remove_website_drops_exactly_its_instances(s: AppStateView, website_id: u128)
    requires
        remove_website_spec(s, website_id).1 is Ok,
        keyed_by_id(s.instances),
    ensures
        ({
            let s1 = remove_website_spec(s, website_id).0;
            &&& forall|k: u128| #[trigger] s1.instances.contains_key(k) ==> s1.instances[k].website_id != website_id
            &&& forall|k: u128| #[trigger] s.instances.contains_key(k) && s.instances[k].website_id != website_id
                ==> s1.instances.contains_key(k) && s1.instances[k] == s.instances[k]
        }),
{
    lemma_recorded_are_keys(s.instances, instances_of(s.instances, website_id));
}

/// Removing an instance removes, as keys, its id and every id reached from
/// it through the ids its children record, and nothing else: every other
/// instance is untouched. When instances are stored under their ids, what
/// is left holds none of its descendants.
pub proof fn lemma_remove_instance_drops_exactly_its_subtree(s: AppStateView, id: u128)
    requires
        remove_instance_spec(s, id).1 is Ok,
    ensures
        ({
            let s1 = remove_instance_spec(s, id).0;
            let d = crate::lineage::id_subtree(s.instances, id);
            &&& !s1.instances.contains_key(id)
            &&& forall|k: u128| #[trigger] s1.instances.contains_key(k) ==> !d.contains(k)
            &&& forall|k: u128| #[trigger] s.instances.contains_key(k) && !d.contains(k)
                ==> s1.instances.contains_key(k) && s1.instances[k] == s.instances[k]
            &&& keyed_by_id(s.instances) ==> forall|k: u128| #[trigger] s1.instances.contains_key(k)
                ==> !descends_from(s.instances, k, id)
        }),
{
    assert(crate::lineage::reaches(s.instances, id, id, 0));
    if keyed_by_id(s.instances) {
        crate::lineage::lemma_subtree_is_descendants(s.instances, id);
    }
}

/// Activating an instance makes its website the active one and the
/// instance that website's active instance.
pub proof fn lemma_set_active_instance_activates(s: AppStateView, id: u128)
    requires
        set_active_instance_spec(s, id).1 is Ok,
    ensures
        ({
            let (s1, r) = set_active_instance_spec(s, id);
            let wid = s.instances[id].website_id;
            &&& r == Ok::<u128, OpErrorView>(wid)
            &&& s1.active_website_id == Some(wid)
            &&& website_index(s, wid) >= 0 ==> s1.websites[website_index(s, wid)].active_instance_id == Some(id)
            &&& s1.instances == s.instances
        }),
{
    lemma_first_index(s.websites, has_id(s.instances[id].website_id));
}

/// A new instance is a root of its website, starts at the website's root
/// URL, and becomes the active instance when the website had none.
pub proof fn lemma_add_instance_makes_a_root(
    s: AppStateView,
    website_id: u128,
    name: Option<Seq<char>>,
    icon: Option<Seq<char>>,
    now_ms: i64,
    id: u128,
)
    requires
        add_instance_spec(s, website_id, name, icon, now_ms, id).1 is Ok,
    ensures
        ({
            let (s1, r) = add_instance_spec(s, website_id, name, icon, now_ms, id);
            let wi = website_index(s, website_id);
            let inst = r->Ok_0;
            &&& inst.id == id && inst.parent_instance_id is None && inst.website_id == website_id
            &&& inst.current_url == starting_url(s.websites[wi].url_root)
            &&& s1.instances.contains_key(id) && s1.instances[id] == inst
            &&& s1.websites[wi].root_instance_ids == s.websites[wi].root_instance_ids.push(id)
            &&& s1.websites[wi].active_instance_id == match s.websites[wi].active_instance_id {
                Some(a) => Some(a),
                None => Some(id),
            }
        }),
{
    lemma_first_index(s.websites, has_id(website_id));
}

/// A fork is a child of its parent on the parent's website and does not
/// become a root: the websites are untouched.
pub proof fn lemma_fork_makes_a_child(s: AppStateView, parent_id: u128, target: Seq<char>, now_ms: i64, id: u128)
    requires
        fork_instance_spec(s, parent_id, target, now_ms, id).1 is Ok,
    ensures
        ({
            let (s1, r) = fork_instance_spec(s, parent_id, target, now_ms, id);
            let inst = r->Ok_0;
            &&& inst.parent_instance_id == Some(parent_id)
            &&& inst.website_id == s.instances[parent_id].website_id
            &&& inst.current_url == target
            &&& s1.instances[id] == inst
            &&& s1.websites == s.websites
            &&& s1.active_website_id == s.active_website_id
        }),
{
}

/// A sanitized state keeps its websites, in order, holds only instances
/// that can be spawned and whose website exists, and its active website,
/// if any, exists.
pub proof fn lemma_sanitize_cleans(s: AppStateView)
    ensures
        ({
            let s1 = sanitized(s).0;
            &&& s1.websites.len() == s.websites.len()
            &&& forall|j: int| 0 <= j < s.websites.len() ==> (#[trigger] s1.websites[j]).id == s.websites[j].id
            &&& forall|k: u128| #[trigger] s1.instances.contains_key(k) ==> usable_url(s1.instances[k].current_url)
                && website_ids(s1.websites).contains(s1.instances[k].website_id)
            &&& s1.active_website_id matches Some(a) ==> website_ids(s1.websites).contains(a)
        }),
{
    lemma_sanitized_is_clean(s);
}

/// In a well-formed state no instance names a missing instance, such as a
/// fresh id, as its parent.
proof fn lemma_no_parent_is_missing(s: AppStateView, id: u128)
    requires
        well_formed(s),
        !s.instances.contains_key(id),
    ensures
        forall|k: u128| #[trigger] s.instances.contains_key(k) ==> s.instances[k].parent_instance_id != Some(id),
{
    assert forall|k: u128| #[trigger] s.instances.contains_key(k) implies s.instances[k].parent_instance_id != Some(id) by {
        if s.instances[k].parent_instance_id == Some(id) {
            assert(parent_in(s.instances, k) == Some(id));
        }
    }
}

/// Replacing instances by ones with the same parent links keeps the parent
/// links free of cycles.
proof fn lemma_edit_keeps_acyclic(s: AppStateView, id: u128, inst: InstanceView)
    requires
        acyclic(s.instances),
        s.instances.contains_key(id),
        inst.parent_instance_id == s.instances[id].parent_instance_id,
    ensures
        acyclic(s.instances.insert(id, inst)),
{
    assert(parents_kept(s.instances.insert(id, inst), s.instances));
    lemma_acyclic_kept(s.instances.insert(id, inst), s.instances);
}

/// No state operation creates a cycle of parent links: starting from a
/// well-formed state without one, with fresh ids for new websites and
/// instances, each operation's result has none either.
pub proof fn lemma_operations_keep_acyclic(
    s: AppStateView,
    input: Seq<char>,
    text: Seq<char>,
    opt: Option<Seq<char>>,
    name: Option<Seq<char>>,
    now_ms: i64,
    id: u128,
    fresh: u128,
)
    requires
        well_formed(s),
        acyclic(s.instances),
        !s.instances.contains_key(fresh),
    ensures
        acyclic(add_website_spec(s, input, now_ms, fresh).0.instances),
        acyclic(add_instance_spec(s, id, name, opt, now_ms, fresh).0.instances),
        acyclic(fork_instance_spec(s, id, text, now_ms, fresh).0.instances),
        acyclic(set_instance_icon_spec(s, id, opt).0.instances),
        acyclic(rename_instance_spec(s, id, text).0.instances),
        acyclic(update_instance_url_spec(s, id, text).instances),
        acyclic(update_instance_title_spec(s, id, text).instances),
        acyclic(set_active_website_spec(s, id).0.instances),
        acyclic(set_active_instance_spec(s, id).0.instances),
        acyclic(remove_website_spec(s, id).0.instances),
        acyclic(remove_instance_spec(s, id).0.instances),
        acyclic(sanitized(s).0.instances),
{
    let m = s.instances;
    lemma_no_parent_is_missing(s, fresh);
    let t = add_instance_spec(s, id, name, opt, now_ms, fresh);
    if t.1 is Ok {
        lemma_acyclic_insert(m, fresh, t.1->Ok_0);
    }
    let t = fork_instance_spec(s, id, text, now_ms, fresh);
    if t.1 is Ok {
        lemma_acyclic_insert(m, fresh, t.1->Ok_0);
    }
    if m.contains_key(id) {
        lemma_edit_keeps_acyclic(s, id, set_instance_icon_spec(s, id, opt).0.instances[id]);
        if rename_instance_spec(s, id, text).1 is Ok {
            lemma_edit_keeps_acyclic(s, id, rename_instance_spec(s, id, text).0.instances[id]);
        }
        lemma_edit_keeps_acyclic(s, id, update_instance_url_spec(s, id, text).instances[id]);
        lemma_edit_keeps_acyclic(s, id, update_instance_title_spec(s, id, text).instances[id]);
    }
    let r1 = remove_website_spec(s, id).0.instances;
    assert(parents_kept(r1, m));
    lemma_acyclic_kept(r1, m);
    let r2 = remove_instance_spec(s, id).0.instances;
    assert(parents_kept(r2, m));
    lemma_acyclic_kept(r2, m);
    let r3 = sanitized(s).0.instances;
    assert(parents_kept(r3, m));
    lemma_acyclic_kept(r3, m);
}

/// In a well-formed state without a cycle of parent links no instance lies
/// on a cycle, and the walk down from any website's roots ends, as
/// projecting a website's tree asks.
pub proof fn lemma_acyclic_state_meets_requirements(s: AppStateView, id: u128, website_id: u128)
    requires
        well_formed(s),
        acyclic(s.instances),
        s.instances.dom().finite(),
    ensures
        !on_cycle(s.instances, id),
        website_index(s, website_id) >= 0 ==> finite_descent(
            s.instances,
            website_id,
            s.websites[website_index(s, website_id)].root_instance_ids,
        ),
{
    if on_cycle(s.instances, id) && !s.instances.contains_key(id) {
        let k = choose|k: nat| k > 0 && #[trigger] ancestor_at(s.instances, id, k) == Some(id);
        lemma_ancestor_first_step(s.instances, id, k);
    }
    let wi = website_index(s, website_id);
    if wi >= 0 {
        lemma_first_index(s.websites, has_id(website_id));
        lemma_acyclic_descent_is_finite(s.instances, website_id, s.websites[wi].root_instance_ids);
    }
}

/// After adding an instance and activating it, its website is the active
/// one and shows the new instance.
pub proof fn lemma_added_instance_is_shown(
    s: AppStateView,
    website_id: u128,
    name: Option<Seq<char>>,
    icon: Option<Seq<char>>,
    now_ms: i64,
    r: Result<Instance, OpError>,
)
    requires
        r is Ok,
        add_instance_spec(s, website_id, name, icon, now_ms, r->Ok_0.id).1 == Ok::<InstanceView, OpErrorView>(r->Ok_0@),
    ensures
        ({
            let s2 = activated(add_instance_spec(s, website_id, name, icon, now_ms, r->Ok_0.id).0, r);
            &&& s2.active_website_id == Some(website_id)
            &&& active_instance_of(s2, website_id) == Some(r->Ok_0@)
        }),
{
    let id = r->Ok_0.id;
    let s1 = add_instance_spec(s, website_id, name, icon, now_ms, id).0;
    let wi = website_index(s, website_id);
    lemma_first_index(s.websites, has_id(website_id));
    assert forall|j: int| 0 <= j < wi implies !has_id(website_id)(#[trigger] s1.websites[j]) by {
        assert(s1.websites[j] == s.websites[j]);
    }
    lemma_first_index_is(s1.websites, has_id(website_id), wi);
    let s2 = set_active_instance_spec(s1, id).0;
    assert forall|j: int| 0 <= j < wi implies !has_id(website_id)(#[trigger] s2.websites[j]) by {
        assert(s2.websites[j] == s1.websites[j]);
    }
    lemma_first_index_is(s2.websites, has_id(website_id), wi);
}

/// After forking an instance and activating it, the parent's website is
/// the active one and shows the fork, when that website exists.
pub proof fn lemma_forked_instance_is_shown(
    s: AppStateView,
    parent_id: u128,
    target: Seq<char>,
    now_ms: i64,
    r: Result<Instance, OpError>,
)
    requires
        r is Ok,
        fork_instance_spec(s, parent_id, target, now_ms, r->Ok_0.id).1 == Ok::<InstanceView, OpErrorView>(r->Ok_0@),
        website_index(s, s.instances[parent_id].website_id) >= 0,
    ensures
        ({
            let wid = s.instances[parent_id].website_id;
            let s2 = activated(fork_instance_spec(s, parent_id, target, now_ms, r->Ok_0.id).0, r);
            &&& s2.active_website_id == Some(wid)
            &&& active_instance_of(s2, wid) == Some(r->Ok_0@)
        }),
{
    let id = r->Ok_0.id;
    let wid = s.instances[parent_id].website_id;
    let s1 = fork_instance_spec(s, parent_id, target, now_ms, id).0;
    let wi = website_index(s, wid);
    lemma_first_index(s.websites, has_id(wid));
    let s2 = set_active_instance_spec(s1, id).0;
    assert forall|j: int| 0 <= j < wi implies !has_id(wid)(#[trigger] s2.websites[j]) by {
        assert(s2.websites[j] == s.websites[j]);
    }
    lemma_first_index_is(s2.websites, has_id(wid), wi);
}

/// When instances are stored under their ids, the ids recorded under a
/// set of present keys are those keys.
proof fn lemma_recorded_are_keys(m: Map<u128, InstanceView>, ks: Set<u128>)
    requires
        forall|k: u128| #[trigger] m.contains_key(k) ==> m[k].id == k,
        ks <= m.dom(),
    ensures
        recorded_ids(m, ks) == ks,
{
    assert forall|c: u128| recorded_ids(m, ks).contains(c) <==> ks.contains(c) by {
        if ks.contains(c) {
            assert(m[c].id == c);
        }
    }
    assert(recorded_ids(m, ks) =~= ks);
}

/// Every instance is stored under its own id.
pub open spec fn keyed_by_id(m: Map<u128, InstanceView>) -> bool {
    forall|k: u128| #[trigger] m.contains_key(k) ==> m[k].id == k
}

/// Every operation keeps each instance stored under its own id, given a
/// fresh id for a new instance.
pub proof fn lemma_operations_keep_keys(
    s: AppStateView,
    input: Seq<char>,
    text: Seq<char>,
    opt: Option<Seq<char>>,
    name: Option<Seq<char>>,
    now_ms: i64,
    id: u128,
    fresh: u128,
)
    ensures
        keyed_by_id(s.instances) ==> {
            &&& keyed_by_id(sanitized(s).0.instances)
            &&& keyed_by_id(add_website_spec(s, input, now_ms, fresh).0.instances)
            &&& keyed_by_id(add_instance_spec(s, id, name, opt, now_ms, fresh).0.instances)
            &&& keyed_by_id(fork_instance_spec(s, id, text, now_ms, fresh).0.instances)
            &&& keyed_by_id(set_instance_icon_spec(s, id, opt).0.instances)
            &&& keyed_by_id(rename_instance_spec(s, id, text).0.instances)
            &&& keyed_by_id(update_instance_url_spec(s, id, text).instances)
            &&& keyed_by_id(update_instance_title_spec(s, id, text).instances)
            &&& keyed_by_id(set_active_website_spec(s, id).0.instances)
            &&& keyed_by_id(set_active_instance_spec(s, id).0.instances)
            &&& keyed_by_id(remove_website_spec(s, id).0.instances)
            &&& keyed_by_id(remove_instance_spec(s, id).0.instances)
        },
{
}

/// Renaming succeeds for every present instance and every name that is not
/// blank, storing the trimmed name and changing nothing else; only a name
/// that is blank once trimmed is refused as empty.
pub proof fn lemma_rename_stores_trimmed_name(s: AppStateView, id: u128, name: Seq<char>)
    ensures
        trimmed(name).len() > 0 && s.instances.contains_key(id) ==> ({
            let (s1, r) = rename_instance_spec(s, id, name);
            &&& r == Ok::<InstanceView, OpErrorView>(InstanceView { user_name: Some(trimmed(name)), ..s.instances[id] })
            &&& s1.instances == s.instances.insert(id, r->Ok_0)
            &&& s1.websites == s.websites
            &&& s1.active_website_id == s.active_website_id
        }),
        rename_instance_spec(s, id, name).1 == Err::<InstanceView, OpErrorView>(OpErrorView::EmptyName) <==> trimmed(name).len()
            == 0,
        rename_instance_spec(s, id, name).1 is Err ==> rename_instance_spec(s, id, name).0 == s,
{
}

/// Removing an instance leaves the active website alone, and leaves each
/// website's active instance alone unless that instance is among the
/// removed ids.
pub proof fn lemma_remove_instance_keeps_unrelated_active(s: AppStateView, id: u128)
    requires
        remove_instance_spec(s, id).1 is Ok,
    ensures
        ({
            let (s1, r) = remove_instance_spec(s, id);
            let d = r->Ok_0;
            &&& s1.active_website_id == s.active_website_id
            &&& s1.websites.len() == s.websites.len()
            &&& forall|i: int| 0 <= i < s.websites.len() ==> (s.websites[i].active_instance_id matches Some(a) ==> (!d.contains(
                a,
            ) ==> (#[trigger] s1.websites[i]).active_instance_id == Some(a)))
        }),
{
    lemma_first_index(s.websites, has_id(s.instances[id].website_id));
}

/// Removing a website that is not the active one leaves the active website
/// as it was; removing the active one makes the first remaining website
/// active.
pub proof fn lemma_remove_website_keeps_other_active(s: AppStateView, website_id: u128)
    requires
        remove_website_spec(s, website_id).1 is Ok,
    ensures
        ({
            let s1 = remove_website_spec(s, website_id).0;
            &&& s.active_website_id != Some(website_id) ==> s1.active_website_id == s.active_website_id
            &&& s.active_website_id == Some(website_id) ==> s1.active_website_id == (if s1.websites.len() > 0 {
                Some(s1.websites[0].id)
            } else {
                None
            })
            &&& s1.websites.len() + 1 == s.websites.len()
        }),
{
    lemma_first_index(s.websites, has_id(website_id));
}

} // verus!
