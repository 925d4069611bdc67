//! The state side of the commands that make an instance the visible one:
//! which state they leave behind and which instance is to be shown.

use vstd::prelude::*;

use crate::commands::state_ops::{
    add_instance, add_instance_spec, find_website, fork_instance, fork_instance_spec, instance_id_of,
    res_view, set_active_instance, set_active_instance_spec, set_active_website, set_active_website_spec,
    website_index,
};
use crate::commands::OpError;
use crate::model::{AppState, AppStateView, Instance, InstanceView};
use crate::text::opt_view;

verus! {

broadcast use vstd::std_specs::hash::group_hash_axioms;

/// The state after a successful creation of `inst`: `s1` with `inst`
/// made active.
pub open spec fn activated(s1: AppStateView, r: Result<Instance, OpError>) -> AppStateView {
    match r {
        Ok(i) => set_active_instance_spec(s1, i.id).0,
        Err(_) => s1,
    }
}

/// Add a root instance and make it the active one, so that a new tab
/// focuses itself.
pub fn add_instance_and_activate(
    state: &mut AppState,
    website_id: u128,
    name: Option<String>,
    icon: Option<String>,
    now_ms: i64,
) -> (r: Result<Instance, OpError>)
    ensures
        ({
            let (s1, r1) = add_instance_spec(old(state)@, website_id, opt_view(name), opt_view(icon), now_ms, instance_id_of(r));
            &&& res_view(r) == r1
            &&& final(state)@ == activated(s1, r)
        }),
{
    let inst = add_instance(state, website_id, name, icon, now_ms)?;
    let _ = set_active_instance(state, inst.id);
    Ok(inst)
}

/// Fork a child instance for a cross-site navigation and make it the
/// active one, so that the user lands on what they clicked.
pub fn fork_and_activate(state: &mut AppState, parent_id: u128, target_url: &str, now_ms: i64) -> (r: Result<
    Instance,
    OpError,
>)
    ensures
        ({
            let (s1, r1) = fork_instance_spec(old(state)@, parent_id, target_url@, now_ms, instance_id_of(r));
            &&& res_view(r) == r1
            &&& final(state)@ == activated(s1, r)
        }),
{
    let inst = fork_instance(state, parent_id, target_url, now_ms)?;
    let _ = set_active_instance(state, inst.id);
    Ok(inst)
}

/// The active instance of website `wid` in `s`, when both exist.
pub open spec fn active_instance_of(s: AppStateView, wid: u128) -> Option<InstanceView> {
    let wi = website_index(s, wid);
    if wi >= 0 {
        match s.websites[wi].active_instance_id {
            Some(a) => if s.instances.contains_key(a) {
                Some(s.instances[a])
            } else {
                None
            },
            None => None,
        }
    } else {
        None
    }
}

/// The view of an optional instance.
pub open spec fn opt_instance_view(o: Option<Instance>) -> Option<InstanceView> {
    match o {
        Some(i) => Some(i@),
        None => None,
    }
}

/// Make website `id` the active one and return the instance to show: the
/// website's active instance, if it has one (none means an empty tab).
pub fn activate_website_target(state: &mut AppState, id: u128) -> (r: Result<Option<Instance>, OpError>)
    ensures
        final(state)@ == set_active_website_spec(old(state)@, id).0,
        match r {
            Ok(o) => set_active_website_spec(old(state)@, id).1 is Ok && opt_instance_view(o) == active_instance_of(
                final(state)@,
                id,
            ),
            Err(e) => set_active_website_spec(old(state)@, id).1 == Err::<(), _>(e@),
        },
{
    set_active_website(state, id)?;
    let wi = match find_website(&state.websites, id) {
        Some(i) => i,
        None => {
            return Ok(None);
        },
    };
    proof {
        assert(state.websites@[wi as int]@ == state@.websites[wi as int]);
    }
    match state.websites[wi].active_instance_id {
        Some(a) => match state.instances.get(&a) {
            Some(inst) => Ok(Some(inst.clone())),
            None => Ok(None),
        },
        None => Ok(None),
    }
}

/// Make instance `id` active (and its website), and return it to show.
pub fn activate_instance_target(state: &mut AppState, id: u128) -> (r: Result<Instance, OpError>)
    ensures
        final(state)@ == set_active_instance_spec(old(state)@, id).0,
        match r {
            Ok(i) => set_active_instance_spec(old(state)@, id).1 is Ok && i@ == old(state)@.instances[id],
            Err(e) => set_active_instance_spec(old(state)@, id).1 == Err::<u128, _>(e@),
        },
{
    set_active_instance(state, id)?;
    match state.instances.get(&id) {
        Some(inst) => Ok(inst.clone()),
        None => Err(OpError::InstanceNotFound(id)),
    }
}

} // verus!
