//! A check, ahead of projecting a website's instance tree, that the walk
//! down from its roots comes to an end.

use std::collections::HashMap;

use vstd::prelude::*;

use crate::commands::state_ops::{find_website, vec_contains, website_index};
use crate::lineage::{acyclic, depth, lemma_depth, parent_in};
use crate::model::{
    child_of, enumerates, finite_descent, instance_ids, instances_view, links, ranked_by,
    AppState, Instance, InstanceView,
};

verus! {

broadcast use vstd::std_specs::hash::group_hash_axioms;

/// The ranks of a table as a function: the table's entry, 0 elsewhere.
pub open spec fn rank_of(t: Map<u128, u64>) -> spec_fn(u128) -> nat {
    |x: u128| if t.contains_key(x) { t[x] as nat } else { 0 }
}

/// Every child that website `wid` links below `p` has a rank in `t` below
/// `bound`.
pub open spec fn ready(m: Map<u128, InstanceView>, wid: u128, t: Map<u128, u64>, bound: int, p: u128) -> bool {
    forall|c: u128| #[trigger] links(m, wid, p, c) ==> t.contains_key(c) && t[c] < bound
}

/// Every ranked instance's children are ranked, lower.
pub open spec fn ranks_descend(m: Map<u128, InstanceView>, wid: u128, t: Map<u128, u64>) -> bool {
    forall|p: u128, c: u128| t.contains_key(p) && #[trigger] links(m, wid, p, c) ==> t.contains_key(c) && t[c] < t[p]
}

/// `reach` holds every child that website `wid` links below its members.
pub open spec fn closed_under_links(m: Map<u128, InstanceView>, wid: u128, reach: Seq<u128>) -> bool {
    forall|p: u128, c: u128| reach.contains(p) && #[trigger] links(m, wid, p, c) ==> reach.contains(c)
}

/// A sequence of distinct present instances is no longer than the map.
proof fn lemma_distinct_present_len(m: Map<u128, InstanceView>, s: Seq<u128>)
    requires
        m.dom().finite(),
        s.no_duplicates(),
        forall|x: u128| #[trigger] s.contains(x) ==> m.contains_key(x),
    ensures
        s.len() <= m.dom().len(),
        s.to_set().len() == s.len(),
{
    s.unique_seq_to_set();
    assert(s.to_set().subset_of(m.dom()));
    vstd::set_lib::lemma_len_subset(s.to_set(), m.dom());
}

/// What a sequence holds after a push, and that pushing a new element
/// keeps the elements distinct.
proof fn lemma_push_contains(s: Seq<u128>, v: u128)
    ensures
        forall|x: u128| #[trigger] s.push(v).contains(x) <==> s.contains(x) || x == v,
        s.no_duplicates() && !s.contains(v) ==> s.push(v).no_duplicates(),
{
    assert forall|x: u128| #[trigger] s.push(v).contains(x) <==> s.contains(x) || x == v by {
        if s.push(v).contains(x) && x != v {
            let q = choose|q: int| 0 <= q < s.push(v).len() && #[trigger] s.push(v)[q] == x;
            assert(s[q] == x);
        }
        if s.contains(x) {
            let q = choose|q: int| 0 <= q < s.len() && #[trigger] s[q] == x;
            assert(s.push(v)[q] == x);
        }
        if x == v {
            assert(s.push(v)[s.len() as int] == v);
        }
    }
    if s.no_duplicates() && !s.contains(v) {
        assert forall|i: int, j: int| 0 <= i < j < s.push(v).len() implies s.push(v)[i] != s.push(v)[j] by {
            if j == s.len() {
                assert(s.contains(s[i]));
            }
        }
    }
}

/// The first `t + 1` elements are the first `t` and the element at `t`.
proof fn lemma_take_next(s: Seq<u128>, t: int)
    requires
        0 <= t < s.len(),
    ensures
        s.take(t + 1) == s.take(t).push(s[t]),
        s.no_duplicates() ==> !s.take(t).contains(s[t]),
{
    assert(s.take(t + 1) =~= s.take(t).push(s[t]));
    if s.no_duplicates() && s.take(t).contains(s[t]) {
        let q = choose|q: int| 0 <= q < t && #[trigger] s.take(t)[q] == s[t];
        assert(s[q] == s[t]);
    }
}

/// Whether every child that website `wid` links below `p` has a rank
/// below `rp`.
fn children_ranked_below(
    m: &HashMap<u128, Instance>,
    all: &Vec<u128>,
    wid: u128,
    p: u128,
    rp: u64,
    ranks: &HashMap<u128, u64>,
) -> (r: bool)
    requires
        enumerates(all@, instances_view(m@)),
    ensures
        r == ready(instances_view(m@), wid, ranks@, rp as int, p),
{
    let ghost mv = instances_view(m@);
    let mut j: usize = 0;
    while j < all.len()
        invariant
            mv == instances_view(m@),
            enumerates(all@, mv),
            j <= all@.len(),
            forall|q: int|
                0 <= q < j && #[trigger] child_of(mv, wid, p)(all@[q]) && mv.contains_key(mv[all@[q]].id) ==> ranks@.contains_key(
                    mv[all@[q]].id,
                ) && ranks@[mv[all@[q]].id] < rp,
        decreases all@.len() - j,
    {
        let k = all[j];
        if let Some(inst) = m.get(&k) {
            let linked = match inst.parent_instance_id {
                Some(q) => q == p && inst.website_id == wid,
                None => false,
            };
            if linked && m.contains_key(&inst.id) {
                proof {
                    assert(child_of(mv, wid, p)(k) && mv[k].id == inst.id);
                    assert(links(mv, wid, p, inst.id));
                }
                match ranks.get(&inst.id) {
                    Some(rc) => {
                        if *rc >= rp {
                            return false;
                        }
                    },
                    None => {
                        return false;
                    },
                }
            }
        }
        j = j + 1;
    }
    proof {
        assert forall|c: u128| #[trigger] links(mv, wid, p, c) implies ranks@.contains_key(c) && ranks@[c] < rp by {
            let k = choose|k: u128| #[trigger] child_of(mv, wid, p)(k) && mv[k].id == c;
            assert(all@.to_set().contains(k));
            let q = choose|q: int| 0 <= q < all@.len() && #[trigger] all@[q] == k;
            assert(child_of(mv, wid, p)(all@[q]));
        }
    }
    true
}

/// The instances reachable from the present `roots` through the links of
/// website `wid`, each once. They lie in every set that holds the present
/// roots and every child of its members.
fn reachable_from(
    m: &HashMap<u128, Instance>,
    all: &Vec<u128>,
    wid: u128,
    roots: &Vec<u128>,
    Ghost(s): Ghost<Set<u128>>,
    Ghost(rank): Ghost<spec_fn(u128) -> nat>,
) -> (reach: Vec<u128>)
    requires
        enumerates(all@, instances_view(m@)),
    ensures
        reach@.no_duplicates(),
        forall|x: u128| #[trigger] reach@.contains(x) ==> instances_view(m@).contains_key(x),
        forall|i: int| 0 <= i < roots@.len() && instances_view(m@).contains_key(roots@[i]) ==> reach@.contains(#[trigger] roots@[i]),
        closed_under_links(instances_view(m@), wid, reach@),
        (ranked_by(instances_view(m@), wid, s, rank) && forall|i: int|
            0 <= i < roots@.len() && instances_view(m@).contains_key(roots@[i]) ==> s.contains(#[trigger] roots@[i]))
            ==> forall|x: u128| #[trigger] reach@.contains(x) ==> s.contains(x),
{
    let ghost mv = instances_view(m@);
    let ghost good = ranked_by(mv, wid, s, rank) && forall|i: int|
        0 <= i < roots@.len() && mv.contains_key(roots@[i]) ==> s.contains(#[trigger] roots@[i]);
    proof {
        assert(mv.dom() =~= m@.dom());
    }
    let n = all.len();
    let mut reach: Vec<u128> = Vec::new();
    let mut i: usize = 0;
    while i < roots.len()
        invariant
            mv == instances_view(m@),
            mv.dom() == m@.dom(),
            good == (ranked_by(mv, wid, s, rank) && forall|i: int|
                0 <= i < roots@.len() && mv.contains_key(roots@[i]) ==> s.contains(#[trigger] roots@[i])),
            i <= roots@.len(),
            reach@.no_duplicates(),
            forall|x: u128| #[trigger] reach@.contains(x) ==> mv.contains_key(x),
            good ==> forall|x: u128| #[trigger] reach@.contains(x) ==> s.contains(x),
            forall|j: int| 0 <= j < i && mv.contains_key(roots@[j]) ==> reach@.contains(#[trigger] roots@[j]),
        decreases roots@.len() - i,
    {
        let root = roots[i];
        let ghost before = reach@;
        if m.contains_key(&root) && !vec_contains(&reach, root) {
            reach.push(root);
            proof {
                lemma_push_contains(before, root);
                if good {
                    assert(s.contains(roots@[i as int]));
                }
            }
        }
        i = i + 1;
    }
    proof {
        all@.unique_seq_to_set();
    }
    let mut idx: usize = 0;
    while idx < reach.len() && idx < n
        invariant
            mv == instances_view(m@),
            mv.dom() == m@.dom(),
            enumerates(all@, mv),
            n == all@.len(),
            mv.dom().len() == n,
            good == (ranked_by(mv, wid, s, rank) && forall|i: int|
                0 <= i < roots@.len() && mv.contains_key(roots@[i]) ==> s.contains(#[trigger] roots@[i])),
            idx <= reach@.len(),
            reach@.no_duplicates(),
            forall|x: u128| #[trigger] reach@.contains(x) ==> mv.contains_key(x),
            good ==> forall|x: u128| #[trigger] reach@.contains(x) ==> s.contains(x),
            forall|j: int| 0 <= j < roots@.len() && mv.contains_key(roots@[j]) ==> reach@.contains(#[trigger] roots@[j]),
            forall|q: int, c: u128| 0 <= q < idx && #[trigger] links(mv, wid, reach@[q], c) ==> reach@.contains(c),
        decreases n - idx,
    {
        let p = reach[idx];
        let mut j: usize = 0;
        while j < all.len()
            invariant
                mv == instances_view(m@),
                mv.dom() == m@.dom(),
                enumerates(all@, mv),
                n == all@.len(),
                good == (ranked_by(mv, wid, s, rank) && forall|i: int|
                    0 <= i < roots@.len() && mv.contains_key(roots@[i]) ==> s.contains(#[trigger] roots@[i])),
                idx < reach@.len(),
                reach@[idx as int] == p,
                j <= all@.len(),
                reach@.no_duplicates(),
                forall|x: u128| #[trigger] reach@.contains(x) ==> mv.contains_key(x),
                good ==> forall|x: u128| #[trigger] reach@.contains(x) ==> s.contains(x),
                forall|j: int| 0 <= j < roots@.len() && mv.contains_key(roots@[j]) ==> reach@.contains(#[trigger] roots@[j]),
                forall|q: int, c: u128| 0 <= q < idx && #[trigger] links(mv, wid, reach@[q], c) ==> reach@.contains(c),
                forall|q: int|
                    0 <= q < j && #[trigger] child_of(mv, wid, p)(all@[q]) && mv.contains_key(mv[all@[q]].id)
                        ==> reach@.contains(mv[all@[q]].id),
            decreases all@.len() - j,
        {
            let k = all[j];
            let ghost before = reach@;
            if let Some(inst) = m.get(&k) {
                let linked = match inst.parent_instance_id {
                    Some(q) => q == p && inst.website_id == wid,
                    None => false,
                };
                if linked && m.contains_key(&inst.id) && !vec_contains(&reach, inst.id) {
                    reach.push(inst.id);
                    proof {
                        lemma_push_contains(before, inst.id);
                        assert(child_of(mv, wid, p)(k) && mv[k].id == inst.id);
                        assert(links(mv, wid, p, inst.id));
                        if good {
                            assert(before.contains(p));
                            assert(s.contains(p));
                        }
                        assert forall|q: int, c: u128| 0 <= q < idx && #[trigger] links(mv, wid, reach@[q], c) implies reach@.contains(c) by {
                            assert(reach@[q] == before[q]);
                            assert(before.contains(c));
                        }
                    }
                }
            }
            j = j + 1;
        }
        proof {
            assert forall|c: u128| #[trigger] links(mv, wid, p, c) implies reach@.contains(c) by {
                let k = choose|k: u128| #[trigger] child_of(mv, wid, p)(k) && mv[k].id == c;
                assert(all@.to_set().contains(k));
                let q = choose|q: int| 0 <= q < all@.len() && #[trigger] all@[q] == k;
                assert(child_of(mv, wid, p)(all@[q]));
            }
        }
        idx = idx + 1;
    }
    proof {
        lemma_distinct_present_len(mv, reach@);
        assert(idx == reach@.len());
        assert forall|p: u128, c: u128| reach@.contains(p) && #[trigger] links(mv, wid, p, c) implies reach@.contains(c) by {
            let q = choose|q: int| 0 <= q < reach@.len() && #[trigger] reach@[q] == p;
            assert(links(mv, wid, reach@[q], c));
        }
    }
    reach
}

/// Below an unranked member of a closed `reach`, there is an unranked
/// member whose children are all ranked below `bound`, when a rank that
/// falls along every link exists over `reach`.
proof fn lemma_some_ready(
    m: Map<u128, InstanceView>,
    wid: u128,
    reach: Seq<u128>,
    t: Map<u128, u64>,
    bound: int,
    s: Set<u128>,
    rank: spec_fn(u128) -> nat,
    x: u128,
)
    requires
        ranked_by(m, wid, s, rank),
        forall|y: u128| #[trigger] reach.contains(y) ==> s.contains(y),
        closed_under_links(m, wid, reach),
        forall|y: u128| #[trigger] t.contains_key(y) ==> t[y] < bound,
        reach.contains(x),
        !t.contains_key(x),
    ensures
        exists|y: u128| #[trigger] reach.contains(y) && !t.contains_key(y) && ready(m, wid, t, bound, y),
    decreases rank(x),
{
    if !ready(m, wid, t, bound, x) {
        let c = choose|c: u128| #[trigger] links(m, wid, x, c) && !(t.contains_key(c) && t[c] < bound);
        assert(reach.contains(c));
        assert(s.contains(x));
        assert(rank(c) < rank(x));
        lemma_some_ready(m, wid, reach, t, bound, s, rank, c);
    }
}

/// Ranks for the members of a closed `reach`, leaves first, each one above
/// its highest child: members on or above a cycle of links stay unranked.
/// Every member is ranked when a rank that falls along every link exists
/// over `reach`.
fn rank_reachable(
    m: &HashMap<u128, Instance>,
    all: &Vec<u128>,
    wid: u128,
    reach: &Vec<u128>,
    Ghost(s): Ghost<Set<u128>>,
    Ghost(rank): Ghost<spec_fn(u128) -> nat>,
) -> (ranks: HashMap<u128, u64>)
    requires
        enumerates(all@, instances_view(m@)),
        reach@.no_duplicates(),
        forall|x: u128| #[trigger] reach@.contains(x) ==> instances_view(m@).contains_key(x),
        closed_under_links(instances_view(m@), wid, reach@),
    ensures
        ranks_descend(instances_view(m@), wid, ranks@),
        (ranked_by(instances_view(m@), wid, s, rank) && forall|x: u128| #[trigger] reach@.contains(x) ==> s.contains(x))
            ==> forall|x: u128| #[trigger] reach@.contains(x) ==> ranks@.contains_key(x),
{
    let ghost mv = instances_view(m@);
    let ghost good = ranked_by(mv, wid, s, rank) && forall|x: u128| #[trigger] reach@.contains(x) ==> s.contains(x);
    proof {
        assert(mv.dom() =~= m@.dom());
        all@.unique_seq_to_set();
        lemma_distinct_present_len(mv, reach@);
    }
    let n = all.len();
    let mut ranks: HashMap<u128, u64> = HashMap::new();
    let mut round: usize = 0;
    let ghost mut done = false;
    proof {
        assert(ranks@.dom() =~= Set::<u128>::empty());
    }
    while round < n
        invariant
            mv == instances_view(m@),
            mv.dom() == m@.dom(),
            enumerates(all@, mv),
            n == all@.len(),
            mv.dom().len() == n,
            reach@.no_duplicates(),
            reach@.len() <= n,
            reach@.to_set().len() == reach@.len(),
            forall|x: u128| #[trigger] reach@.contains(x) ==> mv.contains_key(x),
            closed_under_links(mv, wid, reach@),
            good == (ranked_by(mv, wid, s, rank) && forall|x: u128| #[trigger] reach@.contains(x) ==> s.contains(x)),
            round <= n,
            ranks@.dom().finite(),
            forall|x: u128| #[trigger] ranks@.contains_key(x) ==> reach@.contains(x),
            forall|x: u128| #[trigger] ranks@.contains_key(x) ==> ranks@[x] < round,
            ranks_descend(mv, wid, ranks@),
            done ==> (good ==> forall|x: u128| #[trigger] reach@.contains(x) ==> ranks@.contains_key(x)),
            !done ==> ranks@.dom().len() >= round,
        decreases n - round,
    {
        let ghost before = ranks@;
        let mut batch: Vec<u128> = Vec::new();
        let mut t: usize = 0;
        while t < reach.len()
            invariant
                mv == instances_view(m@),
                enumerates(all@, mv),
                ranks@ == before,
                round < n,
                t <= reach@.len(),
                reach@.no_duplicates(),
                batch@.no_duplicates(),
                forall|b: u128| #[trigger] batch@.contains(b) ==> !before.contains_key(b) && ready(mv, wid, before, round as int, b),
                forall|b: u128| #[trigger] batch@.contains(b) ==> reach@.take(t as int).contains(b),
                forall|q: int| 0 <= q < t && !before.contains_key(#[trigger] reach@[q]) && ready(mv, wid, before, round as int, reach@[q])
                    ==> batch@.contains(reach@[q]),
            decreases reach@.len() - t,
        {
            let x = reach[t];
            let ghost old_batch = batch@;
            proof {
                lemma_take_next(reach@, t as int);
                lemma_push_contains(reach@.take(t as int), x);
            }
            if !ranks.contains_key(&x) && children_ranked_below(m, all, wid, x, round as u64, &ranks) {
                batch.push(x);
                proof {
                    lemma_push_contains(old_batch, x);
                }
            }
            t = t + 1;
        }
        if batch.len() == 0 {
            proof {
                if good {
                    assert forall|x: u128| #[trigger] reach@.contains(x) implies ranks@.contains_key(x) by {
                        if !ranks@.contains_key(x) {
                            lemma_some_ready(mv, wid, reach@, before, round as int, s, rank, x);
                            let y = choose|y: u128| #[trigger] reach@.contains(y) && !before.contains_key(y) && ready(mv, wid, before, round as int, y);
                            let q = choose|q: int| 0 <= q < reach@.len() && #[trigger] reach@[q] == y;
                            assert(batch@.contains(reach@[q]));
                            assert(false);
                        }
                    }
                }
                done = true;
            }
            round = n;
        } else {
            let mut b: usize = 0;
            while b < batch.len()
                invariant
                    round < n,
                    b <= batch@.len(),
                    batch@.no_duplicates(),
                    before.dom().finite(),
                    forall|y: u128| #[trigger] batch@.contains(y) ==> !before.contains_key(y),
                    forall|y: u128| #[trigger] ranks@.contains_key(y) <==> before.contains_key(y) || batch@.take(b as int).contains(y),
                    forall|y: u128| #[trigger] before.contains_key(y) ==> ranks@[y] == before[y],
                    forall|y: u128| #[trigger] batch@.take(b as int).contains(y) ==> ranks@[y] == round,
                    ranks@.dom().finite(),
                    ranks@.dom().len() == before.dom().len() + b,
                decreases batch@.len() - b,
            {
                let y = batch[b];
                let ghost old_ranks = ranks@;
                proof {
                    lemma_take_next(batch@, b as int);
                    lemma_push_contains(batch@.take(b as int), y);
                    assert(batch@.contains(y));
                    assert(!ranks@.contains_key(y));
                }
                ranks.insert(y, round as u64);
                proof {
                    assert(ranks@.dom() =~= old_ranks.dom().insert(y));
                }
                b = b + 1;
            }
            proof {
                assert(batch@.take(batch@.len() as int) =~= batch@);
                assert forall|p: u128, c: u128| ranks@.contains_key(p) && #[trigger] links(mv, wid, p, c) implies ranks@.contains_key(c)
                    && ranks@[c] < ranks@[p] by {
                    if before.contains_key(p) {
                        assert(before.contains_key(c) && before[c] < before[p]);
                    } else {
                        assert(batch@.contains(p));
                        assert(ready(mv, wid, before, round as int, p));
                        assert(before.contains_key(c) && before[c] < round);
                    }
                }
                assert forall|x: u128| #[trigger] ranks@.contains_key(x) implies reach@.contains(x) by {
                    if !before.contains_key(x) {
                        assert(batch@.contains(x));
                        assert(reach@.take(reach@.len() as int) =~= reach@);
                    }
                }
                assert(batch@.len() > 0);
            }
            round = round + 1;
        }
    }
    proof {
        if !done {
            assert(ranks@.dom().subset_of(reach@.to_set()));
            vstd::set_lib::lemma_len_subset(ranks@.dom(), reach@.to_set());
            vstd::set_lib::lemma_subset_equality(ranks@.dom(), reach@.to_set());
            assert forall|x: u128| #[trigger] reach@.contains(x) implies ranks@.contains_key(x) by {
                assert(reach@.to_set().contains(x));
            }
        }
    }
    ranks
}

/// Whether projecting the tree of website `website_id` comes to an end:
/// whether the walk down the links from the website's present roots is
/// finite (an unknown website has nothing to walk).
pub fn descent_is_finite(state: &AppState, website_id: u128) -> (r: bool)
    ensures
        r == ({
            let wi = website_index(state@, website_id);
            wi >= 0 ==> finite_descent(state@.instances, website_id, state@.websites[wi].root_instance_ids)
        }),
{
    let ghost mv = state@.instances;
    let wi = match find_website(&state.websites, website_id) {
        Some(i) => i,
        None => {
            return true;
        },
    };
    proof {
        assert(state.websites@[wi as int]@ == state@.websites[wi as int]);
        assert(mv.dom() =~= state.instances@.dom());
    }
    let m = &state.instances;
    let all = instance_ids(m);
    let roots = &state.websites[wi].root_instance_ids;
    let ghost roots_all = state@.websites[wi as int].root_instance_ids;
    let ghost fd = finite_descent(mv, website_id, roots_all);
    let ghost (s, rank) = choose|s: Set<u128>, rank: spec_fn(u128) -> nat|
        #![trigger ranked_by(mv, website_id, s, rank)]
        ranked_by(mv, website_id, s, rank) && forall|i: int|
            0 <= i < roots_all.len() && mv.contains_key(roots_all[i]) ==> s.contains(#[trigger] roots_all[i]);
    proof {
        assert(roots@ == roots_all);
    }
    let reach = reachable_from(m, &all, website_id, roots, Ghost(s), Ghost(rank));
    let ranks = rank_reachable(m, &all, website_id, &reach, Ghost(s), Ghost(rank));
    proof {
        if fd {
            assert(ranked_by(mv, website_id, s, rank));
            assert(forall|x: u128| #[trigger] reach@.contains(x) ==> s.contains(x));
        }
    }
    let mut i: usize = 0;
    while i < roots.len()
        invariant
            mv == instances_view(m@),
            mv == state@.instances,
            roots@ == roots_all,
            wi as int == website_index(state@, website_id),
            roots_all == state@.websites[wi as int].root_instance_ids,
            fd == finite_descent(mv, website_id, roots_all),
            i <= roots@.len(),
            fd ==> forall|x: u128| #[trigger] reach@.contains(x) ==> ranks@.contains_key(x),
            forall|j: int| 0 <= j < roots@.len() && mv.contains_key(roots@[j]) ==> reach@.contains(#[trigger] roots@[j]),
            forall|j: int| 0 <= j < i && mv.contains_key(roots@[j]) ==> ranks@.contains_key(#[trigger] roots@[j]),
        decreases roots@.len() - i,
    {
        if m.contains_key(&roots[i]) && !ranks.contains_key(&roots[i]) {
            proof {
                assert(reach@.contains(roots@[i as int]));
            }
            return false;
        }
        i = i + 1;
    }
    proof {
        let sr = ranks@.dom();
        let rk = rank_of(ranks@);
        assert forall|p: u128, c: u128| sr.contains(p) && #[trigger] links(mv, website_id, p, c) implies sr.contains(c) && rk(c) < rk(p) by {
        }
        assert(ranked_by(mv, website_id, sr, rk));
        assert forall|j: int| 0 <= j < roots_all.len() && mv.contains_key(roots_all[j]) implies sr.contains(#[trigger] roots_all[j]) by {
            assert(ranks@.contains_key(roots@[j]));
        }
    }
    true
}

/// When instances are keyed by their ids and no parent links form a
/// cycle, the walk down the links of any website from any roots comes to
/// an end: each child lies one level deeper than its parent.
pub proof fn lemma_acyclic_descent_is_finite(m: Map<u128, InstanceView>, wid: u128, roots: Seq<u128>)
    requires
        m.dom().finite(),
        forall|k: u128| #[trigger] m.contains_key(k) ==> m[k].id == k,
        acyclic(m),
    ensures
        finite_descent(m, wid, roots),
{
    let n = m.dom().len();
    let s = m.dom();
    let rank = |x: u128| (n - depth(m, x)) as nat;
    assert forall|p: u128, c: u128| s.contains(p) && #[trigger] links(m, wid, p, c) implies s.contains(c) && rank(c) < rank(p) by {
        let k = choose|k: u128| #[trigger] child_of(m, wid, p)(k) && m[k].id == c;
        assert(k == c);
        assert(parent_in(m, c) == Some(p));
        lemma_depth(m, c);
        lemma_depth(m, p);
    }
    assert(ranked_by(m, wid, s, rank));
    assert forall|i: int| 0 <= i < roots.len() && m.contains_key(roots[i]) implies s.contains(#[trigger] roots[i]) by {
    }
}

} // verus!
