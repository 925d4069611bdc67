//! Parent links between instances: ancestors, descendants and cycles.

use vstd::prelude::*;

use crate::model::InstanceView;

verus! {

/// The parent of instance `id`, when `id` is present and has one.
pub open spec fn parent_in(m: Map<u128, InstanceView>, id: u128) -> Option<u128> {
    if m.contains_key(id) {
        m[id].parent_instance_id
    } else {
        None
    }
}

/// The ancestor `k` parent links above `id` (`id` itself for `k == 0`),
/// following links through present instances only.
pub open spec fn ancestor_at(m: Map<u128, InstanceView>, id: u128, k: nat) -> Option<u128>
    decreases k,
{
    if k == 0 {
        Some(id)
    } else {
        match ancestor_at(m, id, (k - 1) as nat) {
            Some(a) => parent_in(m, a),
            None => None,
        }
    }
}

/// Present instance `x` is `id` or lies below it.
pub open spec fn descends_from(m: Map<u128, InstanceView>, x: u128, id: u128) -> bool {
    m.contains_key(x) && exists|k: nat| #[trigger] ancestor_at(m, x, k) == Some(id)
}

/// Instance `id` and everything below it.
pub open spec fn descendants(m: Map<u128, InstanceView>, id: u128) -> Set<u128> {
    Set::new(|x: u128| descends_from(m, x, id))
}

/// Following parent links from `id` leads back to `id`.
pub open spec fn on_cycle(m: Map<u128, InstanceView>, id: u128) -> bool {
    exists|k: nat| k > 0 && #[trigger] ancestor_at(m, id, k) == Some(id)
}

/// Some instance of `m` names `p` as its parent and records the id `c`.
pub open spec fn id_child(m: Map<u128, InstanceView>, p: u128, c: u128) -> bool {
    exists|k: u128| #![trigger m[k]] m.contains_key(k) && m[k].parent_instance_id == Some(p) && m[k].id == c
}

/// `c` is reached from `x` by going `n` times from an id to a child's
/// recorded id.
pub open spec fn reaches(m: Map<u128, InstanceView>, x: u128, c: u128, n: nat) -> bool
    decreases n,
{
    if n == 0 {
        c == x
    } else {
        exists|p: u128| reaches(m, x, p, (n - 1) as nat) && #[trigger] id_child(m, p, c)
    }
}

/// `id` and every id reached from it through the ids that children record.
pub open spec fn id_subtree(m: Map<u128, InstanceView>, id: u128) -> Set<u128> {
    Set::new(|c: u128| exists|n: nat| #[trigger] reaches(m, id, c, n))
}

/// A set that holds `id` and the recorded id of every child of its members
/// holds the whole subtree of `id`.
pub proof fn lemma_closed_holds_subtree(m: Map<u128, InstanceView>, id: u128, s: Set<u128>, c: u128, n: nat)
    requires
        s.contains(id),
        forall|p: u128, c: u128| s.contains(p) && #[trigger] id_child(m, p, c) ==> s.contains(c),
        reaches(m, id, c, n),
    ensures
        s.contains(c),
    decreases n,
{
    if n > 0 {
        assert(exists|p: u128| reaches(m, id, p, (n - 1) as nat) && #[trigger] id_child(m, p, c));
        let p = choose|p: u128| reaches(m, id, p, (n - 1) as nat) && #[trigger] id_child(m, p, c);
        lemma_closed_holds_subtree(m, id, s, p, (n - 1) as nat);
    }
}

/// When every instance is stored under its id, the subtree of a present
/// instance through recorded ids is the set of its descendants.
pub proof fn lemma_subtree_is_descendants(m: Map<u128, InstanceView>, id: u128)
    requires
        forall|k: u128| #[trigger] m.contains_key(k) ==> m[k].id == k,
        m.contains_key(id),
    ensures
        id_subtree(m, id) == descendants(m, id),
{
    assert forall|c: u128| id_subtree(m, id).contains(c) implies descendants(m, id).contains(c) by {
        let n = choose|n: nat| #[trigger] reaches(m, id, c, n);
        lemma_reach_descends(m, id, c, n);
    }
    assert forall|x: u128| descendants(m, id).contains(x) implies id_subtree(m, id).contains(x) by {
        let k = choose|k: nat| #[trigger] ancestor_at(m, x, k) == Some(id);
        lemma_descends_reach(m, id, x, k);
    }
    assert(id_subtree(m, id) =~= descendants(m, id));
}

proof fn lemma_reach_descends(m: Map<u128, InstanceView>, id: u128, c: u128, n: nat)
    requires
        forall|k: u128| #[trigger] m.contains_key(k) ==> m[k].id == k,
        m.contains_key(id),
        reaches(m, id, c, n),
    ensures
        m.contains_key(c),
        ancestor_at(m, c, n) == Some(id),
    decreases n,
{
    if n == 0 {
        assert(ancestor_at(m, c, 0) == Some(c));
    } else {
        assert(exists|p: u128| reaches(m, id, p, (n - 1) as nat) && #[trigger] id_child(m, p, c));
        let p = choose|p: u128| reaches(m, id, p, (n - 1) as nat) && #[trigger] id_child(m, p, c);
        lemma_reach_descends(m, id, p, (n - 1) as nat);
        let k = choose|k: u128| #![trigger m[k]] m.contains_key(k) && m[k].parent_instance_id == Some(p) && m[k].id == c;
        assert(k == c);
        assert(parent_in(m, c) == Some(p));
        lemma_ancestor_shift(m, c, p, (n - 1) as nat);
    }
}

proof fn lemma_descends_reach(m: Map<u128, InstanceView>, id: u128, x: u128, k: nat)
    requires
        forall|k: u128| #[trigger] m.contains_key(k) ==> m[k].id == k,
        m.contains_key(id),
        m.contains_key(x),
        ancestor_at(m, x, k) == Some(id),
    ensures
        reaches(m, id, x, k),
    decreases k,
{
    if k == 0 {
        assert(ancestor_at(m, x, 0) == Some(x));
    } else {
        lemma_ancestor_first_step(m, x, k);
        let p = parent_in(m, x)->0;
        if k > 1 {
            lemma_ancestor_first_step(m, p, (k - 1) as nat);
        } else {
            assert(ancestor_at(m, p, 0) == Some(p));
        }
        lemma_descends_reach(m, id, p, (k - 1) as nat);
        assert(m[x].id == x);
        assert(id_child(m, p, x));
        assert(reaches(m, id, p, (k - 1) as nat) && id_child(m, p, x));
    }
}

/// Going up `k + 1` links from `x` is going up `k` links from its parent.
pub proof fn lemma_ancestor_shift(m: Map<u128, InstanceView>, x: u128, p: u128, k: nat)
    requires
        parent_in(m, x) == Some(p),
    ensures
        ancestor_at(m, x, k + 1) == ancestor_at(m, p, k),
    decreases k,
{
    reveal_with_fuel(ancestor_at, 2);
    if k > 0 {
        lemma_ancestor_shift(m, x, p, (k - 1) as nat);
        assert(ancestor_at(m, x, k + 1) == match ancestor_at(m, x, k) {
            Some(a) => parent_in(m, a),
            None => None,
        });
    }
}

/// A chain that reaches up `k > 0` links starts with a parent link.
pub proof fn lemma_ancestor_first_step(m: Map<u128, InstanceView>, x: u128, k: nat)
    requires
        k > 0,
        ancestor_at(m, x, k) is Some,
    ensures
        parent_in(m, x) is Some,
        ancestor_at(m, x, k) == ancestor_at(m, parent_in(m, x)->0, (k - 1) as nat),
    decreases k,
{
    if k > 1 {
        assert(ancestor_at(m, x, (k - 1) as nat) is Some);
        lemma_ancestor_first_step(m, x, (k - 1) as nat);
    } else {
        assert(ancestor_at(m, x, 0) == Some(x));
    }
    let p = parent_in(m, x)->0;
    lemma_ancestor_shift(m, x, p, (k - 1) as nat);
}

/// Going up `i + t` links from `x` is going up `t` links from the
/// ancestor `i` links above `x`.
pub proof fn lemma_ancestor_compose(m: Map<u128, InstanceView>, x: u128, i: nat, t: nat)
    ensures
        ancestor_at(m, x, i + t) == match ancestor_at(m, x, i) {
            Some(y) => ancestor_at(m, y, t),
            None => None,
        },
    decreases t,
{
    if t > 0 {
        lemma_ancestor_compose(m, x, i, (t - 1) as nat);
        assert(ancestor_at(m, x, i + t) == match ancestor_at(m, x, (i + t - 1) as nat) {
            Some(a) => parent_in(m, a),
            None => None,
        });
    }
}

/// Before a chain that reaches up `k` links, every step starts from a
/// present instance.
proof fn lemma_chain_present(m: Map<u128, InstanceView>, x: u128, j: nat, k: nat)
    requires
        j < k,
        ancestor_at(m, x, k) is Some,
    ensures
        ancestor_at(m, x, j) is Some,
        m.contains_key(ancestor_at(m, x, j)->0),
{
    lemma_ancestor_compose(m, x, j + 1, (k - j - 1) as nat);
    assert(ancestor_at(m, x, j + 1) == match ancestor_at(m, x, j) {
        Some(a) => parent_in(m, a),
        None => None,
    });
}

/// No present instance lies on a cycle of parent links.
pub open spec fn acyclic(m: Map<u128, InstanceView>) -> bool {
    forall|x: u128| #[trigger] m.contains_key(x) ==> !on_cycle(m, x)
}

/// `small` keeps some of the instances of `big` with their parent links.
pub open spec fn parents_kept(small: Map<u128, InstanceView>, big: Map<u128, InstanceView>) -> bool {
    forall|k: u128| #[trigger] small.contains_key(k) ==> big.contains_key(k)
        && small[k].parent_instance_id == big[k].parent_instance_id
}

/// A chain through the kept instances is a chain of the whole map.
pub proof fn lemma_ancestor_kept(small: Map<u128, InstanceView>, big: Map<u128, InstanceView>, x: u128, k: nat)
    requires
        parents_kept(small, big),
    ensures
        ancestor_at(small, x, k) is Some ==> ancestor_at(small, x, k) == ancestor_at(big, x, k),
    decreases k,
{
    if k > 0 {
        lemma_ancestor_kept(small, big, x, (k - 1) as nat);
        if ancestor_at(small, x, k) is Some {
            lemma_chain_present(small, x, (k - 1) as nat, k);
        }
    }
}

/// Dropping instances, or changing anything but parent links, creates no
/// cycle.
pub proof fn lemma_acyclic_kept(small: Map<u128, InstanceView>, big: Map<u128, InstanceView>)
    requires
        parents_kept(small, big),
        acyclic(big),
    ensures
        acyclic(small),
{
    assert forall|x: u128| #[trigger] small.contains_key(x) implies !on_cycle(small, x) by {
        if on_cycle(small, x) {
            let k = choose|k: nat| k > 0 && #[trigger] ancestor_at(small, x, k) == Some(x);
            lemma_ancestor_kept(small, big, x, k);
            assert(big.contains_key(x));
            assert(on_cycle(big, x));
        }
    }
}

/// After inserting `id`, whose parent is not `id` and which no instance
/// names as parent, no walk up comes to `id` after the first step.
proof fn lemma_never_back_to_new(m: Map<u128, InstanceView>, id: u128, v: InstanceView, x: u128, j: nat)
    requires
        forall|k: u128| #[trigger] m.contains_key(k) ==> m[k].parent_instance_id != Some(id),
        v.parent_instance_id != Some(id),
        j >= 1,
    ensures
        ancestor_at(m.insert(id, v), x, j) != Some(id),
{
    let m2 = m.insert(id, v);
    assert(ancestor_at(m2, x, j) == match ancestor_at(m2, x, (j - 1) as nat) {
        Some(a) => parent_in(m2, a),
        None => None,
    });
}

/// Before the walk up from `x` meets `id`, the walk is the same with and
/// without `id` inserted.
proof fn lemma_walk_avoids_new(m: Map<u128, InstanceView>, id: u128, v: InstanceView, x: u128, k: nat)
    requires
        forall|i: nat| i <= k ==> #[trigger] ancestor_at(m.insert(id, v), x, i) != Some(id),
    ensures
        ancestor_at(m.insert(id, v), x, k) == ancestor_at(m, x, k),
    decreases k,
{
    let m2 = m.insert(id, v);
    if k > 0 {
        assert(ancestor_at(m2, x, (k - 1) as nat) != Some(id));
        lemma_walk_avoids_new(m, id, v, x, (k - 1) as nat);
    }
}

/// Inserting a new instance creates no cycle when its parent is not
/// itself and no instance names it as parent.
pub proof fn lemma_acyclic_insert(m: Map<u128, InstanceView>, id: u128, v: InstanceView)
    requires
        acyclic(m),
        !m.contains_key(id),
        v.parent_instance_id != Some(id),
        forall|k: u128| #[trigger] m.contains_key(k) ==> m[k].parent_instance_id != Some(id),
    ensures
        acyclic(m.insert(id, v)),
{
    let m2 = m.insert(id, v);
    assert forall|x: u128| #[trigger] m2.contains_key(x) implies !on_cycle(m2, x) by {
        if on_cycle(m2, x) {
            let k = choose|k: nat| k > 0 && #[trigger] ancestor_at(m2, x, k) == Some(x);
            lemma_never_back_to_new(m, id, v, x, k);
            assert forall|i: nat| i <= k implies #[trigger] ancestor_at(m2, x, i) != Some(id) by {
                if i >= 1 {
                    lemma_never_back_to_new(m, id, v, x, i);
                }
            }
            lemma_walk_avoids_new(m, id, v, x, k);
            assert(m.contains_key(x));
            assert(on_cycle(m, x));
        }
    }
}

/// Without cycles, the walk up from a present instance ends within as many
/// links as there are instances.
proof fn lemma_walk_ends(m: Map<u128, InstanceView>, x: u128) -> (k: nat)
    requires
        m.dom().finite(),
        acyclic(m),
        m.contains_key(x),
    ensures
        k <= m.dom().len(),
        ancestor_at(m, x, k + 1) is None,
{
    let n = m.dom().len();
    if ancestor_at(m, x, n + 1) is None {
        n
    } else {
        let s = Seq::new(n + 1, |j: int| ancestor_at(m, x, j as nat)->0);
        assert forall|j: int| 0 <= j < s.len() implies m.contains_key(#[trigger] s[j]) by {
            lemma_chain_present(m, x, j as nat, n + 1);
        }
        if s.no_duplicates() {
            s.unique_seq_to_set();
            assert(s.to_set().subset_of(m.dom()));
            vstd::set_lib::lemma_len_subset(s.to_set(), m.dom());
        }
        let (a, b) = choose|a: int, b: int| 0 <= a < b < s.len() && s[a] == s[b];
        lemma_chain_present(m, x, a as nat, n + 1);
        lemma_chain_present(m, x, b as nat, n + 1);
        let y = s[a];
        lemma_ancestor_compose(m, x, a as nat, (b - a) as nat);
        assert(ancestor_at(m, y, (b - a) as nat) == Some(y));
        assert(on_cycle(m, y));
        assert(m.contains_key(y));
        0
    }
}

/// The last step of the walk up from `x`, at or before `k`.
proof fn lemma_last_step(m: Map<u128, InstanceView>, x: u128, k: nat) -> (j: nat)
    requires
        ancestor_at(m, x, k + 1) is None,
    ensures
        j <= k,
        ancestor_at(m, x, j) is Some,
        ancestor_at(m, x, j + 1) is None,
    decreases k,
{
    if ancestor_at(m, x, k) is Some {
        k
    } else {
        assert(ancestor_at(m, x, 0) == Some(x));
        lemma_last_step(m, x, (k - 1) as nat)
    }
}

/// The walk up from `x` has at most one last step.
proof fn lemma_last_step_unique(m: Map<u128, InstanceView>, x: u128, a: nat, b: nat)
    requires
        ancestor_at(m, x, a) is Some,
        ancestor_at(m, x, a + 1) is None,
        ancestor_at(m, x, b) is Some,
        ancestor_at(m, x, b + 1) is None,
    ensures
        a == b,
{
    if a < b {
        lemma_ancestor_compose(m, x, a + 1, (b - a - 1) as nat);
    } else if b < a {
        lemma_ancestor_compose(m, x, b + 1, (a - b - 1) as nat);
    }
}

/// How many parent links lead up from `x` before the walk ends.
pub open spec fn depth(m: Map<u128, InstanceView>, x: u128) -> nat {
    choose|k: nat| ancestor_at(m, x, k) is Some && #[trigger] ancestor_at(m, x, k + 1) is None
}

/// Without cycles, a present instance has a depth within the number of
/// instances, and a child is one level deeper than its parent.
pub proof fn lemma_depth(m: Map<u128, InstanceView>, c: u128)
    requires
        m.dom().finite(),
        acyclic(m),
        m.contains_key(c),
    ensures
        ancestor_at(m, c, depth(m, c)) is Some,
        ancestor_at(m, c, depth(m, c) + 1) is None,
        depth(m, c) <= m.dom().len(),
        parent_in(m, c) matches Some(p) ==> m.contains_key(p) ==> depth(m, c) == depth(m, p) + 1,
{
    let k = lemma_walk_ends(m, c);
    let j = lemma_last_step(m, c, k);
    assert(ancestor_at(m, c, j + 1) is None);
    let d = depth(m, c);
    lemma_last_step_unique(m, c, j, d);
    if let Some(p) = parent_in(m, c) {
        if m.contains_key(p) {
            let kp = lemma_walk_ends(m, p);
            let jp = lemma_last_step(m, p, kp);
            assert(ancestor_at(m, p, jp + 1) is None);
            let dp = depth(m, p);
            lemma_last_step_unique(m, p, jp, dp);
            lemma_ancestor_shift(m, c, p, dp);
            lemma_ancestor_shift(m, c, p, dp + 1);
            lemma_last_step_unique(m, c, d, dp + 1);
        }
    }
}

} // verus!
