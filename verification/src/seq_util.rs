//! Facts about sequences that the state operations are stated with.

use vstd::prelude::*;

verus! {

/// Index of the first element of `s` that satisfies `p`, or -1 when none does.
pub open spec fn first_index<A>(s: Seq<A>, p: spec_fn(A) -> bool) -> int
    decreases s.len(),
{
    if s.len() == 0 {
        -1
    } else if p(s[0]) {
        0
    } else {
        let r = first_index(s.drop_first(), p);
        if r < 0 {
            -1
        } else {
            r + 1
        }
    }
}

/// `first_index` is the least index whose element satisfies `p`, or -1
/// when no element does.
pub proof fn lemma_first_index<A>(s: Seq<A>, p: spec_fn(A) -> bool)
    ensures
        -1 <= first_index(s, p) < s.len(),
        first_index(s, p) >= 0 ==> p(s[first_index(s, p)]),
        forall|j: int| 0 <= j < first_index(s, p) ==> !p(#[trigger] s[j]),
        first_index(s, p) < 0 ==> forall|j: int| 0 <= j < s.len() ==> !p(#[trigger] s[j]),
    decreases s.len(),
{
    if s.len() > 0 && !p(s[0]) {
        lemma_first_index(s.drop_first(), p);
        assert forall|j: int| 0 <= j < first_index(s, p) implies !p(#[trigger] s[j]) by {
            if j > 0 {
                assert(s[j] == s.drop_first()[j - 1]);
            }
        }
        if first_index(s, p) < 0 {
            assert forall|j: int| 0 <= j < s.len() implies !p(#[trigger] s[j]) by {
                if j > 0 {
                    assert(s[j] == s.drop_first()[j - 1]);
                }
            }
        }
    }
}

/// The least satisfying index is `i` when `s[i]` satisfies `p` and no
/// earlier element does.
pub proof fn lemma_first_index_is<A>(s: Seq<A>, p: spec_fn(A) -> bool, i: int)
    requires
        0 <= i < s.len(),
        p(s[i]),
        forall|j: int| 0 <= j < i ==> !p(#[trigger] s[j]),
    ensures
        first_index(s, p) == i,
{
    lemma_first_index(s, p);
    if first_index(s, p) < i {
        let f = first_index(s, p);
        if f >= 0 {
            assert(!p(s[f]));
        }
    }
}

/// No element satisfies `p`, so there is no first index.
pub proof fn lemma_first_index_none<A>(s: Seq<A>, p: spec_fn(A) -> bool)
    requires
        forall|j: int| 0 <= j < s.len() ==> !p(#[trigger] s[j]),
    ensures
        first_index(s, p) == -1,
{
    lemma_first_index(s, p);
    if first_index(s, p) >= 0 {
        assert(p(s[first_index(s, p)]));
    }
}

/// The elements of `s` that are not in `drop`, in order.
pub open spec fn without<A>(s: Seq<A>, drop: Set<A>) -> Seq<A> {
    s.filter(|x: A| !drop.contains(x))
}

} // verus!
