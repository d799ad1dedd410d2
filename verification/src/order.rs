use vstd::prelude::*;

use crate::graph::NodeId;

verus! {

broadcast use vstd::seq_lib::group_seq_properties;

/// `s` is in non-decreasing order.
pub open spec fn sorted(s: Seq<NodeId>) -> bool {
    forall|i: int, j: int| 0 <= i <= j < s.len() ==> s[i] <= s[j]
}

/// `s` is in increasing order (sorted, without repetition).
pub open spec fn strictly_sorted(s: Seq<NodeId>) -> bool {
    forall|i: int, j: int| 0 <= i < j < s.len() ==> s[i] < s[j]
}

/// Sorts `v` with `slice::sort_unstable`.
///
/// Trusted: std documents that the slice comes out sorted in non-decreasing
/// order and holds the same elements; an unstable sort of integers has no
/// other freedom. It does not panic for `usize` elements.
#[verifier::external_body]
pub(crate) fn sort_nodes(v: &mut Vec<NodeId>)
    ensures
        sorted(final(v)@),
        final(v)@.to_multiset() == old(v)@.to_multiset(),
{
    v.sort_unstable();
}

/// Removes consecutive repetitions from a sorted vector, as `Vec::dedup`
/// does: the result is strictly sorted and holds the same nodes.
pub fn dedup_sorted(v: Vec<NodeId>) -> (r: Vec<NodeId>)
    requires
        sorted(v@),
    ensures
        strictly_sorted(r@),
        r@.to_set() == v@.to_set(),
{
    let mut out: Vec<NodeId> = Vec::new();
    let mut i: usize = 0;
    while i < v.len()
        invariant
            sorted(v@),
            i <= v@.len(),
            strictly_sorted(out@),
            out@.to_set() == v@.take(i as int).to_set(),
            i > 0 ==> out@.len() > 0 && out@.last() == v@[i - 1],
            i == 0 ==> out@.len() == 0,
        decreases v@.len() - i,
    {
        let x = v[i];
        proof {
            assert(v@.take(i + 1) =~= v@.take(i as int).push(x));
            v@.take(i as int).lemma_push_to_set_commute(x);
            out@.lemma_push_to_set_commute(x);
        }
        if out.len() == 0 || out[out.len() - 1] != x {
            out.push(x);
        } else {
            proof {
                assert(out@.to_set().insert(x) =~= out@.to_set());
            }
        }
        i = i + 1;
    }
    proof {
        assert(v@.take(v@.len() as int) =~= v@);
    }
    out
}

/// A copy of a node list.
pub fn copy_nodes(v: &Vec<NodeId>) -> (r: Vec<NodeId>)
    ensures
        r@ == v@,
{
    let mut out: Vec<NodeId> = Vec::new();
    let mut i: usize = 0;
    while i < v.len()
        invariant
            i <= v@.len(),
            out@ == v@.take(i as int),
        decreases v@.len() - i,
    {
        out.push(v[i]);
        proof {
            assert(v@.take(i + 1) =~= v@.take(i as int).push(v@[i as int]));
        }
        i = i + 1;
    }
    proof {
        assert(v@.take(v@.len() as int) =~= v@);
    }
    out
}

/// Two sequences with the same elements, counted with multiplicity, hold
/// the same set of elements.
pub proof fn lemma_same_multiset_same_set(a: Seq<NodeId>, b: Seq<NodeId>)
    requires
        b.to_multiset() == a.to_multiset(),
    ensures
        b.to_set() == a.to_set(),
{
    a.to_multiset_ensures();
    b.to_multiset_ensures();
    assert forall|x: NodeId| b.to_set().contains(x) <==> a.to_set().contains(x) by {
        assert(b.to_multiset().count(x) == a.to_multiset().count(x));
        assert(b.contains(x) <==> b.to_multiset().count(x) > 0);
        assert(a.contains(x) <==> a.to_multiset().count(x) > 0);
    }
    assert(b.to_set() =~= a.to_set());
}

/// A permutation of a sequence without repetition has no repetition and
/// the same elements.
pub proof fn lemma_permutation_no_duplicates(a: Seq<NodeId>, b: Seq<NodeId>)
    requires
        a.no_duplicates(),
        b.to_multiset() == a.to_multiset(),
    ensures
        b.no_duplicates(),
        b.to_set() == a.to_set(),
{
    a.to_multiset_ensures();
    b.to_multiset_ensures();
    a.lemma_multiset_has_no_duplicates();
    b.lemma_multiset_has_no_duplicates_conv();
    assert forall|x: NodeId| b.to_set().contains(x) <==> a.to_set().contains(x) by {
        assert(b.to_multiset().count(x) == a.to_multiset().count(x));
        assert(b.contains(x) <==> b.to_multiset().count(x) > 0);
        assert(a.contains(x) <==> a.to_multiset().count(x) > 0);
        assert(b.to_set().contains(x) == b.contains(x));
        assert(a.to_set().contains(x) == a.contains(x));
    }
    assert(b.to_set() =~= a.to_set());
}

/// A sorted permutation of a sequence without repetition is strictly
/// sorted and has the same elements.
pub proof fn lemma_sorted_permutation(a: Seq<NodeId>, b: Seq<NodeId>)
    requires
        a.no_duplicates(),
        sorted(b),
        b.to_multiset() == a.to_multiset(),
    ensures
        strictly_sorted(b),
        b.to_set() == a.to_set(),
        b.len() == a.len(),
{
    a.to_multiset_ensures();
    b.to_multiset_ensures();
    a.lemma_multiset_has_no_duplicates();
    b.lemma_multiset_has_no_duplicates_conv();
    assert(b.to_multiset().len() == b.len());
    assert(a.to_multiset().len() == a.len());
    assert forall|x: NodeId| b.to_set().contains(x) <==> a.to_set().contains(x) by {
        assert(b.to_multiset().count(x) == a.to_multiset().count(x));
        assert(b.contains(x) <==> b.to_multiset().count(x) > 0);
        assert(a.contains(x) <==> a.to_multiset().count(x) > 0);
        assert(b.to_set().contains(x) == b.contains(x));
        assert(a.to_set().contains(x) == a.contains(x));
    }
    assert(b.to_set() =~= a.to_set());
    assert forall|i: int, j: int| 0 <= i < j < b.len() implies b[i] < b[j] by {
        assert(b[i] <= b[j]);
        assert(b[i] != b[j]);
    }
}

} // verus!
