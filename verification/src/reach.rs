//! Paths, reachability and order-independent hash combination over an
//! abstract edge relation.
//!
//! The dependency graph's algorithms are verified against these notions: a
//! node's tree hash is the XOR of the content hashes of exactly the nodes
//! reachable from it, and a build order is valid when every edge points
//! strictly backwards in it — which excludes cycles.

use vstd::multiset::Multiset;
use vstd::prelude::*;
use vstd::seq_lib::*;

verus! {

/// A path: a nonempty node sequence whose consecutive elements are joined by
/// edges.
pub open spec fn is_path(e: spec_fn(int, int) -> bool, p: Seq<int>) -> bool {
    p.len() >= 1 && forall|j: int| 1 <= j < p.len() ==> e(p[j - 1], #[trigger] p[j])
}

/// `to` is reachable from `from`: some path joins them.  Every node reaches
/// itself by the one-element path.
pub open spec fn reaches(e: spec_fn(int, int) -> bool, from: int, to: int) -> bool {
    exists|p: Seq<int>| is_path(e, p) && p.first() == from && p.last() == to
}

/// The relation has a cycle: a path of at least one edge returns to its
/// starting node.
pub open spec fn has_cycle(e: spec_fn(int, int) -> bool) -> bool {
    exists|p: Seq<int>| is_path(e, p) && p.len() >= 2 && p.first() == p.last()
}

/// Every node reaches itself.
pub proof fn lemma_reaches_self(e: spec_fn(int, int) -> bool, a: int)
    ensures
        reaches(e, a, a),
{
    let p: Seq<int> = seq![a];
    assert(is_path(e, p) && p.first() == a && p.last() == a);
}

/// An edge is a path of length two.
pub proof fn lemma_reaches_step(e: spec_fn(int, int) -> bool, a: int, b: int)
    requires
        e(a, b),
    ensures
        reaches(e, a, b),
{
    let p: Seq<int> = seq![a, b];
    assert(p[0] == a && p[1] == b);
    assert(is_path(e, p) && p.first() == a && p.last() == b);
}

/// Reachability is transitive: paths concatenate.
pub proof fn lemma_reaches_trans(e: spec_fn(int, int) -> bool, a: int, b: int, c: int)
    requires
        reaches(e, a, b),
        reaches(e, b, c),
    ensures
        reaches(e, a, c),
{
    let p1 = choose|p: Seq<int>| is_path(e, p) && p.first() == a && p.last() == b;
    let p2 = choose|p: Seq<int>| is_path(e, p) && p.first() == b && p.last() == c;
    if p2.len() == 1 {
        assert(is_path(e, p1) && p1.first() == a && p1.last() == c);
    } else {
        let q = p1 + p2.drop_first();
        assert(q.len() == p1.len() + p2.len() - 1);
        assert forall|j: int| 1 <= j < q.len() implies e(q[j - 1], #[trigger] q[j]) by {
            if j < p1.len() {
                assert(q[j - 1] == p1[j - 1] && q[j] == p1[j]);
                assert(e(p1[j - 1], p1[j]));
            } else if j == p1.len() {
                assert(q[j - 1] == p1[p1.len() - 1] && q[j] == p2.drop_first()[0]);
                assert(q[j - 1] == b && q[j] == p2[1]);
                assert(e(p2[1 - 1], p2[1]));
            } else {
                let j2 = j - p1.len();
                assert(q[j - 1] == p2.drop_first()[j2 - 1] && q[j] == p2.drop_first()[j2]);
                assert(q[j - 1] == p2[j2] && q[j] == p2[j2 + 1]);
                assert(e(p2[j2 + 1 - 1], p2[j2 + 1]));
            }
        }
        assert(is_path(e, q) && q.first() == a && q.last() == c);
    }
}

/// Walking a path never leaves a set that is closed under the edges.
pub proof fn lemma_path_stays(
    e: spec_fn(int, int) -> bool,
    inset: spec_fn(int) -> bool,
    p: Seq<int>,
)
    requires
        is_path(e, p),
        inset(p.first()),
        forall|x: int, y: int| inset(x) && #[trigger] e(x, y) ==> inset(y),
    ensures
        inset(p.last()),
    decreases p.len(),
{
    if p.len() > 1 {
        assert(e(p[1 - 1], p[1]));
        let q = p.drop_first();
        assert forall|j: int| 1 <= j < q.len() implies e(q[j - 1], #[trigger] q[j]) by {
            assert(q[j - 1] == p[j] && q[j] == p[j + 1]);
            assert(e(p[j + 1 - 1], p[j + 1]));
        }
        assert(is_path(e, q));
        assert(inset(q.first()));
        lemma_path_stays(e, inset, q);
    }
}

/// Everything reachable from a member of a closed set is in the set.
pub proof fn lemma_reachable_in_closed_set(
    e: spec_fn(int, int) -> bool,
    inset: spec_fn(int) -> bool,
    root: int,
    t: int,
)
    requires
        reaches(e, root, t),
        inset(root),
        forall|x: int, y: int| inset(x) && #[trigger] e(x, y) ==> inset(y),
    ensures
        inset(t),
{
    let p = choose|p: Seq<int>| is_path(e, p) && p.first() == root && p.last() == t;
    lemma_path_stays(e, inset, p);
}

/// Positions strictly decrease along a path through an order in which every
/// edge's target comes strictly before its source.
proof fn lemma_path_position_decreases(e: spec_fn(int, int) -> bool, ord: Seq<int>, p: Seq<int>)
    requires
        is_path(e, p),
        p.len() >= 2,
        ord.no_duplicates(),
        forall|a: int, b: int|
            #[trigger] e(a, b) ==> ord.contains(a) && ord.contains(b) && ord.index_of(b)
                < ord.index_of(a),
    ensures
        ord.index_of(p.last()) < ord.index_of(p.first()),
    decreases p.len(),
{
    assert(e(p[1 - 1], p[1]));
    if p.len() == 2 {
        assert(p.last() == p[1] && p.first() == p[0]);
    } else {
        let q = p.drop_first();
        assert forall|j: int| 1 <= j < q.len() implies e(q[j - 1], #[trigger] q[j]) by {
            assert(q[j - 1] == p[j] && q[j] == p[j + 1]);
            assert(e(p[j + 1 - 1], p[j + 1]));
        }
        assert(is_path(e, q));
        lemma_path_position_decreases(e, ord, q);
        assert(q.first() == p[1] && q.last() == p.last());
    }
}

/// An edge relation admitting an order in which every edge points strictly
/// backwards has no cycle.
pub proof fn lemma_ordered_acyclic(e: spec_fn(int, int) -> bool, ord: Seq<int>)
    requires
        ord.no_duplicates(),
        forall|a: int, b: int|
            #[trigger] e(a, b) ==> ord.contains(a) && ord.contains(b) && ord.index_of(b)
                < ord.index_of(a),
    ensures
        !has_cycle(e),
{
    if has_cycle(e) {
        let p = choose|p: Seq<int>| is_path(e, p) && p.len() >= 2 && p.first() == p.last();
        lemma_path_position_decreases(e, ord, p);
    }
}

/// XOR of a sequence of hashes, combined left to right.
pub open spec fn xor_seq(hs: Seq<u64>) -> u64
    decreases hs.len(),
{
    if hs.len() == 0 {
        0u64
    } else {
        xor_seq(hs.drop_last()) ^ hs.last()
    }
}

/// Swapping the last two XOR operands changes nothing.
proof fn lemma_xor_swap(x: u64, a: u64, b: u64)
    ensures
        (x ^ a) ^ b == (x ^ b) ^ a,
{
    assert((x ^ a) ^ b == (x ^ b) ^ a) by (bit_vector);
}

/// Removing one element and XOR-ing it back in afterwards is the same as
/// combining the whole sequence.
proof fn lemma_xor_seq_remove(s: Seq<u64>, j: int)
    requires
        0 <= j < s.len(),
    ensures
        xor_seq(s) == xor_seq(s.remove(j)) ^ s[j],
    decreases s.len(),
{
    if j == s.len() - 1 {
        assert(s.remove(j) =~= s.drop_last());
    } else {
        let t = s.drop_last();
        lemma_xor_seq_remove(t, j);
        assert(s.remove(j).drop_last() =~= t.remove(j));
        assert(s.remove(j).last() == s.last());
        lemma_xor_swap(xor_seq(t.remove(j)), s[j], s.last());
    }
}

/// XOR combination is order-independent: any two sequences holding the same
/// hashes the same number of times combine to the same value.
pub proof fn lemma_xor_seq_multiset(s1: Seq<u64>, s2: Seq<u64>)
    requires
        s1.to_multiset() == s2.to_multiset(),
    ensures
        xor_seq(s1) == xor_seq(s2),
    decreases s1.len(),
{
    broadcast use vstd::multiset::group_multiset_axioms;

    s1.to_multiset_ensures();
    s2.to_multiset_ensures();
    if s1.len() == 0 {
        assert(s2.to_multiset().len() == 0);
    } else {
        let x = s1.last();
        assert(s1.contains(x));
        assert(s2.to_multiset().count(x) > 0);
        assert(s2.contains(x));
        let j = choose|j: int| 0 <= j < s2.len() && s2[j] == x;
        assert(s1.remove(s1.len() - 1) =~= s1.drop_last());
        assert(s1.remove(s1.len() - 1).to_multiset() =~= s1.to_multiset().remove(x));
        assert(s1.drop_last().to_multiset() =~= s1.to_multiset().remove(x));
        s2.remove(j).to_multiset_ensures();
        assert(s2.remove(j).to_multiset() =~= s2.to_multiset().remove(x));
        assert(s1.drop_last().to_multiset() == s2.remove(j).to_multiset());
        lemma_xor_seq_multiset(s1.drop_last(), s2.remove(j));
        lemma_xor_seq_remove(s2, j);
    }
}

/// `s` enumerates, without repetition, exactly the nodes reachable from
/// `root` among `0..n`.
pub open spec fn enumerates(e: spec_fn(int, int) -> bool, n: int, s: Seq<int>, root: int) -> bool {
    &&& s.no_duplicates()
    &&& forall|k: int| 0 <= k < s.len() ==> 0 <= #[trigger] s[k] < n
    &&& forall|k: int| 0 <= k < s.len() ==> reaches(e, root, #[trigger] s[k])
    &&& forall|t: int| 0 <= t < n && reaches(e, root, t) ==> s.contains(t)
}

/// Two enumerations of the same reachable set combine any per-node hash
/// assignment to the same XOR, whatever their order.
pub proof fn lemma_enumeration_xor_unique(
    e: spec_fn(int, int) -> bool,
    n: int,
    s1: Seq<int>,
    s2: Seq<int>,
    root: int,
    hs: Seq<u64>,
)
    requires
        hs.len() == n,
        enumerates(e, n, s1, root),
        enumerates(e, n, s2, root),
    ensures
        xor_seq(s1.map_values(|j: int| hs[j])) == xor_seq(s2.map_values(|j: int| hs[j])),
{
    broadcast use vstd::multiset::group_multiset_axioms;

    let m1 = s1.map_values(|j: int| hs[j]);
    let m2 = s2.map_values(|j: int| hs[j]);
    lemma_enumerations_same_multiset(e, n, s1, s2, root, hs);
    lemma_xor_seq_multiset(m1, m2);
}

/// Helper: two enumerations carry the same multiset of mapped hashes.
proof fn lemma_enumerations_same_multiset(
    e: spec_fn(int, int) -> bool,
    n: int,
    s1: Seq<int>,
    s2: Seq<int>,
    root: int,
    hs: Seq<u64>,
)
    requires
        enumerates(e, n, s1, root),
        enumerates(e, n, s2, root),
    ensures
        s1.map_values(|j: int| hs[j]).to_multiset() == s2.map_values(|j: int| hs[j]).to_multiset(),
{
    assert forall|t: int| s1.contains(t) implies s2.contains(t) by {
        let k = choose|k: int| 0 <= k < s1.len() && s1[k] == t;
        assert(reaches(e, root, s1[k]));
    }
    assert forall|t: int| s2.contains(t) implies s1.contains(t) by {
        let k = choose|k: int| 0 <= k < s2.len() && s2[k] == t;
        assert(reaches(e, root, s2[k]));
    }
    lemma_perm_mapped(s1, s2, |j: int| hs[j]);
}

/// Two duplicate-free sequences holding the same elements map to equal
/// multisets under any function.
pub proof fn lemma_perm_mapped(s1: Seq<int>, s2: Seq<int>, f: spec_fn(int) -> u64)
    requires
        s1.no_duplicates(),
        s2.no_duplicates(),
        forall|t: int| s1.contains(t) <==> s2.contains(t),
    ensures
        s1.map_values(f).to_multiset() == s2.map_values(f).to_multiset(),
    decreases s1.len(),
{
    broadcast use vstd::multiset::group_multiset_axioms;

    if s1.len() == 0 {
        s1.map_values(f).to_multiset_ensures();
        s2.map_values(f).to_multiset_ensures();
        if s2.len() > 0 {
            assert(s2.contains(s2[0]));
            assert(s1.contains(s2[0]));
        }
        assert(s1.map_values(f).to_multiset() =~= s2.map_values(f).to_multiset());
    } else {
        let y = s1.last();
        assert(s1.contains(y)) by {
            assert(s1[s1.len() - 1] == y);
        }
        assert(s2.contains(y));
        let j = choose|j: int| 0 <= j < s2.len() && s2[j] == y;
        let r1 = s1.drop_last();
        let r2 = s2.remove(j);
        assert(r1.no_duplicates()) by {
            assert(forall|k: int| 0 <= k < r1.len() ==> r1[k] == s1[k]);
        }
        lemma_remove_keeps(s2, j);
        lemma_drop_keeps(s1, y);
        assert forall|t: int| r1.contains(t) implies r2.contains(t) by {
            let k = choose|k: int| 0 <= k < r1.len() && r1[k] == t;
            assert(s1[k] == t);
            assert(s1.contains(t));
            assert(t != y);
            assert(s2.contains(t));
        }
        assert forall|t: int| r2.contains(t) implies r1.contains(t) by {
            let k = choose|k: int| 0 <= k < r2.len() && r2[k] == t;
            assert(s2.contains(t)) by {
                if k < j {
                    assert(s2[k] == t);
                } else {
                    assert(s2[k + 1] == t);
                }
            }
            assert(t != y);
            assert(s1.contains(t));
        }
        lemma_perm_mapped(r1, r2, f);
        s1.map_values(f).to_multiset_ensures();
        s2.map_values(f).to_multiset_ensures();
        r1.map_values(f).to_multiset_ensures();
        r2.map_values(f).to_multiset_ensures();
        assert(r1.map_values(f).push(f(y)) =~= s1.map_values(f)) by {
            assert(r1.map_values(f).len() == s1.len() - 1);
        }
        assert(s2.map_values(f).remove(j) =~= r2.map_values(f));
        assert(s2.map_values(f)[j] == f(y));
        assert(s1.map_values(f).to_multiset() =~= r1.map_values(f).to_multiset().insert(f(y)));
        assert(r2.map_values(f).to_multiset() =~= s2.map_values(f).to_multiset().remove(f(y)));
        assert(s2.map_values(f).to_multiset().count(f(y)) > 0) by {
            assert(s2.map_values(f).contains(f(y))) by {
                assert(s2.map_values(f)[j] == f(y));
            }
        }
        assert(s1.map_values(f).to_multiset() =~= s2.map_values(f).to_multiset());
    }
}

/// Dropping the last element of a duplicate-free sequence keeps every other
/// element.
proof fn lemma_drop_keeps(s: Seq<int>, x: int)
    requires
        s.len() >= 1,
        s.no_duplicates(),
        s.last() == x,
    ensures
        forall|t: int| s.contains(t) && t != x ==> s.drop_last().contains(t),
        forall|k: int| 0 <= k < s.drop_last().len() ==> s.drop_last()[k] != x,
{
    assert forall|t: int| s.contains(t) && t != x implies s.drop_last().contains(t) by {
        let k = choose|k: int| 0 <= k < s.len() && s[k] == t;
        assert(k < s.len() - 1);
        assert(s.drop_last()[k] == t);
    }
}

/// Removing one position from a duplicate-free sequence keeps every other
/// element, and the element at that position occurs nowhere else.
proof fn lemma_remove_keeps(s: Seq<int>, j: int)
    requires
        0 <= j < s.len(),
        s.no_duplicates(),
    ensures
        forall|t: int| s.contains(t) && t != s[j] ==> s.remove(j).contains(t),
        forall|k: int| 0 <= k < s.remove(j).len() ==> s.remove(j)[k] != s[j],
        s.remove(j).no_duplicates(),
        forall|t: int| s.remove(j).contains(t) ==> s.contains(t),
{
    assert forall|t: int| s.contains(t) && t != s[j] implies s.remove(j).contains(t) by {
        let k = choose|k: int| 0 <= k < s.len() && s[k] == t;
        if k < j {
            assert(s.remove(j)[k] == t);
        } else {
            assert(k > j);
            assert(s.remove(j)[k - 1] == t);
        }
    }
    assert forall|t: int| s.remove(j).contains(t) implies s.contains(t) by {
        let k = choose|k: int| 0 <= k < s.remove(j).len() && s.remove(j)[k] == t;
        if k < j {
            assert(s[k] == t);
        } else {
            assert(s[k + 1] == t);
        }
    }
}


/// Reachability transfers between pointwise-equal edge relations.
pub proof fn lemma_reaches_congruence(
    e1: spec_fn(int, int) -> bool,
    e2: spec_fn(int, int) -> bool,
    a: int,
    b: int,
)
    requires
        forall|x: int, y: int| #[trigger] e1(x, y) <==> #[trigger] e2(x, y),
        reaches(e1, a, b),
    ensures
        reaches(e2, a, b),
{
    let p = choose|p: Seq<int>| is_path(e1, p) && p.first() == a && p.last() == b;
    assert forall|j: int| 1 <= j < p.len() implies e2(p[j - 1], #[trigger] p[j]) by {
        assert(e1(p[j - 1], p[j]));
    }
    assert(is_path(e2, p));
}

/// Cycles transfer between pointwise-equal edge relations.
pub proof fn lemma_cycle_congruence(e1: spec_fn(int, int) -> bool, e2: spec_fn(int, int) -> bool)
    requires
        forall|x: int, y: int| #[trigger] e1(x, y) <==> #[trigger] e2(x, y),
    ensures
        has_cycle(e1) ==> has_cycle(e2),
{
    if has_cycle(e1) {
        let p = choose|p: Seq<int>| is_path(e1, p) && p.len() >= 2 && p.first() == p.last();
        assert forall|j: int| 1 <= j < p.len() implies e2(p[j - 1], #[trigger] p[j]) by {
            assert(e1(p[j - 1], p[j]));
        }
        assert(is_path(e2, p));
    }
}

/// Enumerations transfer between pointwise-equal edge relations.
pub proof fn lemma_enumerates_congruence(
    e1: spec_fn(int, int) -> bool,
    e2: spec_fn(int, int) -> bool,
    n: int,
    s: Seq<int>,
    root: int,
)
    requires
        forall|x: int, y: int| #[trigger] e1(x, y) <==> #[trigger] e2(x, y),
        enumerates(e1, n, s, root),
    ensures
        enumerates(e2, n, s, root),
{
    assert forall|k: int| 0 <= k < s.len() implies reaches(e2, root, #[trigger] s[k]) by {
        lemma_reaches_congruence(e1, e2, root, s[k]);
    }
    assert forall|t: int| 0 <= t < n && reaches(e2, root, t) implies s.contains(t) by {
        lemma_reaches_congruence(e2, e1, root, t);
    }
}

} // verus!
