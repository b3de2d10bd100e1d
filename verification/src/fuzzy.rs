//! String fuzzy matching based on the Levenshtein edit distance, used to
//! offer a "did you mean" suggestion when a requested definition name does
//! not exist.

use vstd::multiset::Multiset;
use vstd::prelude::*;
use vstd::seq_lib::*;
use vstd::string::*;
use vstd::utf8::*;

verus! {

/// Minimum of three integers.
pub open spec fn min3(x: int, y: int, z: int) -> int {
    if x <= y && x <= z {
        x
    } else if y <= z {
        y
    } else {
        z
    }
}

/// The Levenshtein edit distance between two byte strings: the least number
/// of single-byte insertions, deletions and substitutions turning one into
/// the other.
pub open spec fn lev(a: Seq<u8>, b: Seq<u8>) -> nat
    decreases a.len() + b.len(),
{
    if a.len() == 0 {
        b.len()
    } else if b.len() == 0 {
        a.len()
    } else {
        let cost: int = if a.last() == b.last() {
            0
        } else {
            1
        };
        min3(
            lev(a.drop_last(), b) as int + 1,
            lev(a, b.drop_last()) as int + 1,
            lev(a.drop_last(), b.drop_last()) as int + cost,
        ) as nat
    }
}

/// The distance never exceeds the longer input's length.
pub proof fn lemma_lev_le_max(a: Seq<u8>, b: Seq<u8>)
    ensures
        lev(a, b) <= if a.len() >= b.len() {
            a.len()
        } else {
            b.len()
        },
    decreases a.len() + b.len(),
{
    if a.len() > 0 && b.len() > 0 {
        lemma_lev_le_max(a.drop_last(), b.drop_last());
    }
}

/// Saturating increment; the true cell value is recovered because a real
/// distance is always representable.
fn sat_inc(x: usize) -> (r: usize)
    ensures
        r as int == if x == usize::MAX {
            x as int
        } else {
            x as int + 1
        },
{
    if x == usize::MAX {
        x
    } else {
        x + 1
    }
}

/// Byte-for-byte equality of two byte slices.
pub fn bytes_eq(a: &[u8], b: &[u8]) -> (r: bool)
    ensures
        r <==> a@ == b@,
{
    if a.len() != b.len() {
        proof {
            assert(a@.len() != b@.len());
        }
        return false;
    }
    let mut i: usize = 0;
    while i < a.len()
        invariant
            i <= a.len(),
            a@.len() == b@.len(),
            forall|k: int| 0 <= k < i ==> a@[k] == b@[k],
        decreases a.len() - i,
    {
        if a[i] != b[i] {
            return false;
        }
        i = i + 1;
    }
    proof {
        assert(a@ =~= b@);
    }
    true
}

/// UTF-8 encoding is injective: equal encodings come from equal character
/// sequences.
pub proof fn lemma_encode_utf8_injective(a: Seq<char>, b: Seq<char>)
    ensures
        encode_utf8(a) == encode_utf8(b) <==> a == b,
{
    if encode_utf8(a) == encode_utf8(b) {
        encode_utf8_decode_utf8(a);
        encode_utf8_decode_utf8(b);
    }
}

/// The distance as a pair with the string it was measured for, at the
/// specification level: `(lev(name, query), name)`.
pub open spec fn ranked_pair(n: Seq<char>, q: Seq<char>) -> (nat, Seq<char>) {
    (lev(encode_utf8(n), encode_utf8(q)), n)
}

/// Ghost image of one element of `find`'s result.
pub open spec fn pair_view(p: (usize, String)) -> (nat, Seq<char>) {
    (p.0 as nat, p.1@)
}

/// `pair_view` as a function value, for mapping over sequences.
pub open spec fn pair_view_fn() -> spec_fn((usize, String)) -> (nat, Seq<char>) {
    |p: (usize, String)| pair_view(p)
}

/// A set of candidate names, ranked against a query by edit distance.
#[derive(Debug, Clone, Default)]
pub struct Fuzzy {
    set: Vec<String>,
}

impl Fuzzy {
    /// The stored candidate strings, in insertion order.
    pub closed spec fn strs(&self) -> Seq<String> {
        self.set@
    }

    /// The stored candidate names as character sequences, in insertion order.
    pub open spec fn names(&self) -> Seq<Seq<char>> {
        self.strs().map_values(|s: String| s@)
    }

    /// No candidate is stored twice.
    pub open spec fn wf(&self) -> bool {
        forall|i: int, j: int|
            0 <= i < j < self.names().len() ==> self.names()[i] != self.names()[j]
    }

    /// An empty candidate set.
    pub fn new() -> (r: Self)
        ensures
            r.names() =~= Seq::<Seq<char>>::empty(),
            r.wf(),
    {
        Fuzzy { set: Vec::new() }
    }

    /// Adds a candidate.  A name already present is kept once: the stored
    /// set gains `s` exactly when it was absent.
    pub fn add(&mut self, s: &str)
        requires
            old(self).wf(),
        ensures
            final(self).wf(),
            old(self).names().contains(s@) ==> final(self).names() =~= old(self).names(),
            !old(self).names().contains(s@) ==> final(self).names() =~= old(self).names().push(
                s@,
            ),
    {
        let mut i: usize = 0;
        while i < self.set.len()
            invariant
                i <= self.set.len(),
                *self == *old(self),
                old(self).wf(),
                forall|k: int| 0 <= k < i ==> self.names()[k] != s@,
            decreases self.set.len() - i,
        {
            if bytes_eq(self.set[i].as_str().as_bytes(), s.as_bytes()) {
                proof {
                    lemma_encode_utf8_injective(self.set@[i as int]@, s@);
                    assert(self.names()[i as int] == s@);
                    assert(self.names().contains(s@));
                    assert(self.wf());
                }
                return ;
            }
            proof {
                lemma_encode_utf8_injective(self.set@[i as int]@, s@);
            }
            i = i + 1;
        }
        let owned: String = s.to_owned();
        self.set.push(owned);
        proof {
            assert(self.names() =~= old(self).names().push(s@));
        }
    }

    /// Ranks every stored candidate against `input`.  The result holds one
    /// pair `(distance, candidate)` per stored name — the same pairs as the
    /// stored set, as a multiset — ordered by ascending distance.  Ties are
    /// adjacent but in no promised order.
    pub fn find(&self, input: &str) -> (r: Vec<(usize, String)>)
        ensures
            r@.len() == self.names().len(),
            forall|i: int, j: int| 0 <= i < j < r@.len() ==> r@[i].0 <= r@[j].0,
            r@.map_values(pair_view_fn()).to_multiset() =~= self.names().map_values(
                |n: Seq<char>| ranked_pair(n, input@),
            ).to_multiset(),
    {
        broadcast use vstd::multiset::group_multiset_axioms;

        let ghost target: Seq<(nat, Seq<char>)> = self.names().map_values(
            |n: Seq<char>| ranked_pair(n, input@),
        );
        let mut rem: Vec<(usize, String)> = Vec::new();
        let mut idx: usize = 0;
        while idx < self.set.len()
            invariant
                idx <= self.set.len(),
                rem@.len() == idx,
                forall|k: int|
                    0 <= k < idx ==> pair_view(#[trigger] rem@[k]) == target[k],
                target == self.names().map_values(|n: Seq<char>| ranked_pair(n, input@)),
            decreases self.set.len() - idx,
        {
            let d: usize = Self::levenshtein(self.set[idx].as_str(), input);
            let pair: (usize, String) = (d, self.set[idx].clone());
            rem.push(pair);
            idx = idx + 1;
        }
        proof {
            assert(rem@.map_values(pair_view_fn()) =~= target);
        }
        let mut out: Vec<(usize, String)> = Vec::new();
        proof {
            let f = pair_view_fn();
            out@.map_values(f).to_multiset_ensures();
            assert(out@.map_values(f) =~= Seq::<(nat, Seq<char>)>::empty());
            assert(out@.map_values(f).to_multiset() =~= Multiset::empty());
            assert(out@.map_values(f).to_multiset().add(rem@.map_values(f).to_multiset())
                =~= target.to_multiset());
        }
        while rem.len() > 0
            invariant
                out@.map_values(pair_view_fn()).to_multiset().add(
                    rem@.map_values(pair_view_fn()).to_multiset(),
                ) =~= target.to_multiset(),
                out@.len() + rem@.len() == target.len(),
                forall|i: int, j: int| 0 <= i < j < out@.len() ==> out@[i].0 <= out@[j].0,
                forall|i: int, k: int|
                    0 <= i < out@.len() && 0 <= k < rem@.len() ==> out@[i].0 <= rem@[k].0,
            decreases rem.len(),
        {
            let mut m: usize = 0;
            let mut k: usize = 1;
            while k < rem.len()
                invariant
                    m < k,
                    k <= rem@.len(),
                    rem@.len() > 0,
                    forall|t: int| 0 <= t < k ==> rem@[m as int].0 <= #[trigger] rem@[t].0,
                decreases rem.len() - k,
            {
                if rem[k].0 < rem[m].0 {
                    m = k;
                }
                k = k + 1;
            }
            let ghost old_out = out@;
            let ghost old_rem = rem@;
            let p: (usize, String) = rem.remove(m);
            out.push(p);
            proof {
                let f = pair_view_fn();
                old_rem.map_values(f).to_multiset_ensures();
                old_out.map_values(f).to_multiset_ensures();
                assert(rem@.map_values(f) =~= old_rem.map_values(f).remove(m as int));
                assert(out@.map_values(f) =~= old_out.map_values(f).push(pair_view(p)));
                assert(old_rem.map_values(f)[m as int] == pair_view(p));
                assert(old_rem.map_values(f).contains(pair_view(p)));
                assert(old_rem.map_values(f).to_multiset().count(pair_view(p)) > 0);
                assert(rem@.map_values(f).to_multiset() =~= old_rem.map_values(
                    f,
                ).to_multiset().remove(pair_view(p)));
                assert(out@.map_values(f).to_multiset() =~= old_out.map_values(
                    f,
                ).to_multiset().insert(pair_view(p)));
                assert(out@.map_values(f).to_multiset().add(rem@.map_values(f).to_multiset())
                    =~= old_out.map_values(f).to_multiset().add(
                    old_rem.map_values(f).to_multiset(),
                ));
            }
        }
        proof {
            let f = pair_view_fn();
            rem@.map_values(f).to_multiset_ensures();
            assert(rem@.map_values(f) =~= Seq::<(nat, Seq<char>)>::empty());
            assert(rem@.map_values(f).to_multiset() =~= Multiset::empty());
            assert(out@.map_values(f).to_multiset() =~= target.to_multiset());
        }
        out
    }

    /// The Levenshtein distance between the byte encodings of two strings,
    /// computed with a dynamic-programming table over prefixes.
    pub fn levenshtein(a: &str, b: &str) -> (r: usize)
        ensures
            r as nat == lev(a.spec_bytes(), b.spec_bytes()),
    {
        let ab: &[u8] = a.as_bytes();
        let bb: &[u8] = b.as_bytes();
        lev_bytes(ab, bb)
    }
}

/// Levenshtein distance over raw bytes.
pub fn lev_bytes(a: &[u8], b: &[u8]) -> (r: usize)
    ensures
        r as nat == lev(a@, b@),
{
    let alen: usize = a.len();
    let blen: usize = b.len();
    if alen == 0 {
        return blen;
    }
    if blen == 0 {
        return alen;
    }
    let mut prev: Vec<usize> = Vec::new();
    let mut j: usize = 0;
    prev.push(0);
    proof {
        assert(a@.take(0) =~= Seq::<u8>::empty());
        assert(b@.take(0) =~= Seq::<u8>::empty());
    }
    while j < blen
        invariant
            j <= blen,
            blen == b@.len(),
            prev@.len() == j + 1,
            forall|k: int| 0 <= k <= j ==> #[trigger] prev@[k] as nat == lev(a@.take(0), b@.take(k)),
        decreases blen - j,
    {
        j = j + 1;
        prev.push(j);
        proof {
            assert(a@.take(0) =~= Seq::<u8>::empty());
            assert(b@.take(j as int).len() == j);
        }
    }
    let mut idone: usize = 0;
    while idone < alen
        invariant
            idone <= alen,
            alen == a@.len(),
            blen == b@.len(),
            blen >= 1,
            prev@.len() == blen + 1,
            forall|k: int|
                0 <= k <= blen ==> #[trigger] prev@[k] as nat == lev(
                    a@.take(idone as int),
                    b@.take(k),
                ),
        decreases alen - idone,
    {
        let i: usize = idone + 1;
        let mut cur: Vec<usize> = Vec::new();
        cur.push(i);
        proof {
            assert(b@.take(0) =~= Seq::<u8>::empty());
            assert(a@.take(i as int).len() == i);
        }
        let mut jdone: usize = 0;
        while jdone < blen
            invariant
                jdone <= blen,
                i == idone + 1,
                idone < alen,
                alen == a@.len(),
                blen == b@.len(),
                prev@.len() == blen + 1,
                forall|k: int|
                    0 <= k <= blen ==> #[trigger] prev@[k] as nat == lev(
                        a@.take(idone as int),
                        b@.take(k),
                    ),
                cur@.len() == jdone + 1,
                forall|k: int|
                    0 <= k <= jdone ==> #[trigger] cur@[k] as nat == lev(
                        a@.take(i as int),
                        b@.take(k),
                    ),
            decreases blen - jdone,
        {
            let j2: usize = jdone + 1;
            let cost: usize = if a[i - 1] == b[j2 - 1] {
                0
            } else {
                1
            };
            proof {
                lemma_lev_le_max(a@.take(idone as int), b@.take(jdone as int));
            }
            let d1: usize = sat_inc(prev[j2]);
            let d2: usize = sat_inc(cur[j2 - 1]);
            let d3: usize = prev[j2 - 1] + cost;
            let val: usize = if d1 <= d2 && d1 <= d3 {
                d1
            } else if d2 <= d3 {
                d2
            } else {
                d3
            };
            proof {
                let ta = a@.take(i as int);
                let tb = b@.take(j2 as int);
                assert(ta.drop_last() =~= a@.take(idone as int));
                assert(tb.drop_last() =~= b@.take(jdone as int));
                assert(ta.last() == a@[idone as int]);
                assert(tb.last() == b@[jdone as int]);
                lemma_lev_le_max(ta, tb);
                lemma_lev_le_max(a@.take(idone as int), tb);
                lemma_lev_le_max(ta, b@.take(jdone as int));
                lemma_lev_le_max(a@.take(idone as int), b@.take(jdone as int));
                assert(val as nat == lev(ta, tb));
            }
            cur.push(val);
            jdone = j2;
        }
        prev = cur;
        idone = i;
    }
    proof {
        assert(a@.take(alen as int) =~= a@);
        assert(b@.take(blen as int) =~= b@);
    }
    prev[blen]
}

} // verus!
