//! First-seen ordinal assignment: each distinct key gets the next
//! counter value the first time it appears, and the same value ever
//! after.  The renderer numbers footnote identifiers with this.

use vstd::prelude::*;
use crate::strutil::str_eq;

verus! {

/// The position of the first occurrence of `k` in `ids`.
pub open spec fn seq_first_index(ids: Seq<Seq<char>>, k: Seq<char>) -> int
    decreases ids.len(),
{
    if ids.len() == 0 {
        0
    } else if ids[0] == k {
        0
    } else {
        1 + seq_first_index(ids.drop_first(), k)
    }
}

/// Looking a key up: its ordinal, and the key list afterwards (grown
/// by the key when it is new).
pub open spec fn ctr_lookup(ids: Seq<Seq<char>>, k: Seq<char>) -> (int, Seq<Seq<char>>) {
    if ids.contains(k) {
        (seq_first_index(ids, k), ids)
    } else {
        (ids.len() as int, ids.push(k))
    }
}

pub proof fn lemma_first_index_of(ids: Seq<Seq<char>>, k: Seq<char>, j: int)
    requires
        0 <= j < ids.len(),
        ids[j] == k,
        forall|t: int| 0 <= t < j ==> ids[t] != k,
    ensures
        ids.contains(k),
        seq_first_index(ids, k) == j,
    decreases j,
{
    assert(ids.contains(k)) by {
        assert(ids[j] == k);
    }
    if j > 0 {
        assert(ids[0] != k);
        lemma_first_index_of(ids.drop_first(), k, j - 1);
    }
}

/// A key's ordinal is assigned at first sight and never moves: looking
/// the same key up again returns the same ordinal and leaves the key
/// list alone.
pub proof fn lemma_ctr_lookup_stable(ids: Seq<Seq<char>>, k: Seq<char>)
    ensures
        ctr_lookup(ctr_lookup(ids, k).1, k).0 == ctr_lookup(ids, k).0,
        ctr_lookup(ctr_lookup(ids, k).1, k).1 == ctr_lookup(ids, k).1,
{
    if !ids.contains(k) {
        let ids2 = ids.push(k);
        assert(ids2[ids.len() as int] == k);
        assert(ids2.contains(k));
        assert forall|t: int| 0 <= t < ids.len() implies ids2[t] != k by {
            assert(ids2[t] == ids[t]);
            if ids[t] == k {
                assert(ids.contains(k));
            }
        }
        lemma_first_index_of(ids2, k, ids.len() as int);
    }
}

/// The first occurrence of a seen key does not move when the list
/// grows at the end.
proof fn lemma_first_index_push(ids: Seq<Seq<char>>, k: Seq<char>, other: Seq<char>)
    requires
        ids.contains(k),
    ensures
        ids.push(other).contains(k),
        seq_first_index(ids.push(other), k) == seq_first_index(ids, k),
    decreases ids.len(),
{
    let j = choose|j: int| 0 <= j < ids.len() && ids[j] == k;
    assert(ids.push(other)[j] == k);
    assert(ids.push(other).contains(k));
    if ids[0] == k {
    } else {
        assert(ids.drop_first().contains(k)) by {
            assert(j > 0);
            assert(ids.drop_first()[j - 1] == k);
        }
        lemma_first_index_push(ids.drop_first(), k, other);
        assert(ids.push(other).drop_first() =~= ids.drop_first().push(other));
    }
}

/// A key already seen keeps its ordinal however many other keys are
/// looked up after it; within one render a footnote identifier's
/// ordinal is therefore fixed at its first reference or definition.
pub proof fn lemma_ctr_lookup_preserves(ids: Seq<Seq<char>>, k: Seq<char>, other: Seq<char>)
    requires
        ids.contains(k),
    ensures
        ctr_lookup(ids, k).1.contains(k),
        ctr_lookup(ctr_lookup(ids, other).1, k).0 == ctr_lookup(ids, k).0,
{
    if !ids.contains(other) {
        lemma_first_index_push(ids, k, other);
    }
}

/// Assigns sequential ordinals to string keys in first-seen order.
pub struct Sequential {
    keys: Vec<String>,
}

impl View for Sequential {
    type V = Seq<Seq<char>>;

    closed spec fn view(&self) -> Seq<Seq<char>> {
        self.keys.deep_view()
    }
}

impl Default for Sequential {
    /// An empty counter: no key has an ordinal yet.
    fn default() -> (r: Self)
        ensures
            r@ =~= Seq::<Seq<char>>::empty(),
    {
        Sequential { keys: Vec::new() }
    }
}

impl Sequential {
    /// The number of keys seen so far.
    pub fn len(&self) -> (r: usize)
        ensures
            r == self@.len(),
    {
        self.keys.len()
    }

    /// The key that was given an ordinal `i`.
    pub fn key_at(&self, i: usize) -> (r: &String)
        requires
            i < self@.len(),
        ensures
            r@ == self@[i as int],
    {
        &self.keys[i]
    }

    /// The ordinal for a key: its first-seen position.  A key not seen
    /// before is appended, so it gets the next free ordinal.
    pub fn value(&mut self, k: &str) -> (r: u64)
        ensures
            (r as int, final(self)@) == ctr_lookup(old(self)@, k@),
            final(self)@.len() <= old(self)@.len() + 1,
            r < final(self)@.len(),
            r <= usize::MAX as u64,
    {
        let n = self.keys.len();
        let mut j: usize = 0;
        while j < n
            invariant
                n == self.keys@.len(),
                j <= n,
                self@ == self.keys.deep_view(),
                forall|t: int| 0 <= t < j ==> self@[t] != k@,
            decreases n - j,
        {
            proof {
                assert(self@[j as int] == self.keys@[j as int]@);
            }
            if str_eq(self.keys[j].as_str(), k) {
                proof {
                    lemma_first_index_of(self@, k@, j as int);
                }
                return j as u64;
            }
            j = j + 1;
        }
        proof {
            assert(!self@.contains(k@)) by {
                if self@.contains(k@) {
                    let t = choose|t: int| 0 <= t < self@.len() && self@[t] == k@;
                    assert(self@[t] != k@);
                }
            }
        }
        let r = self.keys.len() as u64;
        self.keys.push(k.to_owned());
        proof {
            assert(self.keys.deep_view() =~= old(self)@.push(k@));
        }
        r
    }
}

} // verus!
