//! Metric maps.
//!
//! A metric map binds node identifiers to scores.  It is kept as an
//! association list with distinct keys, in insertion order, so that walking
//! the entries is deterministic and fully verified.

use crate::score::Score;
use vstd::prelude::*;

verus! {

/// The score bound to `k` in the entry sequence `s`, if any.
pub open spec fn seq_get(s: Seq<(usize, Score)>, k: usize) -> Option<Score>
    decreases s.len(),
{
    if s.len() == 0 {
        None
    } else if s[0].0 == k {
        Some(s[0].1)
    } else {
        seq_get(s.drop_first(), k)
    }
}

/// The keys of an entry sequence, in order.
pub open spec fn keys_of(s: Seq<(usize, Score)>) -> Seq<usize> {
    s.map_values(|e: (usize, Score)| e.0)
}

/// A key is bound exactly when it occurs among the keys.
pub proof fn lemma_seq_get_some(s: Seq<(usize, Score)>, k: usize)
    ensures
        seq_get(s, k) is Some <==> keys_of(s).contains(k),
    decreases s.len(),
{
    if s.len() > 0 {
        lemma_seq_get_some(s.drop_first(), k);
        assert(keys_of(s.drop_first()) =~= keys_of(s).drop_first());
        assert(keys_of(s)[0] == s[0].0);
        if s[0].0 == k {
            assert(keys_of(s).contains(k));
        }
        if s[0].0 != k {
            assert(keys_of(s).contains(k) <==> keys_of(s).drop_first().contains(k)) by {
                if keys_of(s).contains(k) {
                    let i = choose|i: int|
                        0 <= i < keys_of(s).len() && keys_of(s)[i] == k;
                    assert(i != 0);
                    assert(keys_of(s).drop_first()[i - 1] == k);
                }
                if keys_of(s).drop_first().contains(k) {
                    let j = choose|j: int|
                        0 <= j < keys_of(s).drop_first().len() && keys_of(s).drop_first()[j]
                            == k;
                    assert(keys_of(s)[j + 1] == k);
                }
            }
        }
    }
}

/// A metric map from node identifiers to scores.
pub struct MetricMap {
    entries: Vec<(usize, Score)>,
}

impl MetricMap {
    /// The entries, in insertion order.
    pub closed spec fn rows(self) -> Seq<(usize, Score)> {
        self.entries@
    }

    /// The score bound to `k`, if any.
    pub open spec fn spec_get(self, k: usize) -> Option<Score> {
        seq_get(self.rows(), k)
    }

    /// Keys are distinct and every score is well formed.
    pub open spec fn wf(self) -> bool {
        &&& keys_of(self.rows()).no_duplicates()
        &&& forall|i: int|
            0 <= i < self.rows().len() ==> (#[trigger] self.rows()[i].1).wf()
    }

    pub fn new() -> (m: MetricMap)
        ensures
            m.wf(),
            m.rows() == Seq::<(usize, Score)>::empty(),
    {
        let m = MetricMap { entries: Vec::new() };
        proof {
            assert(m.rows() =~= Seq::<(usize, Score)>::empty());
            assert(keys_of(m.rows()) =~= Seq::<usize>::empty());
        }
        m
    }

    /// Binds `k`, not yet bound, to `v`.
    pub fn insert(&mut self, k: usize, v: Score)
        requires
            old(self).wf(),
            old(self).spec_get(k) is None,
            v.wf(),
        ensures
            final(self).wf(),
            final(self).rows() == old(self).rows().push((k, v)),
    {
        proof {
            lemma_seq_get_some(self.rows(), k);
            assert(keys_of(self.rows().push((k, v))) =~= keys_of(self.rows()).push(k));
        }
        self.entries.push((k, v));
    }

    pub fn len(&self) -> (n: usize)
        ensures
            n == self.rows().len(),
    {
        self.entries.len()
    }

    pub fn is_empty(&self) -> (r: bool)
        ensures
            r == (self.rows().len() == 0),
    {
        self.entries.len() == 0
    }

    /// The entries, for callers that walk the whole map.
    pub fn entries(&self) -> (r: &Vec<(usize, Score)>)
        ensures
            r@ == self.rows(),
    {
        &self.entries
    }

    /// Looks `k` up by scanning the entries.
    pub fn get(&self, k: usize) -> (r: Option<Score>)
        ensures
            r == self.spec_get(k),
    {
        let n = self.entries.len();
        let mut i: usize = 0;
        proof {
            assert(self.rows().skip(0) =~= self.rows());
        }
        while i < n
            invariant
                n == self.rows().len(),
                0 <= i <= n,
                seq_get(self.rows(), k) == seq_get(self.rows().skip(i as int), k),
            decreases n - i,
        {
            proof {
                let s = self.rows().skip(i as int);
                assert(s[0] == self.rows()[i as int]);
                assert(s.drop_first() =~= self.rows().skip(i as int + 1));
            }
            let e = self.entries[i];
            if e.0 == k {
                return Some(e.1);
            }
            i = i + 1;
        }
        proof {
            assert(self.rows().skip(n as int) =~= Seq::<(usize, Score)>::empty());
        }
        None
    }

    pub fn contains_key(&self, k: usize) -> (r: bool)
        ensures
            r == (self.spec_get(k) is Some),
    {
        self.get(k).is_some()
    }
}

} // verus!
