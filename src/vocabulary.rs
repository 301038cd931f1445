//! The vocabulary: a one-to-one mapping of term keys to term ids, assigned
//! in order of first sight.
use vstd::prelude::*;

use std::collections::HashMap;

verus! {

broadcast use vstd::std_specs::hash::group_hash_axioms;

/// Whether some term has id `t`.
pub open spec fn id_used(m: Map<u64, u64>, t: u64) -> bool {
    exists|k: u64| #[trigger] m.contains_key(k) && m[k] == t
}

/// The term ids, and their number, after the terms `s` are seen in turn
/// starting from ids `m` of `n` terms: a term seen for the first time gets
/// the next id.
pub open spec fn assign(m: Map<u64, u64>, n: nat, s: Seq<u64>) -> (Map<u64, u64>, nat)
    decreases s.len(),
{
    if s.len() == 0 {
        (m, n)
    } else {
        let prev = assign(m, n, s.drop_last());
        let k = s.last();
        if prev.0.contains_key(k) {
            prev
        } else {
            (prev.0.insert(k, prev.1 as u64), prev.1 + 1)
        }
    }
}

/// Seeing `s1` then `s2` assigns as seeing `s1 + s2`.
pub proof fn lemma_assign_concat(m: Map<u64, u64>, n: nat, s1: Seq<u64>, s2: Seq<u64>)
    ensures
        assign(m, n, s1 + s2) == assign(assign(m, n, s1).0, assign(m, n, s1).1, s2),
    decreases s2.len(),
{
    if s2.len() == 0 {
        assert(s1 + s2 =~= s1);
    } else {
        lemma_assign_concat(m, n, s1, s2.drop_last());
        assert((s1 + s2).drop_last() =~= s1 + s2.drop_last());
        assert((s1 + s2).last() == s2.last());
    }
}

/// Seeing terms keeps the ids of known terms, and adds at most one id per
/// term seen.
pub proof fn lemma_assign_grows(m: Map<u64, u64>, n: nat, s: Seq<u64>)
    ensures
        n <= assign(m, n, s).1 <= n + s.len(),
        forall|k: u64| #[trigger] m.contains_key(k) ==> assign(m, n, s).0.contains_key(k) && assign(m, n, s).0[k] == m[k],
    decreases s.len(),
{
    if s.len() > 0 {
        lemma_assign_grows(m, n, s.drop_last());
    }
}

/// A bidirectional term to term-id mapping with monotonic assignment.
pub struct Vocabulary {
    terms: HashMap<u64, u64>,
    count: u64,
}

impl Vocabulary {
    /// The term ids by term.
    pub closed spec fn view(&self) -> Map<u64, u64> {
        self.terms@
    }

    /// The number of terms.
    pub closed spec fn spec_len(&self) -> nat {
        self.count as nat
    }

    /// The ids are one to one and exactly `0..len()`.
    pub closed spec fn wf(&self) -> bool {
        &&& forall|k: u64| #[trigger] self.terms@.contains_key(k) ==> self.terms@[k] < self.count
        &&& forall|k1: u64, k2: u64|
            self.terms@.contains_key(k1) && self.terms@.contains_key(k2) && #[trigger] self.terms@[k1]
                == #[trigger] self.terms@[k2] ==> k1 == k2
        &&& forall|t: u64| t < self.count ==> #[trigger] id_used(self.terms@, t)
    }

    /// The ids are below `len()` and one to one.
    pub proof fn lemma_ids(&self)
        requires
            self.wf(),
        ensures
            forall|k: u64| #[trigger] self@.contains_key(k) ==> self@[k] < self.spec_len(),
            forall|k1: u64, k2: u64|
                self@.contains_key(k1) && self@.contains_key(k2) && #[trigger] self@[k1] == #[trigger] self@[k2] ==> k1 == k2,
            forall|t: u64| t < self.spec_len() ==> #[trigger] id_used(self@, t),
            self.spec_len() <= u64::MAX,
    {
    }

    /// An empty vocabulary.
    pub fn new() -> (r: Self)
        ensures
            r.wf(),
            r@ == Map::<u64, u64>::empty(),
            r.spec_len() == 0,
    {
        Vocabulary { terms: HashMap::new(), count: 0 }
    }

    /// The number of terms.
    pub fn len(&self) -> (r: u64)
        ensures
            r == self.spec_len(),
    {
        self.count
    }

    /// The id of `term`, if it has one.
    pub fn get(&self, term: u64) -> (r: Option<u64>)
        ensures
            self@.contains_key(term) ==> r == Some(self@[term]),
            !self@.contains_key(term) ==> r is None,
    {
        match self.terms.get(&term) {
            Some(id) => Some(*id),
            None => None,
        }
    }

    /// The id of `term`, assigning the next id where it has none.
    pub fn get_or_add(&mut self, term: u64) -> (r: u64)
        requires
            old(self).wf(),
            old(self).spec_len() < u64::MAX,
        ensures
            final(self).wf(),
            old(self)@.contains_key(term) ==> r == old(self)@[term] && final(self)@ == old(self)@ && final(self).spec_len()
                == old(self).spec_len(),
            !old(self)@.contains_key(term) ==> r == old(self).spec_len() && final(self)@ == old(self)@.insert(term, r)
                && final(self).spec_len() == old(self).spec_len() + 1,
            (final(self)@, final(self).spec_len()) == assign(old(self)@, old(self).spec_len(), seq![term]),
    {
        proof {
            assert(seq![term].drop_last() =~= Seq::<u64>::empty());
            assert(seq![term].last() == term);
            assert(assign(self@, self.spec_len(), Seq::<u64>::empty()) == (self@, self.spec_len()));
        }
        match self.terms.get(&term) {
            Some(id) => *id,
            None => {
                let id = self.count;
                self.terms.insert(term, id);
                self.count = id + 1;
                proof {
                    let m = self.terms@;
                    assert forall|t: u64| t < self.count implies #[trigger] id_used(m, t) by {
                        if t == id {
                            assert(m.contains_key(term) && m[term] == t);
                        } else {
                            assert(id_used(old(self).terms@, t));
                            let k = choose|k: u64| #[trigger] old(self).terms@.contains_key(k) && old(self).terms@[k] == t;
                            assert(m.contains_key(k) && m[k] == t);
                        }
                    }
                }
                id
            },
        }
    }
}

} // verus!
