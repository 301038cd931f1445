//! Queries over an index: trees of terms combined by AND and OR, and
//! ordered phrases of terms, executed through the n-ary iterators.
use vstd::prelude::*;

use crate::corpus::{corpus_listing, lemma_range_shape, occurrences, occurs_in};
use crate::index::{docs_fit, Index};
use crate::posting::{listing_view, strictly_ascending, valid_listing, Listing};
use crate::nary::{
    aligned, aligned_at, all_have, any_has, ascending_docs, ops_match, BooleanOperator,
    NAryQueryIterator, PositionalOperator, QueryResultIterator,
};

verus! {

/// A query: a term, an n-ary combination of queries, or a phrase.
pub enum Query {
    /// The documents that hold the term.
    Atom(u64),
    /// The documents that answer all the queries.
    And(Vec<Query>),
    /// The documents that answer some of the queries.
    Or(Vec<Query>),
    /// The documents that hold the terms one after the other: for some
    /// position `p`, the `i`-th term at `p + i`.
    InOrder(Vec<u64>),
}

/// Whether document `d` of the corpus answers query `q`.
pub open spec fn query_matches(docs: Seq<Seq<u64>>, q: Query, d: u64) -> bool
    decreases q, 0nat,
{
    match q {
        Query::Atom(t) => occurs_in(docs, t, d),
        Query::And(qs) => qs@.len() > 0 && all_match(docs, qs@, d, 0),
        Query::Or(qs) => any_match(docs, qs@, d, 0),
        Query::InOrder(ts) => all_occur(docs, ts@, d) && exists|p: int| #[trigger] phrase_at(docs, ts@, d, p),
    }
}

/// Whether document `d` answers each of the queries `qs` from the `i`-th on.
pub open spec fn all_match(docs: Seq<Seq<u64>>, qs: Seq<Query>, d: u64, i: nat) -> bool
    decreases qs, qs.len() - i,
{
    if i >= qs.len() {
        true
    } else {
        query_matches(docs, qs[i as int], d) && all_match(docs, qs, d, i + 1)
    }
}

/// Whether document `d` answers one of the queries `qs` from the `i`-th on.
pub open spec fn any_match(docs: Seq<Seq<u64>>, qs: Seq<Query>, d: u64, i: nat) -> bool
    decreases qs, qs.len() - i,
{
    if i >= qs.len() {
        false
    } else {
        query_matches(docs, qs[i as int], d) || any_match(docs, qs, d, i + 1)
    }
}

/// Whether every phrase of query `q` has at most as many terms as a `u32`
/// can number.
pub open spec fn query_fits(q: Query) -> bool
    decreases q, 0nat,
{
    match q {
        Query::Atom(_) => true,
        Query::And(qs) => all_fit(qs@, 0),
        Query::Or(qs) => all_fit(qs@, 0),
        Query::InOrder(ts) => ts@.len() <= u32::MAX + 1,
    }
}

/// Whether the queries `qs` from the `i`-th on all fit (see `query_fits`).
pub open spec fn all_fit(qs: Seq<Query>, i: nat) -> bool
    decreases qs, qs.len() - i,
{
    if i >= qs.len() {
        true
    } else {
        query_fits(qs[i as int]) && all_fit(qs, i + 1)
    }
}

/// `all_match` and `any_match` say what their names say.
pub proof fn lemma_match_lists(docs: Seq<Seq<u64>>, qs: Seq<Query>, d: u64, i: nat)
    ensures
        all_match(docs, qs, d, i) <==> forall|j: int| i <= j < qs.len() ==> #[trigger] query_matches(docs, qs[j], d),
        any_match(docs, qs, d, i) <==> exists|j: int| i <= j < qs.len() && #[trigger] query_matches(docs, qs[j], d),
    decreases qs.len() - i,
{
    if i < qs.len() {
        lemma_match_lists(docs, qs, d, i + 1);
        if any_match(docs, qs, d, i) {
            if query_matches(docs, qs[i as int], d) {
                assert(i <= i < qs.len() && query_matches(docs, qs[i as int], d));
            }
        }
        if exists|j: int| i <= j < qs.len() && #[trigger] query_matches(docs, qs[j], d) {
            let j = choose|j: int| i <= j < qs.len() && #[trigger] query_matches(docs, qs[j], d);
            if j > i {
                assert(i + 1 <= j < qs.len() && query_matches(docs, qs[j], d));
            }
        }
    }
}

/// `all_fit` says what its name says.
pub proof fn lemma_fit_list(qs: Seq<Query>, i: nat)
    ensures
        all_fit(qs, i) <==> forall|j: int| i <= j < qs.len() ==> #[trigger] query_fits(qs[j]),
    decreases qs.len() - i,
{
    if i < qs.len() {
        lemma_fit_list(qs, i + 1);
        if forall|j: int| i <= j < qs.len() ==> #[trigger] query_fits(qs[j]) {
            assert(query_fits(qs[i as int]));
        }
    }
}

/// Whether all of the terms `ts` (and there is one) occur in document `d`.
pub open spec fn all_occur(docs: Seq<Seq<u64>>, ts: Seq<u64>, d: u64) -> bool {
    ts.len() > 0 && forall|i: int| 0 <= i < ts.len() ==> occurs_in(docs, #[trigger] ts[i], d)
}

/// Whether the `i`-th of `ts` occurs at `p + i` in document `d`, for each `i`.
pub open spec fn phrase_at(docs: Seq<Seq<u64>>, ts: Seq<u64>, d: u64, p: int) -> bool {
    forall|i: int| 0 <= i < ts.len() ==> #[trigger] term_at(docs, ts[i], d, p + i)
}

/// Whether term `t` occurs at position `q` of document `d`.
pub open spec fn term_at(docs: Seq<Seq<u64>>, t: u64, d: u64, q: int) -> bool {
    0 <= q <= u32::MAX && occurrences(docs[d as int], t).contains(q as u32)
}

/// Operands whose `i`-th is a fresh cursor over the corpus listing of the
/// `i`-th term, at relative position `i`.
spec fn leaf_ops(docs: Seq<Seq<u64>>, ts: Seq<u64>, ops: Seq<QueryResultIterator>) -> bool {
    &&& ops.len() == ts.len()
    &&& forall|i: int|
        0 <= i < ops.len() ==> (#[trigger] ops[i]).wf() && ops[i].cursor() == 0 && ops[i].rel() == i
            && ops[i].postings_view() == corpus_listing(docs, ts[i])
}

proof fn lemma_leaf(docs: Seq<Seq<u64>>, t: u64, op: QueryResultIterator, d: u64, q: int)
    requires
        docs.len() <= u64::MAX,
        op.wf(),
        op.cursor() == 0,
        op.postings_view() == corpus_listing(docs, t),
    ensures
        op.has_doc(d) <==> occurs_in(docs, t, d),
        op.has_position(d, q) <==> d < docs.len() && occurrences(docs[d as int], t).contains(q as u32) && 0 <= q <= u32::MAX,
{
    let l = corpus_listing(docs, t);
    lemma_range_shape(docs, 0, docs.len() as int, t);
    if op.has_doc(d) {
        let k = choose|k: int| 0 <= k < l.len() && #[trigger] l[k].0 == d;
        assert(l[k].1 == occurrences(docs[d as int], t));
    }
    if occurs_in(docs, t, d) {
        assert(occurrences(docs[d as int], t).len() > 0);
        let k = choose|k: int| 0 <= k < l.len() && #[trigger] l[k].0 == d as int;
        assert(l[k].0 == d);
    }
    if op.has_position(d, q) {
        let (k, j) = choose|k: int, j: int|
            0 <= k < l.len() && l[k].0 == d && 0 <= j < l[k].1.len() && #[trigger] l[k].1[j] == q;
        assert(l[k].1 == occurrences(docs[d as int], t));
        assert(l[k].1[j] == q as u32);
    }
    if d < docs.len() && occurrences(docs[d as int], t).contains(q as u32) && 0 <= q <= u32::MAX {
        let occ = occurrences(docs[d as int], t);
        assert(occ.len() > 0);
        let k = choose|k: int| 0 <= k < l.len() && #[trigger] l[k].0 == d as int;
        assert(l[k].0 == d);
        assert(l[k].1 == occ);
        let j = choose|j: int| 0 <= j < occ.len() && occ[j] == q as u32;
        assert(l[k].1[j] == q);
    }
}

proof fn lemma_perm_match(a: Seq<QueryResultIterator>, b: Seq<QueryResultIterator>, k: Option<BooleanOperator>, d: u64)
    requires
        a.to_multiset() == b.to_multiset(),
    ensures
        ops_match(a, k, d) == ops_match(b, k, d),
{
    vstd::seq_lib::to_multiset_len(a);
    vstd::seq_lib::to_multiset_len(b);
    assert forall|i: int| 0 <= i < a.len() implies b.contains(#[trigger] a[i]) by {
        assert(a.contains(a[i]));
        vstd::seq_lib::to_multiset_contains(a, a[i]);
        vstd::seq_lib::to_multiset_contains(b, a[i]);
    }
    assert forall|i: int| 0 <= i < b.len() implies a.contains(#[trigger] b[i]) by {
        assert(b.contains(b[i]));
        vstd::seq_lib::to_multiset_contains(a, b[i]);
        vstd::seq_lib::to_multiset_contains(b, b[i]);
    }
    if all_have(a, d) {
        assert forall|j: int| 0 <= j < b.len() implies #[trigger] b[j].has_doc(d) by {
            let i = choose|i: int| 0 <= i < a.len() && a[i] == b[j];
            assert(a[i].has_doc(d));
        }
    }
    if all_have(b, d) {
        assert forall|i: int| 0 <= i < a.len() implies #[trigger] a[i].has_doc(d) by {
            let j = choose|j: int| 0 <= j < b.len() && b[j] == a[i];
            assert(b[j].has_doc(d));
        }
    }
    if any_has(a, d) {
        let i = choose|i: int| 0 <= i < a.len() && #[trigger] a[i].has_doc(d);
        let j = choose|j: int| 0 <= j < b.len() && b[j] == a[i];
        assert(b[j].has_doc(d));
    }
    if any_has(b, d) {
        let j = choose|j: int| 0 <= j < b.len() && #[trigger] b[j].has_doc(d);
        let i = choose|i: int| 0 <= i < a.len() && a[i] == b[j];
        assert(a[i].has_doc(d));
    }
    if aligned(a, d) {
        let p = choose|p: int| #[trigger] aligned_at(a, d, p);
        assert forall|j: int| 0 <= j < b.len() implies #[trigger] b[j].has_position(d, p + b[j].rel()) by {
            let i = choose|i: int| 0 <= i < a.len() && a[i] == b[j];
            assert(a[i].has_position(d, p + a[i].rel()));
        }
        assert(aligned_at(b, d, p));
    }
    if aligned(b, d) {
        let p = choose|p: int| #[trigger] aligned_at(b, d, p);
        assert forall|i: int| 0 <= i < a.len() implies #[trigger] a[i].has_position(d, p + a[i].rel()) by {
            let j = choose|j: int| 0 <= j < b.len() && b[j] == a[i];
            assert(b[j].has_position(d, p + b[j].rel()));
        }
        assert(aligned_at(a, d, p));
    }
}

proof fn lemma_in_order_ops(docs: Seq<Seq<u64>>, ts: Seq<u64>, ov: Seq<QueryResultIterator>, d: u64)
    requires
        docs_fit(docs),
        ts.len() > 0,
        leaf_ops(docs, ts, ov),
    ensures
        (all_have(ov, d) && aligned(ov, d)) <==> (all_occur(docs, ts, d) && exists|p: int| #[trigger] phrase_at(docs, ts, d, p)),
{
    assert forall|i: int| 0 <= i < ov.len() implies (#[trigger] ov[i]).has_doc(d) == occurs_in(docs, ts[i], d) by {
        lemma_leaf(docs, ts[i], ov[i], d, 0);
    }
    if all_occur(docs, ts, d) && exists|p: int| #[trigger] phrase_at(docs, ts, d, p) {
        assert forall|i: int| 0 <= i < ov.len() implies #[trigger] ov[i].has_doc(d) by {
            assert(occurs_in(docs, ts[i], d));
        }
        let p = choose|p: int| #[trigger] phrase_at(docs, ts, d, p);
        assert forall|i: int| 0 <= i < ov.len() implies #[trigger] ov[i].has_position(d, p + ov[i].rel()) by {
            lemma_leaf(docs, ts[i], ov[i], d, p + i);
            assert(term_at(docs, ts[i], d, p + i));
            assert(occurs_in(docs, ts[i], d));
        }
        assert(aligned_at(ov, d, p));
    }
    if all_have(ov, d) && aligned(ov, d) {
        assert forall|i: int| 0 <= i < ts.len() implies occurs_in(docs, #[trigger] ts[i], d) by {
            assert(ov[i].has_doc(d));
        }
        let p = choose|p: int| #[trigger] aligned_at(ov, d, p);
        assert forall|i: int| 0 <= i < ts.len() implies #[trigger] term_at(docs, ts[i], d, p + i) by {
            assert(ov[i].has_position(d, p + ov[i].rel()));
            lemma_leaf(docs, ts[i], ov[i], d, p + i);
        }
        assert(phrase_at(docs, ts, d, p));
    }
}

/// The listing of ascending documents `ds`, without positions.
fn doc_listing(ds: &Vec<u64>) -> (r: Listing)
    requires
        ascending_docs(ds@),
    ensures
        valid_listing(listing_view(r@), 0),
        listing_view(r@).len() == ds@.len(),
        forall|k: int| 0 <= k < ds@.len() ==> #[trigger] listing_view(r@)[k].0 == ds@[k],
{
    let mut r: Listing = Vec::new();
    let mut i: usize = 0;
    while i < ds.len()
        invariant
            ascending_docs(ds@),
            i <= ds@.len(),
            listing_view(r@).len() == i,
            forall|k: int| 0 <= k < i ==> #[trigger] listing_view(r@)[k] == (ds@[k], Seq::<u32>::empty()),
        decreases ds@.len() - i,
    {
        let ghost before = r@;
        let positions: Vec<u32> = Vec::new();
        r.push((ds[i], positions));
        proof {
            assert(positions@ =~= Seq::<u32>::empty());
            assert forall|k: int| 0 <= k < i + 1 implies #[trigger] listing_view(r@)[k] == (ds@[k], Seq::<u32>::empty()) by {
                if k < i {
                    assert(r@[k] == before[k]);
                    assert(listing_view(before)[k] == (ds@[k], Seq::<u32>::empty()));
                    assert(listing_view(r@)[k] == listing_view(before)[k]);
                } else {
                    assert(r@[k] == (ds@[k], positions));
                    assert(listing_view(r@)[k] == (ds@[k], positions@));
                }
            }
        }
        i = i + 1;
    }
    proof {
        let lv = listing_view(r@);
        assert forall|k: int| 0 <= k < lv.len() implies strictly_ascending(#[trigger] lv[k].1) by {
            assert(lv[k].1 == Seq::<u32>::empty());
        }
        assert forall|a: int, b: int| 0 <= a < b < lv.len() implies lv[a].0 < lv[b].0 by {
            assert(lv[a].0 == ds@[a] && lv[b].0 == ds@[b]);
        }
    }
    r
}

impl Index {
    /// The documents that answer query `q`, by ascending id.
    pub fn execute_query(&self, q: &Query) -> (r: Vec<u64>)
        requires
            self.wf(),
            query_fits(*q),
        ensures
            ascending_docs(r@),
            forall|d: u64| r@.contains(d) <==> query_matches(self.documents(), *q, d),
        decreases q,
    {
        let ghost docs = self.documents();
        proof {
            self.lemma_docs_fit();
        }
        match q {
            Query::Atom(t) => {
                let listing = self.query_atom(*t);
                proof {
                    crate::corpus::lemma_range_valid(docs, 0, docs.len() as int, *t);
                }
                let op = QueryResultIterator::new(listing, 0);
                let mut ops: Vec<QueryResultIterator> = Vec::new();
                ops.push(op);
                proof {
                    assert forall|d: u64| ops_match(ops@, Some(BooleanOperator::Or), d) <==> occurs_in(docs, *t, d) by {
                        lemma_leaf(docs, *t, ops@[0], d, 0);
                        if occurs_in(docs, *t, d) {
                            assert(ops@[0].has_doc(d));
                        }
                    }
                }
                let mut it = NAryQueryIterator::new(BooleanOperator::Or, ops);
                proof {
                    assert forall|d: u64| it.matches(d) <==> query_matches(docs, *q, d) by {
                        lemma_perm_match(it.operands_view(), ops@, Some(BooleanOperator::Or), d);
                    }
                }
                it.collect_docs()
            },
            Query::And(qs) => {
                if qs.len() == 0 {
                    return Vec::new();
                }
                proof {
                    lemma_fit_list(qs@, 0);
                }
                let ops = self.sub_operands(qs);
                let ghost ov = ops@;
                let mut it = NAryQueryIterator::new(BooleanOperator::And, ops);
                proof {
                    assert forall|d: u64| it.matches(d) <==> query_matches(docs, *q, d) by {
                        lemma_perm_match(it.operands_view(), ov, Some(BooleanOperator::And), d);
                        lemma_match_lists(docs, qs@, d, 0);
                        if query_matches(docs, *q, d) {
                            assert forall|i: int| 0 <= i < ov.len() implies #[trigger] ov[i].has_doc(d) by {
                                assert(query_matches(docs, qs@[i], d));
                            }
                        }
                        if all_have(ov, d) {
                            assert forall|i: int| 0 <= i < qs@.len() implies #[trigger] query_matches(docs, qs@[i], d) by {
                                assert(ov[i].has_doc(d));
                            }
                        }
                    }
                }
                it.collect_docs()
            },
            Query::Or(qs) => {
                if qs.len() == 0 {
                    proof {
                        assert forall|d: u64| !query_matches(docs, *q, d) by {
                            lemma_match_lists(docs, qs@, d, 0);
                        }
                    }
                    return Vec::new();
                }
                proof {
                    lemma_fit_list(qs@, 0);
                }
                let ops = self.sub_operands(qs);
                let ghost ov = ops@;
                let mut it = NAryQueryIterator::new(BooleanOperator::Or, ops);
                proof {
                    assert forall|d: u64| it.matches(d) <==> query_matches(docs, *q, d) by {
                        lemma_perm_match(it.operands_view(), ov, Some(BooleanOperator::Or), d);
                        lemma_match_lists(docs, qs@, d, 0);
                        if query_matches(docs, *q, d) {
                            let i = choose|i: int| 0 <= i < qs@.len() && #[trigger] query_matches(docs, qs@[i], d);
                            assert(ov[i].has_doc(d));
                        }
                        if any_has(ov, d) {
                            let i = choose|i: int| 0 <= i < ov.len() && #[trigger] ov[i].has_doc(d);
                            assert(query_matches(docs, qs@[i], d));
                        }
                    }
                }
                it.collect_docs()
            },
            Query::InOrder(ts) => {
                if ts.len() == 0 {
                    return Vec::new();
                }
                let ops = self.leaf_operands(ts);
                let ghost ov = ops@;
                let mut it = NAryQueryIterator::new_positional(PositionalOperator::InOrder, ops);
                proof {
                    assert forall|d: u64| it.matches(d) <==> query_matches(docs, *q, d) by {
                        lemma_perm_match(it.operands_view(), ov, None, d);
                        lemma_in_order_ops(docs, ts@, ov, d);
                    }
                }
                it.collect_docs()
            },
        }
    }

    /// Cursors over the documents of the sub-queries `qs`, in order.
    fn sub_operands(&self, qs: &Vec<Query>) -> (r: Vec<QueryResultIterator>)
        requires
            self.wf(),
            forall|i: int| 0 <= i < qs@.len() ==> #[trigger] query_fits(qs@[i]),
        ensures
            r@.len() == qs@.len(),
            forall|i: int| 0 <= i < r@.len() ==> (#[trigger] r@[i]).wf(),
            forall|i: int, d: u64| 0 <= i < r@.len() ==> (#[trigger] r@[i].has_doc(d) <==> query_matches(self.documents(), qs@[i], d)),
        decreases qs,
    {
        let mut ops: Vec<QueryResultIterator> = Vec::new();
        let mut i: usize = 0;
        while i < qs.len()
            invariant
                self.wf(),
                forall|j: int| 0 <= j < qs@.len() ==> #[trigger] query_fits(qs@[j]),
                i <= qs@.len(),
                ops@.len() == i,
                forall|j: int| 0 <= j < i ==> (#[trigger] ops@[j]).wf(),
                forall|j: int, d: u64| 0 <= j < i ==> (#[trigger] ops@[j].has_doc(d) <==> query_matches(self.documents(), qs@[j], d)),
            decreases qs@.len() - i,
        {
            let sub = self.execute_query(&qs[i]);
            let listing = doc_listing(&sub);
            let op = QueryResultIterator::new(listing, 0);
            proof {
                assert forall|d: u64| #[trigger] op.has_doc(d) <==> query_matches(self.documents(), qs@[i as int], d) by {
                    let pv = op.postings_view();
                    if op.has_doc(d) {
                        let k = choose|k: int| 0 <= k < pv.len() && #[trigger] pv[k].0 == d;
                        assert(sub@[k] == d);
                    }
                    if sub@.contains(d) {
                        let k = choose|k: int| 0 <= k < sub@.len() && sub@[k] == d;
                        assert(pv[k].0 == d);
                    }
                }
            }
            ops.push(op);
            i = i + 1;
        }
        ops
    }

    /// Fresh cursors over the postings of the terms `ts`, the `i`-th at
    /// relative position `i`.
    fn leaf_operands(&self, ts: &Vec<u64>) -> (r: Vec<QueryResultIterator>)
        requires
            self.wf(),
            ts@.len() <= u32::MAX + 1,
        ensures
            leaf_ops(self.documents(), ts@, r@),
    {
        let ghost docs = self.documents();
        let mut ops: Vec<QueryResultIterator> = Vec::new();
        let mut i: usize = 0;
        while i < ts.len()
            invariant
                self.wf(),
                docs == self.documents(),
                ts@.len() <= u32::MAX + 1,
                i <= ts@.len(),
                ops@.len() == i,
                forall|j: int|
                    0 <= j < i ==> (#[trigger] ops@[j]).wf() && ops@[j].cursor() == 0 && ops@[j].rel() == j
                        && ops@[j].postings_view() == corpus_listing(docs, ts@[j]),
            decreases ts@.len() - i,
        {
            let listing = self.query_atom(ts[i]);
            proof {
                self.lemma_docs_fit();
                crate::corpus::lemma_range_valid(docs, 0, docs.len() as int, ts@[i as int]);
            }
            ops.push(QueryResultIterator::new(listing, i as u32));
            i = i + 1;
        }
        ops
    }
}

proof fn lemma_occurrences_index(doc: Seq<u64>, key: u64, q: int)
    requires
        doc.len() <= u32::MAX + 1,
    ensures
        (0 <= q <= u32::MAX && occurrences(doc, key).contains(q as u32)) <==> (0 <= q < doc.len() && doc[q] == key),
    decreases doc.len(),
{
    if doc.len() > 0 {
        let init = doc.drop_last();
        lemma_occurrences_index(init, key, q);
        let o0 = occurrences(init, key);
        let o = occurrences(doc, key);
        if 0 <= q <= u32::MAX && o.contains(q as u32) {
            let j = choose|j: int| 0 <= j < o.len() && o[j] == q as u32;
            if j < o0.len() {
                assert(o0[j] == o[j]);
                assert(o0.contains(q as u32));
                assert(doc[q] == init[q]);
            }
        }
        if 0 <= q < doc.len() && doc[q] == key {
            if q < init.len() {
                assert(init[q] == doc[q]);
                let j = choose|j: int| 0 <= j < o0.len() && o0[j] == q as u32;
                assert(o[j] == o0[j]);
            } else {
                assert(o[o0.len() as int] == q as u32);
            }
        }
    }
}

/// The documents of a term query are those whose terms contain the term.
pub proof fn law_atom_query(docs: Seq<Seq<u64>>, t: u64, d: u64)
    requires
        docs_fit(docs),
    ensures
        query_matches(docs, Query::Atom(t), d) <==> d < docs.len() && exists|j: int| 0 <= j < docs[d as int].len() && #[trigger] docs[d as int][j] == t,
{
    if d < docs.len() {
        let doc = docs[d as int];
        let o = occurrences(doc, t);
        if o.len() > 0 {
            lemma_occurrences_index(doc, t, o[0] as int);
            assert(o.contains(o[0]));
        }
        if exists|j: int| 0 <= j < doc.len() && #[trigger] doc[j] == t {
            let j = choose|j: int| 0 <= j < doc.len() && #[trigger] doc[j] == t;
            lemma_occurrences_index(doc, t, j);
        }
    }
}

/// The documents of `A AND B` are the documents of `A` that are also
/// documents of `B`.
pub proof fn law_and_is_intersection(docs: Seq<Seq<u64>>, qs: Vec<Query>, d: u64)
    requires
        qs@.len() == 2,
    ensures
        query_matches(docs, Query::And(qs), d) <==> query_matches(docs, qs@[0], d) && query_matches(docs, qs@[1], d),
{
    lemma_match_lists(docs, qs@, d, 0);
    if query_matches(docs, qs@[0], d) && query_matches(docs, qs@[1], d) {
        assert forall|j: int| 0 <= j < qs@.len() implies #[trigger] query_matches(docs, qs@[j], d) by {
            if j == 1 {
            }
        }
    }
}

/// The documents of `A OR B` are the documents of `A` together with those
/// of `B`.
pub proof fn law_or_is_union(docs: Seq<Seq<u64>>, qs: Vec<Query>, d: u64)
    requires
        qs@.len() == 2,
    ensures
        query_matches(docs, Query::Or(qs), d) <==> query_matches(docs, qs@[0], d) || query_matches(docs, qs@[1], d),
{
    lemma_match_lists(docs, qs@, d, 0);
    if query_matches(docs, qs@[1], d) {
        assert(0 <= 1 < qs@.len() && query_matches(docs, qs@[1], d));
    }
    if query_matches(docs, qs@[0], d) {
        assert(0 <= 0 < qs@.len() && query_matches(docs, qs@[0], d));
    }
    if query_matches(docs, Query::Or(qs), d) {
        let j = choose|j: int| 0 <= j < qs@.len() && #[trigger] query_matches(docs, qs@[j], d);
        if j == 1 {
        }
    }
}

/// A document answers the phrase `t1 t2` exactly where `t1` stands at
/// some position and `t2` right after it.
pub proof fn law_in_order_pair(docs: Seq<Seq<u64>>, ts: Vec<u64>, d: u64)
    requires
        docs_fit(docs),
        ts@.len() == 2,
    ensures
        query_matches(docs, Query::InOrder(ts), d) <==> d < docs.len() && exists|p: int|
            0 <= p && p + 1 < docs[d as int].len() && #[trigger] docs[d as int][p] == ts@[0] && docs[d as int][p + 1] == ts@[1],
{
    let t1 = ts@[0];
    let t2 = ts@[1];
    if query_matches(docs, Query::InOrder(ts), d) {
        let doc = docs[d as int];
        let p = choose|p: int| #[trigger] phrase_at(docs, ts@, d, p);
        assert(term_at(docs, ts@[0], d, p + 0));
        assert(term_at(docs, ts@[1], d, p + 1));
        lemma_occurrences_index(doc, t1, p);
        lemma_occurrences_index(doc, t2, p + 1);
        assert(0 <= p && p + 1 < doc.len() && doc[p] == t1 && doc[p + 1] == t2);
    }
    if d < docs.len() && exists|p: int| 0 <= p && p + 1 < docs[d as int].len() && #[trigger] docs[d as int][p] == ts@[0] && docs[d as int][p + 1] == ts@[1] {
        let doc = docs[d as int];
        let p = choose|p: int| 0 <= p && p + 1 < docs[d as int].len() && #[trigger] docs[d as int][p] == ts@[0] && docs[d as int][p + 1] == ts@[1];
        lemma_occurrences_index(doc, t1, p);
        lemma_occurrences_index(doc, t2, p + 1);
        assert forall|i: int| 0 <= i < ts@.len() implies #[trigger] term_at(docs, ts@[i], d, p + i) by {
            if i == 0 {
                assert(p + i == p);
            } else {
                assert(p + i == p + 1);
            }
        }
        assert(phrase_at(docs, ts@, d, p));
        assert forall|i: int| 0 <= i < ts@.len() implies occurs_in(docs, #[trigger] ts@[i], d) by {
            assert(term_at(docs, ts@[i], d, p + i));
        }
    }
}

} // verus!
