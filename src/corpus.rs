//! The mathematical model of an indexed corpus: for each term, the listing
//! of the documents it occurs in with its positions there.
use vstd::prelude::*;

use crate::chunked::appendable;
use crate::indexing::{group_docs, merge_model};
use crate::posting::{strictly_ascending, valid_listing};

verus! {

/// The positions at which `key` occurs in document `doc`.
pub open spec fn occurrences(doc: Seq<u64>, key: u64) -> Seq<u32>
    decreases doc.len(),
{
    if doc.len() == 0 {
        seq![]
    } else {
        occurrences(doc.drop_last(), key) + if doc.last() == key {
            seq![(doc.len() - 1) as u32]
        } else {
            seq![]
        }
    }
}

/// The posting of `key` in document `d`, if it occurs there.
pub open spec fn doc_block(docs: Seq<Seq<u64>>, d: int, key: u64) -> Seq<(u64, Seq<u32>)> {
    let occ = occurrences(docs[d], key);
    if occ.len() > 0 {
        seq![(d as u64, occ)]
    } else {
        seq![]
    }
}

/// The listing of `key` over documents `a..b`.
pub open spec fn range_listing(docs: Seq<Seq<u64>>, a: int, b: int, key: u64) -> Seq<(u64, Seq<u32>)>
    decreases b - a,
{
    if b <= a {
        seq![]
    } else {
        range_listing(docs, a, b - 1, key) + doc_block(docs, b - 1, key)
    }
}

/// The listing of `key` over the whole corpus: every document it occurs in,
/// by ascending id, with its positions there.
pub open spec fn corpus_listing(docs: Seq<Seq<u64>>, key: u64) -> Seq<(u64, Seq<u32>)> {
    range_listing(docs, 0, docs.len() as int, key)
}

/// The `(doc_id, position)` entries of `key` in documents `a..b`, in order.
pub open spec fn range_entries(docs: Seq<Seq<u64>>, a: int, b: int, key: u64) -> Seq<(u64, u32)>
    decreases b - a,
{
    if b <= a {
        seq![]
    } else {
        range_entries(docs, a, b - 1, key) + block_entries((b - 1) as u64, occurrences(docs[b - 1], key))
    }
}

/// The entries of positions `occ` in document `d`.
pub open spec fn block_entries(d: u64, occ: Seq<u32>) -> Seq<(u64, u32)> {
    occ.map_values(|p: u32| (d, p))
}

pub proof fn lemma_range_split(docs: Seq<Seq<u64>>, a: int, b: int, c: int, key: u64)
    requires
        a <= b <= c,
    ensures
        range_listing(docs, a, c, key) == range_listing(docs, a, b, key) + range_listing(docs, b, c, key),
    decreases c - b,
{
    if c == b {
        assert(range_listing(docs, b, c, key) == Seq::<(u64, Seq<u32>)>::empty());
        assert(range_listing(docs, a, b, key) + Seq::<(u64, Seq<u32>)>::empty() =~= range_listing(docs, a, b, key));
    } else {
        lemma_range_split(docs, a, b, c - 1, key);
        assert(range_listing(docs, a, c, key) =~= range_listing(docs, a, b, key) + range_listing(docs, b, c, key));
    }
}

proof fn lemma_occurrences_bound(doc: Seq<u64>, key: u64)
    requires
        doc.len() <= u32::MAX + 1,
    ensures
        strictly_ascending(occurrences(doc, key)),
        forall|i: int| 0 <= i < occurrences(doc, key).len() ==> #[trigger] occurrences(doc, key)[i] < doc.len(),
    decreases doc.len(),
{
    if doc.len() > 0 {
        lemma_occurrences_bound(doc.drop_last(), key);
    }
}

pub proof fn lemma_range_bound(docs: Seq<Seq<u64>>, a: int, b: int, key: u64)
    requires
        0 <= a,
        b <= u64::MAX + 1,
    ensures
        forall|i: int| 0 <= i < range_listing(docs, a, b, key).len() ==> a <= #[trigger] range_listing(docs, a, b, key)[i].0 < b,
    decreases b - a,
{
    if b > a {
        lemma_range_bound(docs, a, b - 1, key);
        let l0 = range_listing(docs, a, b - 1, key);
        let l = range_listing(docs, a, b, key);
        assert forall|i: int| 0 <= i < l.len() implies a <= #[trigger] l[i].0 < b by {
            if i < l0.len() {
                assert(l[i] == l0[i]);
            } else {
                assert(l[i] == doc_block(docs, b - 1, key)[i - l0.len()]);
            }
        }
    }
}

/// The listing of a key over a range of documents is valid.
pub proof fn lemma_range_valid(docs: Seq<Seq<u64>>, a: int, b: int, key: u64)
    requires
        0 <= a,
        b <= docs.len(),
        docs.len() <= u64::MAX,
        forall|d: int| 0 <= d < docs.len() ==> (#[trigger] docs[d]).len() <= u32::MAX + 1,
    ensures
        valid_listing(range_listing(docs, a, b, key), a as nat),
    decreases b - a,
{
    if b > a {
        lemma_range_valid(docs, a, b - 1, key);
        lemma_range_bound(docs, a, b - 1, key);
        lemma_occurrences_bound(docs[b - 1], key);
        lemma_range_bound(docs, a, b, key);
        let l = range_listing(docs, a, b, key);
        let l0 = range_listing(docs, a, b - 1, key);
        assert forall|i: int| 0 <= i < l.len() implies strictly_ascending(#[trigger] l[i].1) by {
            if i < l0.len() {
                assert(l[i] == l0[i]);
            } else {
                assert(l[i] == doc_block(docs, b - 1, key)[i - l0.len()]);
            }
        }
        assert forall|i: int, j: int| 0 <= i < j < l.len() implies l[i].0 < l[j].0 by {
            if j < l0.len() {
                assert(l[i] == l0[i] && l[j] == l0[j]);
            } else {
                assert(l[j] == doc_block(docs, b - 1, key)[j - l0.len()]);
                assert(i < l0.len());
                assert(l[i] == l0[i]);
                assert(l0[i].0 < b - 1);
            }
        }
    }
}

proof fn lemma_group_bound(s: Seq<(u64, u32)>, d: u64)
    requires
        forall|i: int| 0 <= i < s.len() ==> #[trigger] s[i].0 < d,
    ensures
        forall|i: int| 0 <= i < group_docs(s).len() ==> #[trigger] group_docs(s)[i].0 < d,
    decreases s.len(),
{
    if s.len() > 0 {
        let init = s.drop_last();
        assert forall|i: int| 0 <= i < init.len() implies #[trigger] init[i].0 < d by {
            assert(init[i] == s[i]);
        }
        lemma_group_bound(init, d);
        let g = group_docs(init);
        assert(s.last().0 < d) by {
            assert(s[s.len() - 1].0 < d);
        }
        let r = group_docs(s);
        assert forall|i: int| 0 <= i < r.len() implies #[trigger] r[i].0 < d by {
            if i < g.len() {
                if g.len() > 0 && i == g.len() - 1 {
                    assert(g[g.len() - 1].0 < d);
                } else {
                    assert(g[i].0 < d);
                }
            }
        }
    }
}

proof fn lemma_group_block(x: Seq<(u64, u32)>, d: u64, occ: Seq<u32>)
    requires
        forall|i: int| 0 <= i < x.len() ==> #[trigger] x[i].0 < d,
        occ.len() > 0,
    ensures
        group_docs(x + block_entries(d, occ)) == group_docs(x).push((d, occ)),
    decreases occ.len(),
{
    let p = occ.last();
    let init = occ.drop_last();
    assert(x + block_entries(d, occ) =~= (x + block_entries(d, init)).push((d, p)));
    let s = x + block_entries(d, occ);
    assert(s.drop_last() =~= x + block_entries(d, init));
    if init.len() == 0 {
        assert(x + block_entries(d, init) =~= x);
        lemma_group_bound(x, d);
        let g = group_docs(x);
        if g.len() > 0 {
            assert(g[g.len() - 1].0 < d);
        }
        assert(occ =~= seq![p]);
    } else {
        lemma_group_block(x, d, init);
        assert(init.push(p) =~= occ);
    }
}

/// Grouping the entries of a key over documents `a..b` by document gives
/// its listing over those documents.
pub proof fn lemma_group_range(docs: Seq<Seq<u64>>, a: int, b: int, key: u64)
    requires
        0 <= a,
        b <= u64::MAX + 1,
    ensures
        group_docs(range_entries(docs, a, b, key)) == range_listing(docs, a, b, key),
    decreases b - a,
{
    if b > a {
        lemma_group_range(docs, a, b - 1, key);
        let x = range_entries(docs, a, b - 1, key);
        let occ = occurrences(docs[b - 1], key);
        lemma_range_entries_bound(docs, a, b - 1, key);
        if occ.len() > 0 {
            lemma_group_block(x, (b - 1) as u64, occ);
        } else {
            assert(block_entries((b - 1) as u64, occ) =~= seq![]);
            assert(x + block_entries((b - 1) as u64, occ) =~= x);
            assert(range_listing(docs, a, b - 1, key) + doc_block(docs, b - 1, key) =~= range_listing(docs, a, b - 1, key));
        }
    }
}

proof fn lemma_range_entries_bound(docs: Seq<Seq<u64>>, a: int, b: int, key: u64)
    requires
        0 <= a,
        b <= u64::MAX + 1,
    ensures
        forall|i: int| 0 <= i < range_entries(docs, a, b, key).len() ==> #[trigger] range_entries(docs, a, b, key)[i].0 < b,
    decreases b - a,
{
    if b > a {
        lemma_range_entries_bound(docs, a, b - 1, key);
        let x = range_entries(docs, a, b - 1, key);
        let y = block_entries((b - 1) as u64, occurrences(docs[b - 1], key));
        assert forall|i: int| 0 <= i < (x + y).len() implies #[trigger] (x + y)[i].0 < b by {
            if i >= x.len() {
                assert(y[i - x.len()].0 == b - 1);
            }
        }
    }
}

/// Whether a grouped chunk has an entry for term id `t`.
pub open spec fn has_term(g: Seq<(u64, Seq<(u64, Seq<u32>)>)>, t: int) -> bool {
    exists|i: int| 0 <= i < g.len() && #[trigger] g[i].0 == t
}

/// The listing for term id `t` in a grouped chunk, or nothing.
pub open spec fn listing_of(g: Seq<(u64, Seq<(u64, Seq<u32>)>)>, t: int) -> Seq<(u64, Seq<u32>)> {
    if has_term(g, t) {
        g[choose|i: int| 0 <= i < g.len() && #[trigger] g[i].0 == t].1
    } else {
        seq![]
    }
}

/// The listing of term id `t` in `s`, or nothing beyond its end.
pub open spec fn base_of(s: Seq<Seq<(u64, Seq<u32>)>>, t: int) -> Seq<(u64, Seq<u32>)> {
    if 0 <= t < s.len() {
        s[t]
    } else {
        seq![]
    }
}

/// Merging a grouped chunk whose term ids rise strictly, reach every id
/// from the number of stored terms up to `n` and none beyond, and whose
/// listings each continue their term's listing, appends each listing to
/// its term.
pub proof fn lemma_merge(s: Seq<Seq<(u64, Seq<u32>)>>, g: Seq<(u64, Seq<(u64, Seq<u32>)>)>, n: int)
    requires
        s.len() <= n,
        forall|i: int, j: int| 0 <= i < j < g.len() ==> #[trigger] g[i].0 < #[trigger] g[j].0,
        forall|i: int| 0 <= i < g.len() ==> #[trigger] g[i].0 < n,
        forall|t: int| s.len() <= t < n ==> #[trigger] has_term(g, t),
        forall|i: int| 0 <= i < g.len() ==> appendable(base_of(s, #[trigger] g[i].0 as int), g[i].1),
    ensures
        merge_model(s, g) == Some(Seq::new(n as nat, |t: int| base_of(s, t) + listing_of(g, t))),
    decreases g.len(),
{
    let expect = Seq::new(n as nat, |t: int| base_of(s, t) + listing_of(g, t));
    if g.len() == 0 {
        if s.len() < n {
            let t = s.len() as int;
            assert(has_term(g, t));
        }
        assert forall|t: int| 0 <= t < n implies #[trigger] expect[t] == s[t] by {
            assert(!(exists|i: int| 0 <= i < g.len() && #[trigger] g[i].0 == t));
            assert(s[t] + Seq::<(u64, Seq<u32>)>::empty() =~= s[t]);
        }
        assert(expect =~= s);
    } else {
        let t0 = g[0].0 as int;
        let l0 = g[0].1;
        let rest = g.drop_first();
        if t0 > s.len() {
            let t = s.len() as int;
            assert(has_term(g, t));
            let i = choose|i: int| 0 <= i < g.len() && #[trigger] g[i].0 == t;
            if i > 0 {
                assert(g[0].0 < g[i].0);
            }
        }
        let s0 = if t0 == s.len() { s.push(seq![]) } else { s };
        assert(s0[t0] == base_of(s, t0));
        assert(appendable(base_of(s, t0), l0));
        let s1 = s0.update(t0, s0[t0] + l0);
        assert forall|i: int, j: int| 0 <= i < j < rest.len() implies #[trigger] rest[i].0 < #[trigger] rest[j].0 by {
            assert(rest[i] == g[i + 1] && rest[j] == g[j + 1]);
        }
        assert forall|i: int| 0 <= i < rest.len() implies #[trigger] rest[i].0 < n by {
            assert(rest[i] == g[i + 1]);
        }
        assert forall|t: int| s1.len() <= t < n implies #[trigger] has_term(rest, t) by {
            assert(has_term(g, t));
            let i = choose|i: int| 0 <= i < g.len() && #[trigger] g[i].0 == t;
            assert(i != 0);
            assert(rest[i - 1] == g[i]);
        }
        assert forall|i: int| 0 <= i < rest.len() implies appendable(base_of(s1, #[trigger] rest[i].0 as int), rest[i].1) by {
            assert(rest[i] == g[i + 1]);
            assert(g[0].0 < g[i + 1].0);
            assert(base_of(s1, rest[i].0 as int) == base_of(s, g[i + 1].0 as int));
        }
        lemma_merge(s1, rest, n);
        let got = Seq::new(n as nat, |t: int| base_of(s1, t) + listing_of(rest, t));
        assert forall|t: int| 0 <= t < n implies #[trigger] got[t] == expect[t] by {
            if t == t0 {
                assert(!(exists|i: int| 0 <= i < rest.len() && #[trigger] rest[i].0 == t)) by {
                    if exists|i: int| 0 <= i < rest.len() && #[trigger] rest[i].0 == t {
                        let i = choose|i: int| 0 <= i < rest.len() && #[trigger] rest[i].0 == t;
                        assert(rest[i] == g[i + 1]);
                        assert(g[0].0 < g[i + 1].0);
                    }
                }
                let i = choose|i: int| 0 <= i < g.len() && #[trigger] g[i].0 == t;
                if i != 0 {
                    assert(g[0].0 < g[i].0);
                }
                assert(listing_of(g, t) == l0);
                assert(base_of(s1, t) + Seq::<(u64, Seq<u32>)>::empty() =~= base_of(s, t) + l0);
            } else {
                assert(base_of(s1, t) == base_of(s, t));
                if exists|i: int| 0 <= i < g.len() && #[trigger] g[i].0 == t {
                    let i = choose|i: int| 0 <= i < g.len() && #[trigger] g[i].0 == t;
                    assert(i != 0);
                    assert(rest[i - 1] == g[i]);
                    let j = choose|j: int| 0 <= j < rest.len() && #[trigger] rest[j].0 == t;
                    assert(rest[j] == g[j + 1]);
                    if j + 1 != i {
                        if j + 1 < i {
                            assert(g[j + 1].0 < g[i].0);
                        } else {
                            assert(g[i].0 < g[j + 1].0);
                        }
                    }
                    assert(listing_of(rest, t) == listing_of(g, t));
                } else {
                    assert(!(exists|i: int| 0 <= i < rest.len() && #[trigger] rest[i].0 == t)) by {
                        if exists|i: int| 0 <= i < rest.len() && #[trigger] rest[i].0 == t {
                            let i = choose|i: int| 0 <= i < rest.len() && #[trigger] rest[i].0 == t;
                            assert(rest[i] == g[i + 1]);
                        }
                    }
                }
            }
        }
        assert(got =~= expect);
    }
}

/// The listing of a key over documents `a..b` depends on those documents only.
pub proof fn lemma_range_prefix(d1: Seq<Seq<u64>>, d2: Seq<Seq<u64>>, a: int, b: int, key: u64)
    requires
        forall|i: int| a <= i < b ==> #[trigger] d1[i] == d2[i],
    ensures
        range_listing(d1, a, b, key) == range_listing(d2, a, b, key),
    decreases b - a,
{
    if b > a {
        lemma_range_prefix(d1, d2, a, b - 1, key);
        assert(d1[b - 1] == d2[b - 1]);
    }
}

/// Whether term `key` occurs in document `d` of the corpus.
pub open spec fn occurs_in(docs: Seq<Seq<u64>>, key: u64, d: u64) -> bool {
    d < docs.len() && occurrences(docs[d as int], key).len() > 0
}

/// Each posting of a key's listing over documents `a..b` is a document of
/// the range with the key's positions there; every document of the range
/// where the key occurs has one.
pub proof fn lemma_range_shape(docs: Seq<Seq<u64>>, a: int, b: int, key: u64)
    requires
        0 <= a,
        b <= docs.len(),
        docs.len() <= u64::MAX,
    ensures
        forall|k: int|
            0 <= k < range_listing(docs, a, b, key).len() ==> {
                let e = #[trigger] range_listing(docs, a, b, key)[k];
                &&& a <= e.0 < b
                &&& e.1 == occurrences(docs[e.0 as int], key)
                &&& e.1.len() > 0
            },
        forall|d: int|
            a <= d < b && #[trigger] occurrences(docs[d], key).len() > 0 ==> exists|k: int|
                0 <= k < range_listing(docs, a, b, key).len() && #[trigger] range_listing(docs, a, b, key)[k].0 == d,
    decreases b - a,
{
    if b > a {
        lemma_range_shape(docs, a, b - 1, key);
        let l0 = range_listing(docs, a, b - 1, key);
        let l = range_listing(docs, a, b, key);
        assert forall|k: int| 0 <= k < l.len() implies {
            let e = #[trigger] l[k];
            &&& a <= e.0 < b
            &&& e.1 == occurrences(docs[e.0 as int], key)
            &&& e.1.len() > 0
        } by {
            if k < l0.len() {
                assert(l[k] == l0[k]);
            } else {
                assert(l[k] == doc_block(docs, b - 1, key)[k - l0.len()]);
            }
        }
        assert forall|d: int| a <= d < b && #[trigger] occurrences(docs[d], key).len() > 0 implies exists|k: int|
            0 <= k < l.len() && #[trigger] l[k].0 == d by {
            if d < b - 1 {
                let k = choose|k: int| 0 <= k < l0.len() && #[trigger] l0[k].0 == d;
                assert(l[k] == l0[k]);
            } else {
                assert(l[l0.len() as int] == doc_block(docs, b - 1, key)[0]);
            }
        }
    }
}

} // verus!
