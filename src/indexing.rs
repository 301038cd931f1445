//! The indexing pipeline's stages: emitting `(term, document, position)`
//! triples, sorting and grouping a chunk of them into listings, and merging
//! grouped chunks into chunked storage.
use vstd::prelude::*;

use crate::chunked::{appendable, ChunkedStorage};
use crate::posting::{listing_view, Listing};

verus! {

/// A `(term_id, doc_id, position)` triple.
pub type Triple = (u64, u64, u32);

/// A sorted and grouped chunk: listings by ascending term id.
pub type GroupedChunk = Vec<(u64, Listing)>;

/// The `(doc_id, position)` entries of term `t` in a chunk, in chunk order.
pub open spec fn term_entries(c: Seq<Triple>, t: u64) -> Seq<(u64, u32)>
    decreases c.len(),
{
    if c.len() == 0 {
        seq![]
    } else {
        let e = c.last();
        let rest = term_entries(c.drop_last(), t);
        if e.0 == t {
            rest.push((e.1, e.2))
        } else {
            rest
        }
    }
}

/// Groups consecutive entries of equal document id into one posting.
pub open spec fn group_docs(s: Seq<(u64, u32)>) -> Seq<(u64, Seq<u32>)>
    decreases s.len(),
{
    if s.len() == 0 {
        seq![]
    } else {
        let g = group_docs(s.drop_last());
        let e = s.last();
        if g.len() > 0 && g.last().0 == e.0 {
            g.update(g.len() - 1, (e.0, g.last().1.push(e.1)))
        } else {
            g.push((e.0, seq![e.1]))
        }
    }
}

/// The mathematical view of a grouped chunk.
pub open spec fn grouped_view(g: Seq<(u64, Listing)>) -> Seq<(u64, Seq<(u64, Seq<u32>)>)> {
    g.map_values(|e: (u64, Listing)| (e.0, listing_view(e.1@)))
}

/// Whether `g` is chunk `c` sorted and grouped: one entry per term of the
/// chunk, by ascending term id, each holding that term's entries grouped by
/// document.
pub open spec fn is_grouping(c: Seq<Triple>, g: Seq<(u64, Seq<(u64, Seq<u32>)>)>) -> bool {
    &&& forall|i: int, j: int| 0 <= i < j < g.len() ==> #[trigger] g[i].0 < #[trigger] g[j].0
    &&& forall|i: int| 0 <= i < g.len() ==> #[trigger] g[i].1 == group_docs(term_entries(c, g[i].0))
    &&& forall|i: int| 0 <= i < g.len() ==> term_entries(c, #[trigger] g[i].0).len() > 0
    &&& forall|k: int|
        #![trigger c[k]]
        0 <= k < c.len() ==> exists|i: int| 0 <= i < g.len() && #[trigger] g[i].0 == c[k].0
}

pub proof fn lemma_term_entries_absent(c: Seq<Triple>, t: u64)
    requires
        forall|k: int| 0 <= k < c.len() ==> c[k].0 != t,
    ensures
        term_entries(c, t) == Seq::<(u64, u32)>::empty(),
    decreases c.len(),
{
    if c.len() > 0 {
        lemma_term_entries_absent(c.drop_last(), t);
    }
}

/// The index of the first entry whose term id is not below `t`.
fn find_term(grouped: &GroupedChunk, t: u64) -> (r: usize)
    requires
        forall|i: int, j: int| 0 <= i < j < grouped@.len() ==> grouped@[i].0 < grouped@[j].0,
    ensures
        r <= grouped@.len(),
        forall|i: int| 0 <= i < r ==> grouped@[i].0 < t,
        forall|i: int| r <= i < grouped@.len() ==> grouped@[i].0 >= t,
{
    let mut lo: usize = 0;
    let mut hi: usize = grouped.len();
    while lo < hi
        invariant
            lo <= hi <= grouped@.len(),
            forall|i: int, j: int| 0 <= i < j < grouped@.len() ==> grouped@[i].0 < grouped@[j].0,
            forall|i: int| 0 <= i < lo ==> grouped@[i].0 < t,
            forall|i: int| hi <= i < grouped@.len() ==> grouped@[i].0 >= t,
        decreases hi - lo,
    {
        let mid = lo + (hi - lo) / 2;
        if grouped[mid].0 < t {
            lo = mid + 1;
        } else {
            hi = mid;
        }
    }
    lo
}

/// Sorts a chunk of triples by term id and groups it: for each term, in
/// ascending order, its entries in chunk order, consecutive entries of one
/// document forming one posting.
pub fn sort_and_group_chunk(chunk: &Vec<Triple>) -> (r: GroupedChunk)
    ensures
        is_grouping(chunk@, grouped_view(r@)),
{
    let ghost c = chunk@;
    let mut grouped: GroupedChunk = Vec::new();
    let mut k: usize = 0;
    while k < chunk.len()
        invariant
            c == chunk@,
            k <= c.len(),
            is_grouping(c.take(k as int), grouped_view(grouped@)),
        decreases c.len() - k,
    {
        let (t, d, p) = chunk[k];
        let ghost pre = c.take(k as int);
        let ghost post = c.take(k + 1);
        let ghost gv = grouped_view(grouped@);
        assert(post.drop_last() =~= pre);
        assert(post.last() == (t, d, p));
        assert forall|i: int, j: int| 0 <= i < j < grouped@.len() implies grouped@[i].0 < grouped@[j].0 by {
            assert(gv[i].0 == grouped@[i].0 && gv[j].0 == grouped@[j].0);
        }
        let idx = find_term(&grouped, t);
        if idx < grouped.len() && grouped[idx].0 == t {
            let n = grouped[idx].1.len();
            assert(gv[idx as int].1 == group_docs(term_entries(pre, t)));
            let ghost es = term_entries(pre, t);
            assert(term_entries(post, t) == es.push((d, p)));
            assert(es.push((d, p)).drop_last() =~= es);
            assert(es.push((d, p)).last() == (d, p));
            let ghost g = gv[idx as int].1;
            assert(g == listing_view(grouped@[idx as int].1@));
            assert(g.len() == n);
            if n > 0 && grouped[idx].1[n - 1].0 == d {
                assert(g.last().0 == d);
                grouped[idx].1[n - 1].1.push(p);
                assert(listing_view(grouped@[idx as int].1@) =~= g.update(g.len() - 1, (d, g.last().1.push(p))));
            } else {
                assert(!(g.len() > 0 && g.last().0 == d));
                let mut positions: Vec<u32> = Vec::new();
                positions.push(p);
                assert(positions@ =~= seq![p]);
                grouped[idx].1.push((d, positions));
                assert(listing_view(grouped@[idx as int].1@) =~= g.push((d, seq![p])));
            }
            proof {
                let gv2 = grouped_view(grouped@);
                assert(gv2[idx as int].1 =~= group_docs(term_entries(post, t)));
                assert forall|i: int| 0 <= i < gv2.len() && i != idx implies #[trigger] gv2[i] == gv[i] by {}
                assert forall|i: int| 0 <= i < gv2.len() implies #[trigger] gv2[i].1 == group_docs(term_entries(post, gv2[i].0)) by {
                    if i != idx {
                        assert(gv2[i] == gv[i]);
                    }
                }
                assert forall|m: int| #![trigger post[m]] 0 <= m < post.len() implies exists|i: int| 0 <= i < gv2.len() && #[trigger] gv2[i].0 == post[m].0 by {
                    if m < k {
                        assert(post[m] == pre[m]);
                        let i = choose|i: int| 0 <= i < gv.len() && #[trigger] gv[i].0 == pre[m].0;
                        assert(gv2[i].0 == gv[i].0);
                    } else {
                        assert(gv2[idx as int].0 == t);
                    }
                }
                assert forall|i: int| 0 <= i < gv2.len() implies term_entries(post, #[trigger] gv2[i].0).len() > 0 by {
                    assert(gv2[i].0 == gv[i].0);
                }
            }
        } else {
            let mut positions: Vec<u32> = Vec::new();
            positions.push(p);
            let mut listing: Listing = Vec::new();
            listing.push((d, positions));
            grouped.insert(idx, (t, listing));
            proof {
                let gv2 = grouped_view(grouped@);
                assert forall|m: int| 0 <= m < pre.len() implies pre[m].0 != t by {
                    let i = choose|i: int| 0 <= i < gv.len() && #[trigger] gv[i].0 == pre[m].0;
                    if i < idx {
                        assert(gv[i].0 < t);
                    } else {
                        assert(gv[i].0 >= t);
                        if idx < gv.len() {
                            assert(gv[idx as int].0 != t);
                            if i > idx {
                                assert(gv[idx as int].0 < gv[i].0);
                            }
                        }
                    }
                }
                lemma_term_entries_absent(pre, t);
                assert(term_entries(post, t) =~= seq![(d, p)]);
                assert(group_docs(seq![(d, p)].drop_last()) == Seq::<(u64, Seq<u32>)>::empty()) by {
                    assert(seq![(d, p)].drop_last() =~= Seq::<(u64, u32)>::empty());
                }
                assert(gv2[idx as int].1 =~= group_docs(term_entries(post, t)));
                assert forall|i: int| 0 <= i < gv2.len() && i != idx implies #[trigger] gv2[i] == (if i < idx { gv[i] } else { gv[i - 1] }) by {}
                assert forall|i: int, j: int| 0 <= i < j < gv2.len() implies gv2[i].0 < gv2[j].0 by {
                    if j < idx {
                    } else if j == idx {
                        assert(gv2[i] == gv[i]);
                    } else if i == idx {
                        assert(gv2[j] == gv[j - 1]);
                    } else if i < idx {
                        assert(gv2[j] == gv[j - 1]);
                        assert(gv2[i] == gv[i]);
                    } else {
                        assert(gv2[j] == gv[j - 1]);
                        assert(gv2[i] == gv[i - 1]);
                    }
                }
                assert forall|i: int| 0 <= i < gv2.len() implies #[trigger] gv2[i].1 == group_docs(term_entries(post, gv2[i].0)) by {
                    if i < idx {
                        assert(gv2[i] == gv[i]);
                        assert(gv[i].0 != t);
                    } else if i > idx {
                        assert(gv2[i] == gv[i - 1]);
                        assert(gv[i - 1].0 != t);
                    }
                }
                assert forall|i: int| 0 <= i < gv2.len() implies term_entries(post, #[trigger] gv2[i].0).len() > 0 by {
                    if i < idx {
                        assert(gv2[i] == gv[i]);
                    } else if i > idx {
                        assert(gv2[i] == gv[i - 1]);
                    }
                }
                assert forall|m: int| #![trigger post[m]] 0 <= m < post.len() implies exists|i: int| 0 <= i < gv2.len() && #[trigger] gv2[i].0 == post[m].0 by {
                    if m < k {
                        assert(post[m] == pre[m]);
                        let i = choose|i: int| 0 <= i < gv.len() && #[trigger] gv[i].0 == pre[m].0;
                        if i < idx {
                            assert(gv2[i] == gv[i]);
                        } else {
                            assert(gv2[i + 1] == gv[i]);
                        }
                    } else {
                        assert(gv2[idx as int].0 == t);
                    }
                }
            }
        }
        k = k + 1;
    }
    assert(c.take(k as int) =~= c);
    grouped
}

/// Errors of an indexing run.
#[derive(Debug, Clone, Copy, PartialEq, Eq, Structural)]
pub enum IndexingError {
    /// A sorter or the merger aborted.
    ThreadPanic,
    /// Input that the pipeline never produces: a term id beyond the next
    /// one, or a listing that does not continue its term's listing.
    InvariantViolation,
}

/// The posting lists after merging the grouped entries `g` into posting
/// lists `s` in order: a term id equal to the number of terms gets a new
/// list; each listing must continue its term's list. `None` where an entry
/// breaks these rules.
pub open spec fn merge_model(
    s: Seq<Seq<(u64, Seq<u32>)>>,
    g: Seq<(u64, Seq<(u64, Seq<u32>)>)>,
) -> Option<Seq<Seq<(u64, Seq<u32>)>>>
    decreases g.len(),
{
    if g.len() == 0 {
        Some(s)
    } else {
        let t = g[0].0 as int;
        let l = g[0].1;
        let s1 = if t == s.len() {
            s.push(seq![])
        } else {
            s
        };
        if t <= s.len() && appendable(s1[t], l) {
            merge_model(s1.update(t, s1[t] + l), g.drop_first())
        } else {
            None
        }
    }
}

/// Merges a grouped chunk into the storage, term by term: a term id equal
/// to the number of stored terms gets its head chunk first. Fails with
/// `InvariantViolation` where `merge_model` has no result; the storage is
/// then partly written.
pub fn invert_chunk(storage: &mut ChunkedStorage, grouped: &GroupedChunk) -> (r: Result<(), IndexingError>)
    requires
        old(storage).wf(),
    ensures
        final(storage).wf(),
        final(storage).spec_chunk_size() == old(storage).spec_chunk_size(),
        match merge_model(old(storage)@, grouped_view(grouped@)) {
            Some(m) => r is Ok && final(storage)@ == m,
            None => r == Err::<(), IndexingError>(IndexingError::InvariantViolation),
        },
{
    let ghost gv = grouped_view(grouped@);
    let ghost whole = merge_model(storage@, gv);
    let mut i: usize = 0;
    assert(gv.skip(0) =~= gv);
    while i < grouped.len()
        invariant
            storage.wf(),
            storage.spec_chunk_size() == old(storage).spec_chunk_size(),
            gv == grouped_view(grouped@),
            whole == merge_model(old(storage)@, gv),
            i <= gv.len(),
            whole == merge_model(storage@, gv.skip(i as int)),
        decreases gv.len() - i,
    {
        let term_id = grouped[i].0;
        let ghost rest = gv.skip(i as int);
        assert(rest[0] == (term_id, listing_view(grouped@[i as int].1@)));
        assert(rest.drop_first() =~= gv.skip(i + 1));
        let n = storage.len();
        if term_id > n as u64 {
            return Err(IndexingError::InvariantViolation);
        }
        if term_id == n as u64 {
            let _ = storage.new_chunk(term_id);
        }
        match storage.append_listing(term_id, &grouped[i].1) {
            Ok(()) => {},
            Err(_) => {
                return Err(IndexingError::InvariantViolation);
            },
        }
        i = i + 1;
    }
    assert(gv.skip(i as int) =~= Seq::<(u64, Seq<(u64, Seq<u32>)>)>::empty());
    Ok(())
}

} // verus!
