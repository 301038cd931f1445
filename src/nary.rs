//! n-ary query iterators (AND, OR, ordered phrase) over posting cursors, and
//! the positional intersection they build on.
use vstd::prelude::*;

use crate::posting::{listing_view, strictly_ascending, valid_listing, Listing, Posting};

verus! {

/// Whether index `a` of `l` and index `b` of `r` are a pair whose difference
/// `l[a] - r[b]` lies in the closed window `[lo, hi]`.
pub open spec fn window_pair(l: Seq<u32>, r: Seq<u32>, a: int, b: int, lo: int, hi: int) -> bool {
    &&& 0 <= a < l.len()
    &&& 0 <= b < r.len()
    &&& lo <= l[a] - r[b] <= hi
}

spec fn pair_at(l: Seq<u32>, r: Seq<u32>, ab: (int, int)) -> (u32, u32) {
    (l[ab.0], r[ab.1])
}

/// Whether index pair `ab` lies before the walk position `(i, j)`.
spec fn walked(ab: (int, int), i: int, j: int) -> bool {
    ab.0 < i || ab.1 < j
}

spec fn pairs_invariant(
    l: Seq<u32>,
    r: Seq<u32>,
    lo: int,
    hi: int,
    res: Seq<(u32, u32)>,
    idx: Seq<(int, int)>,
) -> bool {
    &&& res.len() == idx.len()
    &&& forall|k: int| 0 <= k < res.len() ==> #[trigger] res[k] == pair_at(l, r, idx[k])
    &&& forall|k: int| 0 <= k < res.len() ==> window_pair(l, r, #[trigger] idx[k].0, idx[k].1, lo, hi)
    &&& forall|k: int, m: int| 0 <= k < m < idx.len() ==> #[trigger] idx[k] != #[trigger] idx[m]
}

proof fn lemma_pairs_distinct(l: Seq<u32>, r: Seq<u32>, lo: int, hi: int, res: Seq<(u32, u32)>, idx: Seq<(int, int)>)
    requires
        strictly_ascending(l),
        strictly_ascending(r),
        pairs_invariant(l, r, lo, hi, res, idx),
    ensures
        res.no_duplicates(),
{
    assert forall|k: int, m: int| 0 <= k < res.len() && 0 <= m < res.len() && k != m implies res[k] != res[m] by {
        assert(window_pair(l, r, idx[k].0, idx[k].1, lo, hi));
        assert(window_pair(l, r, idx[m].0, idx[m].1, lo, hi));
        if k < m {
            assert(idx[k] != idx[m]);
        } else {
            assert(idx[m] != idx[k]);
        }
        if idx[k].0 != idx[m].0 {
            assert(l[idx[k].0] != l[idx[m].0]);
        } else {
            assert(r[idx[k].1] != r[idx[m].1]);
        }
    }
}

/// The pairs that the scan downwards in `l` from index `d` collects for
/// the match at column `j`: while `l[d] - r[j]` stays at most `hi`.
pub open spec fn down_scan(l: Seq<u32>, r: Seq<u32>, j: int, d: int, hi: int) -> Seq<(u32, u32)>
    decreases l.len() - d,
{
    if 0 <= d < l.len() && 0 <= j < r.len() && l[d] - r[j] <= hi {
        seq![(l[d], r[j])] + down_scan(l, r, j, d + 1, hi)
    } else {
        seq![]
    }
}

/// The pairs that the scan to the right in `r` from index `k` collects for
/// the match at row `i`: while `l[i] - r[k]` stays at least `lo`.
pub open spec fn right_scan(l: Seq<u32>, r: Seq<u32>, i: int, k: int, lo: int) -> Seq<(u32, u32)>
    decreases r.len() - k,
{
    if 0 <= k < r.len() && 0 <= i < l.len() && l[i] - r[k] >= lo {
        seq![(l[i], r[k])] + right_scan(l, r, i, k + 1, lo)
    } else {
        seq![]
    }
}

/// The pairs of the two-pointer walk from indices `(i, j)`, in the order
/// it emits them: at a match the pair itself, then the scan downwards,
/// then the scan to the right, then the walk on from `(i + 1, j + 1)`;
/// otherwise the walk on past the pointer whose advance narrows the gap.
pub open spec fn walk(l: Seq<u32>, r: Seq<u32>, lo: int, hi: int, i: int, j: int) -> Seq<(u32, u32)>
    decreases l.len() - i + r.len() - j,
{
    if 0 <= i < l.len() && 0 <= j < r.len() {
        let diff = l[i] - r[j];
        if lo <= diff <= hi {
            seq![(l[i], r[j])] + down_scan(l, r, j, i + 1, hi) + right_scan(l, r, i, j + 1, lo) + walk(l, r, lo, hi, i + 1, j + 1)
        } else if diff > hi {
            walk(l, r, lo, hi, i, j + 1)
        } else {
            walk(l, r, lo, hi, i + 1, j)
        }
    } else {
        seq![]
    }
}

/// Pairs the positions of `lhs` with those of `rhs` whose difference
/// `lhs - rhs` lies in the closed window `bounds`. Two pointers walk both
/// lists; at each match the walk collects the adjacent matches below it in
/// `lhs` and to the right of it in `rhs`. Every matching pair comes out once;
/// with a window of a single offset both sides come out strictly ascending.
pub fn positional_intersect(lhs: &[u32], rhs: &[u32], bounds: (i64, i64)) -> (res: Vec<(u32, u32)>)
    requires
        strictly_ascending(lhs@),
        strictly_ascending(rhs@),
    ensures
        forall|k: int|
            0 <= k < res@.len() ==> lhs@.contains(#[trigger] res@[k].0) && rhs@.contains(res@[k].1)
                && bounds.0 <= res@[k].0 - res@[k].1 <= bounds.1,
        forall|a: int, b: int|
            #[trigger] window_pair(lhs@, rhs@, a, b, bounds.0 as int, bounds.1 as int)
                ==> res@.contains((lhs@[a], rhs@[b])),
        res@.no_duplicates(),
        res@ == walk(lhs@, rhs@, bounds.0 as int, bounds.1 as int, 0, 0),
        bounds.0 == bounds.1 ==> forall|k: int, m: int|
            0 <= k < m < res@.len() ==> #[trigger] res@[k].0 < #[trigger] res@[m].0 && res@[k].1
                < res@[m].1,
{
    let ghost l = lhs@;
    let ghost r = rhs@;
    let ghost lo = bounds.0 as int;
    let ghost hi = bounds.1 as int;
    let mut result: Vec<(u32, u32)> = Vec::new();
    let ghost mut idx: Seq<(int, int)> = seq![];
    let mut lhs_ptr: usize = 0;
    let mut rhs_ptr: usize = 0;
    while lhs_ptr < lhs.len() && rhs_ptr < rhs.len()
        invariant
            result@ + walk(l, r, lo, hi, lhs_ptr as int, rhs_ptr as int) == walk(l, r, lo, hi, 0, 0),
            l == lhs@,
            r == rhs@,
            lo == bounds.0,
            hi == bounds.1,
            strictly_ascending(l),
            strictly_ascending(r),
            lhs_ptr <= l.len(),
            rhs_ptr <= r.len(),
            pairs_invariant(l, r, lo, hi, result@, idx),
            forall|k: int| 0 <= k < idx.len() ==> walked(#[trigger] idx[k], lhs_ptr as int, rhs_ptr as int),
            forall|a: int, b: int|
                #[trigger] window_pair(l, r, a, b, lo, hi) && walked((a, b), lhs_ptr as int, rhs_ptr as int)
                    ==> result@.contains((l[a], r[b])),
            lo == hi ==> forall|k: int|
                0 <= k < idx.len() ==> #[trigger] idx[k].0 < lhs_ptr && idx[k].1 < rhs_ptr,
            lo == hi ==> forall|k: int, m: int|
                0 <= k < m < idx.len() ==> #[trigger] idx[k].0 < #[trigger] idx[m].0 && idx[k].1 < idx[m].1,
        decreases l.len() - lhs_ptr + r.len() - rhs_ptr,
    {
        let lval = lhs[lhs_ptr] as i64;
        let rval = rhs[rhs_ptr] as i64;
        let diff = lval - rval;
        if diff >= bounds.0 && diff <= bounds.1 {
            let ghost i = lhs_ptr as int;
            let ghost j = rhs_ptr as int;
            let ghost before = result@;
            result.push((lhs[lhs_ptr], rhs[rhs_ptr]));
            proof {
                let w = walk(l, r, lo, hi, i, j);
                assert(w == seq![(l[i], r[j])] + down_scan(l, r, j, i + 1, hi) + right_scan(l, r, i, j + 1, lo) + walk(l, r, lo, hi, i + 1, j + 1));
                assert(result@ + down_scan(l, r, j, i + 1, hi) + right_scan(l, r, i, j + 1, lo) + walk(l, r, lo, hi, i + 1, j + 1)
                    =~= before + w);
                idx = idx.push((i, j));
                assert(result@[before.len() as int] == (l[i], r[j]));
                assert forall|a: int, b: int|
                    #[trigger] window_pair(l, r, a, b, lo, hi) && walked((a, b), i, j)
                        implies result@.contains((l[a], r[b])) by {
                    let k = choose|k: int| 0 <= k < before.len() && before[k] == (l[a], r[b]);
                    assert(result@[k] == before[k]);
                }
            }
            // scan downwards in lhs
            let mut d: usize = lhs_ptr + 1;
            while d < lhs.len() && lhs[d] as i64 - rval <= bounds.1
                invariant
                    result@ + down_scan(l, r, j, d as int, hi) + right_scan(l, r, i, j + 1, lo) + walk(l, r, lo, hi, i + 1, j + 1)
                        == walk(l, r, lo, hi, 0, 0),
                    l == lhs@,
                    r == rhs@,
                    lo == bounds.0,
                    hi == bounds.1,
                    strictly_ascending(l),
                    strictly_ascending(r),
                    i == lhs_ptr,
                    j == rhs_ptr,
                    0 <= i < l.len(),
                    0 <= j < r.len(),
                    rval == r[j],
                    lval == l[i],
                    window_pair(l, r, i, j, lo, hi),
                    i < d <= l.len(),
                    pairs_invariant(l, r, lo, hi, result@, idx),
                    forall|k: int|
                        0 <= k < idx.len() ==> walked(#[trigger] idx[k], i, j) || (idx[k].1 == j && i
                            <= idx[k].0 < d),
                    forall|a: int, b: int|
                        #[trigger] window_pair(l, r, a, b, lo, hi) && (walked((a, b), i, j) || (b == j
                            && i <= a < d)) ==> result@.contains((l[a], r[b])),
                    lo == hi ==> d == i + 1,
                    lo == hi ==> forall|k: int|
                        0 <= k < idx.len() ==> #[trigger] idx[k].0 <= i && idx[k].1 <= j,
                    lo == hi ==> forall|k: int, m: int|
                        0 <= k < m < idx.len() ==> #[trigger] idx[k].0 < #[trigger] idx[m].0 && idx[k].1
                            < idx[m].1,
                decreases l.len() - d,
            {
                let ghost before = result@;
                assert(l[i] < l[d as int]);
                result.push((lhs[d], rhs[rhs_ptr]));
                proof {
                    assert(down_scan(l, r, j, d as int, hi) == seq![(l[d as int], r[j])] + down_scan(l, r, j, d + 1, hi));
                    assert(result@ + down_scan(l, r, j, d + 1, hi) + right_scan(l, r, i, j + 1, lo) + walk(l, r, lo, hi, i + 1, j + 1)
                        =~= before + down_scan(l, r, j, d as int, hi) + right_scan(l, r, i, j + 1, lo) + walk(l, r, lo, hi, i + 1, j + 1));
                    idx = idx.push((d as int, j));
                    assert(result@[before.len() as int] == (l[d as int], r[j]));
                    assert forall|a: int, b: int|
                        #[trigger] window_pair(l, r, a, b, lo, hi) && (walked((a, b), i, j) || (b == j
                            && i <= a < d + 1)) implies result@.contains((l[a], r[b])) by {
                        if a == d && b == j {
                        } else {
                            let k = choose|k: int| 0 <= k < before.len() && before[k] == (l[a], r[b]);
                            assert(result@[k] == before[k]);
                        }
                    }
                }
                d = d + 1;
            }
            proof {
                assert forall|a: int| #![auto] d <= a < l.len() implies !window_pair(l, r, a, j, lo, hi) by {
                    assert(l[d as int] <= l[a]);
                }
            }
            // scan to the right in rhs
            proof {
                assert(down_scan(l, r, j, d as int, hi) == Seq::<(u32, u32)>::empty());
                assert(result@ + down_scan(l, r, j, d as int, hi) =~= result@);
            }
            let mut k: usize = rhs_ptr + 1;
            while k < rhs.len() && lval - rhs[k] as i64 >= bounds.0
                invariant
                    result@ + right_scan(l, r, i, k as int, lo) + walk(l, r, lo, hi, i + 1, j + 1) == walk(l, r, lo, hi, 0, 0),
                    l == lhs@,
                    r == rhs@,
                    lo == bounds.0,
                    hi == bounds.1,
                    strictly_ascending(l),
                    strictly_ascending(r),
                    i == lhs_ptr,
                    j == rhs_ptr,
                    0 <= i < l.len(),
                    0 <= j < r.len(),
                    rval == r[j],
                    lval == l[i],
                    window_pair(l, r, i, j, lo, hi),
                    i < d <= l.len(),
                    j < k <= r.len(),
                    forall|a: int| #![auto] d <= a < l.len() ==> !window_pair(l, r, a, j, lo, hi),
                    pairs_invariant(l, r, lo, hi, result@, idx),
                    forall|m: int|
                        0 <= m < idx.len() ==> walked(#[trigger] idx[m], i, j) || (idx[m].1 == j && i
                            <= idx[m].0 < d) || (idx[m].0 == i && j < idx[m].1 < k),
                    forall|a: int, b: int|
                        #[trigger] window_pair(l, r, a, b, lo, hi) && (walked((a, b), i, j) || (b == j
                            && i <= a < d) || (a == i && j < b < k)) ==> result@.contains((l[a], r[b])),
                    lo == hi ==> k == j + 1,
                    lo == hi ==> forall|m: int|
                        0 <= m < idx.len() ==> #[trigger] idx[m].0 <= i && idx[m].1 <= j,
                    lo == hi ==> forall|m: int, n: int|
                        0 <= m < n < idx.len() ==> #[trigger] idx[m].0 < #[trigger] idx[n].0 && idx[m].1
                            < idx[n].1,
                decreases r.len() - k,
            {
                let ghost before = result@;
                assert(r[j] < r[k as int]);
                result.push((lhs[lhs_ptr], rhs[k]));
                proof {
                    assert(right_scan(l, r, i, k as int, lo) == seq![(l[i], r[k as int])] + right_scan(l, r, i, k + 1, lo));
                    assert(result@ + right_scan(l, r, i, k + 1, lo) + walk(l, r, lo, hi, i + 1, j + 1)
                        =~= before + right_scan(l, r, i, k as int, lo) + walk(l, r, lo, hi, i + 1, j + 1));
                    idx = idx.push((i, k as int));
                    assert(result@[before.len() as int] == (l[i], r[k as int]));
                    assert forall|a: int, b: int|
                        #[trigger] window_pair(l, r, a, b, lo, hi) && (walked((a, b), i, j) || (b == j
                            && i <= a < d) || (a == i && j < b < k + 1)) implies result@.contains(
                        (l[a], r[b]),
                    ) by {
                        if a == i && b == k {
                        } else {
                            let m = choose|m: int| 0 <= m < before.len() && before[m] == (l[a], r[b]);
                            assert(result@[m] == before[m]);
                        }
                    }
                }
                k = k + 1;
            }
            proof {
                assert forall|b: int| #![auto] k <= b < r.len() implies !window_pair(l, r, i, b, lo, hi) by {
                    assert(r[k as int] <= r[b]);
                }
            }
            proof {
                assert(right_scan(l, r, i, k as int, lo) == Seq::<(u32, u32)>::empty());
                assert(result@ + right_scan(l, r, i, k as int, lo) =~= result@);
            }
            rhs_ptr = rhs_ptr + 1;
            lhs_ptr = lhs_ptr + 1;
        } else if diff > bounds.1 {
            proof {
                assert forall|a: int| #![auto] lhs_ptr <= a < l.len() implies !window_pair(l, r, a, rhs_ptr as int, lo, hi) by {
                    assert(l[lhs_ptr as int] <= l[a]);
                }
            }
            rhs_ptr = rhs_ptr + 1;
        } else {
            proof {
                assert forall|b: int| #![auto] rhs_ptr <= b < r.len() implies !window_pair(l, r, lhs_ptr as int, b, lo, hi) by {
                    assert(r[rhs_ptr as int] <= r[b]);
                }
            }
            lhs_ptr = lhs_ptr + 1;
        }
    }
    proof {
        lemma_pairs_distinct(l, r, lo, hi, result@, idx);
        assert forall|k: int| 0 <= k < result@.len() implies l.contains(#[trigger] result@[k].0)
            && r.contains(result@[k].1) && lo <= result@[k].0 - result@[k].1 <= hi by {
            assert(window_pair(l, r, idx[k].0, idx[k].1, lo, hi));
            assert(result@[k] == pair_at(l, r, idx[k]));
            assert(l[idx[k].0] == result@[k].0);
            assert(r[idx[k].1] == result@[k].1);
        }
        if lo == hi {
            assert forall|k: int, m: int| 0 <= k < m < result@.len() implies #[trigger] result@[k].0
                < #[trigger] result@[m].0 && result@[k].1 < result@[m].1 by {
                assert(result@[k] == pair_at(l, r, idx[k]));
                assert(result@[m] == pair_at(l, r, idx[m]));
                assert(window_pair(l, r, idx[k].0, idx[k].1, lo, hi));
                assert(window_pair(l, r, idx[m].0, idx[m].1, lo, hi));
                assert(idx[k].0 < idx[m].0 && idx[k].1 < idx[m].1);
            }
        }
    }
    result
}

/// A copy of a position list.
pub fn copy_positions(v: &Vec<u32>) -> (r: Vec<u32>)
    ensures
        r@ == v@,
{
    let mut r: Vec<u32> = Vec::new();
    let mut i: usize = 0;
    while i < v.len()
        invariant
            i <= v@.len(),
            r@ == v@.take(i as int),
        decreases v@.len() - i,
    {
        r.push(v[i]);
        assert(v@.take(i + 1) =~= v@.take(i as int).push(v@[i as int]));
        i = i + 1;
    }
    assert(v@.take(i as int) =~= v@);
    r
}

/// A leaf operand of a query: a cursor over the listing of one term, with
/// the term's relative position in a phrase.
pub struct QueryResultIterator {
    postings: Listing,
    pos: usize,
    relative_position: u32,
}

impl QueryResultIterator {
    /// The postings, whether already passed or not.
    pub closed spec fn postings_view(&self) -> Seq<(u64, Seq<u32>)> {
        listing_view(self.postings@)
    }

    /// The index of the next posting.
    pub closed spec fn cursor(&self) -> int {
        self.pos as int
    }

    /// The relative position in a phrase.
    pub closed spec fn rel(&self) -> int {
        self.relative_position as int
    }

    /// A valid listing and a cursor within it.
    pub closed spec fn wf(&self) -> bool {
        valid_listing(listing_view(self.postings@), 0) && self.pos <= self.postings@.len()
    }

    /// Whether document `d` is still ahead of the cursor.
    pub open spec fn has_doc(&self, d: u64) -> bool {
        exists|k: int| self.cursor() <= k < self.postings_view().len() && #[trigger] self.postings_view()[k].0 == d
    }

    /// Whether the term occurs at position `q` of document `d`.
    pub open spec fn has_position(&self, d: u64, q: int) -> bool {
        exists|k: int, j: int|
            0 <= k < self.postings_view().len() && self.postings_view()[k].0 == d && 0 <= j
                < self.postings_view()[k].1.len() && #[trigger] self.postings_view()[k].1[j] == q
    }

    /// Whether `o` is this cursor over the same listing, at or after it.
    pub open spec fn same_listing(&self, o: &QueryResultIterator) -> bool {
        &&& o.postings_view() == self.postings_view()
        &&& o.rel() == self.rel()
        &&& self.cursor() <= o.cursor()
    }

    /// A cursor at the start of a valid listing.
    pub fn new(postings: Listing, relative_position: u32) -> (r: Self)
        requires
            valid_listing(listing_view(postings@), 0),
        ensures
            r.wf(),
            r.postings_view() == listing_view(postings@),
            r.cursor() == 0,
            r.rel() == relative_position,
    {
        QueryResultIterator { postings, pos: 0, relative_position }
    }

    /// The number of postings ahead of the cursor.
    pub fn estimate_length(&self) -> (r: usize)
        requires
            self.wf(),
        ensures
            r == self.postings_view().len() - self.cursor(),
    {
        self.postings.len() - self.pos
    }

    /// The relative position in a phrase.
    pub fn relative_position(&self) -> (r: u32)
        ensures
            r == self.rel(),
    {
        self.relative_position
    }

    /// The document id of the next posting, if any.
    pub fn peek(&self) -> (r: Option<u64>)
        requires
            self.wf(),
        ensures
            self.cursor() < self.postings_view().len() ==> r == Some(self.postings_view()[self.cursor()].0),
            self.cursor() >= self.postings_view().len() ==> r is None,
    {
        if self.pos < self.postings.len() {
            Some(self.postings[self.pos].0)
        } else {
            None
        }
    }

    /// The posting just passed; the cursor must have passed one.
    pub fn current(&self) -> (r: Posting)
        requires
            self.wf(),
            self.cursor() > 0,
        ensures
            (r.0, r.1@) == self.postings_view()[self.cursor() - 1],
    {
        let p = &self.postings[self.pos - 1];
        (p.0, copy_positions(&p.1))
    }

    /// Passes the next posting and returns it.
    pub fn next(&mut self) -> (r: Option<Posting>)
        requires
            old(self).wf(),
        ensures
            final(self).wf(),
            old(self).same_listing(final(self)),
            old(self).cursor() < old(self).postings_view().len() ==> r is Some && (r->Some_0.0, r->Some_0.1@)
                == old(self).postings_view()[old(self).cursor()] && final(self).cursor() == old(self).cursor() + 1,
            old(self).cursor() >= old(self).postings_view().len() ==> r is None && final(self).cursor() == old(self).cursor(),
    {
        if self.pos < self.postings.len() {
            self.pos = self.pos + 1;
            Some(self.current())
        } else {
            None
        }
    }

    /// Passes the postings of documents below `target`.
    pub fn skip_to(&mut self, target: u64)
        requires
            old(self).wf(),
        ensures
            final(self).wf(),
            old(self).same_listing(final(self)),
            forall|k: int| old(self).cursor() <= k < final(self).cursor() ==> #[trigger] old(self).postings_view()[k].0 < target,
            final(self).cursor() < final(self).postings_view().len() ==> final(self).postings_view()[final(self).cursor()].0 >= target,
    {
        let ghost pv = self.postings_view();
        while self.pos < self.postings.len() && self.postings[self.pos].0 < target
            invariant
                self.wf(),
                self.postings_view() == pv,
                old(self).same_listing(self),
                forall|k: int| old(self).cursor() <= k < self.cursor() ==> #[trigger] pv[k].0 < target,
            decreases pv.len() - self.cursor(),
        {
            self.pos = self.pos + 1;
        }
    }

    /// Passes the postings of documents below `target` and the first one
    /// at or above it, and returns that one's document id.
    pub fn seek_doc(&mut self, target: u64) -> (r: Option<u64>)
        requires
            old(self).wf(),
        ensures
            final(self).wf(),
            old(self).same_listing(final(self)),
            forall|k: int|
                old(self).cursor() <= k < final(self).cursor() - 1 ==> #[trigger] old(self).postings_view()[k].0 < target,
            r is None ==> final(self).cursor() == old(self).postings_view().len() && (final(self).cursor() > old(self).cursor()
                ==> old(self).postings_view()[final(self).cursor() - 1].0 < target),
            r is Some ==> final(self).cursor() > old(self).cursor() && r->Some_0 == old(self).postings_view()[final(self).cursor() - 1].0
                && r->Some_0 >= target,
    {
        let ghost pv = self.postings_view();
        while self.pos < self.postings.len() && self.postings[self.pos].0 < target
            invariant
                self.wf(),
                self.postings_view() == pv,
                old(self).same_listing(self),
                forall|k: int| old(self).cursor() <= k < self.cursor() ==> #[trigger] pv[k].0 < target,
            decreases pv.len() - self.cursor(),
        {
            self.pos = self.pos + 1;
        }
        if self.pos < self.postings.len() {
            self.pos = self.pos + 1;
            Some(self.postings[self.pos - 1].0)
        } else {
            None
        }
    }

    /// Passes the postings of documents below `target` and returns the
    /// first posting at or above it, passing it too.
    pub fn next_seek(&mut self, target: u64) -> (r: Option<Posting>)
        requires
            old(self).wf(),
        ensures
            final(self).wf(),
            old(self).same_listing(final(self)),
            forall|k: int|
                old(self).cursor() <= k < final(self).cursor() - 1 ==> #[trigger] old(self).postings_view()[k].0 < target,
            r is None ==> final(self).cursor() == old(self).postings_view().len() && (final(self).cursor() > old(self).cursor()
                ==> old(self).postings_view()[final(self).cursor() - 1].0 < target),
            r is Some ==> final(self).cursor() > old(self).cursor() && (r->Some_0.0, r->Some_0.1@) == old(self).postings_view()[final(self).cursor() - 1]
                && r->Some_0.0 >= target,
    {
        match self.seek_doc(target) {
            Some(_) => Some(self.current()),
            None => None,
        }
    }
}

/// Whether every operand still has document `d` ahead (and there is one).
pub open spec fn all_have(ops: Seq<QueryResultIterator>, d: u64) -> bool {
    ops.len() > 0 && forall|i: int| 0 <= i < ops.len() ==> #[trigger] ops[i].has_doc(d)
}

/// Whether some operand still has document `d` ahead.
pub open spec fn any_has(ops: Seq<QueryResultIterator>, d: u64) -> bool {
    exists|i: int| 0 <= i < ops.len() && #[trigger] ops[i].has_doc(d)
}

/// Whether the operands' terms occur in document `d` at one common start
/// position `p`, each at `p` plus its relative position.
pub open spec fn aligned(ops: Seq<QueryResultIterator>, d: u64) -> bool {
    exists|p: int| #[trigger] aligned_at(ops, d, p)
}

/// Whether each operand's term occurs in document `d` at `p` plus its
/// relative position.
pub open spec fn aligned_at(ops: Seq<QueryResultIterator>, d: u64, p: int) -> bool {
    forall|i: int| 0 <= i < ops.len() ==> #[trigger] ops[i].has_position(d, p + ops[i].rel())
}

/// Whether `b` holds the operands of `a`, each valid, over the same
/// listings, none moved back.
pub open spec fn ops_advanced(a: Seq<QueryResultIterator>, b: Seq<QueryResultIterator>) -> bool {
    &&& a.len() == b.len()
    &&& forall|i: int| 0 <= i < a.len() ==> (#[trigger] b[i]).wf() && a[i].same_listing(&b[i])
}

proof fn lemma_consumed(o: QueryResultIterator, c: QueryResultIterator, d: u64)
    requires
        o.same_listing(&c),
        o.has_doc(d),
        !c.has_doc(d),
    ensures
        exists|k: int| o.cursor() <= k < c.cursor() && #[trigger] o.postings_view()[k].0 == d,
{
    let k = choose|k: int| o.cursor() <= k < o.postings_view().len() && #[trigger] o.postings_view()[k].0 == d;
    if k >= c.cursor() {
        assert(c.postings_view()[k].0 == d);
    }
}

proof fn lemma_after_current(c: QueryResultIterator, f: u64, d: u64)
    requires
        c.wf(),
        c.cursor() > 0,
        c.postings_view()[c.cursor() - 1].0 == f,
        c.has_doc(d),
    ensures
        d > f,
{
    let k = choose|k: int| c.cursor() <= k < c.postings_view().len() && #[trigger] c.postings_view()[k].0 == d;
    assert(valid_listing(c.postings_view(), 0));
    assert(c.postings_view()[c.cursor() - 1].0 < c.postings_view()[k].0);
}

/// Moves all operands on to the next document that each of them holds,
/// passing it in each, and returns it.
fn advance_and(ops: &mut Vec<QueryResultIterator>) -> (r: Option<u64>)
    requires
        old(ops)@.len() > 0,
        forall|i: int| 0 <= i < old(ops)@.len() ==> (#[trigger] old(ops)@[i]).wf(),
    ensures
        ops_advanced(old(ops)@, final(ops)@),
        r is None ==> forall|d: u64| !all_have(old(ops)@, d),
        r is Some ==> {
            let f = r->Some_0;
            &&& all_have(old(ops)@, f)
            &&& forall|d: u64| all_have(old(ops)@, d) ==> f <= d
            &&& forall|d: u64| all_have(final(ops)@, d) <==> all_have(old(ops)@, d) && d > f
            &&& forall|j: int|
                0 <= j < final(ops)@.len() ==> (#[trigger] final(ops)@[j]).cursor() > old(ops)@[j].cursor()
                    && final(ops)@[j].postings_view()[final(ops)@[j].cursor() - 1].0 == f
        },
{
    let ghost o = ops@;
    let n = ops.len();
    let first = ops[0].seek_doc(0);
    let mut focus: u64 = match first {
        Some(f) => f,
        None => {
            proof {
                assert forall|d: u64| !all_have(o, d) by {
                    if all_have(o, d) {
                        assert(o[0].has_doc(d));
                        lemma_consumed(o[0], ops@[0], d);
                    }
                }
            }
            return None;
        },
    };
    proof {
        assert forall|d: u64| all_have(o, d) implies focus <= d by {
            assert(o[0].has_doc(d));
            if d < focus {
                if !ops@[0].has_doc(d) {
                    lemma_consumed(o[0], ops@[0], d);
                } else {
                    lemma_after_current(ops@[0], focus, d);
                }
            }
        }
    }
    let mut last: usize = 0;
    let mut i: usize = 0;
    let mut missing = false;
    while i < n && !missing
        invariant
            missing ==> forall|d: u64| !all_have(o, d),
            ops@.len() == n,
            n == o.len(),
            n > 0,
            ops_advanced(o, ops@),
            last < n,
            i <= n,
            ops@[last as int].cursor() > o[last as int].cursor(),
            o[last as int].postings_view()[ops@[last as int].cursor() - 1].0 == focus,
            forall|j: int, k: int| 0 <= j < n && o[j].cursor() <= k < ops@[j].cursor() ==> #[trigger] o[j].postings_view()[k].0 <= focus,
            forall|j: int, k: int|
                i <= j < n && j != last && o[j].cursor() <= k < ops@[j].cursor() ==> #[trigger] o[j].postings_view()[k].0 < focus,
            !missing ==> forall|j: int|
                0 <= j < i && j != last ==> (#[trigger] ops@[j]).cursor() > o[j].cursor() && o[j].postings_view()[ops@[j].cursor() - 1].0
                    == focus,
            forall|d: u64| all_have(o, d) ==> focus <= d,
        decreases u64::MAX - focus, n - i,
    {
        if i == last {
            i = i + 1;
            continue;
        }
        let ghost before = ops@[i as int];
        let found = ops[i].seek_doc(focus);
        match found {
            None => {
                proof {
                    assert forall|d: u64| !all_have(o, d) by {
                        if all_have(o, d) {
                            assert(o[i as int].has_doc(d));
                            assert(!ops@[i as int].has_doc(d));
                            lemma_consumed(o[i as int], ops@[i as int], d);
                            let k = choose|k: int| o[i as int].cursor() <= k < ops@[i as int].cursor() && #[trigger] o[i as int].postings_view()[k].0 == d;
                            if k < before.cursor() {
                                assert(o[i as int].postings_view()[k].0 < focus);
                            } else if k < ops@[i as int].cursor() - 1 {
                                assert(before.postings_view()[k].0 < focus);
                            } else {
                                assert(before.postings_view()[k].0 < focus);
                            }
                        }
                    }
                }
                missing = true;
                i = i + 1;
            },
            Some(v) => {
                let ghost c = ops@[i as int];
                proof {
                    assert forall|k: int| o[i as int].cursor() <= k < c.cursor() implies #[trigger] o[i as int].postings_view()[k].0 <= v by {
                        if k < before.cursor() {
                            assert(o[i as int].postings_view()[k].0 < focus);
                        } else if k < c.cursor() - 1 {
                            assert(before.postings_view()[k].0 < focus);
                        }
                    }
                }
                if v > focus {
                    proof {
                        assert forall|d: u64| all_have(o, d) implies v <= d by {
                            assert(focus <= d);
                            assert(o[i as int].has_doc(d));
                            if d < v {
                                if !c.has_doc(d) {
                                    lemma_consumed(o[i as int], c, d);
                                    let k = choose|k: int| o[i as int].cursor() <= k < c.cursor() && #[trigger] o[i as int].postings_view()[k].0 == d;
                                    if k < before.cursor() {
                                        assert(o[i as int].postings_view()[k].0 < focus);
                                    } else if k < c.cursor() - 1 {
                                        assert(before.postings_view()[k].0 < focus);
                                    }
                                } else {
                                    lemma_after_current(c, v, d);
                                }
                            }
                        }
                    }
                    focus = v;
                    last = i;
                    i = 0;
                } else {
                    i = i + 1;
                }
            },
        }
    }
    if missing {
        return None;
    }
    proof {
        let f = focus;
        let fin = ops@;
        assert forall|j: int| 0 <= j < n implies (#[trigger] fin[j]).cursor() > o[j].cursor() && fin[j].postings_view()[fin[j].cursor() - 1].0 == f by {
            if j != last {
                assert(fin[j].cursor() > o[j].cursor());
            }
        }
        assert forall|j: int| 0 <= j < n implies #[trigger] o[j].has_doc(f) by {
            assert(fin[j].cursor() > o[j].cursor());
            assert(o[j].postings_view()[fin[j].cursor() - 1].0 == f);
        }
        assert forall|d: u64| all_have(fin, d) <==> all_have(o, d) && d > f by {
            if all_have(fin, d) {
                assert forall|j: int| 0 <= j < n implies #[trigger] o[j].has_doc(d) by {
                    assert(fin[j].has_doc(d));
                    let k = choose|k: int| fin[j].cursor() <= k < fin[j].postings_view().len() && #[trigger] fin[j].postings_view()[k].0 == d;
                    assert(o[j].postings_view()[k].0 == d);
                }
                assert(fin[0].has_doc(d));
                lemma_after_current(fin[0], f, d);
            }
            if all_have(o, d) && d > f {
                assert forall|j: int| 0 <= j < n implies #[trigger] fin[j].has_doc(d) by {
                    assert(o[j].has_doc(d));
                    if !fin[j].has_doc(d) {
                        lemma_consumed(o[j], fin[j], d);
                        let k = choose|k: int| o[j].cursor() <= k < fin[j].cursor() && #[trigger] o[j].postings_view()[k].0 == d;
                        assert(o[j].postings_view()[k].0 <= f);
                    }
                }
            }
        }
    }
    Some(focus)
}

proof fn lemma_current_position(c: QueryResultIterator, f: u64, q: int)
    requires
        c.wf(),
        c.cursor() > 0,
        c.postings_view()[c.cursor() - 1].0 == f,
    ensures
        c.has_position(f, q) <==> c.postings_view()[c.cursor() - 1].1.contains(q as u32) && 0 <= q <= u32::MAX,
{
    let pv = c.postings_view();
    let cur = c.cursor() - 1;
    assert(valid_listing(pv, 0));
    if c.has_position(f, q) {
        let (k, j) = choose|k: int, j: int|
            0 <= k < pv.len() && pv[k].0 == f && 0 <= j < pv[k].1.len() && #[trigger] pv[k].1[j] == q;
        if k != cur {
            if k < cur {
                assert(pv[k].0 < pv[cur].0);
            } else {
                assert(pv[cur].0 < pv[k].0);
            }
        }
        assert(pv[cur].1[j] == q as u32);
    }
    if pv[cur].1.contains(q as u32) && 0 <= q <= u32::MAX {
        let j = choose|j: int| 0 <= j < pv[cur].1.len() && pv[cur].1[j] == q as u32;
        assert(pv[cur].1[j] == q);
    }
}

/// The right-hand positions of a list of position pairs.
fn second_components(pairs: &Vec<(u32, u32)>) -> (r: Vec<u32>)
    ensures
        r@.len() == pairs@.len(),
        forall|m: int| 0 <= m < r@.len() ==> r@[m] == #[trigger] pairs@[m].1,
{
    let mut next: Vec<u32> = Vec::new();
    let mut k: usize = 0;
    while k < pairs.len()
        invariant
            k <= pairs@.len(),
            next@.len() == k,
            forall|m: int| 0 <= m < k ==> next@[m] == #[trigger] pairs@[m].1,
        decreases pairs@.len() - k,
    {
        next.push(pairs[k].1);
        k = k + 1;
    }
    next
}

spec fn prefix_aligned(ops: Seq<QueryResultIterator>, d: u64, p: int, i: int) -> bool {
    forall|j: int| 0 <= j < i ==> #[trigger] ops[j].has_position(d, p + ops[j].rel())
}

/// Whether the operands, whose current postings are all of document `f`,
/// align in `f`.
fn current_aligned(ops: &Vec<QueryResultIterator>, Ghost(f): Ghost<u64>) -> (r: bool)
    requires
        ops@.len() > 0,
        forall|j: int|
            0 <= j < ops@.len() ==> (#[trigger] ops@[j]).wf() && ops@[j].cursor() > 0 && ops@[j].postings_view()[ops@[j].cursor()
                - 1].0 == f,
    ensures
        r == aligned(ops@, f),
{
    let n = ops.len();
    let first = ops[0].current();
    let mut focus: Vec<u32> = first.1;
    let mut last_rel: u32 = ops[0].relative_position();
    let ghost o = ops@;
    proof {
        assert(valid_listing(o[0].postings_view(), 0));
        assert(strictly_ascending(o[0].postings_view()[o[0].cursor() - 1].1));
        assert forall|k: int| 0 <= k < focus@.len() implies prefix_aligned(o, f, focus@[k] - last_rel, 1) by {
            lemma_current_position(o[0], f, focus@[k] as int);
        }
        assert forall|p: int| prefix_aligned(o, f, p, 1) implies focus@.contains((p + last_rel) as u32) by {
            assert(o[0].has_position(f, p + o[0].rel()));
            lemma_current_position(o[0], f, p + o[0].rel());
        }
    }
    let mut i: usize = 1;
    while i < n
        invariant
            o == ops@,
            n == o.len(),
            1 <= i <= n,
            forall|j: int|
                0 <= j < n ==> (#[trigger] o[j]).wf() && o[j].cursor() > 0 && o[j].postings_view()[o[j].cursor() - 1].0 == f,
            last_rel == o[i - 1].rel(),
            strictly_ascending(focus@),
            forall|k: int| 0 <= k < focus@.len() ==> prefix_aligned(o, f, #[trigger] focus@[k] - last_rel, i as int),
            forall|p: int| prefix_aligned(o, f, p, i as int) ==> #[trigger] focus@.contains((p + last_rel) as u32),
        decreases n - i,
    {
        let cur = ops[i].current();
        let rel = ops[i].relative_position();
        let delta: i64 = last_rel as i64 - rel as i64;
        proof {
            assert(valid_listing(o[i as int].postings_view(), 0));
            assert(strictly_ascending(o[i as int].postings_view()[o[i as int].cursor() - 1].1));
        }
        let fs = focus.as_slice();
        let rs = cur.1.as_slice();
        let pairs = positional_intersect(fs, rs, (delta, delta));
        let next = second_components(&pairs);
        proof {
            let ci = o[i as int];
            let cp = cur.1@;
            assert forall|a: int, b: int| 0 <= a < b < next@.len() implies next@[a] < next@[b] by {
                assert(pairs@[a].0 < pairs@[b].0 && pairs@[a].1 < pairs@[b].1);
            }
            assert forall|m: int| 0 <= m < next@.len() implies prefix_aligned(o, f, #[trigger] next@[m] - rel, i + 1) by {
                assert(next@[m] == pairs@[m].1);
                let l = pairs@[m].0;
                let r = pairs@[m].1;
                assert(focus@.contains(l) && cp.contains(r) && l - r == delta);
                let a = choose|a: int| 0 <= a < focus@.len() && focus@[a] == l;
                assert(prefix_aligned(o, f, focus@[a] - last_rel, i as int));
                lemma_current_position(ci, f, r as int);
                assert(ci.has_position(f, (r - rel) + ci.rel()));
                assert forall|j: int| 0 <= j < i + 1 implies #[trigger] o[j].has_position(f, (r - rel) + o[j].rel()) by {
                    if j < i {
                        assert(o[j].has_position(f, (l - last_rel) + o[j].rel()));
                    }
                }
            }
            assert forall|p: int| prefix_aligned(o, f, p, i + 1) implies #[trigger] next@.contains((p + rel) as u32) by {
                assert forall|j: int| 0 <= j < i implies #[trigger] o[j].has_position(f, p + o[j].rel()) by {
                    assert(o[j].has_position(f, p + o[j].rel()));
                }
                assert(prefix_aligned(o, f, p, i as int));
                assert(focus@.contains((p + last_rel) as u32));
                assert(o[i as int].has_position(f, p + o[i as int].rel()));
                lemma_current_position(ci, f, p + rel);
                assert(o[(i - 1) as int].has_position(f, p + o[(i - 1) as int].rel()));
                lemma_current_position(o[(i - 1) as int], f, p + last_rel);
                assert(0 <= p + last_rel <= u32::MAX);
                assert(0 <= p + rel <= u32::MAX);
                let a = choose|a: int| 0 <= a < focus@.len() && focus@[a] == (p + last_rel) as u32;
                let b = choose|b: int| 0 <= b < cp.len() && cp[b] == (p + rel) as u32;
                assert(focus@[a] as int == p + last_rel);
                assert(cp[b] as int == p + rel);
                assert(window_pair(fs@, rs@, a, b, (delta, delta).0 as int, (delta, delta).1 as int));
                assert(pairs@.contains((fs@[a], rs@[b])));
                let m = choose|m: int| 0 <= m < pairs@.len() && pairs@[m] == (focus@[a], cp[b]);
                assert(pairs@[m].1 == cp[b]);
                assert(next@[m] == cp[b]);
            }
        }
        focus = next;
        last_rel = rel;
        i = i + 1;
    }
    proof {
        if focus@.len() > 0 {
            assert(prefix_aligned(o, f, focus@[0] - last_rel, n as int));
            assert(aligned_at(o, f, focus@[0] - last_rel));
        }
        if aligned(o, f) {
            let p = choose|p: int| #[trigger] aligned_at(o, f, p);
            assert(prefix_aligned(o, f, p, n as int));
            assert(focus@.contains((p + last_rel) as u32));
        }
    }
    focus.len() > 0
}

/// A Boolean operator of a query.
#[derive(Debug, Clone, Copy, PartialEq, Eq, Structural)]
pub enum BooleanOperator {
    And,
    Or,
}

/// A positional operator of a query.
#[derive(Debug, Clone, Copy, PartialEq, Eq, Structural)]
pub enum PositionalOperator {
    /// The operands' terms in the order of their relative positions, each
    /// at its offset from a common start.
    InOrder,
}

/// Whether the operands as a whole hold document `d` ahead under the operator.
pub open spec fn ops_match(
    ops: Seq<QueryResultIterator>,
    bool_op: Option<BooleanOperator>,
    d: u64,
) -> bool {
    match bool_op {
        Some(BooleanOperator::And) => all_have(ops, d),
        Some(BooleanOperator::Or) => any_has(ops, d),
        None => all_have(ops, d) && aligned(ops, d),
    }
}

/// An n-ary query over leaf operands: the documents that all operands
/// hold (AND), that some operand holds (OR), or that all hold with the
/// terms in order (InOrder), produced lazily by ascending document id.
pub struct NAryQueryIterator {
    pos_operator: Option<PositionalOperator>,
    bool_operator: Option<BooleanOperator>,
    operands: Vec<QueryResultIterator>,
    peeked_value: Option<Option<Posting>>,
}

/// The number of postings ahead of an operand's cursor.
pub open spec fn remaining(op: QueryResultIterator) -> int {
    op.postings_view().len() - op.cursor()
}

/// `x`, or `usize::MAX` where it is larger.
pub open spec fn min_usize(x: int) -> int {
    if x < usize::MAX {
        x
    } else {
        usize::MAX as int
    }
}

/// The documents still ahead of an operand's cursor.
pub open spec fn doc_set(op: QueryResultIterator) -> Set<u64> {
    Set::new(|d: u64| op.has_doc(d))
}

/// The number of postings ahead of the cursors of all operands.
pub open spec fn sum_remaining(ops: Seq<QueryResultIterator>) -> int
    decreases ops.len(),
{
    if ops.len() == 0 {
        0
    } else {
        sum_remaining(ops.drop_last()) + remaining(ops.last())
    }
}

/// The documents still ahead of the cursors of some operand.
pub open spec fn union_docs(ops: Seq<QueryResultIterator>) -> Set<u64>
    decreases ops.len(),
{
    if ops.len() == 0 {
        Set::empty()
    } else {
        union_docs(ops.drop_last()).union(doc_set(ops.last()))
    }
}

proof fn lemma_doc_set(op: QueryResultIterator)
    requires
        op.wf(),
    ensures
        doc_set(op).finite(),
        doc_set(op).len() <= remaining(op),
{
    let pv = op.postings_view();
    let sq = pv.subrange(op.cursor(), pv.len() as int).map_values(|p: (u64, Seq<u32>)| p.0);
    assert forall|d: u64| #[trigger] doc_set(op).contains(d) == sq.to_set().contains(d) by {
        if op.has_doc(d) {
            let k = choose|k: int| op.cursor() <= k < pv.len() && #[trigger] pv[k].0 == d;
            assert(sq[k - op.cursor()] == d);
        }
        if sq.contains(d) {
            let k = choose|k: int| 0 <= k < sq.len() && sq[k] == d;
            assert(pv[k + op.cursor()].0 == d);
        }
    }
    assert(doc_set(op) =~= sq.to_set());
    sq.lemma_cardinality_of_set();
    vstd::seq_lib::seq_to_set_is_finite(sq);
}

proof fn lemma_union_docs(ops: Seq<QueryResultIterator>)
    requires
        forall|i: int| 0 <= i < ops.len() ==> (#[trigger] ops[i]).wf(),
    ensures
        union_docs(ops).finite(),
        union_docs(ops).len() <= sum_remaining(ops),
        forall|d: u64| any_has(ops, d) ==> union_docs(ops).contains(d),
    decreases ops.len(),
{
    if ops.len() > 0 {
        let init = ops.drop_last();
        assert forall|i: int| 0 <= i < init.len() implies (#[trigger] init[i]).wf() by {
            assert(init[i] == ops[i]);
        }
        lemma_union_docs(init);
        lemma_doc_set(ops.last());
        vstd::set_lib::lemma_len_union(union_docs(init), doc_set(ops.last()));
        assert forall|d: u64| any_has(ops, d) implies union_docs(ops).contains(d) by {
            let i = choose|i: int| 0 <= i < ops.len() && #[trigger] ops[i].has_doc(d);
            if i < ops.len() - 1 {
                assert(init[i] == ops[i]);
                assert(any_has(init, d));
            }
        }
    }
}

/// Whether `b` is `a` sorted stably by ascending `remaining`: `b[i]` is
/// `a[p[i]]` for a permutation `p`, and operands of equal length keep
/// their order.
pub open spec fn stably_sorted(a: Seq<QueryResultIterator>, b: Seq<QueryResultIterator>, p: Seq<int>) -> bool {
    &&& a.len() == b.len()
    &&& p.len() == b.len()
    &&& forall|i: int| 0 <= i < p.len() ==> 0 <= #[trigger] p[i] < a.len() && b[i] == a[p[i]]
    &&& forall|i: int, j: int| 0 <= i < j < p.len() ==> #[trigger] p[i] != #[trigger] p[j]
    &&& forall|i: int, j: int|
        0 <= i < j < b.len() ==> remaining(#[trigger] b[i]) < remaining(#[trigger] b[j]) || (remaining(b[i]) == remaining(b[j])
            && p[i] < p[j])
}

/// Orders operands by ascending estimated length, rarest first, keeping
/// the order of operands of equal length.
fn sort_by_estimate(operands: Vec<QueryResultIterator>) -> (r: (Vec<QueryResultIterator>, Ghost<Seq<int>>))
    requires
        forall|i: int| 0 <= i < operands@.len() ==> (#[trigger] operands@[i]).wf(),
    ensures
        r.0@.to_multiset() == operands@.to_multiset(),
        forall|i: int| 0 <= i < r.0@.len() ==> (#[trigger] r.0@[i]).wf(),
        stably_sorted(operands@, r.0@, r.1@),
{
    broadcast use vstd::seq_lib::group_to_multiset_ensures;

    let ghost orig = operands@;
    assert(orig.take(orig.len() as int) =~= orig);
    let mut rest = operands;
    let mut sorted: Vec<QueryResultIterator> = Vec::new();
    let ghost mut idx: Seq<int> = Seq::empty();
    let ghost all = rest@.to_multiset();
    while rest.len() > 0
        invariant
            sorted@.to_multiset().add(rest@.to_multiset()) == all,
            all == orig.to_multiset(),
            rest@ == orig.take(rest@.len() as int),
            rest@.len() <= orig.len(),
            forall|i: int| 0 <= i < orig.len() ==> (#[trigger] orig[i]).wf(),
            forall|i: int| 0 <= i < sorted@.len() ==> (#[trigger] sorted@[i]).wf(),
            idx.len() == sorted@.len(),
            sorted@.len() + rest@.len() == orig.len(),
            forall|i: int| 0 <= i < idx.len() ==> rest@.len() <= #[trigger] idx[i] < orig.len() && sorted@[i] == orig[idx[i]],
            forall|i: int, j: int| 0 <= i < j < idx.len() ==> #[trigger] idx[i] != #[trigger] idx[j],
            forall|i: int, j: int|
                0 <= i < j < sorted@.len() ==> remaining(#[trigger] sorted@[i]) < remaining(#[trigger] sorted@[j]) || (
                remaining(sorted@[i]) == remaining(sorted@[j]) && idx[i] < idx[j]),
        decreases rest@.len(),
    {
        let ghost before = rest@;
        let op = rest.pop().unwrap();
        let ghost m = rest@.len() as int;
        assert(before == rest@.push(op));
        assert(op == orig[m]) by {
            assert(before[m] == orig.take(before.len() as int)[m]);
        }
        assert(rest@ =~= orig.take(m));
        let len = op.estimate_length();
        let mut k: usize = 0;
        while k < sorted.len() && sorted[k].estimate_length() < len
            invariant
                k <= sorted@.len(),
                forall|i: int| 0 <= i < sorted@.len() ==> (#[trigger] sorted@[i]).wf(),
                forall|i: int| 0 <= i < k ==> remaining(#[trigger] sorted@[i]) < len,
            decreases sorted@.len() - k,
        {
            k = k + 1;
        }
        proof {
            assert forall|i: int| k <= i < sorted@.len() implies remaining(#[trigger] sorted@[i]) >= len by {
                if k < sorted@.len() {
                    assert(remaining(sorted@[k as int]) >= len);
                    if i > k {
                        let a = sorted@[k as int];
                        let b = sorted@[i];
                        assert(remaining(a) < remaining(b) || remaining(a) == remaining(b));
                    }
                }
            }
        }
        let ghost sb = sorted@;
        let ghost ib = idx;
        sorted.insert(k, op);
        proof {
            idx = ib.insert(k as int, m);
            assert(sorted@ == sb.insert(k as int, op));
            vstd::seq_lib::to_multiset_insert(sb, k as int, op);
            vstd::seq_lib::to_multiset_build(rest@, op);
            assert(sorted@.to_multiset().add(rest@.to_multiset()) =~= sb.to_multiset().add(before.to_multiset()));
            assert forall|i: int| 0 <= i < sorted@.len() implies (#[trigger] sorted@[i]).wf() by {
                if i < k {
                    assert(sorted@[i] == sb[i]);
                } else if i > k {
                    assert(sorted@[i] == sb[i - 1]);
                }
            }
            assert forall|i: int| 0 <= i < idx.len() implies rest@.len() <= #[trigger] idx[i] < orig.len() && sorted@[i] == orig[idx[i]] by {
                if i < k {
                    assert(idx[i] == ib[i] && sorted@[i] == sb[i]);
                } else if i > k {
                    assert(idx[i] == ib[i - 1] && sorted@[i] == sb[i - 1]);
                }
            }
            assert forall|i: int, j: int| 0 <= i < j < idx.len() implies #[trigger] idx[i] != #[trigger] idx[j] by {
                if i != k && j != k {
                    let i0 = if i < k { i } else { i - 1 };
                    let j0 = if j < k { j } else { j - 1 };
                    assert(idx[i] == ib[i0] && idx[j] == ib[j0]);
                } else if i == k {
                    assert(idx[j] == ib[j - 1]);
                } else {
                    assert(idx[i] == ib[i]);
                }
            }
            assert forall|i: int, j: int| 0 <= i < j < sorted@.len() implies remaining(#[trigger] sorted@[i]) < remaining(
                #[trigger] sorted@[j],
            ) || (remaining(sorted@[i]) == remaining(sorted@[j]) && idx[i] < idx[j]) by {
                if i != k && j != k {
                    let i0 = if i < k { i } else { i - 1 };
                    let j0 = if j < k { j } else { j - 1 };
                    assert(idx[i] == ib[i0] && idx[j] == ib[j0]);
                    assert(sorted@[i] == sb[i0] && sorted@[j] == sb[j0]);
                } else if i == k {
                    assert(idx[j] == ib[j - 1] && sorted@[j] == sb[j - 1]);
                } else {
                    assert(idx[i] == ib[i] && sorted@[i] == sb[i]);
                }
            }
        }
    }
    assert(rest@.to_multiset() =~= vstd::multiset::Multiset::empty());
    assert(sorted@.to_multiset().add(vstd::multiset::Multiset::empty()) =~= sorted@.to_multiset());
    (sorted, Ghost(idx))
}

impl NAryQueryIterator {
    /// The operands, in evaluation order.
    pub closed spec fn operands_view(&self) -> Seq<QueryResultIterator> {
        self.operands@
    }

    /// The Boolean operator, if the query is Boolean.
    pub closed spec fn bool_op(&self) -> Option<BooleanOperator> {
        self.bool_operator
    }

    /// Whether document `d` is still to come from this query.
    pub closed spec fn matches(&self, d: u64) -> bool {
        match self.peeked_value {
            None => ops_match(self.operands@, self.bool_operator, d),
            Some(None) => false,
            Some(Some(p)) => d == p.0 || ops_match(self.operands@, self.bool_operator, d),
        }
    }

    /// Whether the next document has been computed ahead and kept.
    pub closed spec fn has_peeked(&self) -> bool {
        self.peeked_value is Some
    }

    /// Valid operands, one operator, and a consistent peeked posting.
    pub closed spec fn wf(&self) -> bool {
        &&& self.operands@.len() > 0
        &&& forall|i: int| 0 <= i < self.operands@.len() ==> (#[trigger] self.operands@[i]).wf()
        &&& (self.bool_operator is None <==> self.pos_operator is Some)
        &&& match self.peeked_value {
            None => true,
            Some(None) => forall|d: u64| !ops_match(self.operands@, self.bool_operator, d),
            Some(Some(p)) => forall|d: u64| ops_match(self.operands@, self.bool_operator, d) ==> d > p.0,
        }
    }

    /// A Boolean query over `operands`, which it orders rarest first.
    pub fn new(operator: BooleanOperator, operands: Vec<QueryResultIterator>) -> (r: Self)
        requires
            operands@.len() > 0,
            forall|i: int| 0 <= i < operands@.len() ==> (#[trigger] operands@[i]).wf(),
        ensures
            r.wf(),
            r.bool_op() == Some(operator),
            r.operands_view().to_multiset() == operands@.to_multiset(),
            exists|p: Seq<int>| stably_sorted(operands@, r.operands_view(), p),
            forall|i: int, j: int|
                0 <= i < j < r.operands_view().len() ==> remaining(#[trigger] r.operands_view()[i]) <= remaining(
                    #[trigger] r.operands_view()[j],
                ),
            !r.has_peeked(),
            forall|d: u64| r.matches(d) == ops_match(r.operands_view(), Some(operator), d),
    {
        let (sorted, Ghost(perm)) = sort_by_estimate(operands);
        assert(stably_sorted(operands@, sorted@, perm));
        assert(sorted@.len() > 0);
        let r = NAryQueryIterator {
            pos_operator: None,
            bool_operator: Some(operator),
            operands: sorted,
            peeked_value: None,
        };
        proof {
            assert(stably_sorted(operands@, r.operands@, perm));
            assert forall|i: int, j: int| 0 <= i < j < r.operands@.len() implies remaining(#[trigger] r.operands@[i]) <= remaining(
                #[trigger] r.operands@[j],
            ) by {}
        }
        r
    }

    /// A positional query over `operands`, which it orders rarest first.
    pub fn new_positional(operator: PositionalOperator, operands: Vec<QueryResultIterator>) -> (r: Self)
        requires
            operands@.len() > 0,
            forall|i: int| 0 <= i < operands@.len() ==> (#[trigger] operands@[i]).wf(),
        ensures
            r.wf(),
            r.bool_op() is None,
            r.operands_view().to_multiset() == operands@.to_multiset(),
            exists|p: Seq<int>| stably_sorted(operands@, r.operands_view(), p),
            forall|i: int, j: int|
                0 <= i < j < r.operands_view().len() ==> remaining(#[trigger] r.operands_view()[i]) <= remaining(
                    #[trigger] r.operands_view()[j],
                ),
            !r.has_peeked(),
            forall|d: u64| r.matches(d) == ops_match(r.operands_view(), None, d),
    {
        let (sorted, Ghost(perm)) = sort_by_estimate(operands);
        assert(stably_sorted(operands@, sorted@, perm));
        assert(sorted@.len() > 0);
        let r = NAryQueryIterator {
            pos_operator: Some(operator),
            bool_operator: None,
            operands: sorted,
            peeked_value: None,
        };
        proof {
            assert(stably_sorted(operands@, r.operands@, perm));
            assert forall|i: int, j: int| 0 <= i < j < r.operands@.len() implies remaining(#[trigger] r.operands@[i]) <= remaining(
                #[trigger] r.operands@[j],
            ) by {}
        }
        r
    }

    /// The documents still to come.
    pub closed spec fn match_set(&self) -> Set<u64> {
        Set::new(|d: u64| self.matches(d))
    }

    /// One for a document computed ahead and kept, else none.
    pub closed spec fn peek_extra(&self) -> int {
        match self.peeked_value {
            Some(Some(_)) => 1,
            _ => 0,
        }
    }

    /// An upper bound of the number of documents to come: the postings
    /// ahead in the rarest operand for AND and InOrder, in all operands
    /// together for OR, plus one for a document computed ahead; saturated
    /// at `usize::MAX`.
    pub fn estimate_length(&self) -> (r: usize)
        requires
            self.wf(),
        ensures
            self.match_set().finite(),
            r < usize::MAX ==> self.match_set().len() <= r,
            self.bool_op() == Some(BooleanOperator::Or) ==> r == min_usize(sum_remaining(self.operands_view()) + self.peek_extra()),
            self.bool_op() != Some(BooleanOperator::Or) ==> r == min_usize(remaining(self.operands_view()[0]) + self.peek_extra()),
    {
        let ops = &self.operands;
        let mut base: usize = 0;
        let ghost bound: Set<u64>;
        match self.bool_operator {
            Some(BooleanOperator::Or) => {
                let mut i: usize = 0;
                while i < ops.len()
                    invariant
                        ops == &self.operands,
                        i <= ops@.len(),
                        forall|j: int| 0 <= j < ops@.len() ==> (#[trigger] ops@[j]).wf(),
                        base == min_usize(sum_remaining(ops@.take(i as int))),
                    decreases ops@.len() - i,
                {
                    let e = ops[i].estimate_length();
                    proof {
                        assert(ops@.take(i + 1).drop_last() =~= ops@.take(i as int));
                        assert(ops@.take(i + 1).last() == ops@[i as int]);
                    }
                    base = if base > usize::MAX - e { usize::MAX } else { base + e };
                    i = i + 1;
                }
                proof {
                    assert(ops@.take(i as int) =~= ops@);
                    lemma_union_docs(ops@);
                    bound = union_docs(ops@);
                    assert forall|d: u64| ops_match(ops@, self.bool_operator, d) implies bound.contains(d) by {}
                }
            },
            _ => {
                base = ops[0].estimate_length();
                proof {
                    lemma_doc_set(ops@[0]);
                    bound = doc_set(ops@[0]);
                    assert forall|d: u64| ops_match(ops@, self.bool_operator, d) implies bound.contains(d) by {
                        assert(ops@[0].has_doc(d));
                    }
                }
            },
        }
        let extra = match &self.peeked_value {
            Some(Some(_)) => true,
            _ => false,
        };
        let r = if extra {
            if base == usize::MAX { usize::MAX } else { base + 1 }
        } else {
            base
        };
        proof {
            let ms = self.match_set();
            let cached = if self.peek_extra() == 1 {
                Set::<u64>::empty().insert(self.peeked_value->Some_0->Some_0.0)
            } else {
                Set::<u64>::empty()
            };
            let cover = bound.union(cached);
            assert(cached.finite() && cached.len() == self.peek_extra());
            vstd::set_lib::lemma_len_union(bound, cached);
            assert forall|d: u64| ms.contains(d) implies cover.contains(d) by {
                assert(self.matches(d));
            }
            assert(ms.subset_of(cover));
            vstd::set_lib::lemma_len_subset(ms, cover);
        }
        r
    }
}

proof fn lemma_advanced_match(a: Seq<QueryResultIterator>, b: Seq<QueryResultIterator>, k: Option<BooleanOperator>, d: u64)
    requires
        ops_advanced(a, b),
    ensures
        ops_match(b, k, d) ==> ops_match(a, k, d),
        aligned(a, d) == aligned(b, d),
{
    assert forall|i: int| 0 <= i < a.len() && #[trigger] b[i].has_doc(d) implies a[i].has_doc(d) by {
        let m = choose|m: int| b[i].cursor() <= m < b[i].postings_view().len() && #[trigger] b[i].postings_view()[m].0 == d;
        assert(a[i].postings_view()[m].0 == d);
    }
    assert forall|p: int| aligned_at(a, d, p) == aligned_at(b, d, p) by {
        if aligned_at(a, d, p) {
            assert forall|i: int| 0 <= i < b.len() implies #[trigger] b[i].has_position(d, p + b[i].rel()) by {
                assert(a[i].has_position(d, p + a[i].rel()));
                assert(a[i].postings_view() == b[i].postings_view());
            }
        }
        if aligned_at(b, d, p) {
            assert forall|i: int| 0 <= i < a.len() implies #[trigger] a[i].has_position(d, p + a[i].rel()) by {
                assert(b[i].has_position(d, p + b[i].rel()));
                assert(a[i].postings_view() == b[i].postings_view());
            }
        }
    }
    if aligned(a, d) {
        let p = choose|p: int| #[trigger] aligned_at(a, d, p);
        assert(aligned_at(b, d, p));
    }
    if aligned(b, d) {
        let p = choose|p: int| #[trigger] aligned_at(b, d, p);
        assert(aligned_at(a, d, p));
    }
    if all_have(b, d) {
        assert forall|i: int| 0 <= i < a.len() implies #[trigger] a[i].has_doc(d) by {
            assert(b[i].has_doc(d));
        }
    }
    if ops_match(b, k, d) && k == Some(BooleanOperator::Or) {
        let i = choose|i: int| 0 <= i < b.len() && #[trigger] b[i].has_doc(d);
        assert(a[i].has_doc(d));
    }
}

/// The contract of a step of an n-ary query over operands `a` that leaves
/// them as `b`: the least matching document comes out, and exactly it is
/// dropped from the matches.
pub open spec fn step_ok(
    a: Seq<QueryResultIterator>,
    b: Seq<QueryResultIterator>,
    k: Option<BooleanOperator>,
    r: Option<u64>,
) -> bool {
    &&& ops_advanced(a, b)
    &&& r is None ==> forall|d: u64| !ops_match(a, k, d) && !ops_match(b, k, d)
    &&& r is Some ==> {
        let f = r->Some_0;
        &&& ops_match(a, k, f)
        &&& forall|d: u64| ops_match(a, k, d) ==> f <= d
        &&& forall|d: u64| ops_match(b, k, d) <==> ops_match(a, k, d) && d > f
    }
}

fn next_and_ops(ops: &mut Vec<QueryResultIterator>) -> (r: Option<Posting>)
    requires
        old(ops)@.len() > 0,
        forall|i: int| 0 <= i < old(ops)@.len() ==> (#[trigger] old(ops)@[i]).wf(),
    ensures
        step_ok(old(ops)@, final(ops)@, Some(BooleanOperator::And), match r { Some(p) => Some(p.0), None => None }),
{
    match advance_and(ops) {
        None => {
            proof {
                assert forall|d: u64| !all_have(ops@, d) by {
                    lemma_advanced_match(old(ops)@, ops@, Some(BooleanOperator::And), d);
                }
            }
            None
        },
        Some(f) => {
            let p = ops[0].current();
            Some(p)
        },
    }
}

fn next_or_ops(ops: &mut Vec<QueryResultIterator>) -> (r: Option<Posting>)
    requires
        old(ops)@.len() > 0,
        forall|i: int| 0 <= i < old(ops)@.len() ==> (#[trigger] old(ops)@[i]).wf(),
    ensures
        step_ok(old(ops)@, final(ops)@, Some(BooleanOperator::Or), match r { Some(p) => Some(p.0), None => None }),
{
    let ghost o = ops@;
    let n = ops.len();
    let mut min: Option<u64> = None;
    let ghost mut w: int = 0;
    let mut i: usize = 0;
    while i < n
        invariant
            o == ops@,
            n == o.len(),
            i <= n,
            forall|j: int| 0 <= j < n ==> (#[trigger] o[j]).wf(),
            min is None ==> forall|j: int| 0 <= j < i ==> (#[trigger] o[j]).cursor() >= o[j].postings_view().len(),
            min is Some ==> 0 <= w < i && o[w].cursor() < o[w].postings_view().len() && o[w].postings_view()[o[w].cursor()].0
                == min->Some_0,
            min is Some ==> forall|j: int|
                0 <= j < i && (#[trigger] o[j]).cursor() < o[j].postings_view().len() ==> min->Some_0 <= o[j].postings_view()[o[j].cursor()].0,
        decreases n - i,
    {
        match ops[i].peek() {
            Some(d) => {
                let smaller = match min {
                    None => true,
                    Some(m) => d < m,
                };
                if smaller {
                    min = Some(d);
                    proof { w = i as int; }
                }
            },
            None => {},
        }
        i = i + 1;
    }
    let m = match min {
        None => {
            proof {
                assert forall|d: u64| !any_has(o, d) by {
                    assert forall|j: int| 0 <= j < n implies !(#[trigger] o[j]).has_doc(d) by {
                        assert(o[j].cursor() >= o[j].postings_view().len());
                    }
                }
            }
            return None;
        },
        Some(m) => m,
    };
    let mut tmp: Option<Posting> = None;
    i = 0;
    while i < n
        invariant
            n == o.len(),
            ops@.len() == n,
            i <= n,
            0 <= w < n,
            o[w].cursor() < o[w].postings_view().len() && o[w].postings_view()[o[w].cursor()].0 == m,
            forall|j: int|
                0 <= j < n && (#[trigger] o[j]).cursor() < o[j].postings_view().len() ==> m <= o[j].postings_view()[o[j].cursor()].0,
            forall|j: int| 0 <= j < n ==> (#[trigger] o[j]).wf(),
            ops_advanced(o, ops@),
            forall|j: int|
                0 <= j < i ==> if o[j].cursor() < o[j].postings_view().len() && o[j].postings_view()[o[j].cursor()].0 == m {
                    (#[trigger] ops@[j]).cursor() == o[j].cursor() + 1
                } else {
                    ops@[j].cursor() == o[j].cursor()
                },
            forall|j: int| i <= j < n ==> #[trigger] ops@[j] == o[j],
            tmp is Some ==> tmp->Some_0.0 == m,
            w < i ==> tmp is Some,
        decreases n - i,
    {
        let head = ops[i].peek();
        if head == Some(m) {
            tmp = ops[i].next();
        }
        i = i + 1;
    }
    proof {
        let b = ops@;
        assert(o[w].has_doc(m));
        assert forall|d: u64| any_has(o, d) implies m <= d by {
            let j = choose|j: int| 0 <= j < n && #[trigger] o[j].has_doc(d);
            let k = choose|k: int| o[j].cursor() <= k < o[j].postings_view().len() && #[trigger] o[j].postings_view()[k].0 == d;
            assert(valid_listing(o[j].postings_view(), 0));
            if k > o[j].cursor() {
                assert(o[j].postings_view()[o[j].cursor()].0 < o[j].postings_view()[k].0);
            }
        }
        assert forall|d: u64| any_has(b, d) <==> any_has(o, d) && d > m by {
            if any_has(b, d) {
                lemma_advanced_match(o, b, Some(BooleanOperator::Or), d);
                let j = choose|j: int| 0 <= j < n && #[trigger] b[j].has_doc(d);
                let k = choose|k: int| b[j].cursor() <= k < b[j].postings_view().len() && #[trigger] b[j].postings_view()[k].0 == d;
                assert(valid_listing(o[j].postings_view(), 0));
                assert(o[j].has_doc(d));
                if b[j].cursor() == o[j].cursor() {
                    if k > o[j].cursor() {
                        assert(o[j].postings_view()[o[j].cursor()].0 < o[j].postings_view()[k].0);
                    }
                } else {
                    assert(o[j].postings_view()[o[j].cursor()].0 < o[j].postings_view()[k].0);
                }
            }
            if any_has(o, d) && d > m {
                let j = choose|j: int| 0 <= j < n && #[trigger] o[j].has_doc(d);
                let k = choose|k: int| o[j].cursor() <= k < o[j].postings_view().len() && #[trigger] o[j].postings_view()[k].0 == d;
                assert(b[j].postings_view()[k].0 == d);
                assert(b[j].has_doc(d));
            }
        }
    }
    tmp
}

fn next_inorder_ops(ops: &mut Vec<QueryResultIterator>) -> (r: Option<Posting>)
    requires
        old(ops)@.len() > 0,
        forall|i: int| 0 <= i < old(ops)@.len() ==> (#[trigger] old(ops)@[i]).wf(),
    ensures
        step_ok(old(ops)@, final(ops)@, None, match r { Some(p) => Some(p.0), None => None }),
{
    let ghost o = ops@;
    let mut result: Option<Posting> = None;
    let mut done = false;
    proof {
        assert forall|d: u64| ops_match(o, None, d) <==> ops_match(ops@, None, d) by {}
        assert forall|i: int| 0 <= i < o.len() implies (#[trigger] ops@[i]).wf() && o[i].same_listing(&ops@[i]) by {}
    }
    while !done
        invariant
            ops@.len() == o.len(),
            o.len() > 0,
            ops_advanced(o, ops@),
            !done ==> forall|d: u64| ops_match(o, None, d) <==> ops_match(ops@, None, d),
            !done ==> result is None,
            done ==> step_ok(o, ops@, None, match result { Some(p) => Some(p.0), None => None }),
        decreases ops@[0].postings_view().len() - ops@[0].cursor(), if done { 0int } else { 1int },
    {
        let ghost before = ops@;
        match advance_and(ops) {
            None => {
                proof {
                    assert forall|d: u64| !ops_match(o, None, d) && !ops_match(ops@, None, d) by {
                        lemma_advanced_match(before, ops@, None, d);
                    }
                    assert forall|i: int| 0 <= i < o.len() implies (#[trigger] ops@[i]).wf() && o[i].same_listing(&ops@[i]) by {
                        assert(before[i].same_listing(&ops@[i]));
                    }
                }
                done = true;
                assert(step_ok(o, ops@, None, match result { Some(p) => Some(p.0), None => None }));
            },
            Some(f) => {
                let ok = current_aligned(ops, Ghost(f));
                proof {
                    assert forall|i: int| 0 <= i < o.len() implies (#[trigger] ops@[i]).wf() && o[i].same_listing(&ops@[i]) by {
                        assert(before[i].same_listing(&ops@[i]));
                    }
                    lemma_advanced_match(before, ops@, None, f);
                    lemma_advanced_match(o, before, None, f);
                    assert forall|d: u64| ops_match(ops@, None, d) <==> ops_match(o, None, d) && d > f by {
                        lemma_advanced_match(before, ops@, None, d);
                        if ops_match(o, None, d) {
                            assert(ops_match(before, None, d));
                            assert(f <= d);
                        }
                    }
                }
                if ok {
                    result = Some(ops[0].current());
                    proof {
                        assert(aligned(before, f));
                        assert(all_have(before, f));
                        assert(ops_match(before, None, f));
                        assert(ops_match(o, None, f));
                        assert forall|d: u64| ops_match(o, None, d) implies f <= d by {
                            assert(ops_match(before, None, d));
                        }
                    }
                    done = true;
                    assert(result->Some_0.0 == f);
                    assert(step_ok(o, ops@, None, match result { Some(p) => Some(p.0), None => None }));
                } else {
                    proof {
                        assert forall|d: u64| ops_match(o, None, d) <==> ops_match(ops@, None, d) by {
                            if ops_match(o, None, d) {
                                assert(ops_match(before, None, d));
                                assert(f <= d);
                                assert(d != f);
                            }
                        }
                    }
                }
            },
        }
    }
    result
}

/// Whether the values of `s` rise strictly.
pub open spec fn ascending_docs(s: Seq<u64>) -> bool {
    forall|i: int, j: int| 0 <= i < j < s.len() ==> s[i] < s[j]
}

impl NAryQueryIterator {
    fn compute_next(&mut self) -> (r: Option<Posting>)
        requires
            old(self).wf(),
            old(self).peeked_value is None,
        ensures
            final(self).bool_operator == old(self).bool_operator,
            final(self).pos_operator == old(self).pos_operator,
            final(self).peeked_value is None,
            step_ok(old(self).operands@, final(self).operands@, old(self).bool_operator, match r { Some(p) => Some(p.0), None => None }),
    {
        match self.bool_operator {
            Some(BooleanOperator::And) => next_and_ops(&mut self.operands),
            Some(BooleanOperator::Or) => next_or_ops(&mut self.operands),
            None => next_inorder_ops(&mut self.operands),
        }
    }

    /// The next document of the query, by ascending id, with the positions
    /// of one operand in it.
    pub fn next(&mut self) -> (r: Option<Posting>)
        requires
            old(self).wf(),
        ensures
            final(self).wf(),
            final(self).bool_op() == old(self).bool_op(),
            !final(self).has_peeked(),
            r is None ==> forall|d: u64| !old(self).matches(d) && !final(self).matches(d),
            r is Some ==> {
                let f = r->Some_0.0;
                &&& old(self).matches(f)
                &&& forall|d: u64| old(self).matches(d) ==> f <= d
                &&& forall|d: u64| final(self).matches(d) <==> old(self).matches(d) && d > f
            },
    {
        let cached = self.peeked_value.take();
        match cached {
            Some(v) => v,
            None => {
                let r = self.compute_next();
                proof {
                    assert forall|i: int| 0 <= i < self.operands@.len() implies (#[trigger] self.operands@[i]).wf() by {}
                }
                r
            },
        }
    }

    /// The next document of the query without passing it.
    pub fn peek(&mut self) -> (r: Option<u64>)
        requires
            old(self).wf(),
        ensures
            final(self).wf(),
            final(self).bool_op() == old(self).bool_op(),
            forall|d: u64| final(self).matches(d) == old(self).matches(d),
            r is None ==> forall|d: u64| !old(self).matches(d),
            r is Some ==> old(self).matches(r->Some_0) && forall|d: u64| old(self).matches(d) ==> r->Some_0 <= d,
    {
        if self.peeked_value.is_none() {
            let v = self.compute_next();
            self.peeked_value = Some(v);
            proof {
                assert forall|i: int| 0 <= i < self.operands@.len() implies (#[trigger] self.operands@[i]).wf() by {}
            }
        }
        match &self.peeked_value {
            Some(Some(p)) => Some(p.0),
            _ => None,
        }
    }

    /// Drains the query: all its documents, ascending.
    pub fn collect_docs(&mut self) -> (r: Vec<u64>)
        requires
            old(self).wf(),
        ensures
            final(self).wf(),
            ascending_docs(r@),
            forall|d: u64| r@.contains(d) <==> old(self).matches(d),
    {
        let ghost start = *self;
        let mut out: Vec<u64> = Vec::new();
        let mut done = false;
        while !done
            invariant
                self.wf(),
                ascending_docs(out@),
                forall|d: u64| start.matches(d) <==> (out@.contains(d) || self.matches(d)),
                forall|d: u64| self.matches(d) && out@.len() > 0 ==> d > out@.last(),
                done ==> forall|d: u64| !self.matches(d),
            decreases u64::MAX + 1 - (if out@.len() == 0 { 0 } else { out@.last() + 1 }), if done { 0int } else { 1int },
        {
            let ghost before = *self;
            let ghost ob = out@;
            match self.next() {
                Some(p) => {
                    out.push(p.0);
                    proof {
                        assert forall|i: int, j: int| 0 <= i < j < out@.len() implies out@[i] < out@[j] by {
                            if j == ob.len() && i < ob.len() {
                                assert(ob[i] <= ob.last()) by {
                                    if i < ob.len() - 1 {
                                        assert(ob[i] < ob[ob.len() - 1]);
                                    }
                                }
                            }
                        }
                        assert forall|d: u64| start.matches(d) <==> (out@.contains(d) || self.matches(d)) by {
                            if ob.contains(d) {
                                let k = choose|k: int| 0 <= k < ob.len() && ob[k] == d;
                                assert(out@[k] == d);
                            }
                            if out@.contains(d) && d != p.0 {
                                let k = choose|k: int| 0 <= k < out@.len() && out@[k] == d;
                                assert(ob[k] == d);
                            }
                            if d == p.0 {
                                assert(out@[ob.len() as int] == d);
                            }
                        }
                    }
                },
                None => {
                    done = true;
                },
            }
        }
        out
    }
}

/// Passes, in every operand, the postings of documents below `target`.
fn skip_operands_to(ops: &mut Vec<QueryResultIterator>, target: u64, Ghost(k): Ghost<Option<BooleanOperator>>)
    requires
        forall|i: int| 0 <= i < old(ops)@.len() ==> (#[trigger] old(ops)@[i]).wf(),
    ensures
        ops_advanced(old(ops)@, final(ops)@),
        forall|d: u64| d >= target ==> (ops_match(final(ops)@, k, d) <==> ops_match(old(ops)@, k, d)),
        forall|d: u64| ops_match(final(ops)@, k, d) ==> d >= target,
{
    let ghost o = ops@;
    let n = ops.len();
    let mut i: usize = 0;
    while i < n
        invariant
            n == o.len(),
            ops@.len() == n,
            i <= n,
            forall|j: int| 0 <= j < n ==> (#[trigger] o[j]).wf(),
            ops_advanced(o, ops@),
            forall|j: int| i <= j < n ==> #[trigger] ops@[j] == o[j],
            forall|j: int, m: int| 0 <= j < i && o[j].cursor() <= m < ops@[j].cursor() ==> #[trigger] o[j].postings_view()[m].0 < target,
            forall|j: int|
                0 <= j < i && (#[trigger] ops@[j]).cursor() < ops@[j].postings_view().len() ==> ops@[j].postings_view()[ops@[j].cursor()].0
                    >= target,
        decreases n - i,
    {
        ops[i].skip_to(target);
        i = i + 1;
    }
    proof {
        let b = ops@;
        assert forall|j: int, d: u64| 0 <= j < n && d >= target implies #[trigger] b[j].has_doc(d) == o[j].has_doc(d) by {
            if o[j].has_doc(d) && !b[j].has_doc(d) {
                lemma_consumed(o[j], b[j], d);
                let m = choose|m: int| o[j].cursor() <= m < b[j].cursor() && #[trigger] o[j].postings_view()[m].0 == d;
                assert(o[j].postings_view()[m].0 < target);
            }
            if b[j].has_doc(d) {
                let m = choose|m: int| b[j].cursor() <= m < b[j].postings_view().len() && #[trigger] b[j].postings_view()[m].0 == d;
                assert(o[j].postings_view()[m].0 == d);
            }
        }
        assert forall|j: int, d: u64| 0 <= j < n && #[trigger] b[j].has_doc(d) implies d >= target by {
            let m = choose|m: int| b[j].cursor() <= m < b[j].postings_view().len() && #[trigger] b[j].postings_view()[m].0 == d;
            assert(valid_listing(b[j].postings_view(), 0));
            if m > b[j].cursor() {
                assert(b[j].postings_view()[b[j].cursor()].0 < b[j].postings_view()[m].0);
            }
        }
        assert forall|d: u64| d >= target implies (ops_match(b, k, d) <==> ops_match(o, k, d)) by {
            lemma_advanced_match(o, b, k, d);
            if all_have(o, d) {
                assert forall|j: int| 0 <= j < n implies #[trigger] b[j].has_doc(d) by {
                    assert(o[j].has_doc(d));
                }
            }
            if any_has(o, d) {
                let j = choose|j: int| 0 <= j < n && #[trigger] o[j].has_doc(d);
                assert(b[j].has_doc(d));
            }
        }
        assert forall|d: u64| ops_match(b, k, d) implies d >= target by {
            if any_has(b, d) {
                let j = choose|j: int| 0 <= j < n && #[trigger] b[j].has_doc(d);
            } else {
                assert(b[0].has_doc(d));
            }
        }
    }
}

impl NAryQueryIterator {
    /// Passes the documents below `target`, then returns and passes the
    /// next document of the query.
    pub fn next_seek(&mut self, target: u64) -> (r: Option<Posting>)
        requires
            old(self).wf(),
        ensures
            final(self).wf(),
            final(self).bool_op() == old(self).bool_op(),
            !final(self).has_peeked(),
            r is None ==> forall|d: u64| !final(self).matches(d) && (d >= target ==> !old(self).matches(d)),
            r is Some ==> {
                let f = r->Some_0.0;
                &&& f >= target
                &&& old(self).matches(f)
                &&& forall|d: u64| d >= target && old(self).matches(d) ==> f <= d
                &&& forall|d: u64| final(self).matches(d) <==> old(self).matches(d) && d > f
            },
    {
        let keep = match &self.peeked_value {
            Some(Some(p)) => p.0 >= target,
            _ => false,
        };
        if keep {
            return self.next();
        }
        let ghost before = *self;
        self.peeked_value = None;
        skip_operands_to(&mut self.operands, target, Ghost(self.bool_operator));
        proof {
            assert forall|i: int| 0 <= i < self.operands@.len() implies (#[trigger] self.operands@[i]).wf() by {}
            assert forall|d: u64| d >= target implies (ops_match(self.operands@, self.bool_operator, d) <==> before.matches(d)) by {
                assert(ops_match(self.operands@, self.bool_operator, d) <==> ops_match(before.operands@, before.bool_operator, d));
            }
        }
        let r = self.compute_next();
        proof {
            assert forall|i: int| 0 <= i < self.operands@.len() implies (#[trigger] self.operands@[i]).wf() by {}
        }
        r
    }

    /// Passes the documents below `target` and returns the next document of
    /// the query without passing it.
    pub fn peek_seek(&mut self, target: u64) -> (r: Option<u64>)
        requires
            old(self).wf(),
        ensures
            final(self).wf(),
            final(self).bool_op() == old(self).bool_op(),
            forall|d: u64| final(self).matches(d) == (old(self).matches(d) && d >= target),
            r is None ==> forall|d: u64| d >= target ==> !old(self).matches(d),
            r is Some ==> r->Some_0 >= target && old(self).matches(r->Some_0) && forall|d: u64|
                d >= target && old(self).matches(d) ==> r->Some_0 <= d,
    {
        let next = self.next_seek(target);
        let ghost mid = *self;
        proof {
            assert forall|d: u64| mid.matches(d) == ops_match(mid.operands@, mid.bool_operator, d) by {}
        }
        match next {
            Some(p) => {
                let d = p.0;
                self.peeked_value = Some(Some(p));
                proof {
                    assert forall|x: u64| ops_match(self.operands@, self.bool_operator, x) implies x > d by {
                        assert(mid.matches(x));
                    }
                }
                Some(d)
            },
            None => {
                self.peeked_value = Some(None);
                proof {
                    assert forall|x: u64| !ops_match(self.operands@, self.bool_operator, x) by {
                        assert(!mid.matches(x));
                    }
                }
                None
            },
        }
    }
}

} // verus!
