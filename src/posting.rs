//! Postings and listings, and their delta encoding as a stream of numbers:
//! per posting the document's distance from the previous one, the number of
//! positions, then each position's distance from the previous one.
use vstd::prelude::*;

use crate::storage::StorageError;
use crate::vbyte::{encoded_all, fits_u64, nats_of, vbyte_write};

verus! {

/// A posting: a document id and the positions of a term in that document.
pub type Posting = (u64, Vec<u32>);

/// A listing: the postings of one term, by ascending document id.
pub type Listing = Vec<Posting>;

/// Whether the values of `s` rise strictly.
pub open spec fn strictly_ascending(s: Seq<u32>) -> bool {
    forall|i: int, j: int| 0 <= i < j < s.len() ==> s[i] < s[j]
}

/// The mathematical view of a listing.
pub open spec fn listing_view(l: Seq<Posting>) -> Seq<(u64, Seq<u32>)> {
    l.map_values(|p: Posting| (p.0, p.1@))
}

/// A listing whose documents rise strictly from `base` on (the first may
/// equal `base`) and whose positions rise strictly in each posting.
pub open spec fn valid_listing(l: Seq<(u64, Seq<u32>)>, base: nat) -> bool {
    &&& l.len() > 0 ==> l[0].0 >= base
    &&& forall|i: int, j: int| 0 <= i < j < l.len() ==> l[i].0 < l[j].0
    &&& forall|i: int| 0 <= i < l.len() ==> strictly_ascending(#[trigger] l[i].1)
}

/// The document id of the last posting, or `base` for an empty listing.
pub open spec fn last_doc(l: Seq<(u64, Seq<u32>)>, base: nat) -> nat {
    if l.len() == 0 {
        base
    } else {
        l.last().0 as nat
    }
}

/// The distances of the positions from their predecessors, the first from `last`.
pub open spec fn position_values(ps: Seq<u32>, last: nat) -> Seq<nat>
    decreases ps.len(),
{
    if ps.len() == 0 {
        seq![]
    } else {
        seq![(ps[0] - last) as nat] + position_values(ps.drop_first(), ps[0] as nat)
    }
}

/// The numbers that encode one posting after a posting of document `prev`.
pub open spec fn posting_values(p: (u64, Seq<u32>), prev: nat) -> Seq<nat> {
    seq![(p.0 - prev) as nat, p.1.len()] + position_values(p.1, 0)
}

/// The numbers that encode a listing written after document `base`.
pub open spec fn listing_values(l: Seq<(u64, Seq<u32>)>, base: nat) -> Seq<nat>
    decreases l.len(),
{
    if l.len() == 0 {
        seq![]
    } else {
        posting_values(l[0], base) + listing_values(l.drop_first(), l[0].0 as nat)
    }
}

/// The positions whose distances are the first `k` of `values`, after `last`.
pub open spec fn parse_positions(values: Seq<nat>, k: nat, last: nat) -> Seq<nat>
    decreases k,
{
    if k == 0 || values.len() == 0 {
        seq![]
    } else {
        seq![last + values[0]] + parse_positions(values.drop_first(), (k - 1) as nat, last + values[0])
    }
}

/// The postings that a stream of numbers encodes after document `base`, or
/// `None` where the stream ends inside a posting.
pub open spec fn parse_listing(values: Seq<nat>, base: nat) -> Option<Seq<(nat, Seq<nat>)>>
    decreases values.len(),
{
    if values.len() == 0 {
        Some(seq![])
    } else if values.len() < 2 || values[1] > values.len() - 2 {
        None
    } else {
        let doc = base + values[0];
        let k = values[1];
        match parse_listing(values.subrange(2 + k as int, values.len() as int), doc) {
            Some(rest) => Some(seq![(doc, parse_positions(values.subrange(2, 2 + k as int), k, 0))] + rest),
            None => None,
        }
    }
}

/// A listing with its numbers read as mathematical integers.
pub open spec fn nat_listing(l: Seq<(u64, Seq<u32>)>) -> Seq<(nat, Seq<nat>)> {
    l.map_values(|p: (u64, Seq<u32>)| (p.0 as nat, p.1.map_values(|x: u32| x as nat)))
}

/// Whether a parsed listing fits the machine types of a `Listing`.
pub open spec fn fits_listing(l: Seq<(nat, Seq<nat>)>) -> bool {
    forall|i: int|
        0 <= i < l.len() ==> #[trigger] l[i].0 <= u64::MAX && forall|j: int|
            0 <= j < l[i].1.len() ==> #[trigger] l[i].1[j] <= u32::MAX
}

pub(crate) proof fn lemma_encoded_all_concat(a: Seq<nat>, b: Seq<nat>)
    ensures
        encoded_all(a + b) == encoded_all(a) + encoded_all(b),
    decreases a.len(),
{
    if a.len() == 0 {
        assert(a + b =~= b);
    } else {
        assert((a + b).drop_first() =~= a.drop_first() + b);
        lemma_encoded_all_concat(a.drop_first(), b);
        assert(encoded_all(a + b) =~= encoded_all(a) + encoded_all(b));
    }
}

proof fn lemma_encoded_all_one(x: nat)
    ensures
        encoded_all(seq![x]) == crate::vbyte::encoded(x),
{
    assert(seq![x].drop_first() =~= seq![]);
    assert(encoded_all(seq![x].drop_first()) == Seq::<u8>::empty());
    assert(encoded_all(seq![x]) =~= crate::vbyte::encoded(x));
}

/// Appends the encoding of one posting of document `doc`, written after a
/// posting of document `prev`.
pub fn write_posting(doc: u64, positions: &Vec<u32>, prev: u64, target: &mut Vec<u8>)
    requires
        doc >= prev,
        strictly_ascending(positions@),
    ensures
        final(target)@ == old(target)@ + encoded_all(posting_values((doc, positions@), prev as nat)),
{
    let ghost ps = positions@;
    vbyte_write(doc - prev, target);
    vbyte_write(positions.len() as u64, target);
    proof {
        let head = seq![(doc - prev) as nat, ps.len()];
        assert(head =~= seq![(doc - prev) as nat] + seq![ps.len()]);
        lemma_encoded_all_concat(seq![(doc - prev) as nat], seq![ps.len()]);
        lemma_encoded_all_one((doc - prev) as nat);
        lemma_encoded_all_one(ps.len());
        lemma_encoded_all_concat(head, position_values(ps, 0));
        assert(ps.skip(0) =~= ps);
    }
    let mut last: u32 = 0;
    let mut i: usize = 0;
    while i < positions.len()
        invariant
            ps == positions@,
            strictly_ascending(ps),
            i <= ps.len(),
            i > 0 ==> last == ps[i - 1],
            i == 0 ==> last == 0,
            old(target)@ + encoded_all(posting_values((doc, ps), prev as nat)) == target@ + encoded_all(
                position_values(ps.skip(i as int), last as nat),
            ),
        decreases ps.len() - i,
    {
        let p = positions[i];
        assert(ps.skip(i as int)[0] == p);
        assert(ps.skip(i as int).drop_first() =~= ps.skip(i + 1));
        let ghost before = target@;
        vbyte_write((p - last) as u64, target);
        proof {
            let rest = position_values(ps.skip(i + 1), p as nat);
            lemma_encoded_all_concat(seq![(p - last) as nat], rest);
            lemma_encoded_all_one((p - last) as nat);
            assert(before + encoded_all(position_values(ps.skip(i as int), last as nat)) =~= target@ + encoded_all(rest));
        }
        last = p;
        i = i + 1;
    }
    assert(ps.skip(i as int) =~= seq![]);
    assert(target@ + encoded_all(seq![]) =~= target@);
}

/// Writes a listing, delta-encoded after document `base_doc_id`, to the end
/// of `target`; returns the document id of its last posting (`base_doc_id`
/// for an empty listing), the base of the next listing of the same term.
pub fn write_listing(listing: Listing, base_doc_id: u64, target: &mut Vec<u8>) -> (r: Result<u64, StorageError>)
    requires
        valid_listing(listing_view(listing@), base_doc_id as nat),
    ensures
        r == Ok::<u64, StorageError>(last_doc(listing_view(listing@), base_doc_id as nat) as u64),
        final(target)@ == old(target)@ + encoded_all(listing_values(listing_view(listing@), base_doc_id as nat)),
{
    let ghost l = listing_view(listing@);
    assert(l.skip(0) =~= l);
    let mut base: u64 = base_doc_id;
    let mut i: usize = 0;
    while i < listing.len()
        invariant
            l == listing_view(listing@),
            valid_listing(l, base_doc_id as nat),
            i <= l.len(),
            i > 0 ==> base == l[i - 1].0,
            i == 0 ==> base == base_doc_id,
            old(target)@ + encoded_all(listing_values(l, base_doc_id as nat)) == target@ + encoded_all(
                listing_values(l.skip(i as int), base as nat),
            ),
        decreases l.len() - i,
    {
        let doc = listing[i].0;
        assert(l[i as int].0 == doc && l[i as int].1 == listing[i as int].1@);
        assert(strictly_ascending(l[i as int].1));
        if i > 0 {
            assert(l[i - 1].0 < l[i as int].0);
        }
        let ghost before = target@;
        write_posting(doc, &listing[i].1, base, target);
        proof {
            assert(l.skip(i as int)[0] == l[i as int]);
            assert(l.skip(i as int).drop_first() =~= l.skip(i + 1));
            lemma_encoded_all_concat(posting_values(l[i as int], base as nat), listing_values(l.skip(i + 1), doc as nat));
        }
        base = doc;
        i = i + 1;
    }
    assert(l.skip(i as int) =~= seq![]);
    assert(target@ + encoded_all(seq![]) =~= target@);
    Ok(base)
}

proof fn lemma_position_values_len(ps: Seq<u32>, last: nat)
    ensures
        position_values(ps, last).len() == ps.len(),
    decreases ps.len(),
{
    if ps.len() > 0 {
        lemma_position_values_len(ps.drop_first(), ps[0] as nat);
    }
}

proof fn lemma_positions_round_trip(ps: Seq<u32>, last: nat, tail: Seq<nat>)
    requires
        strictly_ascending(ps),
        ps.len() > 0 ==> ps[0] >= last,
    ensures
        parse_positions(position_values(ps, last) + tail, ps.len(), last) == ps.map_values(|x: u32| x as nat),
    decreases ps.len(),
{
    let vals = position_values(ps, last) + tail;
    if ps.len() == 0 {
        assert(ps.map_values(|x: u32| x as nat) =~= seq![]);
    } else {
        let rest = ps.drop_first();
        assert(vals[0] == ps[0] - last);
        assert(vals.drop_first() =~= position_values(rest, ps[0] as nat) + tail);
        assert(rest.len() > 0 ==> rest[0] >= ps[0]) by {
            if rest.len() > 0 {
                assert(ps[1] > ps[0]);
            }
        }
        lemma_positions_round_trip(rest, ps[0] as nat, tail);
        assert(ps.map_values(|x: u32| x as nat) =~= seq![ps[0] as nat] + rest.map_values(|x: u32| x as nat));
    }
}

/// Reading back the numbers that encode a valid listing gives the listing.
pub proof fn law_listing_round_trip(l: Seq<(u64, Seq<u32>)>, base: nat)
    requires
        valid_listing(l, base),
    ensures
        parse_listing(listing_values(l, base), base) == Some(nat_listing(l)),
    decreases l.len(),
{
    let vals = listing_values(l, base);
    if l.len() == 0 {
        assert(nat_listing(l) =~= seq![]);
    } else {
        let p = l[0];
        let rest = l.drop_first();
        let pv = position_values(p.1, 0);
        lemma_position_values_len(p.1, 0);
        let k = p.1.len();
        assert(valid_listing(rest, p.0 as nat)) by {
            if rest.len() > 0 {
                assert(l[0].0 < l[1].0);
            }
            assert forall|i: int| 0 <= i < rest.len() implies strictly_ascending(#[trigger] rest[i].1) by {
                assert(rest[i] == l[i + 1]);
            }
        }
        law_listing_round_trip(rest, p.0 as nat);
        let tail = listing_values(rest, p.0 as nat);
        assert(vals =~= seq![(p.0 - base) as nat, k] + pv + tail);
        assert(vals[1] == k);
        assert(vals.subrange(2 + k as int, vals.len() as int) =~= tail);
        assert(vals.subrange(2, 2 + k as int) =~= pv + seq![]);
        assert(strictly_ascending(l[0].1));
        lemma_positions_round_trip(p.1, 0, seq![]);
        assert(nat_listing(l) =~= seq![(p.0 as nat, p.1.map_values(|x: u32| x as nat))] + nat_listing(rest));
    }
}

/// The numbers that encode a listing all fit in a `u64`.
pub proof fn lemma_listing_values_fit(l: Seq<(u64, Seq<u32>)>, base: nat)
    requires
        valid_listing(l, base),
        forall|i: int| 0 <= i < l.len() ==> #[trigger] l[i].1.len() <= u64::MAX,
    ensures
        fits_u64(listing_values(l, base)),
    decreases l.len(),
{
    if l.len() > 0 {
        let p = l[0];
        let rest = l.drop_first();
        assert(valid_listing(rest, p.0 as nat)) by {
            if rest.len() > 0 {
                assert(l[0].0 < l[1].0);
            }
            assert forall|i: int| 0 <= i < rest.len() implies strictly_ascending(#[trigger] rest[i].1) by {
                assert(rest[i] == l[i + 1]);
            }
        }
        assert forall|i: int| 0 <= i < rest.len() implies #[trigger] rest[i].1.len() <= u64::MAX by {
            assert(rest[i] == l[i + 1]);
        }
        lemma_listing_values_fit(rest, p.0 as nat);
        assert(strictly_ascending(l[0].1));
        lemma_position_values_fit(p.1, 0);
        let vals = listing_values(l, base);
        let pv = position_values(p.1, 0);
        let tail = listing_values(rest, p.0 as nat);
        assert(vals =~= seq![(p.0 - base) as nat, p.1.len()] + pv + tail);
        assert(p.1.len() <= u64::MAX);
        assert forall|i: int| 0 <= i < vals.len() implies #[trigger] vals[i] <= u64::MAX by {
            if i >= 2 + pv.len() {
                assert(vals[i] == tail[i - 2 - pv.len()]);
            } else if i >= 2 {
                assert(vals[i] == pv[i - 2]);
            }
        }
    }
}

proof fn lemma_position_values_fit(ps: Seq<u32>, last: nat)
    requires
        last <= u32::MAX,
        strictly_ascending(ps),
        ps.len() > 0 ==> ps[0] >= last,
    ensures
        forall|i: int| 0 <= i < position_values(ps, last).len() ==> #[trigger] position_values(ps, last)[i] <= u32::MAX,
    decreases ps.len(),
{
    if ps.len() > 0 {
        if ps.len() > 1 {
            assert(ps[1] > ps[0]);
        }
        lemma_position_values_fit(ps.drop_first(), ps[0] as nat);
        let v = position_values(ps, last);
        assert forall|i: int| 0 <= i < v.len() implies #[trigger] v[i] <= u32::MAX by {
            if i > 0 {
                assert(v[i] == position_values(ps.drop_first(), ps[0] as nat)[i - 1]);
            }
        }
    }
}

proof fn lemma_parse_positions_index(vals: Seq<nat>, k: nat, last: nat, j: int)
    requires
        0 <= j < k,
        k <= vals.len(),
    ensures
        parse_positions(vals, k, last).len() == k,
        parse_positions(vals, k, last)[j] == parse_positions(vals.skip(j), (k - j) as nat, if j == 0 { last } else { parse_positions(vals, k, last)[j - 1] })[0],
    decreases j,
{
    lemma_parse_positions_len(vals, k, last);
    if j > 0 {
        let v0 = vals[0];
        lemma_parse_positions_index(vals.drop_first(), (k - 1) as nat, last + v0, j - 1);
        assert(vals.drop_first().skip(j - 1) =~= vals.skip(j));
    } else {
        assert(vals.skip(0) =~= vals);
    }
}

proof fn lemma_parse_positions_len(vals: Seq<nat>, k: nat, last: nat)
    requires
        k <= vals.len(),
    ensures
        parse_positions(vals, k, last).len() == k,
    decreases k,
{
    if k > 0 {
        lemma_parse_positions_len(vals.drop_first(), (k - 1) as nat, last + vals[0]);
    }
}

/// Reads the postings that a stream of numbers encodes after document
/// `base`. Fails with `ReadError` where the stream ends inside a posting or a
/// document id or position does not fit its type.
pub fn decode_listing(values: &[u64], base: u64) -> (r: Result<Listing, StorageError>)
    ensures
        match r {
            Ok(l) => parse_listing(nats_of(values@), base as nat) == Some(nat_listing(listing_view(l@))),
            Err(e) => e == StorageError::ReadError && !(parse_listing(nats_of(values@), base as nat) is Some
                && fits_listing(parse_listing(nats_of(values@), base as nat)->0)),
        },
{
    let ghost all = nats_of(values@);
    let ghost whole = parse_listing(all, base as nat);
    let mut out: Listing = Vec::new();
    let mut prev: u64 = base;
    let mut i: usize = 0;
    assert(all.skip(0) =~= all);
    assert(forall|rest: Seq<(nat, Seq<nat>)>| nat_listing(listing_view(out@)) + rest =~= rest);
    while i < values.len()
        invariant
            all == nats_of(values@),
            whole == parse_listing(all, base as nat),
            i <= values.len(),
            whole == match parse_listing(all.skip(i as int), prev as nat) {
                Some(rest) => Some(nat_listing(listing_view(out@)) + rest),
                None => None::<Seq<(nat, Seq<nat>)>>,
            },
        decreases values.len() - i,
    {
        let ghost vals = all.skip(i as int);
        if values.len() - i < 2 {
            return Err(StorageError::ReadError);
        }
        let delta = values[i];
        let k = values[i + 1];
        assert(vals[0] == delta && vals[1] == k);
        if k > (values.len() - i - 2) as u64 {
            return Err(StorageError::ReadError);
        }
        let ghost sub = vals.subrange(2, 2 + k as int);
        let ghost after = vals.subrange(2 + k as int, vals.len() as int);
        assert(after =~= all.skip(i + 2 + k));
        assert(parse_listing(vals, prev as nat) == match parse_listing(after, (prev + delta) as nat) {
            Some(rest) => Some(seq![((prev + delta) as nat, parse_positions(sub, k as nat, 0))] + rest),
            None => None::<Seq<(nat, Seq<nat>)>>,
        });
        if delta > u64::MAX - prev {
            proof {
                if parse_listing(after, (prev + delta) as nat) is Some {
                    let w = whole->0;
                    assert(w[out@.len() as int].0 == prev + delta);
                    assert(!fits_listing(w));
                }
            }
            return Err(StorageError::ReadError);
        }
        let doc = prev + delta;
        let ku = k as usize;
        let mut positions: Vec<u32> = Vec::new();
        let mut last: u32 = 0;
        let mut j: usize = 0;
        proof {
            lemma_parse_positions_len(sub, k as nat, 0);
        }
        while j < ku
            invariant
                all == nats_of(values@),
                vals == all.skip(i as int),
                i + 2 + ku <= values.len(),
                ku == k,
                sub == vals.subrange(2, 2 + k as int),
                j <= ku,
                positions@.len() == j,
                forall|m: int| 0 <= m < j ==> positions@[m] == #[trigger] parse_positions(sub, k as nat, 0)[m],
                j > 0 ==> last == positions@[j - 1],
                j == 0 ==> last == 0,
                parse_positions(sub, k as nat, 0).len() == k,
                whole == parse_listing(all, base as nat),
                whole == match parse_listing(vals, prev as nat) {
                    Some(rest) => Some(nat_listing(listing_view(out@)) + rest),
                    None => None::<Seq<(nat, Seq<nat>)>>,
                },
                doc == prev + delta,
                parse_listing(vals, prev as nat) == match parse_listing(after, doc as nat) {
                    Some(rest) => Some(seq![(doc as nat, parse_positions(sub, k as nat, 0))] + rest),
                    None => None::<Seq<(nat, Seq<nat>)>>,
                },
            decreases ku - j,
        {
            let v = values[i + 2 + j];
            assert(sub[j as int] == v);
            proof {
                lemma_parse_positions_index(sub, k as nat, 0, j as int);
                assert(sub.skip(j as int)[0] == v);
            }
            if v > (u32::MAX - last) as u64 {
                proof {
                    assert(parse_positions(sub, k as nat, 0)[j as int] > u32::MAX);
                    if parse_listing(after, doc as nat) is Some {
                        let w = whole->0;
                        assert(w[out@.len() as int].1 == parse_positions(sub, k as nat, 0));
                        let n = out@.len() as int;
                        assert(w[n].1[j as int] > u32::MAX);
                        if fits_listing(w) {
                            assert(w[n].0 <= u64::MAX);
                            assert(w[n].1[j as int] <= u32::MAX);
                        }
                    }
                }
                return Err(StorageError::ReadError);
            }
            last = last + v as u32;
            positions.push(last);
            j = j + 1;
        }
        proof {
            assert(positions@.map_values(|x: u32| x as nat) =~= parse_positions(sub, k as nat, 0));
        }
        let ghost before = out@;
        out.push((doc, positions));
        proof {
            assert(listing_view(out@) =~= listing_view(before).push((doc, positions@)));
            assert(nat_listing(listing_view(out@)) =~= nat_listing(listing_view(before)).push((doc as nat, sub_nat(positions@))));
            match parse_listing(after, doc as nat) {
                Some(rest) => {
                    assert(nat_listing(listing_view(before)) + (seq![(doc as nat, parse_positions(sub, k as nat, 0))] + rest)
                        =~= nat_listing(listing_view(out@)) + rest);
                },
                None => {},
            }
        }
        prev = doc;
        i = i + 2 + ku;
    }
    assert(all.skip(i as int) =~= seq![]);
    assert(nat_listing(listing_view(out@)) + seq![] =~= nat_listing(listing_view(out@)));
    Ok(out)
}

spec fn sub_nat(ps: Seq<u32>) -> Seq<nat> {
    ps.map_values(|x: u32| x as nat)
}

} // verus!
