//! The index: documents as sequences of term keys, indexed in chunks of
//! documents through emit, sort and group, and merge, and queried by term.
use vstd::prelude::*;

use crate::chunked::{appendable, ChunkedStorage};
use crate::corpus::{
    base_of, block_entries, corpus_listing, has_term, lemma_group_range, lemma_merge,
    lemma_range_bound, lemma_range_prefix, lemma_range_split, lemma_range_valid, listing_of,
    occurrences, range_entries, range_listing,
};
use crate::indexing::{
    grouped_view, invert_chunk, lemma_term_entries_absent, sort_and_group_chunk,
    term_entries, IndexingError, Triple,
};
use crate::posting::{listing_view, Posting};
use crate::vocabulary::{assign, id_used, lemma_assign_concat, lemma_assign_grows, Vocabulary};

verus! {

/// The number of documents whose triples form one chunk of the pipeline.
pub const DOCS_PER_CHUNK: usize = 256;

/// Whether document lengths and the corpus size fit the id and position types.
pub open spec fn docs_fit(docs: Seq<Seq<u64>>) -> bool {
    &&& docs.len() <= u64::MAX
    &&& forall|d: int| 0 <= d < docs.len() ==> (#[trigger] docs[d]).len() <= u32::MAX + 1
}

/// The number of terms in documents `a..b`.
pub open spec fn words(docs: Seq<Seq<u64>>, a: int, b: int) -> nat
    decreases b - a,
{
    if b <= a {
        0
    } else {
        words(docs, a, b - 1) + docs[b - 1].len()
    }
}

/// The terms of documents `a..b`, one after the other.
pub open spec fn term_stream(docs: Seq<Seq<u64>>, a: int, b: int) -> Seq<u64>
    decreases b - a,
{
    if b <= a {
        seq![]
    } else {
        term_stream(docs, a, b - 1) + docs[b - 1]
    }
}

proof fn lemma_stream_split(docs: Seq<Seq<u64>>, a: int, b: int, c: int)
    requires
        a <= b <= c,
    ensures
        term_stream(docs, a, c) == term_stream(docs, a, b) + term_stream(docs, b, c),
        term_stream(docs, a, c).len() == words(docs, a, c),
    decreases c - b,
{
    if c == b {
        assert(term_stream(docs, a, b) + Seq::<u64>::empty() =~= term_stream(docs, a, b));
        lemma_stream_words(docs, a, c);
    } else {
        lemma_stream_split(docs, a, b, c - 1);
        assert(term_stream(docs, a, c) =~= term_stream(docs, a, b) + term_stream(docs, b, c));
        lemma_stream_words(docs, a, c);
    }
}

proof fn lemma_stream_words(docs: Seq<Seq<u64>>, a: int, b: int)
    ensures
        term_stream(docs, a, b).len() == words(docs, a, b),
    decreases b - a,
{
    if b > a {
        lemma_stream_words(docs, a, b - 1);
    }
}

/// The terms of documents depend on those documents only, wherever they stand.
proof fn lemma_stream_shift(d1: Seq<Seq<u64>>, d2: Seq<Seq<u64>>, off: int, a: int, b: int)
    requires
        forall|i: int| a <= i < b ==> #[trigger] d2[i] == d1[i + off],
    ensures
        term_stream(d1, a + off, b + off) == term_stream(d2, a, b),
        words(d1, a + off, b + off) == words(d2, a, b),
    decreases b - a,
{
    if b > a {
        lemma_stream_shift(d1, d2, off, a, b - 1);
        assert(d2[b - 1] == d1[b - 1 + off]);
    }
}

/// The documents of a vector of documents.
pub open spec fn docs_view(docs: Seq<Vec<u64>>) -> Seq<Seq<u64>> {
    docs.map_values(|d: Vec<u64>| d@)
}

proof fn lemma_words_step(docs: Seq<Seq<u64>>, a: int, b: int)
    requires
        a <= b,
    ensures
        words(docs, a, b) <= words(docs, a, b + 1),
        words(docs, a, b + 1) == words(docs, a, b) + docs[b].len(),
{
}

/// Emits the triples of document `d` of corpus `docs`, whose terms are
/// `doc`, after those of documents `a..d` already in `c`, resolving each
/// term through the vocabulary and adding unknown terms.
pub(crate) fn emit_document(
    vocab: &mut Vocabulary,
    doc: &Vec<u64>,
    d: u64,
    Ghost(docs): Ghost<Seq<Seq<u64>>>,
    Ghost(a): Ghost<int>,
    Ghost(ov): Ghost<Map<u64, u64>>,
    Ghost(on): Ghost<nat>,
    c: &mut Vec<Triple>,
)
    requires
        old(vocab).wf(),
        0 <= a <= d < docs.len(),
        docs[d as int] == doc@,
        docs_fit(docs),
        old(vocab).spec_len() + doc@.len() <= u64::MAX,
        emitted(ov, on, old(vocab)@, old(vocab).spec_len(), docs, a, d as int, old(c)@),
    ensures
        final(vocab).wf(),
        final(vocab).spec_len() <= old(vocab).spec_len() + doc@.len(),
        emitted(ov, on, final(vocab)@, final(vocab).spec_len(), docs, a, d + 1, final(c)@),
        (final(vocab)@, final(vocab).spec_len()) == assign(old(vocab)@, old(vocab).spec_len(), doc@),
{
    let ghost n_start = vocab.spec_len();
    let ghost v_start = vocab@;
    let mut j: usize = 0;
    proof {
        assert(doc@.take(0) =~= Seq::<u64>::empty());
        assert(assign(v_start, n_start, Seq::<u64>::empty()) == (v_start, n_start));
        lemma_emit_doc_start(ov, on, vocab@, vocab.spec_len(), docs, a, d as int, c@);
    }
    while j < doc.len()
        invariant
            0 <= a <= d < docs.len(),
            docs[d as int] == doc@,
            docs_fit(docs),
            j <= doc@.len(),
            vocab.wf(),
            n_start + doc@.len() <= u64::MAX,
            vocab.spec_len() <= n_start + j,
            (vocab@, vocab.spec_len()) == assign(v_start, n_start, doc@.take(j as int)),
            emitted_part(ov, on, vocab@, vocab.spec_len(), docs, a, d as int, doc@.take(j as int), c@),
        decreases doc@.len() - j,
    {
        let key = doc[j];
        let ghost v0 = vocab@;
        let ghost c0 = c@;
        let ghost n0 = vocab.spec_len();
        proof {
            vocab.lemma_ids();
        }
        let t = vocab.get_or_add(key);
        c.push((t, d, j as u32));
        proof {
            vocab.lemma_ids();
            lemma_emit_step(ov, on, v0, n0, vocab@, vocab.spec_len(), docs, a, d as int, doc@, j as int, c0, c@, key, t);
            lemma_assign_concat(v_start, n_start, doc@.take(j as int), seq![key]);
            assert(doc@.take(j + 1) =~= doc@.take(j as int) + seq![key]);
        }
        j = j + 1;
    }
    proof {
        assert(doc@.take(j as int) =~= docs[d as int]);
        assert(doc@.take(j as int) =~= doc@);
        lemma_emit_doc_done(ov, on, vocab@, vocab.spec_len(), docs, a, d as int, c@);
    }
}

/// Emits the `(term_id, doc_id, position)` triples of documents `a..b`,
/// document ids being indices in `docs`.
pub fn emit_documents(vocab: &mut Vocabulary, docs: &Vec<Vec<u64>>, a: usize, b: usize) -> (c: Vec<Triple>)
    requires
        old(vocab).wf(),
        a <= b <= docs@.len(),
        docs_fit(docs_view(docs@)),
        old(vocab).spec_len() + words(docs_view(docs@), a as int, b as int) <= u64::MAX,
    ensures
        final(vocab).wf(),
        final(vocab).spec_len() <= old(vocab).spec_len() + words(docs_view(docs@), a as int, b as int),
        emitted(old(vocab)@, old(vocab).spec_len(), final(vocab)@, final(vocab).spec_len(), docs_view(docs@), a as int, b as int, c@),
        (final(vocab)@, final(vocab).spec_len()) == assign(old(vocab)@, old(vocab).spec_len(), term_stream(docs_view(docs@), a as int, b as int)),
{
    let ghost dv = docs_view(docs@);
    let ghost ov = vocab@;
    let ghost on = vocab.spec_len();
    let mut c: Vec<Triple> = Vec::new();
    let mut d: usize = a;
    proof {
        assert forall|key: u64| vocab@.contains_key(key) implies #[trigger] term_entries(c@, vocab@[key]) == range_entries(dv, a as int, a as int, key) by {
            assert(range_entries(dv, a as int, a as int, key) == Seq::<(u64, u32)>::empty());
        }
        assert forall|key: u64| !(#[trigger] vocab@.contains_key(key)) implies range_entries(dv, a as int, a as int, key).len() == 0 by {}
        assert(term_stream(dv, a as int, a as int) == Seq::<u64>::empty());
        assert(assign(ov, on, Seq::<u64>::empty()) == (ov, on));
    }
    while d < b
        invariant
            dv == docs_view(docs@),
            a <= d <= b <= docs@.len(),
            docs_fit(dv),
            vocab.wf(),
            on + words(dv, a as int, b as int) <= u64::MAX,
            vocab.spec_len() <= on + words(dv, a as int, d as int),
            emitted(ov, on, vocab@, vocab.spec_len(), dv, a as int, d as int, c@),
            (vocab@, vocab.spec_len()) == assign(ov, on, term_stream(dv, a as int, d as int)),
        decreases b - d,
    {
        let doc = &docs[d];
        assert(doc@ == dv[d as int]);
        proof {
            lemma_words_step(dv, a as int, d as int);
            lemma_words_mono(dv, a as int, d + 1, b as int);
        }
        emit_document(vocab, doc, d as u64, Ghost(dv), Ghost(a as int), Ghost(ov), Ghost(on), &mut c);
        proof {
            lemma_assign_concat(ov, on, term_stream(dv, a as int, d as int), dv[d as int]);
        }
        d = d + 1;
    }
    c
}

proof fn lemma_words_mono(docs: Seq<Seq<u64>>, a: int, b: int, c: int)
    requires
        a <= b <= c,
    ensures
        words(docs, a, b) <= words(docs, a, c),
    decreases c - b,
{
    if c > b {
        lemma_words_mono(docs, a, b, c - 1);
    }
}

/// What emitting documents `a..b` with vocabulary `ov` (of `on` terms)
/// into chunk `c` leaves: vocabulary `v` (of `n` terms) extends `ov` with
/// fresh ids for the new terms, each of which occurs; every triple's term
/// has an id; the entries of each term are its entries in the documents.
pub open spec fn emitted(
    ov: Map<u64, u64>,
    on: nat,
    v: Map<u64, u64>,
    n: nat,
    docs: Seq<Seq<u64>>,
    a: int,
    b: int,
    c: Seq<Triple>,
) -> bool {
    &&& on <= n
    &&& forall|key: u64| #[trigger] ov.contains_key(key) ==> v.contains_key(key) && v[key] == ov[key]
    &&& forall|key: u64|
        #[trigger] v.contains_key(key) && !ov.contains_key(key) ==> v[key] >= on && range_entries(docs, a, b, key).len() > 0
    &&& forall|k: int| 0 <= k < c.len() ==> id_used(v, #[trigger] c[k].0)
    &&& forall|key: u64| #[trigger] v.contains_key(key) ==> term_entries(c, v[key]) == range_entries(docs, a, b, key)
    &&& forall|key: u64| !(#[trigger] v.contains_key(key)) ==> range_entries(docs, a, b, key).len() == 0
    &&& forall|k: int| 0 <= k < c.len() ==> a <= (#[trigger] c[k]).1 < b
}

/// `emitted`, part way through document `d`, of which `part` is done.
pub open spec fn emitted_part(
    ov: Map<u64, u64>,
    on: nat,
    v: Map<u64, u64>,
    n: nat,
    docs: Seq<Seq<u64>>,
    a: int,
    d: int,
    part: Seq<u64>,
    c: Seq<Triple>,
) -> bool {
    &&& on <= n
    &&& forall|key: u64| #[trigger] ov.contains_key(key) ==> v.contains_key(key) && v[key] == ov[key]
    &&& forall|key: u64|
        #[trigger] v.contains_key(key) && !ov.contains_key(key) ==> v[key] >= on && (range_entries(docs, a, d, key).len() > 0
            || occurrences(part, key).len() > 0)
    &&& forall|k: int| 0 <= k < c.len() ==> id_used(v, #[trigger] c[k].0)
    &&& forall|key: u64|
        #[trigger] v.contains_key(key) ==> term_entries(c, v[key]) == range_entries(docs, a, d, key) + block_entries(
            d as u64,
            occurrences(part, key),
        )
    &&& forall|key: u64| !(#[trigger] v.contains_key(key)) ==> range_entries(docs, a, d, key).len() == 0 && occurrences(part, key).len() == 0
    &&& forall|k: int| 0 <= k < c.len() ==> a <= (#[trigger] c[k]).1 <= d
}

proof fn lemma_emit_doc_start(
    ov: Map<u64, u64>,
    on: nat,
    v: Map<u64, u64>,
    n: nat,
    docs: Seq<Seq<u64>>,
    a: int,
    d: int,
    c: Seq<Triple>,
)
    requires
        emitted(ov, on, v, n, docs, a, d, c),
    ensures
        emitted_part(ov, on, v, n, docs, a, d, Seq::<u64>::empty(), c),
{
    let e = Seq::<u64>::empty();
    assert(occurrences(e, 0) == Seq::<u32>::empty());
    assert forall|key: u64| #[trigger] v.contains_key(key) implies term_entries(c, v[key]) == range_entries(docs, a, d, key)
        + block_entries(d as u64, occurrences(e, key)) by {
        assert(block_entries(d as u64, occurrences(e, key)) =~= Seq::<(u64, u32)>::empty());
        assert(range_entries(docs, a, d, key) + Seq::<(u64, u32)>::empty() =~= range_entries(docs, a, d, key));
    }
    assert forall|key: u64| !(#[trigger] v.contains_key(key)) implies range_entries(docs, a, d, key).len() == 0
        && occurrences(e, key).len() == 0 by {}
    assert forall|k: int| 0 <= k < c.len() implies a <= (#[trigger] c[k]).1 <= d by {}
}

proof fn lemma_emit_doc_done(
    ov: Map<u64, u64>,
    on: nat,
    v: Map<u64, u64>,
    n: nat,
    docs: Seq<Seq<u64>>,
    a: int,
    d: int,
    c: Seq<Triple>,
)
    requires
        a <= d < docs.len(),
        d < u64::MAX,
        emitted_part(ov, on, v, n, docs, a, d, docs[d], c),
    ensures
        emitted(ov, on, v, n, docs, a, d + 1, c),
{
    assert forall|key: u64| #[trigger] v.contains_key(key) && !ov.contains_key(key) implies v[key] >= on && range_entries(docs, a, d + 1, key).len() > 0 by {
        assert(range_entries(docs, a, d + 1, key) == range_entries(docs, a, d, key) + block_entries(d as u64, occurrences(docs[d], key)));
    }
    assert forall|key: u64| #[trigger] v.contains_key(key) implies term_entries(c, v[key]) == range_entries(docs, a, d + 1, key) by {
        assert(range_entries(docs, a, d + 1, key) == range_entries(docs, a, d, key) + block_entries(d as u64, occurrences(docs[d], key)));
    }
    assert forall|key: u64| !(#[trigger] v.contains_key(key)) implies range_entries(docs, a, d + 1, key).len() == 0 by {
        assert(range_entries(docs, a, d + 1, key) == range_entries(docs, a, d, key) + block_entries(d as u64, occurrences(docs[d], key)));
    }
}

proof fn lemma_emit_step(
    ov: Map<u64, u64>,
    on: nat,
    v0: Map<u64, u64>,
    n0: nat,
    v1: Map<u64, u64>,
    n1: nat,
    docs: Seq<Seq<u64>>,
    a: int,
    d: int,
    doc: Seq<u64>,
    j: int,
    c0: Seq<Triple>,
    c1: Seq<Triple>,
    key: u64,
    t: u64,
)
    requires
        0 <= j < doc.len(),
        j <= u32::MAX,
        0 <= a <= d <= u64::MAX,
        key == doc[j],
        emitted_part(ov, on, v0, n0, docs, a, d, doc.take(j), c0),
        forall|k: u64| #[trigger] v0.contains_key(k) ==> v0[k] < n0,
        forall|k1: u64, k2: u64| v1.contains_key(k1) && v1.contains_key(k2) && #[trigger] v1[k1] == #[trigger] v1[k2] ==> k1 == k2,
        v0.contains_key(key) ==> t == v0[key] && v1 == v0 && n1 == n0,
        !v0.contains_key(key) ==> t == n0 && v1 == v0.insert(key, t) && n1 == n0 + 1,
        c1 == c0.push((t, d as u64, j as u32)),
    ensures
        emitted_part(ov, on, v1, n1, docs, a, d, doc.take(j + 1), c1),
{
    let p0 = doc.take(j);
    let p1 = doc.take(j + 1);
    assert(p1.drop_last() =~= p0);
    assert(p1.last() == key);
    assert(c1.drop_last() =~= c0);
    assert(c1.last() == (t, d as u64, j as u32));
    assert(v1.contains_key(key) && v1[key] == t);
    assert forall|k: int| 0 <= k < c1.len() implies id_used(v1, #[trigger] c1[k].0) by {
        if k < c0.len() {
            assert(c1[k] == c0[k]);
            assert(id_used(v0, c0[k].0));
            let kk = choose|kk: u64| #[trigger] v0.contains_key(kk) && v0[kk] == c0[k].0;
            assert(v1.contains_key(kk) && v1[kk] == c0[k].0);
        } else {
            assert(v1.contains_key(key) && v1[key] == c1[k].0);
        }
    }
    assert forall|k: int| 0 <= k < c1.len() implies a <= (#[trigger] c1[k]).1 <= d by {
        if k < c0.len() {
            assert(c1[k] == c0[k]);
        }
    }
    assert forall|k: u64| #[trigger] ov.contains_key(k) implies v1.contains_key(k) && v1[k] == ov[k] by {
        assert(v0.contains_key(k));
    }
    assert forall|k: u64| #[trigger] v1.contains_key(k) implies term_entries(c1, v1[k]) == range_entries(docs, a, d, k)
        + block_entries(d as u64, occurrences(p1, k)) by {
        if k == key {
            if !v0.contains_key(key) {
                assert forall|m: int| 0 <= m < c0.len() implies c0[m].0 != t by {
                    assert(id_used(v0, c0[m].0));
                    let kk = choose|kk: u64| #[trigger] v0.contains_key(kk) && v0[kk] == c0[m].0;
                }
                lemma_term_entries_absent(c0, t);
                assert(range_entries(docs, a, d, key).len() == 0 && occurrences(p0, key).len() == 0);
            }
            assert(occurrences(p1, key) == occurrences(p0, key).push(j as u32)) by {
                assert(occurrences(p1, key) =~= occurrences(p0, key) + seq![(p1.len() - 1) as u32]);
            }
            assert(block_entries(d as u64, occurrences(p0, key).push(j as u32)) =~= block_entries(d as u64, occurrences(p0, key)).push((d as u64, j as u32)));
            assert(term_entries(c1, t) == term_entries(c0, t).push((d as u64, j as u32)));
            if !v0.contains_key(key) {
                assert(term_entries(c0, t) =~= Seq::<(u64, u32)>::empty());
                assert(range_entries(docs, a, d, key) =~= Seq::<(u64, u32)>::empty());
                assert(occurrences(p0, key) =~= Seq::<u32>::empty());
            }
            assert(term_entries(c1, v1[k]) =~= range_entries(docs, a, d, k) + block_entries(d as u64, occurrences(p1, k)));
        } else {
            assert(v0.contains_key(k));
            assert(v1[k] != t);
            assert(occurrences(p1, k) =~= occurrences(p0, k) + Seq::<u32>::empty());
        }
    }
    assert forall|k: u64| #[trigger] v1.contains_key(k) && !ov.contains_key(k) implies v1[k] >= on && (range_entries(docs, a, d, k).len() > 0
        || occurrences(p1, k).len() > 0) by {
        if k == key {
            assert(occurrences(p1, key) =~= occurrences(p0, key) + seq![(p1.len() - 1) as u32]);
            if v0.contains_key(key) {
                assert(v0[key] >= on);
            }
        } else {
            assert(v0.contains_key(k));
            assert(occurrences(p1, k) =~= occurrences(p0, k) + Seq::<u32>::empty());
        }
    }
    assert forall|k: u64| !(#[trigger] v1.contains_key(k)) implies range_entries(docs, a, d, k).len() == 0 && occurrences(p1, k).len() == 0 by {
        assert(!v0.contains_key(k));
        assert(k != key);
        assert(occurrences(p1, k) =~= occurrences(p0, k) + Seq::<u32>::empty());
    }
}

proof fn lemma_emit_empty(v: Map<u64, u64>, n: nat, docs: Seq<Seq<u64>>, a: int)
    ensures
        emitted(v, n, v, n, docs, a, a, Seq::<Triple>::empty()),
{
    let c = Seq::<Triple>::empty();
    assert forall|key: u64| v.contains_key(key) implies #[trigger] term_entries(c, v[key]) == range_entries(docs, a, a, key) by {
        assert(range_entries(docs, a, a, key) == Seq::<(u64, u32)>::empty());
    }
    assert forall|key: u64| !(#[trigger] v.contains_key(key)) implies range_entries(docs, a, a, key).len() == 0 by {}
}

proof fn lemma_has_entry(c: Seq<Triple>, t: u64)
    requires
        term_entries(c, t).len() > 0,
    ensures
        exists|k: int| 0 <= k < c.len() && #[trigger] c[k].0 == t,
{
    if !(exists|k: int| 0 <= k < c.len() && #[trigger] c[k].0 == t) {
        lemma_term_entries_absent(c, t);
    }
}

/// A positional inverted index over documents of `u64` term keys.
pub struct Index {
    storage: ChunkedStorage,
    vocabulary: Vocabulary,
    doc_count: u64,
    docs: Ghost<Seq<Seq<u64>>>,
}

impl Index {
    /// The documents indexed so far; a document's id is its index.
    pub closed spec fn documents(&self) -> Seq<Seq<u64>> {
        self.docs@
    }

    /// The term ids by term key.
    pub closed spec fn vocab(&self) -> Map<u64, u64> {
        self.vocabulary@
    }

    /// The number of distinct terms seen.
    pub closed spec fn spec_term_count(&self) -> nat {
        self.vocabulary.spec_len()
    }

    /// The capacity of the storage's chunks in bytes.
    pub closed spec fn spec_chunk_size(&self) -> nat {
        self.storage.spec_chunk_size()
    }

    /// The posting lists by term id.
    pub closed spec fn postings(&self) -> Seq<Seq<(u64, Seq<u32>)>> {
        self.storage@
    }

    /// Each seen term's stored listing is its listing over the documents;
    /// unseen terms occur nowhere.
    pub closed spec fn wf(&self) -> bool {
        &&& self.storage.wf()
        &&& self.vocabulary.wf()
        &&& self.storage@.len() == self.vocabulary.spec_len()
        &&& self.doc_count == self.docs@.len()
        &&& docs_fit(self.docs@)
        &&& forall|key: u64| #[trigger] self.vocabulary@.contains_key(key) ==> self.storage@[self.vocabulary@[key] as int]
            == corpus_listing(self.docs@, key)
        &&& forall|key: u64| !(#[trigger] self.vocabulary@.contains_key(key)) ==> corpus_listing(self.docs@, key).len() == 0
        &&& (self.vocabulary@, self.vocabulary.spec_len()) == assign(Map::empty(), 0, term_stream(self.docs@, 0, self.docs@.len() as int))
    }

    /// An empty index whose storage chunks hold `chunk_size` bytes.
    pub fn new(chunk_size: usize) -> (r: Self)
        requires
            chunk_size > 0,
        ensures
            r.wf(),
            r.documents() == Seq::<Seq<u64>>::empty(),
            r.spec_term_count() == 0,
            r.spec_chunk_size() == chunk_size,
    {
        let r = Index {
            storage: ChunkedStorage::new(chunk_size),
            vocabulary: Vocabulary::new(),
            doc_count: 0,
            docs: Ghost(Seq::empty()),
        };
        proof {
            assert forall|key: u64| !(#[trigger] r.vocabulary@.contains_key(key)) implies corpus_listing(r.docs@, key).len() == 0 by {
                assert(range_listing(r.docs@, 0, 0, key) == Seq::<(u64, Seq<u32>)>::empty());
            }
            assert(term_stream(r.docs@, 0, 0) == Seq::<u64>::empty());
            assert(assign(Map::empty(), 0, Seq::<u64>::empty()) == (Map::<u64, u64>::empty(), 0nat));
        }
        r
    }

    /// The documents fit the id and position types.
    pub proof fn lemma_docs_fit(&self)
        requires
            self.wf(),
        ensures
            docs_fit(self.documents()),
    {
    }

    /// The chunked storage of the index's posting lists.
    pub fn storage(&self) -> (r: &ChunkedStorage)
        requires
            self.wf(),
        ensures
            r.wf(),
            r@ == self.postings(),
            r.spec_chunk_size() == self.spec_chunk_size(),
    {
        &self.storage
    }

    /// The vocabulary of the index.
    pub fn vocabulary(&self) -> (r: &Vocabulary)
        requires
            self.wf(),
        ensures
            r.wf(),
            r@ == self.vocab(),
    {
        &self.vocabulary
    }

    /// The number of documents indexed.
    pub fn doc_count(&self) -> (r: u64)
        requires
            self.wf(),
        ensures
            r == self.documents().len(),
    {
        self.doc_count
    }

    /// The number of distinct terms seen.
    pub fn term_count(&self) -> (r: u64)
        requires
            self.wf(),
        ensures
            r == self.spec_term_count(),
    {
        self.vocabulary.len()
    }

    /// Sorts, groups and merges the triples `c` of documents `a..b` of
    /// corpus `docs`, emitted with the vocabulary as it was before them.
    fn commit_chunk(
        &mut self,
        c: &Vec<Triple>,
        Ghost(docs): Ghost<Seq<Seq<u64>>>,
        Ghost(a): Ghost<int>,
        Ghost(b): Ghost<int>,
        Ghost(ov): Ghost<Map<u64, u64>>,
        Ghost(on): Ghost<nat>,
    )
        requires
            old(self).storage.wf(),
            old(self).vocabulary.wf(),
            old(self).storage@.len() == on,
            0 <= a <= b <= docs.len(),
            docs_fit(docs),
            forall|key: u64| #[trigger] ov.contains_key(key) ==> ov[key] < on && old(self).storage@[ov[key] as int] == range_listing(docs, 0, a, key),
            forall|key: u64| !(#[trigger] ov.contains_key(key)) ==> range_listing(docs, 0, a, key).len() == 0,
            emitted(ov, on, old(self).vocabulary@, old(self).vocabulary.spec_len(), docs, a, b, c@),
        ensures
            final(self).storage.wf(),
            final(self).storage.spec_chunk_size() == old(self).storage.spec_chunk_size(),
            final(self).vocabulary == old(self).vocabulary,
            final(self).doc_count == old(self).doc_count,
            final(self).docs == old(self).docs,
            final(self).storage@.len() == final(self).vocabulary.spec_len(),
            forall|key: u64| #[trigger] final(self).vocabulary@.contains_key(key) ==> final(self).storage@[final(self).vocabulary@[key] as int]
                == range_listing(docs, 0, b, key),
            forall|key: u64| !(#[trigger] final(self).vocabulary@.contains_key(key)) ==> range_listing(docs, 0, b, key).len() == 0,
    {
        let ghost s = self.storage@;
        let ghost v = self.vocabulary@;
        let ghost n = self.vocabulary.spec_len();
        let g = sort_and_group_chunk(c);
        let ghost gv = grouped_view(g@);
        proof {
            self.vocabulary.lemma_ids();
            // the listing of a term before and in this chunk
            assert forall|key: u64| #[trigger] v.contains_key(key) implies base_of(s, v[key] as int) == range_listing(docs, 0, a, key)
                && listing_of(gv, v[key] as int) == range_listing(docs, a, b, key) by {
                let t = v[key];
                if ov.contains_key(key) {
                    assert(v[key] == ov[key]);
                } else {
                    assert(v[key] >= on);
                    assert(range_listing(docs, 0, a, key) =~= Seq::<(u64, Seq<u32>)>::empty());
                }
                lemma_group_range(docs, a, b, key);
                if has_term(gv, t as int) {
                    let i = choose|i: int| 0 <= i < gv.len() && #[trigger] gv[i].0 == t as int;
                    assert(gv[i].1 == crate::indexing::group_docs(term_entries(c@, t)));
                } else {
                    if term_entries(c@, t).len() > 0 {
                        lemma_has_entry(c@, t);
                        let k = choose|k: int| 0 <= k < c@.len() && #[trigger] c@[k].0 == t;
                        assert(exists|i: int| 0 <= i < gv.len() && #[trigger] gv[i].0 == c@[k].0);
                        let i = choose|i: int| 0 <= i < gv.len() && #[trigger] gv[i].0 == c@[k].0;
                        assert(has_term(gv, t as int));
                    }
                    assert(range_entries(docs, a, b, key) =~= Seq::<(u64, u32)>::empty());
                    assert(range_listing(docs, a, b, key) =~= Seq::<(u64, Seq<u32>)>::empty());
                }
            }
            // term ids of the chunk are ids of the vocabulary
            assert forall|i: int| 0 <= i < gv.len() implies #[trigger] gv[i].0 < n && id_used(v, gv[i].0) by {
                lemma_has_entry(c@, gv[i].0);
                let k = choose|k: int| 0 <= k < c@.len() && #[trigger] c@[k].0 == gv[i].0;
                assert(id_used(v, c@[k].0));
                let key = choose|key: u64| #[trigger] v.contains_key(key) && v[key] == c@[k].0;
            }
            assert forall|t: int| s.len() <= t < n implies #[trigger] has_term(gv, t) by {
                assert(id_used(v, t as u64));
                let key = choose|key: u64| #[trigger] v.contains_key(key) && v[key] == t as u64;
                if ov.contains_key(key) {
                    assert(v[key] == ov[key]);
                }
                assert(!ov.contains_key(key));
                assert(range_entries(docs, a, b, key).len() > 0);
                assert(term_entries(c@, v[key]) == range_entries(docs, a, b, key));
                assert(term_entries(c@, t as u64).len() > 0);
                lemma_has_entry(c@, t as u64);
                let k = choose|k: int| 0 <= k < c@.len() && #[trigger] c@[k].0 == t as u64;
                assert(exists|i: int| 0 <= i < gv.len() && #[trigger] gv[i].0 == c@[k].0);
                let i = choose|i: int| 0 <= i < gv.len() && #[trigger] gv[i].0 == c@[k].0;
                assert(gv[i].0 == t);
            }
            assert forall|i: int| 0 <= i < gv.len() implies appendable(base_of(s, #[trigger] gv[i].0 as int), gv[i].1) by {
                let t = gv[i].0;
                assert(id_used(v, t));
                let key = choose|key: u64| #[trigger] v.contains_key(key) && v[key] == t;
                assert(gv[i].1 == crate::indexing::group_docs(term_entries(c@, t)));
                lemma_group_range(docs, a, b, key);
                lemma_range_valid(docs, a, b, key);
                lemma_range_bound(docs, 0, a, key);
                let base = range_listing(docs, 0, a, key);
                if base.len() > 0 {
                    assert(base[base.len() - 1].0 < a);
                }
            }
            lemma_merge(s, gv, n as int);
        }
        match invert_chunk(&mut self.storage, &g) {
            Ok(()) => {},
            Err(_) => {},
        }
        proof {
            assert forall|key: u64| #[trigger] self.vocabulary@.contains_key(key) implies self.storage@[self.vocabulary@[key] as int]
                == range_listing(docs, 0, b, key) by {
                lemma_range_split(docs, 0, a, b, key);
            }
            assert forall|key: u64| !(#[trigger] self.vocabulary@.contains_key(key)) implies range_listing(docs, 0, b, key).len() == 0 by {
                assert(!ov.contains_key(key));
                lemma_group_range(docs, a, b, key);
                assert(range_entries(docs, a, b, key) =~= Seq::<(u64, u32)>::empty());
                lemma_range_split(docs, 0, a, b, key);
            }
        }
    }
}

impl Index {
    /// Indexes one document, given as its sequence of term keys, under the
    /// next document id, and returns that id.
    pub fn index_document(&mut self, document: &Vec<u64>) -> (r: u64)
        requires
            old(self).wf(),
            old(self).documents().len() < u64::MAX,
            document@.len() <= u32::MAX + 1,
            old(self).spec_term_count() + document@.len() <= u64::MAX,
        ensures
            final(self).wf(),
            r == old(self).documents().len(),
            final(self).documents() == old(self).documents().push(document@),
            final(self).spec_chunk_size() == old(self).spec_chunk_size(),
            (final(self).vocab(), final(self).spec_term_count()) == assign(old(self).vocab(), old(self).spec_term_count(), document@),
            final(self).spec_term_count() <= old(self).spec_term_count() + document@.len(),
            forall|key: u64| #[trigger] old(self).vocab().contains_key(key) ==> final(self).vocab().contains_key(key)
                && final(self).vocab()[key] == old(self).vocab()[key],
    {
        let ghost docs = self.docs@.push(document@);
        let ghost ov = self.vocabulary@;
        let ghost on = self.vocabulary.spec_len();
        let d = self.doc_count;
        proof {
            self.vocabulary.lemma_ids();
            lemma_emit_empty(ov, on, docs, d as int);
            assert forall|key: u64| #[trigger] ov.contains_key(key) implies ov[key] < on && self.storage@[ov[key] as int]
                == range_listing(docs, 0, d as int, key) by {
                lemma_range_prefix(self.docs@, docs, 0, d as int, key);
            }
            assert forall|key: u64| !(#[trigger] ov.contains_key(key)) implies range_listing(docs, 0, d as int, key).len() == 0 by {
                lemma_range_prefix(self.docs@, docs, 0, d as int, key);
            }
        }
        let mut c: Vec<Triple> = Vec::new();
        emit_document(&mut self.vocabulary, document, d, Ghost(docs), Ghost(d as int), Ghost(ov), Ghost(on), &mut c);
        self.commit_chunk(&c, Ghost(docs), Ghost(d as int), Ghost(d + 1), Ghost(ov), Ghost(on));
        self.doc_count = d + 1;
        let ghost old_docs = self.docs@;
        self.docs = Ghost(docs);
        proof {
            assert(docs.len() == d + 1);
            lemma_stream_shift(old_docs, docs, 0, 0, d as int);
            assert(term_stream(docs, 0, d + 1) == term_stream(docs, 0, d as int) + docs[d as int]);
            lemma_assign_concat(Map::empty(), 0, term_stream(docs, 0, d as int), document@);
            lemma_assign_grows(ov, on, document@);
        }
        d
    }

    /// Indexes a collection of documents under consecutive document ids
    /// from `doc_count()` on, in chunks of `DOCS_PER_CHUNK` documents.
    /// Returns an empty list.
    pub fn index_collection(&mut self, collection: &Vec<Vec<u64>>) -> (r: Vec<u64>)
        requires
            old(self).wf(),
            docs_fit(old(self).documents() + docs_view(collection@)),
            old(self).spec_term_count() + words(docs_view(collection@), 0, collection@.len() as int) <= u64::MAX,
        ensures
            final(self).wf(),
            final(self).documents() == old(self).documents() + docs_view(collection@),
            final(self).spec_chunk_size() == old(self).spec_chunk_size(),
            (final(self).vocab(), final(self).spec_term_count()) == assign(
                old(self).vocab(),
                old(self).spec_term_count(),
                term_stream(docs_view(collection@), 0, collection@.len() as int),
            ),
            final(self).spec_term_count() <= old(self).spec_term_count() + words(docs_view(collection@), 0, collection@.len() as int),
            forall|key: u64| #[trigger] old(self).vocab().contains_key(key) ==> final(self).vocab().contains_key(key)
                && final(self).vocab()[key] == old(self).vocab()[key],
            r@.len() == 0,
    {
        let ghost start = self.docs@;
        let ghost cv = docs_view(collection@);
        let ghost docs = start + cv;
        let ghost base_terms = self.vocabulary.spec_len();
        let ghost base_vocab = self.vocabulary@;
        let first = self.doc_count;
        let n = collection.len();
        let mut i: usize = 0;
        proof {
            assert(start + cv.take(0) =~= start);
            lemma_stream_shift(start, docs, 0, 0, first as int);
        }
        while i < n
            invariant
                self.wf(),
                self.spec_chunk_size() == old(self).spec_chunk_size(),
                n == cv.len(),
                cv == docs_view(collection@),
                docs == start + cv,
                docs_fit(docs),
                first == start.len(),
                i <= n,
                self.docs@ == start + cv.take(i as int),
                self.doc_count == first + i,
                base_terms + words(cv, 0, n as int) <= u64::MAX,
                self.vocabulary.spec_len() <= base_terms + words(cv, 0, i as int),
                (self.vocabulary@, self.vocabulary.spec_len()) == assign(Map::empty(), 0, term_stream(docs, 0, first + i)),
                (base_vocab, base_terms) == assign(Map::empty(), 0, term_stream(docs, 0, first as int)),
            decreases n - i,
        {
            let end = if n - i > DOCS_PER_CHUNK { i + DOCS_PER_CHUNK } else { n };
            let ghost ov = self.vocabulary@;
            let ghost on = self.vocabulary.spec_len();
            let a = self.doc_count;
            proof {
                self.vocabulary.lemma_ids();
                lemma_emit_empty(ov, on, docs, a as int);
                assert forall|key: u64| #[trigger] ov.contains_key(key) implies ov[key] < on && self.storage@[ov[key] as int]
                    == range_listing(docs, 0, a as int, key) by {
                    lemma_range_prefix(self.docs@, docs, 0, a as int, key);
                }
                assert forall|key: u64| !(#[trigger] ov.contains_key(key)) implies range_listing(docs, 0, a as int, key).len() == 0 by {
                    lemma_range_prefix(self.docs@, docs, 0, a as int, key);
                }
            }
            let mut c: Vec<Triple> = Vec::new();
            let mut k: usize = i;
            while k < end
                invariant
                    self.storage.spec_chunk_size() == old(self).spec_chunk_size(),
                    n == cv.len(),
                    cv == docs_view(collection@),
                    docs == start + cv,
                    docs_fit(docs),
                    first == start.len(),
                    i <= k <= end <= n,
                    a == first + i,
                    self.docs@ == start + cv.take(i as int),
                    self.doc_count == a,
                    base_terms + words(cv, 0, n as int) <= u64::MAX,
                    self.vocabulary.wf(),
                    self.vocabulary.spec_len() <= base_terms + words(cv, 0, k as int),
                    forall|key: u64| #[trigger] ov.contains_key(key) ==> ov[key] < on && self.storage@[ov[key] as int]
                        == range_listing(docs, 0, a as int, key),
                    forall|key: u64| !(#[trigger] ov.contains_key(key)) ==> range_listing(docs, 0, a as int, key).len() == 0,
                    self.storage.wf(),
                    self.storage@.len() == on,
                    emitted(ov, on, self.vocabulary@, self.vocabulary.spec_len(), docs, a as int, first + k, c@),
                    (self.vocabulary@, self.vocabulary.spec_len()) == assign(Map::empty(), 0, term_stream(docs, 0, first + k)),
                    (base_vocab, base_terms) == assign(Map::empty(), 0, term_stream(docs, 0, first as int)),
                decreases end - k,
            {
                let doc = &collection[k];
                assert(doc@ == cv[k as int]);
                assert(docs[first + k] == cv[k as int]);
                proof {
                    lemma_words_step(cv, 0, k as int);
                    lemma_words_mono(cv, 0, k + 1, n as int);
                }
                emit_document(&mut self.vocabulary, doc, first + k as u64, Ghost(docs), Ghost(a as int), Ghost(ov), Ghost(on), &mut c);
                proof {
                    lemma_assign_concat(Map::empty(), 0, term_stream(docs, 0, first + k), docs[first + k]);
                }
                k = k + 1;
            }
            self.commit_chunk(&c, Ghost(docs), Ghost(a as int), Ghost(first + end), Ghost(ov), Ghost(on));
            self.doc_count = first + end as u64;
            self.docs = Ghost(start + cv.take(end as int));
            proof {
                let nd = self.docs@;
                assert forall|key: u64| #[trigger] self.vocabulary@.contains_key(key) implies self.storage@[self.vocabulary@[key] as int]
                    == corpus_listing(nd, key) by {
                    lemma_range_prefix(nd, docs, 0, first + end, key);
                }
                assert forall|key: u64| !(#[trigger] self.vocabulary@.contains_key(key)) implies corpus_listing(nd, key).len() == 0 by {
                    lemma_range_prefix(nd, docs, 0, first + end, key);
                }
                assert forall|x: int| 0 <= x < nd.len() implies (#[trigger] nd[x]).len() <= u32::MAX + 1 by {
                    assert(nd[x] == docs[x]);
                }
                lemma_stream_shift(docs, nd, 0, 0, first + end);
            }
            i = end;
        }
        assert(cv.take(n as int) =~= cv);
        proof {
            lemma_stream_split(docs, 0, first as int, first + n);
            lemma_assign_concat(Map::empty(), 0, term_stream(docs, 0, first as int), term_stream(docs, first as int, first + n));
            assert forall|x: int| 0 <= x < n implies #[trigger] cv[x] == docs[x + first] by {}
            lemma_stream_shift(docs, cv, first as int, 0, n as int);
            lemma_assign_grows(base_vocab, base_terms, term_stream(cv, 0, n as int));
            lemma_stream_words(cv, 0, n as int);
        }
        Vec::new()
    }

    /// Makes indexed documents durable. The storage of this index lives in
    /// memory, so nothing is left to do.
    pub fn commit(&mut self)
        requires
            old(self).wf(),
        ensures
            *final(self) == *old(self),
    {
    }

    /// The postings of term `atom`: each document it occurs in, by
    /// ascending id, with its positions there; none for an unseen term.
    pub fn query_atom(&self, atom: u64) -> (r: Vec<Posting>)
        requires
            self.wf(),
        ensures
            listing_view(r@) == corpus_listing(self.documents(), atom),
    {
        match self.vocabulary.get(atom) {
            Some(t) => {
                proof {
                    self.vocabulary.lemma_ids();
                }
                match self.storage.read_listing(t) {
                    Ok(l) => l,
                    Err(_) => Vec::new(),
                }
            },
            None => {
                let r: Vec<Posting> = Vec::new();
                assert(listing_view(r@) =~= corpus_listing(self.documents(), atom));
                r
            },
        }
    }
}

/// Indexes a document collection into a fresh chunked storage whose chunks
/// hold `chunk_size` bytes: documents get ids from 0 in order, terms get
/// ids in order of first sight. Returns the number of documents, the
/// storage and the vocabulary.
pub fn index_documents(documents: &Vec<Vec<u64>>, chunk_size: usize) -> (r: Result<(u64, ChunkedStorage, Vocabulary), IndexingError>)
    requires
        chunk_size > 0,
        docs_fit(docs_view(documents@)),
        words(docs_view(documents@), 0, documents@.len() as int) <= u64::MAX,
    ensures
        r is Ok,
        r is Ok ==> {
            let (n, storage, vocab) = r->Ok_0;
            &&& n == documents@.len()
            &&& storage.wf()
            &&& storage.spec_chunk_size() == chunk_size
            &&& vocab.wf()
            &&& (vocab@, vocab.spec_len()) == assign(Map::empty(), 0, term_stream(docs_view(documents@), 0, documents@.len() as int))
            &&& storage@.len() == vocab.spec_len()
            &&& forall|key: u64| #[trigger] vocab@.contains_key(key) ==> storage@[vocab@[key] as int] == corpus_listing(docs_view(documents@), key)
            &&& forall|key: u64| !(#[trigger] vocab@.contains_key(key)) ==> corpus_listing(docs_view(documents@), key).len() == 0
        },
{
    let mut index = Index::new(chunk_size);
    assert(index.documents() + docs_view(documents@) =~= docs_view(documents@));
    proof {
        assert(term_stream(index.documents(), 0, 0) == Seq::<u64>::empty());
        assert(assign(Map::empty(), 0, Seq::<u64>::empty()) == (Map::<u64, u64>::empty(), 0nat));
    }
    index.index_collection(documents);
    assert(index.documents() =~= docs_view(documents@));
    let Index { storage, vocabulary, doc_count, docs: _ } = index;
    Ok((doc_count, storage, vocabulary))
}

/// Indexing the same documents with the same chunk size leaves each term's
/// chunks byte for byte the same, whatever the batching: two storages of
/// one chunk size that each hold, for a term, its listing over the same
/// documents hold it in the same chunks.
pub proof fn law_indexing_byte_identical(
    s1: &ChunkedStorage,
    v1: Map<u64, u64>,
    s2: &ChunkedStorage,
    v2: Map<u64, u64>,
    docs: Seq<Seq<u64>>,
    key: u64,
)
    requires
        s1.wf(),
        s2.wf(),
        s1.spec_chunk_size() == s2.spec_chunk_size(),
        v1.contains_key(key),
        v2.contains_key(key),
        v1[key] < s1@.len(),
        v2[key] < s2@.len(),
        s1@[v1[key] as int] == corpus_listing(docs, key),
        s2@[v2[key] as int] == corpus_listing(docs, key),
    ensures
        s1.pages(v1[key] as int) == s2.pages(v2[key] as int),
{
    crate::chunked::law_pages_follow_listing(s1, v1[key] as int, s2, v2[key] as int);
}

} // verus!
