//! Chunked posting storage: per term a singly linked chain of fixed-size
//! chunks holding the term's delta and variable-byte encoded listing.
use vstd::prelude::*;

use crate::posting::{
    decode_listing, last_doc, law_listing_round_trip, lemma_encoded_all_concat, lemma_listing_values_fit, listing_values,
    listing_view, nat_listing, valid_listing, write_posting, Listing,
};
use crate::storage::StorageError;
use crate::vbyte::{encoded_all, law_vbyte_round_trip, nats_of, vbyte_decode};

verus! {

/// The default capacity of a chunk in bytes.
pub const CHUNK_SIZE: usize = 4096;

/// A chunk: its encoded bytes, the last document id written to its chain
/// when it was the tail, and the id of the next chunk of the chain.
pub struct Chunk {
    pub data: Vec<u8>,
    pub last_doc_id: u64,
    pub next: Option<usize>,
}

/// The posting lists of terms `0..len()`, each stored in a chain of chunks.
pub struct ChunkedStorage {
    chunk_size: usize,
    chunks: Vec<Chunk>,
    heads: Vec<usize>,
    tails: Vec<usize>,
    started: Vec<bool>,
    chains: Ghost<Seq<Seq<int>>>,
    listings: Ghost<Seq<Seq<(u64, Seq<u32>)>>>,
}

/// The bytes of the chunks of `chain`, in order.
pub open spec fn chain_bytes(chunks: Seq<Chunk>, chain: Seq<int>) -> Seq<u8>
    decreases chain.len(),
{
    if chain.len() == 0 {
        seq![]
    } else {
        chain_bytes(chunks, chain.drop_last()) + chunks[chain.last()].data@
    }
}

/// The bytes of each chunk of `chain`, in order.
pub open spec fn chain_pages(chunks: Seq<Chunk>, chain: Seq<int>) -> Seq<Seq<u8>> {
    chain.map_values(|p: int| chunks[p].data@)
}

/// The pages after byte `b` is written: into the last page while it has
/// room, else into a new page.
pub open spec fn push_byte_pages(pages: Seq<Seq<u8>>, cs: nat, b: u8) -> Seq<Seq<u8>> {
    if pages.last().len() >= cs {
        pages.push(seq![b])
    } else {
        pages.update(pages.len() - 1, pages.last().push(b))
    }
}

/// The pages after `bytes` are written byte by byte.
pub open spec fn fill_pages(pages: Seq<Seq<u8>>, cs: nat, bytes: Seq<u8>) -> Seq<Seq<u8>>
    decreases bytes.len(),
{
    if bytes.len() == 0 {
        pages
    } else {
        push_byte_pages(fill_pages(pages, cs, bytes.drop_last()), cs, bytes.last())
    }
}

/// The pages after record `rec` is written: a record that does not fit in
/// the room left in a non-empty last page starts a new page.
pub open spec fn place_record(pages: Seq<Seq<u8>>, cs: nat, rec: Seq<u8>) -> Seq<Seq<u8>> {
    let start = if pages.last().len() > 0 && pages.last().len() + rec.len() > cs {
        pages.push(seq![])
    } else {
        pages
    };
    fill_pages(start, cs, rec)
}

/// The pages that hold listing `l` in chunks of `cs` bytes: its postings'
/// records placed in turn, starting from one empty page.
pub open spec fn layout(cs: nat, l: Seq<(u64, Seq<u32>)>) -> Seq<Seq<u8>>
    decreases l.len(),
{
    if l.len() == 0 {
        seq![seq![]]
    } else {
        place_record(
            layout(cs, l.drop_last()),
            cs,
            encoded_all(crate::posting::posting_values(l.last(), last_doc(l.drop_last(), 0))),
        )
    }
}

/// The document id after which the next listing of a term with postings
/// `old` is delta-encoded, and the least document id that listing may
/// start with.
pub open spec fn append_base(old: Seq<(u64, Seq<u32>)>) -> nat {
    if old.len() == 0 {
        0
    } else {
        (old.last().0 + 1) as nat
    }
}

/// Whether listing `l` may be appended to a term with postings `old`.
pub open spec fn appendable(old: Seq<(u64, Seq<u32>)>, l: Seq<(u64, Seq<u32>)>) -> bool {
    valid_listing(l, append_base(old))
}

/// Whether all position lists of a listing have a length that a `Vec` can have.
pub open spec fn lengths_fit(l: Seq<(u64, Seq<u32>)>) -> bool {
    forall|i: int| 0 <= i < l.len() ==> #[trigger] l[i].1.len() <= usize::MAX
}

proof fn lemma_chain_bytes_frame(c1: Seq<Chunk>, c2: Seq<Chunk>, chain: Seq<int>)
    requires
        forall|i: int| 0 <= i < chain.len() ==> 0 <= #[trigger] chain[i] < c1.len() && chain[i] < c2.len()
            && c1[chain[i]].data@ == c2[chain[i]].data@,
    ensures
        chain_bytes(c1, chain) == chain_bytes(c2, chain),
    decreases chain.len(),
{
    if chain.len() > 0 {
        let init = chain.drop_last();
        assert forall|i: int| 0 <= i < init.len() implies 0 <= #[trigger] init[i] < c1.len() && init[i] < c2.len()
            && c1[init[i]].data@ == c2[init[i]].data@ by {
            assert(init[i] == chain[i]);
        }
        lemma_chain_bytes_frame(c1, c2, init);
        assert(chain[chain.len() - 1] == chain.last());
    }
}

proof fn lemma_listing_values_append(a: Seq<(u64, Seq<u32>)>, b: Seq<(u64, Seq<u32>)>, base: nat)
    ensures
        listing_values(a + b, base) == listing_values(a, base) + listing_values(b, last_doc(a, base)),
    decreases a.len(),
{
    if a.len() == 0 {
        assert(a + b =~= b);
    } else {
        assert((a + b).drop_first() =~= a.drop_first() + b);
        lemma_listing_values_append(a.drop_first(), b, a[0].0 as nat);
        if a.len() == 1 {
            assert(a.drop_first() =~= seq![]);
        } else {
            assert(a.drop_first().last() == a.last());
        }
        assert(listing_values(a + b, base) =~= listing_values(a, base) + listing_values(b, last_doc(a, base)));
    }
}

impl ChunkedStorage {
    /// The posting lists of the terms, by term id.
    pub closed spec fn view(&self) -> Seq<Seq<(u64, Seq<u32>)>> {
        self.listings@
    }

    /// The capacity of a chunk in bytes.
    pub closed spec fn spec_chunk_size(&self) -> nat {
        self.chunk_size as nat
    }

    /// The chunk ids of the chain of term `t`.
    pub closed spec fn chain(&self, t: int) -> Seq<int> {
        self.chains@[t]
    }

    /// The encoded bytes of term `t`, over its chain of chunks.
    pub open spec fn stream(&self, t: int) -> Seq<u8> {
        chain_bytes(self.chunk_seq(), self.chain(t))
    }

    /// The bytes of each chunk of the chain of term `t`, in order.
    pub open spec fn pages(&self, t: int) -> Seq<Seq<u8>> {
        chain_pages(self.chunk_seq(), self.chain(t))
    }

    /// All chunks, by id.
    pub closed spec fn chunk_seq(&self) -> Seq<Chunk> {
        self.chunks@
    }

    /// The chains are disjoint linked lists of existing chunks, one per
    /// term, each chunk within capacity.
    pub closed spec fn structure_ok(&self) -> bool {
        let n = self.listings@.len();
        let ch = self.chains@;
        let cs = self.chunks@;
        &&& self.chunk_size > 0
        &&& self.heads@.len() == n
        &&& self.tails@.len() == n
        &&& ch.len() == n
        &&& forall|t: int| 0 <= t < n ==> (#[trigger] ch[t]).len() > 0
        &&& forall|t: int| 0 <= t < n ==> ch[t][0] == #[trigger] self.heads@[t]
        &&& forall|t: int| 0 <= t < n ==> ch[t].last() == #[trigger] self.tails@[t]
        &&& forall|t: int, i: int| 0 <= t < n && 0 <= i < ch[t].len() ==> 0 <= #[trigger] ch[t][i] < cs.len()
        &&& forall|t: int, i: int|
            0 <= t < n && 0 <= i < ch[t].len() ==> (#[trigger] cs[ch[t][i]]).data@.len() <= self.chunk_size
        &&& forall|t: int, i: int|
            0 <= t < n && 0 <= i < ch[t].len() - 1 ==> (#[trigger] cs[ch[t][i]]).next == Some(ch[t][i + 1] as usize)
        &&& forall|t: int| 0 <= t < n ==> (#[trigger] cs[ch[t].last()]).next is None
        &&& forall|t1: int, i1: int, t2: int, i2: int|
            0 <= t1 < n && 0 <= t2 < n && 0 <= i1 < ch[t1].len() && 0 <= i2 < ch[t2].len() && #[trigger] ch[t1][i1]
                == #[trigger] ch[t2][i2] ==> t1 == t2 && i1 == i2
    }

    /// Well-formedness: the chains are well formed, and each term's chain
    /// holds the encoding of its valid listing, its tail chunk recording the
    /// listing's last document id.
    pub closed spec fn wf(&self) -> bool {
        let n = self.listings@.len();
        let ch = self.chains@;
        let cs = self.chunks@;
        &&& self.structure_ok()
        &&& self.started@.len() == n
        &&& forall|t: int| 0 <= t < n ==> #[trigger] self.started@[t] == (self.listings@[t].len() > 0)
        &&& forall|t: int| 0 <= t < n ==> valid_listing(#[trigger] self.listings@[t], 0)
        &&& forall|t: int| 0 <= t < n ==> lengths_fit(#[trigger] self.listings@[t])
        &&& forall|t: int|
            0 <= t < n ==> chain_bytes(cs, #[trigger] ch[t]) == encoded_all(listing_values(self.listings@[t], 0))
        &&& forall|t: int| 0 <= t < n ==> (#[trigger] cs[ch[t].last()]).last_doc_id == last_doc(self.listings@[t], 0)
        &&& forall|t: int| 0 <= t < n ==> chain_pages(cs, #[trigger] ch[t]) == layout(self.chunk_size as nat, self.listings@[t])
    }

    /// An empty storage whose chunks hold `chunk_size` bytes.
    pub fn new(chunk_size: usize) -> (r: Self)
        requires
            chunk_size > 0,
        ensures
            r.wf(),
            r@ == Seq::<Seq<(u64, Seq<u32>)>>::empty(),
            r.spec_chunk_size() == chunk_size,
    {
        ChunkedStorage {
            chunk_size,
            chunks: Vec::new(),
            heads: Vec::new(),
            tails: Vec::new(),
            started: Vec::new(),
            chains: Ghost(Seq::empty()),
            listings: Ghost(Seq::empty()),
        }
    }

    /// The number of terms with storage.
    pub fn len(&self) -> (r: usize)
        requires
            self.wf(),
        ensures
            r == self@.len(),
    {
        self.heads.len()
    }

    /// Allocates the head chunk of term `term_id`, which must be the next
    /// term id; fails with `WriteError` for a term that has storage already
    /// and for one beyond the next.
    pub fn new_chunk(&mut self, term_id: u64) -> (r: Result<(), StorageError>)
        requires
            old(self).wf(),
        ensures
            final(self).wf(),
            final(self).spec_chunk_size() == old(self).spec_chunk_size(),
            term_id == old(self)@.len() ==> r is Ok && final(self)@ == old(self)@.push(seq![]),
            term_id != old(self)@.len() ==> r == Err::<(), StorageError>(StorageError::WriteError) && final(self)@
                == old(self)@,
    {
        if term_id != self.heads.len() as u64 {
            return Err(StorageError::WriteError);
        }
        let id = self.chunks.len();
        let ghost old_chunks = self.chunks@;
        self.chunks.push(Chunk { data: Vec::new(), last_doc_id: 0, next: None });
        self.heads.push(id);
        self.tails.push(id);
        self.started.push(false);
        proof {
            let n = self.listings@.len();
            self.chains = Ghost(self.chains@.push(seq![id as int]));
            self.listings = Ghost(self.listings@.push(seq![]));
            let ch = self.chains@;
            let cs = self.chunks@;
            assert forall|t: int| 0 <= t < n implies chain_bytes(cs, #[trigger] ch[t]) == chain_bytes(old_chunks, ch[t]) by {
                lemma_chain_bytes_frame(cs, old_chunks, ch[t]);
            }
            assert forall|t: int| 0 <= t < n implies chain_pages(cs, #[trigger] ch[t]) == chain_pages(old_chunks, ch[t]) by {
                assert(chain_pages(cs, ch[t]) =~= chain_pages(old_chunks, ch[t]));
            }
            assert(chain_pages(cs, ch[n as int]) =~= seq![Seq::<u8>::empty()]);
            assert(layout(self.chunk_size as nat, self.listings@[n as int]) == seq![Seq::<u8>::empty()]);
            assert(ch[n as int].drop_last() =~= seq![]);
            assert(chain_bytes(cs, ch[n as int].drop_last()) == Seq::<u8>::empty());
            assert(cs[id as int].data@ =~= Seq::<u8>::empty());
            assert(listing_values(self.listings@[n as int], 0) =~= Seq::<nat>::empty());
            assert(encoded_all(Seq::<nat>::empty()) =~= Seq::<u8>::empty());
            assert(chain_bytes(cs, ch[n as int]) =~= encoded_all(listing_values(self.listings@[n as int], 0)));
            assert(valid_listing(self.listings@[n as int], 0));
            assert(lengths_fit(self.listings@[n as int]));
            assert forall|t: int, i: int| 0 <= t <= n && 0 <= i < ch[t].len() - 1 implies (#[trigger] cs[ch[t][i]]).next == Some(ch[t][i + 1] as usize) by {
                assert(t < n);
            }
        }
        Ok(())
    }


    /// Links a fresh empty chunk after the tail of term `t`.
    fn link_new_chunk(&mut self, t: usize)
        requires
            old(self).structure_ok(),
            t < old(self).listings@.len(),
        ensures
            final(self).started@ == old(self).started@,
            final(self).structure_ok(),
            final(self).listings@ == old(self).listings@,
            final(self).chunk_size == old(self).chunk_size,
            final(self).heads@ == old(self).heads@,
            final(self).chunks@[final(self).tails@[t as int] as int].data@.len() == 0,
            forall|u: int| 0 <= u < old(self).listings@.len() ==> #[trigger] final(self).stream(u) == old(self).stream(u),
            forall|u: int|
                0 <= u < old(self).listings@.len() ==> (#[trigger] final(self).chunks@[final(self).tails@[u] as int]).last_doc_id
                    == old(self).chunks@[old(self).tails@[u] as int].last_doc_id,
            final(self).pages(t as int) == old(self).pages(t as int).push(Seq::<u8>::empty()),
            forall|u: int| 0 <= u < old(self).listings@.len() && u != t ==> #[trigger] final(self).pages(u) == old(self).pages(u),
    {
        let ghost n = self.listings@.len();
        let ghost old_cs = self.chunks@;
        let ghost old_ch = self.chains@;
        let tail = self.tails[t];
        assert(old_ch[t as int].last() == tail);
        let id = self.chunks.len();
        let last = self.chunks[tail].last_doc_id;
        self.chunks.push(Chunk { data: Vec::new(), last_doc_id: last, next: None });
        self.chunks[tail].next = Some(id);
        self.tails.set(t, id);
        proof {
            self.chains = Ghost(old_ch.update(t as int, old_ch[t as int].push(id as int)));
            let ch = self.chains@;
            let cs = self.chunks@;
            assert forall|u: int, i: int| 0 <= u < n && 0 <= i < old_ch[u].len() implies #[trigger] old_ch[u][i] < old_cs.len() by {}
            assert forall|u: int, i: int| 0 <= u < n && 0 <= i < ch[u].len() implies 0 <= #[trigger] ch[u][i] < cs.len() by {
                if u == t && i == old_ch[u].len() {
                } else {
                    assert(ch[u][i] == old_ch[u][i]);
                }
            }
            assert forall|u: int, i: int| 0 <= u < n && 0 <= i < ch[u].len() implies (#[trigger] cs[ch[u][i]]).data@.len() <= self.chunk_size by {
                if u == t && i == old_ch[u].len() {
                } else {
                    assert(ch[u][i] == old_ch[u][i]);
                }
            }
            assert forall|u: int, i: int| 0 <= u < n && 0 <= i < ch[u].len() - 1 implies (#[trigger] cs[ch[u][i]]).next == Some(ch[u][i + 1] as usize) by {
                if u == t && i == old_ch[u].len() - 1 {
                    assert(ch[u][i] == tail);
                } else {
                    assert(ch[u][i] == old_ch[u][i]);
                    assert(ch[u][i + 1] == old_ch[u][i + 1]);
                    assert(old_ch[u][i] != tail) by {
                        assert(old_ch[t as int][old_ch[t as int].len() - 1] == tail);
                    }
                }
            }
            assert forall|u: int| 0 <= u < n implies (#[trigger] cs[ch[u].last()]).next is None by {
                if u != t {
                    assert(ch[u] == old_ch[u]);
                    assert(old_ch[u].last() != tail) by {
                        assert(old_ch[u][old_ch[u].len() - 1] == old_ch[u].last());
                        assert(old_ch[t as int][old_ch[t as int].len() - 1] == tail);
                    }
                }
            }
            assert forall|t1: int, i1: int, t2: int, i2: int|
                0 <= t1 < n && 0 <= t2 < n && 0 <= i1 < ch[t1].len() && 0 <= i2 < ch[t2].len() && #[trigger] ch[t1][i1]
                    == #[trigger] ch[t2][i2] implies t1 == t2 && i1 == i2 by {
                let new1 = t1 == t && i1 == old_ch[t1].len();
                let new2 = t2 == t && i2 == old_ch[t2].len();
                if !new1 {
                    assert(ch[t1][i1] == old_ch[t1][i1]);
                }
                if !new2 {
                    assert(ch[t2][i2] == old_ch[t2][i2]);
                }
            }
            assert forall|u: int| 0 <= u < n implies #[trigger] self.stream(u) == chain_bytes(old_cs, old_ch[u]) by {
                if u == t {
                    assert(ch[u].drop_last() =~= old_ch[u]);
                    lemma_chain_bytes_frame(cs, old_cs, old_ch[u]);
                    assert(cs[id as int].data@ =~= Seq::<u8>::empty());
                    assert(self.stream(u) =~= chain_bytes(old_cs, old_ch[u]));
                } else {
                    lemma_chain_bytes_frame(cs, old_cs, old_ch[u]);
                }
            }
            assert forall|u: int| 0 <= u < n implies (#[trigger] cs[self.tails@[u] as int]).last_doc_id
                == old_cs[old(self).tails@[u] as int].last_doc_id by {
                if u != t {
                    assert(old_ch[u].last() != tail) by {
                        assert(old_ch[u][old_ch[u].len() - 1] == old_ch[u].last());
                        assert(old_ch[t as int][old_ch[t as int].len() - 1] == tail);
                    }
                }
            }
            assert(self.pages(t as int) =~= chain_pages(old_cs, old_ch[t as int]).push(Seq::<u8>::empty()));
            assert forall|u: int| 0 <= u < n && u != t implies #[trigger] self.pages(u) == chain_pages(old_cs, old_ch[u]) by {
                assert(self.pages(u) =~= chain_pages(old_cs, old_ch[u]));
            }
        }
    }

    /// Appends byte `b` to the tail chunk of term `t`, which has room for it.
    fn push_byte(&mut self, t: usize, b: u8)
        requires
            old(self).structure_ok(),
            t < old(self).listings@.len(),
            old(self).chunks@[old(self).tails@[t as int] as int].data@.len() < old(self).chunk_size,
        ensures
            final(self).started@ == old(self).started@,
            final(self).structure_ok(),
            final(self).listings@ == old(self).listings@,
            final(self).chunk_size == old(self).chunk_size,
            final(self).heads@ == old(self).heads@,
            final(self).tails@ == old(self).tails@,
            final(self).chunks@[final(self).tails@[t as int] as int].data@.len() == old(self).chunks@[old(self).tails@[t as int] as int].data@.len() + 1,
            final(self).stream(t as int) == old(self).stream(t as int).push(b),
            forall|u: int| 0 <= u < old(self).listings@.len() && u != t ==> #[trigger] final(self).stream(u) == old(self).stream(u),
            final(self).pages(t as int) == old(self).pages(t as int).update(
                old(self).pages(t as int).len() - 1,
                old(self).pages(t as int).last().push(b),
            ),
            forall|u: int| 0 <= u < old(self).listings@.len() && u != t ==> #[trigger] final(self).pages(u) == old(self).pages(u),
            forall|u: int|
                0 <= u < old(self).listings@.len() ==> (#[trigger] final(self).chunks@[final(self).tails@[u] as int]).last_doc_id
                    == old(self).chunks@[old(self).tails@[u] as int].last_doc_id,
    {
        let ghost n = self.listings@.len();
        let ghost old_cs = self.chunks@;
        let ghost ch = self.chains@;
        let tail = self.tails[t];
        let ghost last = ch[t as int].len() - 1;
        assert(ch[t as int][last] == tail);
        self.chunks[tail].data.push(b);
        proof {
            let cs = self.chunks@;
            assert forall|u: int, i: int| 0 <= u < n && 0 <= i < ch[u].len() && (u != t || i != last) implies #[trigger] ch[u][i] != tail by {}
            assert forall|u: int, i: int| 0 <= u < n && 0 <= i < ch[u].len() implies (#[trigger] cs[ch[u][i]]).data@.len() <= self.chunk_size by {
                if u != t || i != last {
                    assert(ch[u][i] != tail);
                }
            }
            assert forall|u: int, i: int| 0 <= u < n && 0 <= i < ch[u].len() - 1 implies (#[trigger] cs[ch[u][i]]).next == Some(ch[u][i + 1] as usize) by {
                assert(old_cs[ch[u][i]].next == Some(ch[u][i + 1] as usize));
            }
            assert forall|u: int| 0 <= u < n implies (#[trigger] cs[ch[u].last()]).next is None by {
                assert(old_cs[ch[u].last()].next is None);
            }
            assert forall|u: int| 0 <= u < n && u != t implies #[trigger] self.stream(u) == chain_bytes(old_cs, ch[u]) by {
                assert forall|i: int| 0 <= i < ch[u].len() implies 0 <= #[trigger] ch[u][i] < cs.len() && ch[u][i] < old_cs.len()
                    && cs[ch[u][i]].data@ == old_cs[ch[u][i]].data@ by {
                    assert(ch[u][i] != tail);
                }
                lemma_chain_bytes_frame(cs, old_cs, ch[u]);
            }
            let init = ch[t as int].drop_last();
            assert forall|i: int| 0 <= i < init.len() implies 0 <= #[trigger] init[i] < cs.len() && init[i] < old_cs.len()
                && cs[init[i]].data@ == old_cs[init[i]].data@ by {
                assert(init[i] == ch[t as int][i]);
                assert(ch[t as int][i] != tail);
            }
            lemma_chain_bytes_frame(cs, old_cs, init);
            assert(self.stream(t as int) =~= old(self).stream(t as int).push(b));
            assert forall|u: int| 0 <= u < n implies (#[trigger] cs[self.tails@[u] as int]).last_doc_id
                == old_cs[old(self).tails@[u] as int].last_doc_id by {
                assert(ch[u][ch[u].len() - 1] == self.tails@[u]);
            }
            let op = chain_pages(old_cs, ch[t as int]);
            assert(op.last() == old_cs[tail as int].data@);
            assert(self.pages(t as int) =~= op.update(op.len() - 1, op.last().push(b)));
            assert forall|u: int| 0 <= u < n && u != t implies #[trigger] self.pages(u) == chain_pages(old_cs, ch[u]) by {
                assert forall|i: int| 0 <= i < ch[u].len() implies #[trigger] ch[u][i] != tail by {}
                assert(self.pages(u) =~= chain_pages(old_cs, ch[u]));
            }
        }
    }

    /// Appends the bytes of one record to the chain of term `t` and records
    /// `doc` as the chain's last document id. A record that does not fit in
    /// the tail's remaining room starts a fresh chunk; one longer than a
    /// whole chunk continues over further linked chunks.
    fn write_record(&mut self, t: usize, rec: &Vec<u8>, doc: u64)
        requires
            old(self).structure_ok(),
            t < old(self).listings@.len(),
        ensures
            final(self).started@ == old(self).started@,
            final(self).structure_ok(),
            final(self).listings@ == old(self).listings@,
            final(self).chunk_size == old(self).chunk_size,
            final(self).heads@ == old(self).heads@,
            final(self).stream(t as int) == old(self).stream(t as int) + rec@,
            forall|u: int| 0 <= u < old(self).listings@.len() && u != t ==> #[trigger] final(self).stream(u) == old(self).stream(u),
            forall|u: int|
                0 <= u < old(self).listings@.len() && u != t ==> (#[trigger] final(self).chunks@[final(self).tails@[u] as int]).last_doc_id
                    == old(self).chunks@[old(self).tails@[u] as int].last_doc_id,
            final(self).chunks@[final(self).tails@[t as int] as int].last_doc_id == doc,
            final(self).pages(t as int) == place_record(old(self).pages(t as int), old(self).chunk_size as nat, rec@),
            forall|u: int| 0 <= u < old(self).listings@.len() && u != t ==> #[trigger] final(self).pages(u) == old(self).pages(u),
    {
        let ghost n = self.listings@.len();
        let ghost s0 = *self;
        let ghost cs = self.chunk_size as nat;
        let ghost p0 = self.pages(t as int);
        proof {
            assert(self.chains@[t as int][self.chains@[t as int].len() - 1] == self.tails@[t as int]);
        }
        let tail = self.tails[t];
        let used = self.chunks[tail].data.len();
        proof {
            assert(p0.last() == self.chunks@[tail as int].data@);
        }
        if used > 0 && rec.len() > self.chunk_size - used {
            self.link_new_chunk(t);
        }
        let ghost start = self.pages(t as int);
        proof {
            assert(start == (if p0.last().len() > 0 && p0.last().len() + rec@.len() > cs { p0.push(seq![]) } else { p0 }));
            assert(rec@.take(0) =~= Seq::<u8>::empty());
        }
        let mut i: usize = 0;
        while i < rec.len()
            invariant
                self.structure_ok(),
                n == self.listings@.len(),
                t < n,
                i <= rec@.len(),
                self.listings@ == s0.listings@,
                self.started@ == s0.started@,
                self.chunk_size == s0.chunk_size,
                self.heads@ == s0.heads@,
                self.stream(t as int) == s0.stream(t as int) + rec@.take(i as int),
                self.pages(t as int) == fill_pages(start, cs, rec@.take(i as int)),
                cs == self.chunk_size,
                forall|u: int| 0 <= u < n && u != t ==> #[trigger] self.pages(u) == s0.pages(u),
                forall|u: int| 0 <= u < n && u != t ==> #[trigger] self.stream(u) == s0.stream(u),
                forall|u: int|
                    0 <= u < n && u != t ==> (#[trigger] self.chunks@[self.tails@[u] as int]).last_doc_id
                        == s0.chunks@[s0.tails@[u] as int].last_doc_id,
            decreases rec@.len() - i,
        {
            proof {
                assert(self.chains@[t as int][self.chains@[t as int].len() - 1] == self.tails@[t as int]);
            }
            let tail = self.tails[t];
            let ghost before = self.pages(t as int);
            proof {
                assert(before.last() == self.chunks@[tail as int].data@);
            }
            if self.chunks[tail].data.len() >= self.chunk_size {
                self.link_new_chunk(t);
            }
            proof {
                assert(self.chains@[t as int][self.chains@[t as int].len() - 1] == self.tails@[t as int]);
            }
            self.push_byte(t, rec[i]);
            assert(rec@.take(i + 1) =~= rec@.take(i as int).push(rec@[i as int]));
            proof {
                let tk = rec@.take(i + 1);
                assert(tk.drop_last() =~= rec@.take(i as int));
                assert(tk.last() == rec@[i as int]);
                assert(self.pages(t as int) =~= push_byte_pages(before, cs, rec@[i as int]));
            }
            i = i + 1;
        }
        assert(rec@.take(i as int) =~= rec@);
        proof {
            assert(self.chains@[t as int][self.chains@[t as int].len() - 1] == self.tails@[t as int]);
        }
        let tail = self.tails[t];
        let ghost cs0 = self.chunks@;
        let ghost ch = self.chains@;
        let ghost pre = *self;
        self.chunks[tail].last_doc_id = doc;
        proof {
            let cs = self.chunks@;
            assert forall|u: int, i: int| 0 <= u < n && 0 <= i < ch[u].len() implies (#[trigger] cs[ch[u][i]]).data@.len() <= self.chunk_size by {
                assert(cs0[ch[u][i]].data@.len() <= self.chunk_size);
            }
            assert forall|u: int, i: int| 0 <= u < n && 0 <= i < ch[u].len() - 1 implies (#[trigger] cs[ch[u][i]]).next == Some(ch[u][i + 1] as usize) by {
                assert(cs0[ch[u][i]].next == Some(ch[u][i + 1] as usize));
            }
            assert forall|u: int| 0 <= u < n implies (#[trigger] cs[ch[u].last()]).next is None by {
                assert(cs0[ch[u].last()].next is None);
            }
            assert forall|u: int| 0 <= u < n implies #[trigger] self.stream(u) == pre.stream(u) by {
                assert forall|i: int| 0 <= i < ch[u].len() implies 0 <= #[trigger] ch[u][i] < cs.len() && ch[u][i] < cs0.len()
                    && cs[ch[u][i]].data@ == cs0[ch[u][i]].data@ by {}
                lemma_chain_bytes_frame(cs, cs0, ch[u]);
            }
            assert forall|u: int| 0 <= u < n && u != t implies (#[trigger] cs[self.tails@[u] as int]).last_doc_id
                == cs0[self.tails@[u] as int].last_doc_id by {
                assert(ch[u][ch[u].len() - 1] == self.tails@[u]);
                assert(ch[u][ch[u].len() - 1] != ch[t as int][ch[t as int].len() - 1]);
            }
            assert forall|u: int| 0 <= u < n implies #[trigger] self.pages(u) == pre.pages(u) by {
                assert(self.pages(u) =~= pre.pages(u));
            }
        }
    }

    /// The document id after which the next listing of term `term_id` is
    /// delta-encoded: the last one written, or 0 before the first. Fails
    /// with `KeyNotFound` for a term without storage.
    pub fn get_last_doc_id(&self, term_id: u64) -> (r: Result<u64, StorageError>)
        requires
            self.wf(),
        ensures
            term_id < self@.len() ==> r == Ok::<u64, StorageError>(last_doc(self@[term_id as int], 0) as u64),
            term_id >= self@.len() ==> r == Err::<u64, StorageError>(StorageError::KeyNotFound),
    {
        if term_id >= self.tails.len() as u64 {
            return Err(StorageError::KeyNotFound);
        }
        let t = term_id as usize;
        proof {
            assert(self.chains@[t as int][self.chains@[t as int].len() - 1] == self.tails@[t as int]);
        }
        Ok(self.chunks[self.tails[t]].last_doc_id)
    }

    /// Appends a listing to term `term_id`. Fails with `KeyNotFound` for a
    /// term without storage, and with `WriteError`, changing nothing, where
    /// the listing is not valid or does not start after the term's last
    /// document.
    pub fn append_listing(&mut self, term_id: u64, listing: &Listing) -> (r: Result<(), StorageError>)
        requires
            old(self).wf(),
        ensures
            final(self).wf(),
            final(self).spec_chunk_size() == old(self).spec_chunk_size(),
            term_id >= old(self)@.len() ==> r == Err::<(), StorageError>(StorageError::KeyNotFound) && final(self)@ == old(self)@,
            term_id < old(self)@.len() && !appendable(old(self)@[term_id as int], listing_view(listing@)) ==> r
                == Err::<(), StorageError>(StorageError::WriteError) && final(self)@ == old(self)@,
            term_id < old(self)@.len() && appendable(old(self)@[term_id as int], listing_view(listing@)) ==> r is Ok
                && final(self)@ == old(self)@.update(term_id as int, old(self)@[term_id as int] + listing_view(listing@)),
    {
        if term_id >= self.tails.len() as u64 {
            return Err(StorageError::KeyNotFound);
        }
        let t = term_id as usize;
        let ghost lv = listing_view(listing@);
        let ghost old_l = self.listings@[t as int];
        let last = match self.get_last_doc_id(term_id) {
            Ok(d) => d,
            Err(_) => 0,
        };
        let ok = if !self.started[t] {
            is_valid_listing(listing, 0)
        } else if last == u64::MAX {
            listing.len() == 0
        } else {
            is_valid_listing(listing, last + 1)
        };
        if !ok {
            proof {
                if self.started@[t as int] && last == u64::MAX && listing.len() > 0 {
                    assert(lv[0].0 < append_base(old_l));
                }
            }
            return Err(StorageError::WriteError);
        }
        assert(appendable(old_l, lv));
        let mut prev: u64 = last;
        let mut i: usize = 0;
        let ghost s0 = *self;
        assert(old_l + lv.take(0) =~= old_l);
        assert(s0.listings@.update(t as int, old_l) =~= s0.listings@);
        while i < listing.len()
            invariant
                self.wf(),
                t < s0.listings@.len(),
                self.chunk_size == s0.chunk_size,
                lv == listing_view(listing@),
                old_l == s0.listings@[t as int],
                appendable(old_l, lv),
                lengths_fit(old_l),
                i <= lv.len(),
                self.listings@ == s0.listings@.update(t as int, old_l + lv.take(i as int)),
                prev == last_doc(old_l + lv.take(i as int), 0),
            decreases lv.len() - i,
        {
            let doc = listing[i].0;
            let _n = listing[i].1.len();
            let ghost cur = old_l + lv.take(i as int);
            let ghost p = lv[i as int];
            assert(p == (doc, listing@[i as int].1@));
            assert(strictly_ascending_at(lv, i as int));
            proof {
                if i > 0 {
                    assert(cur.last() == lv[i - 1]);
                    assert(lv[i - 1].0 < lv[i as int].0);
                } else if old_l.len() > 0 {
                    assert(cur =~= old_l);
                } else {
                    assert(cur.len() == 0);
                }
            }
            let mut rec: Vec<u8> = Vec::new();
            write_posting(doc, &listing[i].1, prev, &mut rec);
            assert(rec@ =~= encoded_all(crate::posting::posting_values(p, prev as nat)));
            let ghost pre = *self;
            self.write_record(t, &rec, doc);
            let ghost post = *self;
            proof {
                let next = cur.push(p);
                assert(old_l + lv.take(i + 1) =~= next);
                lemma_listing_values_append(cur, seq![p], 0);
                assert(seq![p].drop_first() =~= Seq::<(u64, Seq<u32>)>::empty());
                assert(listing_values(Seq::<(u64, Seq<u32>)>::empty(), p.0 as nat) == Seq::<nat>::empty());
                assert(seq![p][0] == p);
                assert(listing_values(seq![p], prev as nat) =~= crate::posting::posting_values(p, prev as nat));
                assert(cur + seq![p] =~= next);
                lemma_encoded_all_concat(listing_values(cur, 0), listing_values(seq![p], prev as nat));
                assert(rec@ =~= encoded_all(crate::posting::posting_values(p, prev as nat)));
                self.listings = Ghost(s0.listings@.update(t as int, next));
                lemma_valid_push(cur, p);
                assert(self.listings@[t as int] == next);
                let n = self.listings@.len();
                let ch = self.chains@;
                let cs = self.chunks@;
                assert forall|u: int| 0 <= u < n implies chain_bytes(cs, #[trigger] ch[u]) == encoded_all(listing_values(self.listings@[u], 0)) by {
                    assert(post.stream(u) == chain_bytes(cs, ch[u]));
                    assert(pre.stream(u) == chain_bytes(pre.chunks@, pre.chains@[u]));
                    assert(chain_bytes(pre.chunks@, pre.chains@[u]) == encoded_all(listing_values(pre.listings@[u], 0)));
                    if u == t {
                        assert(pre.listings@[u] == cur);
                        assert(post.stream(u) == pre.stream(u) + rec@);
                    } else {
                        assert(post.stream(u) == pre.stream(u));
                        assert(pre.listings@[u] == self.listings@[u]);
                    }
                }
                assert forall|u: int| 0 <= u < n implies chain_pages(cs, #[trigger] ch[u]) == layout(self.chunk_size as nat, self.listings@[u]) by {
                    assert(post.pages(u) == chain_pages(cs, ch[u]));
                    assert(pre.pages(u) == chain_pages(pre.chunks@, pre.chains@[u]));
                    assert(chain_pages(pre.chunks@, pre.chains@[u]) == layout(self.chunk_size as nat, pre.listings@[u]));
                    if u == t {
                        assert(next.drop_last() =~= cur);
                        assert(next.last() == p);
                        assert(pre.listings@[u] == cur);
                    } else {
                        assert(pre.listings@[u] == self.listings@[u]);
                    }
                }
                assert forall|u: int| 0 <= u < n implies (#[trigger] cs[ch[u].last()]).last_doc_id == last_doc(self.listings@[u], 0) by {
                    assert(ch[u][ch[u].len() - 1] == self.tails@[u]);
                    assert(pre.chains@[u][pre.chains@[u].len() - 1] == pre.tails@[u]);
                }
                assert forall|u: int| 0 <= u < n implies lengths_fit(#[trigger] self.listings@[u]) by {
                    if u != t {
                        assert(pre.listings@[u] == self.listings@[u]);
                    } else {
                        assert forall|k: int| 0 <= k < next.len() implies #[trigger] next[k].1.len() <= usize::MAX by {
                            if k < cur.len() {
                                assert(next[k] == cur[k]);
                                if k < old_l.len() {
                                    assert(cur[k] == old_l[k]);
                                    assert(lengths_fit(old_l));
                                } else {
                                    assert(cur[k] == lv[k - old_l.len()]);
                                    assert(lv[k - old_l.len()].1 == listing@[k - old_l.len()].1@);
                                }
                            } else {
                                assert(next[k] == p);
                            }
                        }
                    }
                }
            }
            self.started.set(t, true);
            proof {
                let n = self.listings@.len();
                assert(self.structure_ok());
                assert(forall|u: int| 0 <= u < n ==> #[trigger] self.started@[u] == (self.listings@[u].len() > 0));
                assert forall|u: int| 0 <= u < n implies valid_listing(#[trigger] self.listings@[u], 0) by {
                    if u != t {
                        assert(pre.listings@[u] == self.listings@[u]);
                    }
                }
            }
            prev = doc;
            i = i + 1;
        }
        assert(lv.take(i as int) =~= lv);
        Ok(())
    }
}

impl ChunkedStorage {
    /// The encoded bytes of term `term_id`, read along its chain of chunks.
    /// Fails with `KeyNotFound` for a term without storage.
    pub fn stream_bytes(&self, term_id: u64) -> (r: Result<Vec<u8>, StorageError>)
        requires
            self.wf(),
        ensures
            term_id < self@.len() ==> r is Ok && r->Ok_0@ == self.stream(term_id as int),
            term_id >= self@.len() ==> r == Err::<Vec<u8>, StorageError>(StorageError::KeyNotFound),
    {
        if term_id >= self.heads.len() as u64 {
            return Err(StorageError::KeyNotFound);
        }
        let t = term_id as usize;
        let ghost ch = self.chains@[t as int];
        let ghost cs = self.chunks@;
        let mut bytes: Vec<u8> = Vec::new();
        let nchunks = self.chunks.len();
        let mut cur: usize = self.heads[t];
        let ghost mut k: int = 0;
        assert(ch.take(0) =~= Seq::<int>::empty());
        loop
            invariant
                self.wf(),
                t < self.listings@.len(),
                t == term_id,
                ch == self.chains@[t as int],
                cs == self.chunks@,
                nchunks == cs.len(),
                0 <= k < ch.len(),
                cur == ch[k],
                bytes@ == chain_bytes(cs, ch.take(k)),
            decreases ch.len() - k,
        {
            assert(0 <= ch[k] < cs.len());
            let chunk = &self.chunks[cur];
            let mut j: usize = 0;
            let ghost before = bytes@;
            while j < chunk.data.len()
                invariant
                    self.wf(),
                    t < self.listings@.len(),
                    t == term_id,
                    ch == self.chains@[t as int],
                    cs == self.chunks@,
                    nchunks == cs.len(),
                    0 <= k < ch.len(),
                    cur == ch[k],
                    chunk == cs[ch[k]],
                    j <= chunk.data@.len(),
                    bytes@ == before + chunk.data@.take(j as int),
                decreases chunk.data@.len() - j,
            {
                bytes.push(chunk.data[j]);
                assert(chunk.data@.take(j + 1) =~= chunk.data@.take(j as int).push(chunk.data@[j as int]));
                j = j + 1;
            }
            proof {
                assert(chunk.data@.take(j as int) =~= chunk.data@);
                assert(ch.take(k + 1).drop_last() =~= ch.take(k));
                assert(ch.take(k + 1).last() == ch[k]);
            }
            match chunk.next {
                Some(n) => {
                    proof {
                        if k == ch.len() - 1 {
                            assert(cs[ch.last()].next is None);
                        }
                    }
                    assert(cs[ch[k]].next == Some(ch[k + 1] as usize));
                    assert(0 <= ch[k + 1] < cs.len());
                    cur = n;
                    proof { k = k + 1; }
                },
                None => {
                    proof {
                        if k < ch.len() - 1 {
                            assert(cs[ch[k]].next == Some(ch[k + 1] as usize));
                        }
                    }
                    assert(ch.take(k + 1) =~= ch);
                    return Ok(bytes);
                },
            }
        }
    }

    /// The bytes of each chunk of term `term_id`, along its chain. Fails
    /// with `KeyNotFound` for a term without storage.
    pub fn term_pages(&self, term_id: u64) -> (r: Result<Vec<Vec<u8>>, StorageError>)
        requires
            self.wf(),
        ensures
            term_id < self@.len() ==> r is Ok && r->Ok_0@.map_values(|p: Vec<u8>| p@) == self.pages(term_id as int),
            term_id >= self@.len() ==> r == Err::<Vec<Vec<u8>>, StorageError>(StorageError::KeyNotFound),
    {
        if term_id >= self.heads.len() as u64 {
            return Err(StorageError::KeyNotFound);
        }
        let t = term_id as usize;
        let ghost ch = self.chains@[t as int];
        let ghost cs = self.chunks@;
        let nchunks = self.chunks.len();
        let mut pages: Vec<Vec<u8>> = Vec::new();
        let mut cur: usize = self.heads[t];
        let ghost mut k: int = 0;
        loop
            invariant
                self.wf(),
                t < self.listings@.len(),
                t == term_id,
                ch == self.chains@[t as int],
                cs == self.chunks@,
                nchunks == cs.len(),
                0 <= k < ch.len(),
                cur == ch[k],
                pages@.map_values(|p: Vec<u8>| p@) == chain_pages(cs, ch.take(k)),
            decreases ch.len() - k,
        {
            assert(0 <= ch[k] < cs.len());
            let chunk = &self.chunks[cur];
            let page = copy_bytes(&chunk.data);
            let ghost before = pages@;
            pages.push(page);
            proof {
                let got = pages@.map_values(|p: Vec<u8>| p@);
                let want = chain_pages(cs, ch.take(k + 1));
                let had = chain_pages(cs, ch.take(k));
                assert(ch.take(k).len() == k);
                assert(ch.take(k + 1).len() == k + 1);
                assert(had.len() == k);
                assert(before.map_values(|p: Vec<u8>| p@).len() == before.len());
                assert(before.len() == k);
                assert(pages@.len() == k + 1);
                assert(got.len() == want.len());
                assert forall|i: int| 0 <= i < got.len() implies got[i] == want[i] by {
                    if i < k {
                        assert(pages@[i] == before[i]);
                        assert(before.map_values(|p: Vec<u8>| p@)[i] == had[i]);
                        assert(ch.take(k)[i] == ch.take(k + 1)[i]);
                    } else {
                        assert(pages@[i] == page);
                        assert(ch.take(k + 1)[i] == ch[k]);
                    }
                }
                assert(got =~= want);
            }
            match chunk.next {
                Some(n) => {
                    proof {
                        if k == ch.len() - 1 {
                            assert(cs[ch.last()].next is None);
                        }
                    }
                    assert(cs[ch[k]].next == Some(ch[k + 1] as usize));
                    assert(0 <= ch[k + 1] < cs.len());
                    cur = n;
                    proof { k = k + 1; }
                },
                None => {
                    proof {
                        if k < ch.len() - 1 {
                            assert(cs[ch[k]].next == Some(ch[k + 1] as usize));
                        }
                    }
                    assert(ch.take(k + 1) =~= ch);
                    return Ok(pages);
                },
            }
        }
    }

    /// The listing of term `term_id`, decoded from its chain of chunks.
    /// Fails with `KeyNotFound` for a term without storage.
    pub fn read_listing(&self, term_id: u64) -> (r: Result<Listing, StorageError>)
        requires
            self.wf(),
        ensures
            term_id < self@.len() ==> r is Ok && listing_view(r->Ok_0@) == self@[term_id as int],
            term_id >= self@.len() ==> r == Err::<Listing, StorageError>(StorageError::KeyNotFound),
    {
        let bytes = match self.stream_bytes(term_id) {
            Ok(b) => b,
            Err(e) => return Err(e),
        };
        let ghost l = self.listings@[term_id as int];
        proof {
            law_vbyte_round_trip(listing_values(l, 0));
            lemma_listing_values_fit(l, 0);
            law_listing_round_trip(l, 0);
            assert(valid_listing(l, 0));
            assert(lengths_fit(l));
        }
        let values = match vbyte_decode(bytes.as_slice()) {
            Ok(v) => v,
            Err(e) => return Err(e),
        };
        assert(nats_of(values@) == listing_values(l, 0));
        proof {
            let nl = nat_listing(l);
            assert forall|i: int| 0 <= i < nl.len() implies #[trigger] nl[i].0 <= u64::MAX && forall|j: int|
                0 <= j < nl[i].1.len() ==> #[trigger] nl[i].1[j] <= u32::MAX by {}
        }
        let listing = match decode_listing(values.as_slice(), 0) {
            Ok(x) => x,
            Err(e) => return Err(e),
        };
        proof {
            lemma_nat_listing_injective(listing_view(listing@), l);
        }
        Ok(listing)
    }
}

proof fn lemma_nat_listing_injective(a: Seq<(u64, Seq<u32>)>, b: Seq<(u64, Seq<u32>)>)
    requires
        nat_listing(a) == nat_listing(b),
    ensures
        a == b,
{
    assert(a.len() == nat_listing(a).len());
    assert(b.len() == nat_listing(b).len());
    assert forall|i: int| 0 <= i < a.len() implies a[i] == b[i] by {
        let x = nat_listing(a)[i];
        let y = nat_listing(b)[i];
        assert(x == y);
        assert(a[i].1.len() == x.1.len() && b[i].1.len() == y.1.len());
        assert forall|j: int| 0 <= j < a[i].1.len() implies a[i].1[j] == b[i].1[j] by {
            assert(x.1[j] == y.1[j]);
        }
        assert(a[i].1 =~= b[i].1);
    }
    assert(a =~= b);
}

/// A copy of a byte vector.
fn copy_bytes(v: &Vec<u8>) -> (r: Vec<u8>)
    ensures
        r@ == v@,
{
    let mut r: Vec<u8> = Vec::new();
    let mut i: usize = 0;
    while i < v.len()
        invariant
            i <= v@.len(),
            r@ == v@.take(i as int),
        decreases v@.len() - i,
    {
        r.push(v[i]);
        assert(v@.take(i + 1) =~= v@.take(i as int).push(v@[i as int]));
        i = i + 1;
    }
    assert(v@.take(i as int) =~= v@);
    r
}

spec fn strictly_ascending_at(lv: Seq<(u64, Seq<u32>)>, i: int) -> bool {
    crate::posting::strictly_ascending(lv[i].1)
}

proof fn lemma_valid_push(a: Seq<(u64, Seq<u32>)>, p: (u64, Seq<u32>))
    requires
        valid_listing(a, 0),
        p.0 >= append_base(a),
        crate::posting::strictly_ascending(p.1),
    ensures
        valid_listing(a.push(p), 0),
{
    let b = a.push(p);
    assert forall|i: int, j: int| 0 <= i < j < b.len() implies b[i].0 < b[j].0 by {
        if j == a.len() {
            assert(a[i].0 <= a.last().0) by {
                if i < a.len() - 1 {
                    assert(a[i].0 < a[a.len() - 1].0);
                }
            }
        }
    }
    assert forall|i: int| 0 <= i < b.len() implies crate::posting::strictly_ascending(#[trigger] b[i].1) by {
        if i < a.len() {
            assert(b[i] == a[i]);
        }
    }
}

/// Whether a listing is valid after document `min` (see `valid_listing`).
pub fn is_valid_listing(l: &Listing, min: u64) -> (r: bool)
    ensures
        r == valid_listing(listing_view(l@), min as nat),
{
    let ghost lv = listing_view(l@);
    let mut i: usize = 0;
    while i < l.len()
        invariant
            lv == listing_view(l@),
            i <= lv.len(),
            valid_listing(lv.take(i as int), min as nat),
        decreases lv.len() - i,
    {
        let doc = l[i].0;
        assert(lv[i as int] == (doc, l@[i as int].1@));
        if i == 0 {
            if doc < min {
                return false;
            }
        } else if l[i - 1].0 >= doc {
            assert(lv[i - 1].0 >= lv[i as int].0);
            return false;
        }
        let ps = &l[i].1;
        let mut j: usize = 1;
        while j < ps.len()
            invariant
                1 <= j,
                lv == listing_view(l@),
                i < lv.len(),
                ps@.len() == lv[i as int].1.len(),
                ps@ == lv[i as int].1,
                forall|a: int, b: int| 0 <= a < b < j && b < ps@.len() ==> ps@[a] < ps@[b],
            decreases ps@.len() - j,
        {
            if ps[j - 1] >= ps[j] {
                assert(!crate::posting::strictly_ascending(lv[i as int].1));
                return false;
            }
            j = j + 1;
        }
        proof {
            let nt = lv.take(i + 1);
            let ot = lv.take(i as int);
            assert forall|a: int, b: int| 0 <= a < b < nt.len() implies nt[a].0 < nt[b].0 by {
                if b == i {
                    assert(nt[b] == lv[i as int]);
                    if a < i - 1 {
                        assert(ot[a].0 < ot[i - 1].0);
                    }
                } else {
                    assert(nt[a] == ot[a] && nt[b] == ot[b]);
                }
            }
            assert forall|a: int| 0 <= a < nt.len() implies crate::posting::strictly_ascending(#[trigger] nt[a].1) by {
                if a < i {
                    assert(nt[a] == ot[a]);
                }
            }
        }
        i = i + 1;
    }
    assert(lv.take(i as int) =~= lv);
    true
}

/// The document ids of every stored listing rise strictly, so none repeats.
pub proof fn law_stored_docs_ascending(s: &ChunkedStorage, t: int)
    requires
        s.wf(),
        0 <= t < s@.len(),
    ensures
        forall|i: int, j: int| 0 <= i < j < s@[t].len() ==> s@[t][i].0 < s@[t][j].0,
{
    assert(valid_listing(s.listings@[t], 0));
}

/// The chunks that hold a term follow from its listing and the chunk size
/// alone: two storages of one chunk size that hold the same listing for a
/// term hold it in the same chunks, byte for byte, however and in whatever
/// batches the listing was appended.
pub proof fn law_pages_follow_listing(s1: &ChunkedStorage, t1: int, s2: &ChunkedStorage, t2: int)
    requires
        s1.wf(),
        s2.wf(),
        s1.spec_chunk_size() == s2.spec_chunk_size(),
        0 <= t1 < s1@.len(),
        0 <= t2 < s2@.len(),
        s1@[t1] == s2@[t2],
    ensures
        s1.pages(t1) == s2.pages(t2),
        s1.pages(t1) == layout(s1.spec_chunk_size(), s1@[t1]),
        s1.stream(t1) == s2.stream(t2),
        s1.stream(t1) == encoded_all(listing_values(s1@[t1], 0)),
{
}

} // verus!
