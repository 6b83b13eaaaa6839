//! The streaming chunker: it is fed the reads of one source, in order, and
//! at the end of the stream hands out the registry of that source.

use crate::cdc::{
    advanced, chunks_of, joined, lemma_chunks_cover, lemma_reads_do_not_matter, lemma_scan_concat,
    lemma_scan_piece, scan, scan_reads, scan_start, Limits, ScanState,
};
use crate::digest::xxh3_64_of;
use crate::gear::gear_next_match;
use crate::registry::{
    hashes_of, lemma_registry_of_packed, lemma_registry_of_shape, registry_of, total_len,
    RegistryView,
};
use crate::store::ChunkStore;
use vstd::prelude::*;
use vstd::slice::slice_subrange;
use vstd::string::StringSliceAdditionalSpecFns;
use vstd::utf8::encode_utf8;

verus! {

/// The mask of the default limits: a candidate boundary once in 65536 bytes.
pub const MASK: u64 = 0xffff_0000_0000_0000;

/// The minimum chunk length of the default limits.
pub const MIN_LEN: usize = 8192;

/// The maximum chunk length of the default limits.
pub const MAX_LEN: usize = 131072;

/// The default limits of a chunker.
pub open spec fn default_limits() -> Limits {
    Limits { mask: MASK, min_len: MIN_LEN, max_len: MAX_LEN }
}

/// A chunker in the middle of a stream.
pub struct Chunker {
    limits: Limits,
    hash: u64,
    pending: Vec<u8>,
    store: ChunkStore,
    emitted: Ghost<Seq<Seq<u8>>>,
}

impl View for Chunker {
    type V = ScanState;

    closed spec fn view(&self) -> ScanState {
        ScanState { hash: self.hash, pending: self.pending@, emitted: self.emitted@ }
    }
}

impl Chunker {
    /// The limits that the chunker was made with.
    pub closed spec fn limits(&self) -> Limits {
        self.limits
    }

    /// Whether the registry under construction keeps the bytes of its chunks.
    pub closed spec fn keeps_data(&self) -> bool {
        self.store.keeps_data()
    }

    /// The registry of the chunks cut so far.
    pub closed spec fn registry(&self) -> RegistryView {
        self.store@
    }

    /// The number of bytes fed so far.
    pub open spec fn bytes_seen(&self) -> nat {
        total_len(self@.emitted) + self@.pending.len()
    }

    /// The invariant of a chunker: its limits are valid, the pending chunk is
    /// shorter than the maximum, the bytes fed so far can be counted, and its
    /// registry is that of the chunks cut so far.
    pub closed spec fn wf(&self) -> bool {
        &&& self.limits.valid()
        &&& self.pending@.len() < self.limits.max_len
        &&& self.bytes_seen() <= usize::MAX
        &&& self.store.wf()
        &&& self.store@ == registry_of(self.emitted@, self.store@.packed(), self.store.keeps_data())
        &&& self.store@.packed_bounded()
    }

    /// What the invariant says to those outside.
    pub proof fn lemma_wf(&self)
        requires
            self.wf(),
        ensures
            self.limits().valid(),
            self@.pending.len() < self.limits().max_len,
            self.bytes_seen() <= usize::MAX,
            self.registry() == registry_of(
                self@.emitted,
                self.registry().packed(),
                self.keeps_data(),
            ),
            self.registry().packed_bounded(),
    {
    }

    /// A chunker with the default limits that has seen nothing.
    pub fn new(store_data: bool) -> (c: Chunker)
        ensures
            c.wf(),
            c@ == scan_start(),
            c.limits() == default_limits(),
            c.keeps_data() == store_data,
    {
        Chunker::with_limits(Limits { mask: MASK, min_len: MIN_LEN, max_len: MAX_LEN }, store_data)
    }

    /// A chunker with the given limits that has seen nothing.
    pub fn with_limits(limits: Limits, store_data: bool) -> (c: Chunker)
        requires
            limits.valid(),
        ensures
            c.wf(),
            c@ == scan_start(),
            c.limits() == limits,
            c.keeps_data() == store_data,
    {
        Chunker {
            limits,
            hash: 0,
            pending: Vec::new(),
            store: ChunkStore::new(store_data),
            emitted: Ghost(Seq::empty()),
        }
    }

    /// The number of bytes fed so far.
    pub fn fed(&self) -> (n: usize)
        requires
            self.wf(),
        ensures
            n == self.bytes_seen(),
    {
        proof {
            lemma_registry_of_shape(self.emitted@, self.store@.packed(), self.store.keeps_data());
        }
        self.store.total_bytes() + self.pending.len()
    }

    /// Cuts the pending chunk: adds it to the registry and starts a new one.
    fn cut(&mut self)
        requires
            old(self).limits.valid(),
            old(self).pending@.len() <= old(self).limits.max_len,
            old(self).bytes_seen() <= usize::MAX,
            old(self).store.wf(),
            old(self).store@ == registry_of(
                old(self).emitted@,
                old(self).store@.packed(),
                old(self).store.keeps_data(),
            ),
            old(self).store@.packed_bounded(),
        ensures
            final(self).wf(),
            final(self)@ == (ScanState {
                hash: old(self)@.hash,
                pending: Seq::empty(),
                emitted: old(self)@.emitted.push(old(self)@.pending),
            }),
            final(self).limits == old(self).limits,
            final(self).keeps_data() == old(self).keeps_data(),
    {
        let ghost before = self.store@;
        let ghost keep = self.store.keeps_data();
        let ghost chunk = self.pending@;
        proof {
            lemma_registry_of_shape(self.emitted@, before.packed(), keep);
            assert(chunk.len() * 110 <= self.limits.max_len * 110) by (nonlinear_arith)
                requires
                    chunk.len() <= self.limits.max_len,
            ;
        }
        self.store.add(self.pending.as_slice());
        proof {
            let after = self.store@;
            let all = self.emitted@.push(chunk);
            assert(all.drop_last() =~= self.emitted@);
            assert forall|i: int| 0 <= i < self.emitted@.len() implies before.packed()[
                #[trigger] xxh3_64_of(self.emitted@[i])
            ] == after.packed()[xxh3_64_of(self.emitted@[i])] by {
                let h = xxh3_64_of(self.emitted@[i]);
                assert(hashes_of(self.emitted@)[i] == h);
                assert(before.order.contains(h));
                assert(before.chunks.contains_key(h));
            }
            lemma_registry_of_packed(self.emitted@, before.packed(), after.packed(), keep);
        }
        self.emitted = Ghost(self.emitted@.push(chunk));
        self.pending.clear();
        proof {
            assert(self.emitted@.drop_last() =~= old(self).emitted@);
        }
    }

    /// Takes in the bytes `piece` that one search for a match consumed:
    /// they join the pending chunk, the rolling hash becomes `hash`, and
    /// the pending chunk is cut if the search matched at the last byte
    /// (`hit`) and the chunk has its minimum length, or if the chunk has its
    /// maximum length.
    pub fn advance(&mut self, piece: &[u8], hash: u64, hit: bool)
        requires
            old(self).wf(),
            old(self)@.pending.len() + piece@.len() <= old(self).limits().max_len,
            old(self).bytes_seen() + piece@.len() <= usize::MAX,
        ensures
            final(self).wf(),
            final(self)@ == advanced(old(self).limits(), old(self)@, piece@, hash, hit),
            final(self).limits() == old(self).limits(),
            final(self).keeps_data() == old(self).keeps_data(),
            final(self).bytes_seen() == old(self).bytes_seen() + piece@.len(),
    {
        let ghost st = self@;
        self.pending.extend_from_slice(piece);
        self.hash = hash;
        assert(self.pending@ =~= st.pending + piece@);
        let full = self.pending.len() >= self.limits.max_len;
        let long = self.pending.len() >= self.limits.min_len;
        if (hit && long) || full {
            self.cut();
            assert(self@.emitted.drop_last() =~= st.emitted);
        }
    }

    /// Feeds the next read of the stream.
    pub fn feed(&mut self, block: &[u8])
        requires
            old(self).wf(),
            old(self).bytes_seen() + block@.len() <= usize::MAX,
        ensures
            final(self).wf(),
            final(self)@ == scan(old(self).limits(), old(self)@, block@),
            final(self).limits() == old(self).limits(),
            final(self).keeps_data() == old(self).keeps_data(),
            final(self).bytes_seen() == old(self).bytes_seen() + block@.len(),
    {
        let mut start: usize = 0;
        assert(block@.take(0) =~= Seq::empty());
        while start < block.len()
            invariant
                start <= block@.len(),
                self.wf(),
                self@ == scan(old(self).limits, old(self)@, block@.take(start as int)),
                self.limits == old(self).limits,
                self.keeps_data() == old(self).keeps_data(),
                self.bytes_seen() == old(self).bytes_seen() + start,
                old(self).bytes_seen() + block@.len() <= usize::MAX,
            decreases block@.len() - start,
        {
            let room = self.limits.max_len - self.pending.len();
            let rest = block.len() - start;
            let span = if rest < room {
                rest
            } else {
                room
            };
            let window = slice_subrange(block, start, start + span);
            let found = gear_next_match(self.hash, window, self.limits.mask);
            let used = match found.matched {
                Some(n) => n,
                None => span,
            };
            let piece = slice_subrange(block, start, start + used);
            proof {
                assert(piece@ =~= window@.take(used as int));
                lemma_scan_piece(self.limits, self@, window@, used as int, found.matched.is_some());
                lemma_scan_concat(old(self).limits, old(self)@, block@.take(start as int), piece@);
                assert(block@.take(start as int) + piece@ =~= block@.take(start + used));
            }
            self.advance(piece, found.hash, found.matched.is_some());
            start = start + used;
        }
        assert(block@.take(start as int) =~= block@);
    }

    /// Ends the stream: what is pending, even if it is empty, becomes the
    /// last chunk, and the registry of the source is handed out.
    pub fn finish(self) -> (r: ChunkStore)
        requires
            self.wf(),
        ensures
            r.wf(),
            r.keeps_data() == self.keeps_data(),
            r@ == registry_of(self@.emitted.push(self@.pending), r@.packed(), self.keeps_data()),
            r@.packed_bounded(),
    {
        let mut this = self;
        this.cut();
        this.store
    }
}

/// The bytes of each read of `reads`.
pub open spec fn reads_view(reads: Seq<Vec<u8>>) -> Seq<Seq<u8>> {
    Seq::new(reads.len(), |i: int| reads[i]@)
}

/// The registry of a source whose bytes are `stream`: that of its chunks
/// under the default limits, with the compressed sizes that `r` holds, each
/// within the bound of the block compressor.
pub open spec fn is_registry_of(r: RegistryView, stream: Seq<u8>, store_data: bool) -> bool {
    &&& r == registry_of(chunks_of(default_limits(), stream), r.packed(), store_data)
    &&& r.packed_bounded()
}

impl ChunkStore {
    /// The registry of a source held in memory.
    pub fn from_bytes(data: &[u8], store_data: bool) -> (r: ChunkStore)
        ensures
            r.wf(),
            r.keeps_data() == store_data,
            is_registry_of(r@, data@, store_data),
    {
        let mut chunker = Chunker::new(store_data);
        assert(chunker.bytes_seen() == 0);
        assert(data@.len() == data.len());
        chunker.feed(data);
        chunker.finish()
    }

    /// The registry of a source that was read in the blocks `reads`, in
    /// order. How the source was divided into blocks does not show in the
    /// registry.
    pub fn from_stream(reads: &[Vec<u8>], store_data: bool) -> (r: ChunkStore)
        requires
            total_len(reads_view(reads@)) <= usize::MAX,
        ensures
            r.wf(),
            r.keeps_data() == store_data,
            is_registry_of(r@, joined(reads_view(reads@)), store_data),
    {
        let mut chunker = Chunker::new(store_data);
        let ghost all = reads_view(reads@);
        let mut i: usize = 0;
        assert(all.take(0) =~= Seq::empty());
        while i < reads.len()
            invariant
                i <= reads@.len(),
                all == reads_view(reads@),
                total_len(all) <= usize::MAX,
                chunker.wf(),
                chunker.limits() == default_limits(),
                chunker.keeps_data() == store_data,
                chunker@ == scan_reads(default_limits(), scan_start(), all.take(i as int)),
                chunker.bytes_seen() == total_len(all.take(i as int)),
            decreases reads@.len() - i,
        {
            proof {
                lemma_total_len_grows(all, i as int + 1, all.len() as int);
                assert(all.take(all.len() as int) =~= all);
                assert(all.take(i + 1).drop_last() =~= all.take(i as int));
                assert(all.take(i + 1).last() == reads@[i as int]@);
            }
            chunker.feed(reads[i].as_slice());
            i = i + 1;
        }
        proof {
            assert(all.take(i as int) =~= all);
            lemma_reads_do_not_matter(default_limits(), scan_start(), all);
        }
        chunker.finish()
    }

    /// The registries of sources held in memory as strings, one for each
    /// string and in the same order.
    pub fn from_strings(data: &[String], store_data: bool) -> (r: Vec<ChunkStore>)
        ensures
            r@.len() == data@.len(),
            forall|i: int|
                0 <= i < r@.len() ==> {
                    &&& (#[trigger] r@[i]).wf()
                    &&& r@[i].keeps_data() == store_data
                    &&& is_registry_of(r@[i]@, encode_utf8(data@[i]@), store_data)
                },
    {
        let mut stores: Vec<ChunkStore> = Vec::new();
        let mut i: usize = 0;
        while i < data.len()
            invariant
                i <= data@.len(),
                stores@.len() == i,
                forall|k: int|
                    0 <= k < i ==> {
                        &&& (#[trigger] stores@[k]).wf()
                        &&& stores@[k].keeps_data() == store_data
                        &&& is_registry_of(stores@[k]@, encode_utf8(data@[k]@), store_data)
                    },
            decreases data@.len() - i,
        {
            let store = ChunkStore::from_bytes(data[i].as_str().as_bytes(), store_data);
            stores.push(store);
            i = i + 1;
        }
        stores
    }
}

/// The bytes of a list of chunks are the bytes of the chunks joined.
pub proof fn lemma_total_len_joined(chunks: Seq<Seq<u8>>)
    ensures
        total_len(chunks) == joined(chunks).len(),
    decreases chunks.len(),
{
    if chunks.len() > 0 {
        lemma_total_len_joined(chunks.drop_last());
    }
}

/// The registry of a source is sound, counts every byte of the stream, and
/// lists the hashes of its chunks in order.
pub proof fn lemma_stream_registry(r: RegistryView, stream: Seq<u8>, store_data: bool)
    requires
        is_registry_of(r, stream, store_data),
    ensures
        r.sound(),
        r.total == stream.len(),
        r.order == hashes_of(chunks_of(default_limits(), stream)),
{
    let chunks = chunks_of(default_limits(), stream);
    lemma_registry_of_shape(chunks, r.packed(), store_data);
    lemma_total_len_joined(chunks);
    lemma_chunks_cover(default_limits(), stream);
}

/// A longer prefix of a list of reads holds no fewer bytes.
pub proof fn lemma_total_len_grows(reads: Seq<Seq<u8>>, i: int, j: int)
    requires
        0 <= i <= j <= reads.len(),
    ensures
        total_len(reads.take(i)) <= total_len(reads.take(j)),
    decreases j - i,
{
    if i < j {
        lemma_total_len_grows(reads, i, j - 1);
        assert(reads.take(j).drop_last() =~= reads.take(j - 1));
    }
}

} // verus!
