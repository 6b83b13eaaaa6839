//! The mathematical model of a chunk registry: what a registry holds, how
//! recording one chunk changes it, and the sums that its statistics report.

use crate::digest::xxh3_64_of;
use vstd::prelude::*;

verus! {

/// What is known of one distinct chunk.
pub struct ChunkView {
    /// Byte length of the chunk.
    pub size: nat,
    /// Length of the chunk after block compression on its own.
    pub compressed: nat,
    /// Indices of the sources that hold the chunk; filled by a merge.
    pub seen_in: Seq<i64>,
    /// Index of the first source that holds the chunk; set by a merge.
    pub first_seen_in: i64,
    /// The bytes of the chunk, where they are kept.
    pub data: Option<Seq<u8>>,
}

/// A registry of chunks: every byte counted, every chunk hash in the order of
/// emission, and one entry per distinct hash.
pub struct RegistryView {
    pub total: nat,
    pub order: Seq<u64>,
    pub chunks: Map<u64, ChunkView>,
}

/// The entry of a chunk that no merge has seen yet.
pub open spec fn fresh_chunk(size: nat, compressed: nat, data: Option<Seq<u8>>) -> ChunkView {
    ChunkView { size, compressed, seen_in: Seq::empty(), first_seen_in: 0, data }
}

/// The bytes that a registry keeps of a chunk: all of them, or none.
pub open spec fn kept(chunk: Seq<u8>, store_data: bool) -> Option<Seq<u8>> {
    if store_data {
        Some(chunk)
    } else {
        None
    }
}

impl RegistryView {
    /// The registry of a source from which nothing was read.
    pub open spec fn empty() -> RegistryView {
        RegistryView { total: 0, order: Seq::empty(), chunks: Map::empty() }
    }

    /// The registry after one more chunk: its bytes are counted and its hash
    /// is appended to the order; its entry is stored unless the hash already
    /// has one, in which case the first entry stays.
    pub open spec fn record(self, hash: u64, entry: ChunkView) -> RegistryView {
        RegistryView {
            total: self.total + entry.size,
            order: self.order.push(hash),
            chunks: if self.chunks.contains_key(hash) {
                self.chunks
            } else {
                self.chunks.insert(hash, entry)
            },
        }
    }

    /// Every hash of the order has an entry, and every entry's hash occurs in
    /// the order.
    pub open spec fn keyed_by_order(self) -> bool {
        forall|h: u64| self.chunks.contains_key(h) <==> self.order.contains(h)
    }

    /// What every registry built by this library satisfies: the entries are
    /// keyed by the hashes of the order, the distinct chunks together are no
    /// larger than all the bytes counted, and every first-seen index is one
    /// that can index a list of sources.
    pub open spec fn sound(self) -> bool {
        &&& self.keyed_by_order()
        &&& self.unique_size() <= self.total
        &&& forall|h: u64|
            self.chunks.contains_key(h) ==> 0 <= (#[trigger] self.chunks[h]).first_seen_in
                <= usize::MAX
    }

    /// Sum of the sizes of the distinct chunks.
    pub open spec fn unique_size(self) -> nat {
        unique_sum(self.order, self.chunks.map_values(|c: ChunkView| c.size))
    }

    /// Sum of the compressed sizes of the distinct chunks.
    pub open spec fn unique_compressed(self) -> nat {
        unique_sum(self.order, self.chunks.map_values(|c: ChunkView| c.compressed))
    }

    /// The compressed size of each distinct chunk, by hash.
    pub open spec fn packed(self) -> Map<u64, nat> {
        self.chunks.map_values(|c: ChunkView| c.compressed)
    }

    /// Whether every compressed size is one that the block compressor can
    /// give: at most twenty bytes more than eleven tenths of the size.
    pub open spec fn packed_bounded(self) -> bool {
        forall|h: u64|
            self.chunks.contains_key(h) ==> (#[trigger] self.chunks[h]).compressed <= 20
                + self.chunks[h].size * 110 / 100
    }

    /// For each position of the order, the first-seen index of its chunk.
    pub open spec fn segments(self) -> Seq<i64> {
        Seq::new(self.order.len(), |i: int| self.chunks[self.order[i]].first_seen_in)
    }

    /// The entries in the order of emission, each with its hash.
    pub open spec fn listing(self) -> Seq<(u64, ChunkView)> {
        Seq::new(self.order.len(), |i: int| (self.order[i], self.chunks[self.order[i]]))
    }
}

/// Sum of `weight` over the distinct hashes of `order`: each hash counts at
/// its first occurrence only.
pub open spec fn unique_sum(order: Seq<u64>, weight: Map<u64, nat>) -> nat
    decreases order.len(),
{
    if order.len() == 0 {
        0
    } else {
        let rest = order.drop_last();
        let h = order.last();
        unique_sum(rest, weight) + if rest.contains(h) {
            0nat
        } else {
            weight[h]
        }
    }
}

/// The registry of the chunks `chunks`, added in order to an empty registry,
/// where `packed` gives the compressed size of the chunk of each hash and
/// `store_data` says whether the bytes are kept.
pub open spec fn registry_of(chunks: Seq<Seq<u8>>, packed: Map<u64, nat>, store_data: bool) -> RegistryView
    decreases chunks.len(),
{
    if chunks.len() == 0 {
        RegistryView::empty()
    } else {
        let c = chunks.last();
        let h = xxh3_64_of(c);
        registry_of(chunks.drop_last(), packed, store_data).record(
            h,
            fresh_chunk(c.len(), packed[h], kept(c, store_data)),
        )
    }
}

/// The content hashes of `chunks`, in order.
pub open spec fn hashes_of(chunks: Seq<Seq<u8>>) -> Seq<u64> {
    Seq::new(chunks.len(), |i: int| xxh3_64_of(chunks[i]))
}

/// The number of bytes in `chunks`.
pub open spec fn total_len(chunks: Seq<Seq<u8>>) -> nat
    decreases chunks.len(),
{
    if chunks.len() == 0 {
        0
    } else {
        total_len(chunks.drop_last()) + chunks.last().len()
    }
}

/// The registry of a list of chunks counts all their bytes, lists their
/// hashes in order, is sound, and has an entry for a hash exactly if a chunk
/// of the list has that hash.
pub proof fn lemma_registry_of_shape(chunks: Seq<Seq<u8>>, packed: Map<u64, nat>, store_data: bool)
    ensures
        registry_of(chunks, packed, store_data).total == total_len(chunks),
        registry_of(chunks, packed, store_data).order == hashes_of(chunks),
        registry_of(chunks, packed, store_data).sound(),
    decreases chunks.len(),
{
    let r = registry_of(chunks, packed, store_data);
    if chunks.len() == 0 {
        assert(r.order =~= hashes_of(chunks));
        assert(r.chunks.map_values(|c: ChunkView| c.size) =~= Map::empty());
    } else {
        let c = chunks.last();
        let h = xxh3_64_of(c);
        let before = registry_of(chunks.drop_last(), packed, store_data);
        lemma_registry_of_shape(chunks.drop_last(), packed, store_data);
        lemma_record_sound(before, h, fresh_chunk(c.len(), packed[h], kept(c, store_data)));
        assert(r.order =~= hashes_of(chunks));
    }
}

/// The registry of a list of chunks depends on `packed` only at the hashes
/// of those chunks.
pub proof fn lemma_registry_of_packed(
    chunks: Seq<Seq<u8>>,
    one: Map<u64, nat>,
    other: Map<u64, nat>,
    store_data: bool,
)
    requires
        forall|i: int| 0 <= i < chunks.len() ==> one[#[trigger] xxh3_64_of(chunks[i])] == other[xxh3_64_of(chunks[i])],
    ensures
        registry_of(chunks, one, store_data) == registry_of(chunks, other, store_data),
    decreases chunks.len(),
{
    if chunks.len() > 0 {
        let rest = chunks.drop_last();
        assert forall|i: int| 0 <= i < rest.len() implies one[#[trigger] xxh3_64_of(rest[i])]
            == other[xxh3_64_of(rest[i])] by {
            assert(rest[i] == chunks[i]);
        }
        lemma_registry_of_packed(rest, one, other, store_data);
        assert(chunks.last() == chunks[chunks.len() - 1]);
    }
}

/// A weight given to a hash that does not occur in `order` does not change
/// the sum.
pub proof fn lemma_unique_sum_ignores_absent(order: Seq<u64>, weight: Map<u64, nat>, h: u64, w: nat)
    requires
        !order.contains(h),
    ensures
        unique_sum(order, weight.insert(h, w)) == unique_sum(order, weight),
    decreases order.len(),
{
    if order.len() > 0 {
        let rest = order.drop_last();
        assert(order[order.len() - 1] == order.last());
        assert forall|x: u64| rest.contains(x) implies order.contains(x) by {
            let i = choose|i: int| 0 <= i < rest.len() && rest[i] == x;
            assert(order[i] == x);
        }
        lemma_unique_sum_ignores_absent(rest, weight, h, w);
    }
}

/// Recording a chunk keeps a sound registry sound.
pub proof fn lemma_record_sound(r: RegistryView, hash: u64, entry: ChunkView)
    requires
        r.sound(),
        0 <= entry.first_seen_in <= usize::MAX,
    ensures
        r.record(hash, entry).sound(),
        r.record(hash, entry).unique_size() == r.unique_size() + if r.chunks.contains_key(hash) {
            0nat
        } else {
            entry.size
        },
        r.record(hash, entry).unique_compressed() == r.unique_compressed() + if r.chunks.contains_key(
            hash,
        ) {
            0nat
        } else {
            entry.compressed
        },
{
    let next = r.record(hash, entry);
    assert(next.order.drop_last() =~= r.order);
    assert(next.order.last() == hash);
    assert forall|h: u64| next.chunks.contains_key(h) <==> next.order.contains(h) by {
        if next.order.contains(h) {
            let i = choose|i: int| 0 <= i < next.order.len() && next.order[i] == h;
            if i < r.order.len() {
                assert(r.order[i] == h);
            }
        }
        if r.order.contains(h) {
            let i = choose|i: int| 0 <= i < r.order.len() && r.order[i] == h;
            assert(next.order[i] == h);
        }
        assert(next.order[r.order.len() as int] == hash);
    }
    let sizes = r.chunks.map_values(|c: ChunkView| c.size);
    let packed = r.chunks.map_values(|c: ChunkView| c.compressed);
    if r.chunks.contains_key(hash) {
        assert(next.chunks == r.chunks);
    } else {
        assert(next.chunks.map_values(|c: ChunkView| c.size) =~= sizes.insert(hash, entry.size));
        assert(next.chunks.map_values(|c: ChunkView| c.compressed) =~= packed.insert(
            hash,
            entry.compressed,
        ));
        lemma_unique_sum_ignores_absent(r.order, sizes, hash, entry.size);
        lemma_unique_sum_ignores_absent(r.order, packed, hash, entry.compressed);
    }
}

/// The sum over the distinct hashes of a prefix of an order is no larger
/// than the sum over those of a longer prefix.
pub proof fn lemma_unique_sum_prefix(order: Seq<u64>, weight: Map<u64, nat>, i: int, j: int)
    requires
        0 <= i <= j <= order.len(),
    ensures
        unique_sum(order.take(i), weight) <= unique_sum(order.take(j), weight),
    decreases j - i,
{
    if i < j {
        lemma_unique_sum_prefix(order, weight, i, j - 1);
        assert(order.take(j).drop_last() =~= order.take(j - 1));
    }
}

} // verus!
