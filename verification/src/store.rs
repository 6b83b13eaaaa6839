//! The chunk registry of one source, or of several sources merged.

use crate::digest::{content_hash, lz4_accepts, lz4_block, xxh3_64_of};
use crate::merge::{
    absorb, adopted, all_sound, lemma_absorb_sound, lemma_absorb_step, lemma_merged_noted_below,
    lemma_merged_shape, lemma_upto_all, lemma_upto_none, merged, noted, noted_below, sum_totals,
    upto,
};
use crate::registry::{
    fresh_chunk, kept, lemma_record_sound, lemma_unique_sum_prefix, unique_sum, ChunkView,
    RegistryView,
};
use std::collections::HashMap;
use std::collections::HashSet;
use vstd::prelude::*;
use vstd::slice::slice_to_vec;
use vstd::std_specs::hash::group_hash_axioms;

verus! {

broadcast use group_hash_axioms;

/// One distinct chunk of a registry.
#[derive(Debug, Clone)]
pub struct Chunk {
    size: usize,
    compressed: usize,
    seen_in: Vec<i64>,
    first_seen_in: i64,
    data: Option<Vec<u8>>,
}

/// The bytes that a chunk keeps, as a sequence.
pub open spec fn kept_bytes(data: Option<Vec<u8>>) -> Option<Seq<u8>> {
    match data {
        Some(bytes) => Some(bytes@),
        None => None,
    }
}

impl View for Chunk {
    type V = ChunkView;

    closed spec fn view(&self) -> ChunkView {
        ChunkView {
            size: self.size as nat,
            compressed: self.compressed as nat,
            seen_in: self.seen_in@,
            first_seen_in: self.first_seen_in,
            data: kept_bytes(self.data),
        }
    }
}

impl Chunk {
    /// A chunk that no merge has seen yet.
    pub fn new(size: usize, compressed: usize, data: Option<Vec<u8>>) -> (c: Chunk)
        ensures
            c@ == fresh_chunk(size as nat, compressed as nat, kept_bytes(data)),
    {
        Chunk { size, compressed, seen_in: Vec::new(), first_seen_in: 0, data }
    }

    /// A chunk of which every part is given.
    pub fn from_parts(
        size: usize,
        compressed: usize,
        seen_in: Vec<i64>,
        first_seen_in: i64,
        data: Option<Vec<u8>>,
    ) -> (c: Chunk)
        ensures
            c@ == (ChunkView {
                size: size as nat,
                compressed: compressed as nat,
                seen_in: seen_in@,
                first_seen_in,
                data: kept_bytes(data),
            }),
    {
        Chunk { size, compressed, seen_in, first_seen_in, data }
    }

    /// Byte length of the chunk.
    pub fn size(&self) -> (n: usize)
        ensures
            n == self@.size,
    {
        self.size
    }

    /// Length of the chunk after block compression on its own.
    pub fn compressed_size(&self) -> (n: usize)
        ensures
            n == self@.compressed,
    {
        self.compressed
    }

    /// Index of the first source that holds the chunk.
    pub fn first_seen_in(&self) -> (i: i64)
        ensures
            i == self@.first_seen_in,
    {
        self.first_seen_in
    }

    /// Indices of the sources that hold the chunk.
    pub fn seen_in(&self) -> (v: &Vec<i64>)
        ensures
            v@ == self@.seen_in,
    {
        &self.seen_in
    }

    /// The bytes of the chunk, where they are kept.
    pub fn data(&self) -> (d: &Option<Vec<u8>>)
        ensures
            kept_bytes(*d) == self@.data,
    {
        &self.data
    }

    /// A copy of the chunk.
    pub fn duplicate(&self) -> (c: Chunk)
        ensures
            c@ == self@,
    {
        let data = match &self.data {
            Some(bytes) => Some(slice_to_vec(bytes.as_slice())),
            None => None,
        };
        Chunk {
            size: self.size,
            compressed: self.compressed,
            seen_in: slice_to_vec(self.seen_in.as_slice()),
            first_seen_in: self.first_seen_in,
            data,
        }
    }
}

/// The registry of chunks of one source, or of several sources merged.
#[derive(Debug)]
pub struct ChunkStore {
    total: usize,
    order: Vec<u64>,
    chunks: HashMap<u64, Chunk>,
    store_data: bool,
}

impl View for ChunkStore {
    type V = RegistryView;

    closed spec fn view(&self) -> RegistryView {
        RegistryView {
            total: self.total as nat,
            order: self.order@,
            chunks: self.chunks@.map_values(|c: Chunk| c@),
        }
    }
}

impl ChunkStore {
    /// Whether the registry keeps the bytes of the chunks added to it.
    pub closed spec fn keeps_data(&self) -> bool {
        self.store_data
    }

    /// The invariant of every registry: see `RegistryView::sound`.
    pub open spec fn wf(&self) -> bool {
        self@.sound()
    }

    /// An empty registry.
    pub fn new(store_data: bool) -> (s: ChunkStore)
        ensures
            s.wf(),
            s@ == RegistryView::empty(),
            s.keeps_data() == store_data,
    {
        let s = ChunkStore { total: 0, order: Vec::new(), chunks: HashMap::new(), store_data };
        assert(s@.chunks =~= Map::empty());
        s
    }

    /// Records one chunk of which the hash, the two sizes and the bytes to
    /// keep are given.
    pub fn record(&mut self, hash: u64, size: usize, compressed: usize, data: Option<Vec<u8>>)
        requires
            old(self).wf(),
            old(self)@.total + size <= usize::MAX,
        ensures
            final(self).wf(),
            final(self)@ == old(self)@.record(
                hash,
                fresh_chunk(size as nat, compressed as nat, kept_bytes(data)),
            ),
            final(self).keeps_data() == old(self).keeps_data(),
    {
        proof {
            lemma_record_sound(
                self@,
                hash,
                fresh_chunk(size as nat, compressed as nat, kept_bytes(data)),
            );
        }
        self.total = self.total + size;
        self.order.push(hash);
        if !self.chunks.contains_key(&hash) {
            let entry = Chunk::new(size, compressed, data);
            self.chunks.insert(hash, entry);
            assert(self@.chunks =~= old(self)@.chunks.insert(hash, entry@));
        }
    }

    /// Adds one chunk: hashes it, compresses it on its own, counts its bytes,
    /// appends its hash to the order and stores its entry unless the hash
    /// already has one.
    pub fn add(&mut self, chunk: &[u8])
        requires
            old(self).wf(),
            old(self)@.total + chunk@.len() <= usize::MAX,
            lz4_accepts(chunk@.len()),
        ensures
            final(self).wf(),
            final(self).keeps_data() == old(self).keeps_data(),
            ({
                let hash = xxh3_64_of(chunk@);
                let packed = final(self)@.chunks[hash].compressed;
                &&& final(self)@ == old(self)@.record(
                    hash,
                    fresh_chunk(chunk@.len(), packed, kept(chunk@, old(self).keeps_data())),
                )
                &&& !old(self)@.chunks.contains_key(hash) ==> packed <= 20 + chunk@.len() * 110 / 100
            }),
    {
        let hash = content_hash(chunk);
        let block = lz4_block(chunk);
        let data = if self.store_data {
            Some(slice_to_vec(chunk))
        } else {
            None
        };
        self.record(hash, chunk.len(), block.len(), data);
    }

    /// Every byte read from the source, counted once for each time it was
    /// read.
    pub fn total_bytes(&self) -> (n: usize)
        ensures
            n == self@.total,
    {
        self.total
    }

    /// The hashes of the chunks in the order of emission.
    pub fn order(&self) -> (v: &Vec<u64>)
        ensures
            v@ == self@.order,
    {
        &self.order
    }

    /// The statistics of the registry: all the bytes counted, the size of
    /// the distinct chunks together, and their compressed size together.
    /// There are none where the last of the three does not fit in `usize`.
    pub fn try_stats(&self) -> (r: Option<(usize, usize, usize)>)
        requires
            self.wf(),
        ensures
            match r {
                Some(t) => t.0 == self@.total && t.1 == self@.unique_size() && t.2
                    == self@.unique_compressed(),
                None => self@.unique_compressed() > usize::MAX,
            },
    {
        let ghost sizes = self@.chunks.map_values(|c: ChunkView| c.size);
        let ghost packed = self@.packed();
        let mut seen: HashSet<u64> = HashSet::new();
        let mut size_sum: usize = 0;
        let mut packed_sum: usize = 0;
        let mut i: usize = 0;
        assert(self.order@.take(0) =~= Seq::empty());
        while i < self.order.len()
            invariant
                i <= self.order@.len(),
                self.wf(),
                sizes == self@.chunks.map_values(|c: ChunkView| c.size),
                packed == self@.packed(),
                seen@ == self.order@.take(i as int).to_set(),
                size_sum == unique_sum(self.order@.take(i as int), sizes),
                packed_sum == unique_sum(self.order@.take(i as int), packed),
            decreases self.order@.len() - i,
        {
            let h = self.order[i];
            proof {
                let next = self.order@.take(i + 1);
                assert(next.drop_last() =~= self.order@.take(i as int));
                assert(next.last() == h);
                assert(self.order@.take(i as int).push(h) =~= next);
                assert(next.to_set() =~= self.order@.take(i as int).to_set().insert(h)) by {
                    assert forall|x: u64| next.to_set().contains(x) <==> self.order@.take(
                        i as int,
                    ).to_set().insert(h).contains(x) by {
                        let before = self.order@.take(i as int);
                        if next.contains(x) {
                            let k = choose|k: int| 0 <= k < next.len() && next[k] == x;
                            if k < i {
                                assert(before[k] == x);
                            }
                        }
                        if before.contains(x) {
                            let k = choose|k: int| 0 <= k < before.len() && before[k] == x;
                            assert(next[k] == x);
                        }
                        assert(next[i as int] == h);
                    }
                }
                lemma_unique_sum_prefix(self.order@, sizes, i + 1, self.order@.len() as int);
                lemma_unique_sum_prefix(self.order@, packed, i + 1, self.order@.len() as int);
                assert(self.order@.take(self.order@.len() as int) =~= self.order@);
                assert(self.order@.contains(h));
            }
            if seen.insert(h) {
                let entry = self.chunks.get(&h).unwrap();
                size_sum = size_sum + entry.size;
                match packed_sum.checked_add(entry.compressed) {
                    Some(sum) => {
                        packed_sum = sum;
                    },
                    None => {
                        return None;
                    },
                }
            }
            i = i + 1;
        }
        assert(self.order@.take(i as int) =~= self.order@);
        Some((self.total, size_sum, packed_sum))
    }

    /// The statistics of the registry: all the bytes counted, the size of
    /// the distinct chunks together, and their compressed size together.
    pub fn stats(&self) -> (r: (usize, usize, usize))
        requires
            self.wf(),
            self@.unique_compressed() <= usize::MAX,
        ensures
            r.0 == self@.total,
            r.1 == self@.unique_size(),
            r.2 == self@.unique_compressed(),
            r.1 <= r.0,
    {
        self.try_stats().unwrap()
    }

    /// For each chunk of the order, the index of the first source that
    /// holds it.
    pub fn segments(&self) -> (r: Vec<usize>)
        requires
            self.wf(),
        ensures
            r@.len() == self@.order.len(),
            forall|i: int| 0 <= i < r@.len() ==> #[trigger] r@[i] == self@.segments()[i],
    {
        let mut owners: Vec<usize> = Vec::new();
        let mut i: usize = 0;
        while i < self.order.len()
            invariant
                i <= self.order@.len(),
                self.wf(),
                owners@.len() == i,
                forall|k: int| 0 <= k < i ==> #[trigger] owners@[k] == self@.segments()[k],
            decreases self.order@.len() - i,
        {
            let h = self.order[i];
            assert(self.order@.contains(h));
            let entry = self.chunks.get(&h).unwrap();
            owners.push(entry.first_seen_in as usize);
            i = i + 1;
        }
        owners
    }

    /// The entry of each chunk of the order, with its hash.
    pub fn chunks(&self) -> (r: Vec<(u64, Chunk)>)
        requires
            self.wf(),
        ensures
            r@.len() == self@.order.len(),
            forall|i: int|
                0 <= i < r@.len() ==> (#[trigger] r@[i]).0 == self@.listing()[i].0 && r@[i].1@
                    == self@.listing()[i].1,
    {
        let mut listing: Vec<(u64, Chunk)> = Vec::new();
        let mut i: usize = 0;
        while i < self.order.len()
            invariant
                i <= self.order@.len(),
                self.wf(),
                listing@.len() == i,
                forall|k: int|
                    0 <= k < i ==> (#[trigger] listing@[k]).0 == self@.listing()[k].0
                        && listing@[k].1@ == self@.listing()[k].1,
            decreases self.order@.len() - i,
        {
            let h = self.order[i];
            assert(self.order@.contains(h));
            let entry = self.chunks.get(&h).unwrap();
            listing.push((h, entry.duplicate()));
            i = i + 1;
        }
        listing
    }

    /// Merges the registries of `stores`, taken in the order of the slice,
    /// into one registry: see `merged`. The sources are left as they are.
    pub fn merge(stores: &[ChunkStore], store_data: bool) -> (m: ChunkStore)
        requires
            forall|i: int| 0 <= i < stores@.len() ==> (#[trigger] stores@[i]).wf(),
            sum_totals(views_of(stores@)) <= usize::MAX,
            stores@.len() <= i64::MAX,
        ensures
            m.wf(),
            m.keeps_data() == store_data,
            m@ == merged(views_of(stores@)),
    {
        let ghost sources = views_of(stores@);
        let mut m = ChunkStore::new(store_data);
        let mut i: usize = 0;
        assert(sources.take(0) =~= Seq::empty());
        while i < stores.len()
            invariant
                i <= stores@.len(),
                sources == views_of(stores@),
                all_sound(sources),
                sum_totals(sources) <= usize::MAX,
                stores@.len() <= i64::MAX,
                m.store_data == store_data,
                m@ == merged(sources.take(i as int)),
            decreases stores@.len() - i,
        {
            let src = &stores[i];
            let index = i as i64;
            let ghost acc = m@;
            proof {
                assert(sources[i as int] == src@);
                assert(sources.take(i + 1).drop_last() =~= sources.take(i as int));
                assert(sources.take(i + 1).last() == src@);
                lemma_sum_totals_grows(sources, i + 1, sources.len() as int);
                assert(sources.take(sources.len() as int) =~= sources);
                lemma_merged_noted_below(sources.take(i as int));
                assert forall|k: int| 0 <= k < i implies (#[trigger] sources.take(i as int)[k]).sound() by {
                    assert(sources.take(i as int)[k] == sources[k]);
                }
                lemma_merged_shape(sources.take(i as int));
                lemma_upto_none(acc, src@, index);
            }
            m.total = m.total + src.total;
            let mut j: usize = 0;
            assert(m@.chunks =~= acc.chunks);
            while j < src.order.len()
                invariant
                    j <= src.order@.len(),
                    src.wf(),
                    0 <= index < i64::MAX,
                    noted_below(acc, index as int),
                    m.store_data == store_data,
                    m@ == absorb(acc, upto(src@, j as int), index),
                decreases src.order@.len() - j,
            {
                let h = src.order[j];
                let ghost cur = m@;
                let ghost held = m.chunks@;
                proof {
                    lemma_absorb_step(acc, src@, index, j as int);
                }
                m.order.push(h);
                if m.chunks.contains_key(&h) {
                    let found = m.chunks.remove(&h);
                    let mut entry = found.unwrap();
                    let ghost was = entry@;
                    let n = entry.seen_in.len();
                    if entry.seen_in[n - 1] != index {
                        entry.seen_in.push(index);
                        assert(entry@ == noted(was, index));
                    }
                    m.chunks.insert(h, entry);
                    assert(m.chunks@ =~= held.insert(h, entry));
                    assert(m@.chunks =~= cur.chunks.insert(h, entry@));
                    assert(cur.chunks.insert(h, cur.chunks[h]) =~= cur.chunks);
                } else {
                    let found = src.chunks.get(&h);
                    let mut entry = found.unwrap().duplicate();
                    entry.first_seen_in = index;
                    entry.seen_in.push(index);
                    assert(entry@ == adopted(src@.chunks[h], index));
                    m.chunks.insert(h, entry);
                    assert(m@.chunks =~= cur.chunks.insert(h, entry@));
                }
                j = j + 1;
            }
            proof {
                lemma_upto_all(src@);
                lemma_absorb_sound(acc, src@, index);
            }
            i = i + 1;
        }
        proof {
            assert(sources.take(i as int) =~= sources);
            lemma_merged_shape(sources);
        }
        m
    }
}

impl Default for ChunkStore {
    /// An empty registry that keeps no bytes.
    fn default() -> (s: ChunkStore)
        ensures
            s.wf(),
            s@ == RegistryView::empty(),
            !s.keeps_data(),
    {
        ChunkStore::new(false)
    }
}

/// The registries that the stores of `stores` hold.
pub open spec fn views_of(stores: Seq<ChunkStore>) -> Seq<RegistryView> {
    Seq::new(stores.len(), |i: int| stores[i]@)
}

/// A longer prefix of a list of sources counts no fewer bytes.
pub proof fn lemma_sum_totals_grows(sources: Seq<RegistryView>, i: int, j: int)
    requires
        0 <= i <= j <= sources.len(),
    ensures
        sum_totals(sources.take(i)) <= sum_totals(sources.take(j)),
    decreases j - i,
{
    if i < j {
        lemma_sum_totals_grows(sources, i, j - 1);
        assert(sources.take(j).drop_last() =~= sources.take(j - 1));
    }
}

} // verus!
