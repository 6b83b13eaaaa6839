//! The model of a merge: an ordered list of registries is reduced, source
//! by source, to one registry that notes which sources hold which chunk.

use crate::registry::{unique_sum, ChunkView, RegistryView};
use vstd::prelude::*;

verus! {

/// The entry `c` once the source `index` is noted as holding the chunk.
pub open spec fn noted(c: ChunkView, index: i64) -> ChunkView {
    ChunkView { seen_in: c.seen_in.push(index), ..c }
}

/// The entry `c` as it enters the merged registry from the source `index`,
/// the first to hold the chunk.
pub open spec fn adopted(c: ChunkView, index: i64) -> ChunkView {
    noted(ChunkView { first_seen_in: index, ..c }, index)
}

/// The entry of `h` once the source `src`, of index `index`, has been merged
/// into `acc`.
pub open spec fn absorbed_entry(acc: RegistryView, src: RegistryView, index: i64, h: u64) -> ChunkView {
    if acc.chunks.contains_key(h) {
        if src.chunks.contains_key(h) {
            noted(acc.chunks[h], index)
        } else {
            acc.chunks[h]
        }
    } else {
        adopted(src.chunks[h], index)
    }
}

/// The registry `acc` once the source `src`, of index `index`, has been
/// merged into it: the bytes are added, the order is appended, a chunk that
/// `acc` did not hold enters with `index` as its first source, and `index`
/// is noted once on every chunk that `src` holds.
pub open spec fn absorb(acc: RegistryView, src: RegistryView, index: i64) -> RegistryView {
    RegistryView {
        total: acc.total + src.total,
        order: acc.order + src.order,
        chunks: Map::new(
            |h: u64| acc.chunks.contains_key(h) || src.chunks.contains_key(h),
            |h: u64| absorbed_entry(acc, src, index, h),
        ),
    }
}

/// The merge of `sources`, taken in the order of the list.
pub open spec fn merged(sources: Seq<RegistryView>) -> RegistryView
    decreases sources.len(),
{
    if sources.len() == 0 {
        RegistryView::empty()
    } else {
        absorb(merged(sources.drop_last()), sources.last(), (sources.len() - 1) as i64)
    }
}

/// The bytes counted by all of `sources`.
pub open spec fn sum_totals(sources: Seq<RegistryView>) -> nat
    decreases sources.len(),
{
    if sources.len() == 0 {
        0
    } else {
        sum_totals(sources.drop_last()) + sources.last().total
    }
}

/// The orders of `sources`, one after the other.
pub open spec fn joined_orders(sources: Seq<RegistryView>) -> Seq<u64>
    decreases sources.len(),
{
    if sources.len() == 0 {
        Seq::empty()
    } else {
        joined_orders(sources.drop_last()) + sources.last().order
    }
}

/// The indices of the sources that hold the chunk of hash `h`, ascending.
pub open spec fn holders(sources: Seq<RegistryView>, h: u64) -> Seq<i64>
    decreases sources.len(),
{
    if sources.len() == 0 {
        Seq::empty()
    } else if sources.last().chunks.contains_key(h) {
        holders(sources.drop_last(), h).push((sources.len() - 1) as i64)
    } else {
        holders(sources.drop_last(), h)
    }
}

/// Whether every source of the list is sound.
pub open spec fn all_sound(sources: Seq<RegistryView>) -> bool {
    forall|i: int| 0 <= i < sources.len() ==> (#[trigger] sources[i]).sound()
}

/// The part of `src` that its first `j` chunks make up, with all its bytes.
pub open spec fn upto(src: RegistryView, j: int) -> RegistryView {
    RegistryView {
        total: src.total,
        order: src.order.take(j),
        chunks: src.chunks.restrict(src.order.take(j).to_set()),
    }
}

/// Whether every entry of `acc` was last noted by a source below `index`.
pub open spec fn noted_below(acc: RegistryView, index: int) -> bool {
    forall|h: u64|
        acc.chunks.contains_key(h) ==> (#[trigger] acc.chunks[h]).seen_in.len() > 0
            && acc.chunks[h].seen_in.last() < index
}

/// The sum over distinct hashes depends on the weights of the hashes of the
/// order only.
pub proof fn lemma_unique_sum_agree(order: Seq<u64>, one: Map<u64, nat>, other: Map<u64, nat>)
    requires
        forall|h: u64| order.contains(h) ==> one[h] == other[h],
    ensures
        unique_sum(order, one) == unique_sum(order, other),
    decreases order.len(),
{
    if order.len() > 0 {
        let rest = order.drop_last();
        assert(order[order.len() - 1] == order.last());
        assert forall|h: u64| rest.contains(h) implies one[h] == other[h] by {
            let i = choose|i: int| 0 <= i < rest.len() && rest[i] == h;
            assert(order[i] == h);
        }
        lemma_unique_sum_agree(rest, one, other);
    }
}

/// Appending a second order adds no more to the sum over distinct hashes
/// than the second order's own sum, where the two weights agree on the
/// hashes that only the second order has.
pub proof fn lemma_unique_sum_append(
    first: Seq<u64>,
    second: Seq<u64>,
    weight: Map<u64, nat>,
    own: Map<u64, nat>,
)
    requires
        forall|h: u64| second.contains(h) && !first.contains(h) ==> weight[h] == own[h],
    ensures
        unique_sum(first + second, weight) <= unique_sum(first, weight) + unique_sum(second, own),
    decreases second.len(),
{
    if second.len() == 0 {
        assert(first + second =~= first);
    } else {
        let rest = second.drop_last();
        let h = second.last();
        assert(second[second.len() - 1] == h);
        assert forall|x: u64| rest.contains(x) && !first.contains(x) implies weight[x] == own[x] by {
            let i = choose|i: int| 0 <= i < rest.len() && rest[i] == x;
            assert(second[i] == x);
        }
        lemma_unique_sum_append(first, rest, weight, own);
        assert((first + second).drop_last() =~= first + rest);
        assert((first + second).last() == h);
        if rest.contains(h) {
            let i = choose|i: int| 0 <= i < rest.len() && rest[i] == h;
            assert((first + rest)[first.len() + i] == h);
        }
        if !(first + rest).contains(h) {
            if first.contains(h) {
                let i = choose|i: int| 0 <= i < first.len() && first[i] == h;
                assert((first + rest)[i] == h);
            }
        }
    }
}

/// A hash occurs in two orders joined exactly if it occurs in one of them.
pub proof fn lemma_contains_joined(first: Seq<u64>, second: Seq<u64>, h: u64)
    ensures
        (first + second).contains(h) <==> first.contains(h) || second.contains(h),
{
    if first.contains(h) {
        let i = choose|i: int| 0 <= i < first.len() && first[i] == h;
        assert((first + second)[i] == h);
    }
    if second.contains(h) {
        let i = choose|i: int| 0 <= i < second.len() && second[i] == h;
        assert((first + second)[first.len() + i] == h);
    }
    if (first + second).contains(h) {
        let i = choose|i: int| 0 <= i < (first + second).len() && (first + second)[i] == h;
        if i < first.len() {
            assert(first[i] == h);
        } else {
            assert(second[i - first.len()] == h);
        }
    }
}

/// Merging a sound source into a sound registry gives a sound registry,
/// whose distinct chunks are no larger than those of the two together.
pub proof fn lemma_absorb_sound(acc: RegistryView, src: RegistryView, index: i64)
    requires
        acc.sound(),
        src.sound(),
        0 <= index <= usize::MAX,
    ensures
        absorb(acc, src, index).sound(),
        absorb(acc, src, index).unique_size() <= acc.unique_size() + src.unique_size(),
{
    let m = absorb(acc, src, index);
    assert forall|h: u64| m.chunks.contains_key(h) <==> m.order.contains(h) by {
        lemma_contains_joined(acc.order, src.order, h);
    }
    let w = m.chunks.map_values(|c: ChunkView| c.size);
    let wa = acc.chunks.map_values(|c: ChunkView| c.size);
    let ws = src.chunks.map_values(|c: ChunkView| c.size);
    lemma_unique_sum_agree(acc.order, w, wa);
    lemma_unique_sum_append(acc.order, src.order, w, ws);
}

/// A sound source is made up of all its chunks.
pub proof fn lemma_upto_all(src: RegistryView)
    requires
        src.keyed_by_order(),
    ensures
        upto(src, src.order.len() as int) == src,
{
    assert(src.order.take(src.order.len() as int) =~= src.order);
    assert(upto(src, src.order.len() as int).chunks =~= src.chunks);
}

/// Nothing of a source has been merged before its first chunk.
pub proof fn lemma_upto_none(acc: RegistryView, src: RegistryView, index: i64)
    ensures
        absorb(acc, upto(src, 0), index) == (RegistryView {
            total: acc.total + src.total,
            order: acc.order,
            chunks: acc.chunks,
        }),
{
    let m = absorb(acc, upto(src, 0), index);
    assert(src.order.take(0) =~= Seq::empty());
    assert(m.order =~= acc.order);
    assert(m.chunks =~= acc.chunks);
}

/// What merging one more chunk of a source does to the registry `cur` that
/// holds the merge of its first `j` chunks.
pub proof fn lemma_absorb_step(acc: RegistryView, src: RegistryView, index: i64, j: int)
    requires
        src.keyed_by_order(),
        noted_below(acc, index as int),
        0 <= j < src.order.len(),
    ensures
        ({
            let cur = absorb(acc, upto(src, j), index);
            let next = absorb(acc, upto(src, j + 1), index);
            let h = src.order[j];
            &&& src.chunks.contains_key(h)
            &&& next.total == cur.total
            &&& next.order == cur.order.push(h)
            &&& cur.chunks.contains_key(h) ==> cur.chunks[h].seen_in.len() > 0
            &&& next.chunks == if cur.chunks.contains_key(h) {
                if cur.chunks[h].seen_in.last() == index {
                    cur.chunks
                } else {
                    cur.chunks.insert(h, noted(cur.chunks[h], index))
                }
            } else {
                cur.chunks.insert(h, adopted(src.chunks[h], index))
            }
        }),
{
    let cur = absorb(acc, upto(src, j), index);
    let next = absorb(acc, upto(src, j + 1), index);
    let h = src.order[j];
    let before = src.order.take(j);
    let after = src.order.take(j + 1);
    assert(src.order.contains(h));
    assert(after =~= before.push(h));
    assert(next.order =~= cur.order.push(h));
    assert forall|x: u64| after.contains(x) <==> before.contains(x) || x == h by {
        if after.contains(x) {
            let i = choose|i: int| 0 <= i < after.len() && after[i] == x;
            if i < j {
                assert(before[i] == x);
            }
        }
        if before.contains(x) {
            let i = choose|i: int| 0 <= i < before.len() && before[i] == x;
            assert(after[i] == x);
        }
        assert(after[j] == h);
    }
    let target = if cur.chunks.contains_key(h) {
        if cur.chunks[h].seen_in.last() == index {
            cur.chunks
        } else {
            cur.chunks.insert(h, noted(cur.chunks[h], index))
        }
    } else {
        cur.chunks.insert(h, adopted(src.chunks[h], index))
    };
    assert(next.chunks =~= target);
}

/// Every entry of a merge was last noted by one of the sources merged.
pub proof fn lemma_merged_noted_below(sources: Seq<RegistryView>)
    requires
        sources.len() <= i64::MAX,
    ensures
        noted_below(merged(sources), sources.len() as int),
    decreases sources.len(),
{
    if sources.len() > 0 {
        lemma_merged_noted_below(sources.drop_last());
    }
}

/// A merge counts the bytes of all its sources, appends their orders in
/// the order of the list, and is sound where they are.
pub proof fn lemma_merged_shape(sources: Seq<RegistryView>)
    requires
        all_sound(sources),
        sources.len() <= usize::MAX,
        sources.len() <= i64::MAX,
    ensures
        merged(sources).total == sum_totals(sources),
        merged(sources).order == joined_orders(sources),
        merged(sources).sound(),
    decreases sources.len(),
{
    if sources.len() == 0 {
        assert(RegistryView::empty().chunks.map_values(|c: ChunkView| c.size) =~= Map::empty());
    } else {
        let rest = sources.drop_last();
        assert forall|i: int| 0 <= i < rest.len() implies (#[trigger] rest[i]).sound() by {
            assert(rest[i] == sources[i]);
        }
        lemma_merged_shape(rest);
        assert(sources.last() == sources[sources.len() - 1]);
        lemma_absorb_sound(merged(rest), sources.last(), (sources.len() - 1) as i64);
    }
}

/// Merge totals: a merge counts exactly the bytes that its sources count,
/// and its distinct chunks together are no larger than that.
pub proof fn lemma_merge_totals(sources: Seq<RegistryView>)
    requires
        all_sound(sources),
        sources.len() <= usize::MAX,
        sources.len() <= i64::MAX,
    ensures
        merged(sources).total == sum_totals(sources),
        merged(sources).unique_size() <= merged(sources).total,
{
    lemma_merged_shape(sources);
}

/// Merging one registry alone changes neither the bytes counted nor the
/// size of the distinct chunks, nor the order.
pub proof fn lemma_merge_single(r: RegistryView)
    requires
        r.sound(),
    ensures
        merged(seq![r]).total == r.total,
        merged(seq![r]).order == r.order,
        merged(seq![r]).unique_size() == r.unique_size(),
        merged(seq![r]).unique_compressed() == r.unique_compressed(),
{
    let one = seq![r];
    let m = merged(one);
    assert(one.drop_last() =~= Seq::empty());
    assert(one.last() == r);
    assert(merged(one.drop_last()) == RegistryView::empty());
    assert(m.order =~= r.order);
    lemma_unique_sum_agree(
        r.order,
        m.chunks.map_values(|c: ChunkView| c.size),
        r.chunks.map_values(|c: ChunkView| c.size),
    );
    lemma_unique_sum_agree(
        r.order,
        m.chunks.map_values(|c: ChunkView| c.compressed),
        r.chunks.map_values(|c: ChunkView| c.compressed),
    );
}

/// The holders of a hash are the indices of the sources that hold it, each
/// once and in ascending order.
pub proof fn lemma_holders(sources: Seq<RegistryView>, h: u64)
    requires
        sources.len() <= i64::MAX,
    ensures
        forall|k: int|
            0 <= k < holders(sources, h).len() ==> 0 <= (#[trigger] holders(sources, h)[k])
                < sources.len() && sources[holders(sources, h)[k] as int].chunks.contains_key(h),
        forall|k: int, l: int|
            0 <= k < l < holders(sources, h).len() ==> holders(sources, h)[k] < holders(
                sources,
                h,
            )[l],
        forall|i: int|
            0 <= i < sources.len() && (#[trigger] sources[i]).chunks.contains_key(h) ==> holders(
                sources,
                h,
            ).contains(i as i64),
    decreases sources.len(),
{
    if sources.len() > 0 {
        let rest = sources.drop_last();
        let hs = holders(sources, h);
        let hr = holders(rest, h);
        lemma_holders(rest, h);
        assert forall|k: int| 0 <= k < hs.len() implies 0 <= (#[trigger] hs[k]) < sources.len()
            && sources[hs[k] as int].chunks.contains_key(h) by {
            if k < hr.len() {
                assert(hs[k] == hr[k]);
                assert(rest[hr[k] as int] == sources[hr[k] as int]);
            }
        }
        assert forall|k: int, l: int| 0 <= k < l < hs.len() implies hs[k] < hs[l] by {
            assert(hs[k] == hr[k]);
            if l < hr.len() {
                assert(hs[l] == hr[l]);
            }
        }
        assert forall|i: int|
            0 <= i < sources.len() && (#[trigger] sources[i]).chunks.contains_key(
                h,
            ) implies hs.contains(i as i64) by {
            if i < rest.len() {
                assert(rest[i] == sources[i]);
                assert(hr.contains(i as i64));
                let k = choose|k: int| 0 <= k < hr.len() && hr[k] == i as i64;
                assert(hs[k] == i as i64);
            } else {
                assert(hs[hs.len() - 1] == i as i64);
            }
        }
    }
}

/// Determinism of first-seen: the entries of a merge are fixed by the list
/// of sources and its order. A hash has an entry exactly if a source holds
/// it; the entry has the sizes and bytes of the entry in the first source
/// that holds it, the index of that source as its first-seen index, and, after
/// what that entry had noted before, the indices of all the sources that
/// hold it.
pub proof fn lemma_merged_entry(sources: Seq<RegistryView>, h: u64)
    requires
        sources.len() <= i64::MAX,
    ensures
        merged(sources).chunks.contains_key(h) <==> holders(sources, h).len() > 0,
        holders(sources, h).len() > 0 ==> {
            let first = holders(sources, h)[0];
            let origin = sources[first as int].chunks[h];
            let entry = merged(sources).chunks[h];
            &&& 0 <= first < sources.len()
            &&& sources[first as int].chunks.contains_key(h)
            &&& entry.first_seen_in == first
            &&& entry.seen_in == origin.seen_in + holders(sources, h)
            &&& entry.size == origin.size
            &&& entry.compressed == origin.compressed
            &&& entry.data == origin.data
        },
    decreases sources.len(),
{
    if sources.len() > 0 {
        let rest = sources.drop_last();
        let last = sources.last();
        let index = (sources.len() - 1) as i64;
        lemma_merged_entry(rest, h);
        lemma_holders(sources, h);
        let hs = holders(sources, h);
        let hr = holders(rest, h);
        if hr.len() > 0 {
            assert(hs[0] == hr[0]);
            assert(rest[hr[0] as int] == sources[hr[0] as int]);
            let origin = sources[hr[0] as int].chunks[h];
            if last.chunks.contains_key(h) {
                assert(origin.seen_in + hr.push(index) =~= (origin.seen_in + hr).push(index));
            }
        } else if last.chunks.contains_key(h) {
            assert(hs =~= seq![index]);
            assert(last == sources[index as int]);
            assert(last.chunks[h].seen_in + seq![index] =~= last.chunks[h].seen_in.push(index));
        }
    }
}

} // verus!
