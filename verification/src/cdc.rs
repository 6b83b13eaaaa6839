//! Content-defined chunking as a function of the bytes of a stream.
//!
//! The chunker is modelled byte by byte: each byte advances the rolling
//! hash and joins the pending chunk, and the pending chunk is cut after a
//! byte where the hash matches the mask and the chunk has its minimum
//! length, or where the chunk has reached its maximum length. The maximum
//! is kept to the byte: no chunk is ever longer. The hash rolls on across
//! the cuts. How the stream is divided into reads plays no part in the
//! model.

use crate::gear::{gear_hit, gear_roll, gear_step, gear_window, lemma_gear_window};
use vstd::prelude::*;

verus! {

/// The parameters of a chunker.
#[derive(Clone, Copy, Debug)]
pub struct Limits {
    /// A position is a candidate boundary where the rolling hash has no bit
    /// in common with the mask.
    pub mask: u64,
    /// No chunk but the last of a stream is shorter than this.
    pub min_len: usize,
    /// No chunk is longer than this.
    pub max_len: usize,
}

impl Limits {
    /// Limits that a chunker accepts: a chunk may hold at least one byte,
    /// the minimum does not exceed the maximum, and a chunk of the maximum
    /// length is one that the block compressor accepts.
    pub open spec fn valid(self) -> bool {
        &&& 1 <= self.max_len
        &&& self.min_len <= self.max_len
        &&& self.max_len * 110 <= usize::MAX
    }

    /// Whether the pending chunk is cut once it has `len` bytes and the
    /// rolling hash is `hash`.
    pub open spec fn cuts(self, hash: u64, len: nat) -> bool {
        (hash & self.mask == 0 && len >= self.min_len) || len >= self.max_len
    }
}

/// The state of a chunker between two bytes.
pub struct ScanState {
    /// The rolling hash over all bytes seen.
    pub hash: u64,
    /// The bytes seen since the last cut.
    pub pending: Seq<u8>,
    /// The chunks cut so far, in order.
    pub emitted: Seq<Seq<u8>>,
}

/// The state of a chunker that has seen nothing.
pub open spec fn scan_start() -> ScanState {
    ScanState { hash: 0, pending: Seq::empty(), emitted: Seq::empty() }
}

/// The state after one more byte.
pub open spec fn scan_step(lim: Limits, st: ScanState, b: u8) -> ScanState {
    let hash = gear_step(st.hash, b);
    let grown = st.pending.push(b);
    if lim.cuts(hash, grown.len()) {
        ScanState { hash, pending: Seq::empty(), emitted: st.emitted.push(grown) }
    } else {
        ScanState { hash, pending: grown, emitted: st.emitted }
    }
}

/// The state after the bytes of `s`, in order.
pub open spec fn scan(lim: Limits, st: ScanState, s: Seq<u8>) -> ScanState
    decreases s.len(),
{
    if s.len() == 0 {
        st
    } else {
        scan_step(lim, scan(lim, st, s.drop_last()), s.last())
    }
}

/// The chunks of a whole stream: those cut while scanning it, then what was
/// pending at its end, which may be empty.
pub open spec fn chunks_of(lim: Limits, s: Seq<u8>) -> Seq<Seq<u8>> {
    let st = scan(lim, scan_start(), s);
    st.emitted.push(st.pending)
}

/// The bytes of a sequence of reads, one after the other.
pub open spec fn joined(reads: Seq<Seq<u8>>) -> Seq<u8>
    decreases reads.len(),
{
    if reads.len() == 0 {
        Seq::empty()
    } else {
        joined(reads.drop_last()) + reads.last()
    }
}

/// The state after the reads of `reads`, each scanned as it comes.
pub open spec fn scan_reads(lim: Limits, st: ScanState, reads: Seq<Seq<u8>>) -> ScanState
    decreases reads.len(),
{
    if reads.len() == 0 {
        st
    } else {
        scan(lim, scan_reads(lim, st, reads.drop_last()), reads.last())
    }
}

/// Scanning `a` and then `b` gives the state that scanning `a + b` gives.
pub proof fn lemma_scan_concat(lim: Limits, st: ScanState, a: Seq<u8>, b: Seq<u8>)
    ensures
        scan(lim, st, a + b) == scan(lim, scan(lim, st, a), b),
    decreases b.len(),
{
    if b.len() == 0 {
        assert(a + b =~= a);
    } else {
        lemma_scan_concat(lim, st, a, b.drop_last());
        assert((a + b).drop_last() =~= a + b.drop_last());
        assert((a + b).last() == b.last());
    }
}

/// Boundary determinism: however a stream is divided into reads, scanning
/// the reads one by one gives the state that scanning the whole stream in
/// one read gives, and so the same chunks.
pub proof fn lemma_reads_do_not_matter(lim: Limits, st: ScanState, reads: Seq<Seq<u8>>)
    ensures
        scan_reads(lim, st, reads) == scan(lim, st, joined(reads)),
    decreases reads.len(),
{
    if reads.len() > 0 {
        lemma_reads_do_not_matter(lim, st, reads.drop_last());
        lemma_scan_concat(lim, st, joined(reads.drop_last()), reads.last());
    }
}

/// Two divisions of the same stream into reads give the same state.
pub proof fn lemma_boundary_determinism(
    lim: Limits,
    st: ScanState,
    one: Seq<Seq<u8>>,
    other: Seq<Seq<u8>>,
)
    requires
        joined(one) == joined(other),
    ensures
        scan_reads(lim, st, one) == scan_reads(lim, st, other),
{
    lemma_reads_do_not_matter(lim, st, one);
    lemma_reads_do_not_matter(lim, st, other);
}

/// Whether the chunks cut so far have a length between the minimum and the
/// maximum, and the pending chunk is shorter than the maximum.
pub open spec fn within_limits(lim: Limits, st: ScanState) -> bool {
    &&& st.pending.len() < lim.max_len
    &&& forall|i: int|
        0 <= i < st.emitted.len() ==> lim.min_len <= (#[trigger] st.emitted[i]).len()
            <= lim.max_len
}

/// Scanning keeps the chunks within the limits.
pub proof fn lemma_scan_within_limits(lim: Limits, st: ScanState, s: Seq<u8>)
    requires
        lim.valid(),
        within_limits(lim, st),
    ensures
        within_limits(lim, scan(lim, st, s)),
    decreases s.len(),
{
    if s.len() > 0 {
        lemma_scan_within_limits(lim, st, s.drop_last());
    }
}

/// Minimum and maximum length: of the chunks of a stream, none is longer
/// than the maximum, and none but the last, which the end of the stream
/// cut, is shorter than the minimum.
pub proof fn lemma_chunk_lengths(lim: Limits, s: Seq<u8>)
    requires
        lim.valid(),
    ensures
        chunks_of(lim, s).len() >= 1,
        chunks_of(lim, s).last().len() < lim.max_len,
        forall|i: int|
            0 <= i < chunks_of(lim, s).len() - 1 ==> lim.min_len <= (#[trigger] chunks_of(
                lim,
                s,
            )[i]).len() <= lim.max_len,
{
    lemma_scan_within_limits(lim, scan_start(), s);
}

/// The chunks cut and the pending chunk hold, in order, what was held
/// before and the bytes scanned since.
pub proof fn lemma_scan_keeps_bytes(lim: Limits, st: ScanState, s: Seq<u8>)
    ensures
        joined(scan(lim, st, s).emitted) + scan(lim, st, s).pending == joined(st.emitted)
            + st.pending + s,
    decreases s.len(),
{
    if s.len() == 0 {
        assert(joined(st.emitted) + st.pending + s =~= joined(st.emitted) + st.pending);
    } else {
        let before = scan(lim, st, s.drop_last());
        let after = scan(lim, st, s);
        lemma_scan_keeps_bytes(lim, st, s.drop_last());
        let grown = before.pending.push(s.last());
        if lim.cuts(after.hash, grown.len()) {
            assert(after.emitted.drop_last() =~= before.emitted);
            assert(joined(after.emitted) + after.pending =~= joined(before.emitted) + grown);
        }
        assert(joined(before.emitted) + grown =~= (joined(before.emitted) + before.pending).push(
            s.last(),
        ));
        assert((joined(st.emitted) + st.pending + s.drop_last()).push(s.last()) =~= joined(
            st.emitted,
        ) + st.pending + s);
    }
}

/// The chunks of a stream, one after the other, are the stream.
pub proof fn lemma_chunks_cover(lim: Limits, s: Seq<u8>)
    ensures
        joined(chunks_of(lim, s)) == s,
{
    let st = scan(lim, scan_start(), s);
    lemma_scan_keeps_bytes(lim, scan_start(), s);
    assert(chunks_of(lim, s).drop_last() =~= st.emitted);
    assert(joined(scan_start().emitted) =~= Seq::<u8>::empty());
    assert(joined(scan_start().emitted) + scan_start().pending + s =~= s);
}

/// The rolling hash of a scan does not depend on where the chunks were cut.
pub proof fn lemma_scan_hash(lim: Limits, st: ScanState, s: Seq<u8>)
    ensures
        scan(lim, st, s).hash == gear_roll(st.hash, s),
    decreases s.len(),
{
    if s.len() > 0 {
        lemma_scan_hash(lim, st, s.drop_last());
    }
}

/// Two scans that agree on the hash and on the pending chunk cut the same
/// chunks from the same bytes, whatever each had cut before.
pub proof fn lemma_scan_in_step(lim: Limits, a: ScanState, b: ScanState, s: Seq<u8>)
    requires
        a.hash == b.hash,
        a.pending == b.pending,
    ensures
        scan(lim, a, s).hash == scan(lim, b, s).hash,
        scan(lim, a, s).pending == scan(lim, b, s).pending,
        scan(lim, a, s).emitted.len() >= a.emitted.len(),
        scan(lim, b, s).emitted.len() >= b.emitted.len(),
        scan(lim, a, s).emitted.take(a.emitted.len() as int) == a.emitted,
        scan(lim, b, s).emitted.take(b.emitted.len() as int) == b.emitted,
        scan(lim, a, s).emitted.skip(a.emitted.len() as int) == scan(lim, b, s).emitted.skip(
            b.emitted.len() as int,
        ),
    decreases s.len(),
{
    if s.len() == 0 {
        assert(a.emitted.take(a.emitted.len() as int) =~= a.emitted);
        assert(b.emitted.take(b.emitted.len() as int) =~= b.emitted);
        assert(a.emitted.skip(a.emitted.len() as int) =~= b.emitted.skip(b.emitted.len() as int));
    } else {
        let rest = s.drop_last();
        lemma_scan_in_step(lim, a, b, rest);
        let pa = scan(lim, a, rest);
        let pb = scan(lim, b, rest);
        let na = scan(lim, a, s);
        let nb = scan(lim, b, s);
        let la = a.emitted.len() as int;
        let lb = b.emitted.len() as int;
        assert(na.emitted.take(la) =~= pa.emitted.take(la));
        assert(nb.emitted.take(lb) =~= pb.emitted.take(lb));
        let grown = pa.pending.push(s.last());
        if lim.cuts(na.hash, grown.len()) {
            assert(na.emitted.skip(la) =~= pa.emitted.skip(la).push(grown));
            assert(nb.emitted.skip(lb) =~= pb.emitted.skip(lb).push(grown));
        } else {
            assert(na.emitted.skip(la) =~= pa.emitted.skip(la));
            assert(nb.emitted.skip(lb) =~= pb.emitted.skip(lb));
        }
    }
}

/// Shift invariance: let two chunkers, in whatever states, scan the same
/// bytes `tail`. If, at least a window into `tail`, both have just cut a
/// chunk at the same place `at` (or hold the same pending chunk there), then
/// from that place on they cut the same chunks and end with the same pending
/// chunk: what came before `tail` no longer shows.
pub proof fn lemma_shift_invariance(lim: Limits, a: ScanState, b: ScanState, tail: Seq<u8>, at: int)
    requires
        gear_window() <= at <= tail.len(),
        scan(lim, a, tail.take(at)).pending == scan(lim, b, tail.take(at)).pending,
    ensures
        ({
            let met_a = scan(lim, a, tail.take(at));
            let met_b = scan(lim, b, tail.take(at));
            let end_a = scan(lim, a, tail);
            let end_b = scan(lim, b, tail);
            &&& end_a.hash == end_b.hash
            &&& end_a.pending == end_b.pending
            &&& end_a.emitted.take(met_a.emitted.len() as int) == met_a.emitted
            &&& end_b.emitted.take(met_b.emitted.len() as int) == met_b.emitted
            &&& end_a.emitted.skip(met_a.emitted.len() as int) == end_b.emitted.skip(
                met_b.emitted.len() as int,
            )
        }),
{
    let head = tail.take(at);
    let rest = tail.skip(at);
    assert(head + rest =~= tail);
    lemma_scan_concat(lim, a, head, rest);
    lemma_scan_concat(lim, b, head, rest);
    lemma_scan_hash(lim, a, head);
    lemma_scan_hash(lim, b, head);
    lemma_gear_window(a.hash, b.hash, head);
    lemma_scan_in_step(lim, scan(lim, a, head), scan(lim, b, head), rest);
}

/// While no position of `s` cuts the pending chunk, scanning `s` only
/// advances the hash and lengthens the pending chunk.
pub proof fn lemma_scan_without_cut(lim: Limits, st: ScanState, s: Seq<u8>)
    requires
        forall|k: int|
            1 <= k <= s.len() ==> !lim.cuts(
                gear_roll(st.hash, #[trigger] s.take(k)),
                (st.pending.len() + k) as nat,
            ),
    ensures
        scan(lim, st, s) == (ScanState {
            hash: gear_roll(st.hash, s),
            pending: st.pending + s,
            emitted: st.emitted,
        }),
    decreases s.len(),
{
    if s.len() == 0 {
        assert(st.pending + s =~= st.pending);
    } else {
        let rest = s.drop_last();
        assert forall|k: int| 1 <= k <= rest.len() implies !lim.cuts(
            gear_roll(st.hash, #[trigger] rest.take(k)),
            (st.pending.len() + k) as nat,
        ) by {
            assert(rest.take(k) =~= s.take(k));
        }
        lemma_scan_without_cut(lim, st, rest);
        assert(s.take(s.len() as int) =~= s);
        assert((st.pending + rest).push(s.last()) =~= st.pending + s);
    }
}

/// The state after the bytes `piece` have joined the pending chunk and the
/// rolling hash has become `hash`: the pending chunk is cut if `hit` holds
/// and it has its minimum length, or if it has its maximum length.
pub open spec fn advanced(lim: Limits, st: ScanState, piece: Seq<u8>, hash: u64, hit: bool) -> ScanState {
    let grown = st.pending + piece;
    if (hit && grown.len() >= lim.min_len) || grown.len() >= lim.max_len {
        ScanState { hash, pending: Seq::empty(), emitted: st.emitted.push(grown) }
    } else {
        ScanState { hash, pending: grown, emitted: st.emitted }
    }
}

/// What scanning does with the bytes that one search for a match consumed:
/// none but the last can cut the pending chunk, and the last cuts it if the
/// search matched there and the chunk has its minimum length, or if the
/// chunk has its maximum length.
pub proof fn lemma_scan_piece(lim: Limits, st: ScanState, window: Seq<u8>, used: int, hit: bool)
    requires
        1 <= used <= window.len(),
        st.pending.len() + window.len() <= lim.max_len,
        forall|k: int| 1 <= k < used ==> !#[trigger] gear_hit(st.hash, window, lim.mask, k),
        gear_hit(st.hash, window, lim.mask, used) == hit,
    ensures
        scan(lim, st, window.take(used)) == advanced(
            lim,
            st,
            window.take(used),
            gear_roll(st.hash, window.take(used)),
            hit,
        ),
{
    let piece = window.take(used);
    let head = piece.drop_last();
    assert forall|k: int| 1 <= k <= head.len() implies !lim.cuts(
        gear_roll(st.hash, #[trigger] head.take(k)),
        (st.pending.len() + k) as nat,
    ) by {
        assert(head.take(k) =~= window.take(k));
        assert(!gear_hit(st.hash, window, lim.mask, k));
    }
    lemma_scan_without_cut(lim, st, head);
    assert((st.pending + head).push(piece.last()) =~= st.pending + piece);
}

} // verus!
