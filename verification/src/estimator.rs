//! The unique-byte estimate: chunks of any number of sources are observed
//! one by one, and the bytes of a chunk count when its hash is new.

use std::collections::HashMap;
use std::collections::HashSet;
use vstd::prelude::*;
use vstd::std_specs::hash::group_hash_axioms;

verus! {

broadcast use group_hash_axioms;

/// A 256-bit content hash, in two halves.
#[derive(Clone, Copy, Debug, PartialEq, Eq, Structural)]
pub struct Digest {
    pub high: u128,
    pub low: u128,
}

/// What an estimate has observed.
pub struct EstimateView {
    /// The hashes observed.
    pub seen: Set<Digest>,
    /// The bytes of the chunks whose hash was new when they were observed.
    pub unique_bytes: nat,
}

impl EstimateView {
    /// The estimate that has observed nothing.
    pub open spec fn empty() -> EstimateView {
        EstimateView { seen: Set::empty(), unique_bytes: 0 }
    }

    /// The estimate after a chunk of `len` bytes and hash `hash`.
    pub open spec fn observe(self, hash: Digest, len: nat) -> EstimateView {
        EstimateView {
            seen: self.seen.insert(hash),
            unique_bytes: if self.seen.contains(hash) {
                self.unique_bytes
            } else {
                self.unique_bytes + len
            },
        }
    }
}

/// The estimate after the chunks of `chunks`, each given by its hash and its
/// length, in order.
pub open spec fn estimate_of(chunks: Seq<(Digest, nat)>) -> EstimateView
    decreases chunks.len(),
{
    if chunks.len() == 0 {
        EstimateView::empty()
    } else {
        estimate_of(chunks.drop_last()).observe(chunks.last().0, chunks.last().1)
    }
}

/// The running estimate of the unique bytes of all sources.
pub struct UniqueBytes {
    seen: HashMap<u128, HashSet<u128>>,
    unique_bytes: u64,
}

impl View for UniqueBytes {
    type V = EstimateView;

    closed spec fn view(&self) -> EstimateView {
        EstimateView {
            seen: Set::new(
                |d: Digest| self.seen@.contains_key(d.high) && self.seen@[d.high]@.contains(d.low),
            ),
            unique_bytes: self.unique_bytes as nat,
        }
    }
}

impl UniqueBytes {
    /// An estimate that has observed nothing.
    pub fn new() -> (e: UniqueBytes)
        ensures
            e@ == EstimateView::empty(),
    {
        let e = UniqueBytes { seen: HashMap::new(), unique_bytes: 0 };
        assert(e@.seen =~= Set::empty());
        e
    }

    /// Whether a chunk of hash `hash` has been observed.
    pub fn has_seen(&self, hash: Digest) -> (b: bool)
        ensures
            b == self@.seen.contains(hash),
    {
        match self.seen.get(&hash.high) {
            Some(lows) => lows.contains(&hash.low),
            None => false,
        }
    }

    /// Observes one chunk: if its hash is new, its bytes count. Says whether
    /// the hash was new.
    pub fn observe(&mut self, hash: Digest, len: u64) -> (fresh: bool)
        requires
            old(self)@.observe(hash, len as nat).unique_bytes <= u64::MAX,
        ensures
            fresh == !old(self)@.seen.contains(hash),
            final(self)@ == old(self)@.observe(hash, len as nat),
    {
        let ghost before = self.seen@;
        let mut lows = match self.seen.remove(&hash.high) {
            Some(lows) => lows,
            None => HashSet::new(),
        };
        let ghost held = lows@;
        let fresh = lows.insert(hash.low);
        self.seen.insert(hash.high, lows);
        if fresh {
            self.unique_bytes = self.unique_bytes + len;
        }
        proof {
            assert(before.contains_key(hash.high) ==> before[hash.high]@ == held);
            assert(!before.contains_key(hash.high) ==> held == Set::<u128>::empty());
            assert(self.seen@ =~= before.insert(hash.high, lows));
            assert(self@.seen =~= old(self)@.seen.insert(hash)) by {
                assert forall|d: Digest| self@.seen.contains(d) <==> old(self)@.seen.insert(
                    hash,
                ).contains(d) by {
                    if d.high == hash.high {
                        assert(self.seen@[d.high]@ == held.insert(hash.low));
                        if d.low != hash.low {
                            assert(d != hash);
                        }
                    } else {
                        assert(d != hash);
                    }
                }
            }
        }
        fresh
    }

    /// The bytes of the chunks whose hash was new when they were observed.
    pub fn unique_bytes(&self) -> (n: u64)
        ensures
            n == self@.unique_bytes,
    {
        self.unique_bytes
    }
}

/// The estimate never exceeds the bytes observed.
pub proof fn lemma_estimate_bounded(chunks: Seq<(Digest, nat)>)
    ensures
        estimate_of(chunks).unique_bytes <= observed_bytes(chunks),
        forall|d: Digest|
            estimate_of(chunks).seen.contains(d) <==> exists|i: int|
                0 <= i < chunks.len() && (#[trigger] chunks[i]).0 == d,
    decreases chunks.len(),
{
    if chunks.len() > 0 {
        let rest = chunks.drop_last();
        lemma_estimate_bounded(rest);
        assert forall|d: Digest|
            estimate_of(chunks).seen.contains(d) <==> exists|i: int|
                0 <= i < chunks.len() && (#[trigger] chunks[i]).0 == d by {
            if estimate_of(chunks).seen.contains(d) {
                if estimate_of(rest).seen.contains(d) {
                    let i = choose|i: int| 0 <= i < rest.len() && (#[trigger] rest[i]).0 == d;
                    assert(chunks[i].0 == d);
                } else {
                    assert(chunks[chunks.len() - 1].0 == d);
                }
            }
            if exists|i: int| 0 <= i < chunks.len() && (#[trigger] chunks[i]).0 == d {
                let i = choose|i: int| 0 <= i < chunks.len() && (#[trigger] chunks[i]).0 == d;
                if i < rest.len() {
                    assert(rest[i].0 == d);
                }
            }
        }
    }
}

/// The bytes of all the chunks of `chunks`.
pub open spec fn observed_bytes(chunks: Seq<(Digest, nat)>) -> nat
    decreases chunks.len(),
{
    if chunks.len() == 0 {
        0
    } else {
        observed_bytes(chunks.drop_last()) + chunks.last().1
    }
}

} // verus!
