//! The gear rolling hash: its mathematical model and the call into the
//! `gearhash` crate that searches a block of bytes for the next match.

use vstd::arithmetic::div_mod::{
    lemma_fundamental_div_mod, lemma_mod_multiples_basic, lemma_mod_multiples_vanish,
};
use vstd::arithmetic::power2::{lemma2_to64_rest, lemma_pow2_unfold, pow2};
use vstd::prelude::*;

verus! {

/// The entry of `gearhash::DEFAULT_TABLE` for the byte `b`: one of 256 fixed
/// 64-bit constants.
pub uninterp spec fn gear_entry(b: u8) -> u64;

/// Two to the power 64, the modulus of the hash arithmetic.
pub open spec fn word_modulus() -> int {
    0x1_0000_0000_0000_0000
}

/// One step of the gear hash: the state is shifted left by one bit and the
/// table entry of the byte is added, both in 64-bit wrapping arithmetic.
pub open spec fn gear_step(h: u64, b: u8) -> u64 {
    ((2 * h + gear_entry(b)) % word_modulus()) as u64
}

/// The hash state after the bytes of `s` have been fed, in order, to a hasher
/// whose state was `h`.
pub open spec fn gear_roll(h: u64, s: Seq<u8>) -> u64
    decreases s.len(),
{
    if s.len() == 0 {
        h
    } else {
        gear_step(gear_roll(h, s.drop_last()), s.last())
    }
}

/// Whether the hash state matches `mask` once the first `n` bytes of `s` have
/// been fed to a hasher whose state was `h`.
pub open spec fn gear_hit(h: u64, s: Seq<u8>, mask: u64, n: int) -> bool {
    gear_roll(h, s.take(n)) & mask == 0
}

/// What a search for the next match found: the number of bytes consumed up to
/// and including the matching byte, if any, and the hash state afterwards.
pub struct GearScan {
    pub matched: Option<usize>,
    pub hash: u64,
}

/// What `gear_next_match` finds in `s` from state `h`: the least count of
/// bytes after which the state matches `mask`, with the state at that point,
/// or no match and the state after all of `s`.
pub open spec fn gear_scan_result(h: u64, s: Seq<u8>, mask: u64, r: GearScan) -> bool {
    match r.matched {
        Some(n) => {
            &&& 1 <= n <= s.len()
            &&& gear_hit(h, s, mask, n as int)
            &&& forall|k: int| 1 <= k < n ==> !#[trigger] gear_hit(h, s, mask, k)
            &&& r.hash == gear_roll(h, s.take(n as int))
        },
        None => {
            &&& forall|k: int| 1 <= k <= s.len() ==> !#[trigger] gear_hit(h, s, mask, k)
            &&& r.hash == gear_roll(h, s)
        },
    }
}

/// Calls `gearhash::Hasher::next_match` on a hasher over the default table
/// whose state is set to `hash`.
///
/// The contract restates the crate's scalar search: byte by byte the state
/// becomes `(state << 1).wrapping_add(DEFAULT_TABLE[byte])`, and the search
/// stops after the first byte at which `state & mask == 0`, returning the
/// count of bytes consumed. The vectorised searches of the crate return the
/// same count and leave the same state. The second clause spells the step
/// out for a block of one byte.
#[verifier::external_body]
pub(crate) fn gear_next_match(hash: u64, buf: &[u8], mask: u64) -> (r: GearScan)
    ensures
        gear_scan_result(hash, buf@, mask, r),
        buf@.len() == 1 ==> r.hash == ((2 * hash + gear_entry(buf@[0])) % word_modulus()) as u64,
{
    let mut hasher = gearhash::Hasher::default();
    hasher.set_hash(hash);
    let matched = hasher.next_match(buf, mask);
    GearScan { matched, hash: hasher.get_hash() }
}

/// Feeding `a` and then `b` leaves the state that feeding `a + b` leaves.
pub proof fn lemma_gear_roll_concat(h: u64, a: Seq<u8>, b: Seq<u8>)
    ensures
        gear_roll(h, a + b) == gear_roll(gear_roll(h, a), b),
    decreases b.len(),
{
    if b.len() == 0 {
        assert(a + b =~= a);
    } else {
        lemma_gear_roll_concat(h, a, b.drop_last());
        assert((a + b).drop_last() =~= a + b.drop_last());
        assert((a + b).last() == b.last());
    }
}

/// The number of bytes after which the hash no longer depends on the state
/// it started from: each step shifts the state by one bit, and it has 64.
pub open spec fn gear_window() -> nat {
    64
}

/// One step doubles the difference of two states, modulo two to the 64.
proof fn lemma_gear_step_difference(a: u64, b: u64, byte: u8, x: int)
    requires
        (a - b - x) % word_modulus() == 0,
    ensures
        (gear_step(a, byte) - gear_step(b, byte) - 2 * x) % word_modulus() == 0,
{
    let m = word_modulus();
    let e = gear_entry(byte) as int;
    let q = (a - b - x) / m;
    let qa = (2 * a + e) / m;
    let qb = (2 * b + e) / m;
    lemma_fundamental_div_mod(a - b - x, m);
    lemma_fundamental_div_mod(2 * a + e, m);
    lemma_fundamental_div_mod(2 * b + e, m);
    let t = 2 * q - qa + qb;
    assert(gear_step(a, byte) - gear_step(b, byte) - 2 * x == t * m) by (nonlinear_arith)
        requires
            a - b - x == m * q,
            2 * a + e == m * qa + gear_step(a, byte),
            2 * b + e == m * qb + gear_step(b, byte),
            t == 2 * q - qa + qb,
    ;
    lemma_mod_multiples_basic(t, m);
}

/// After `k` bytes the difference of two states has been doubled `k` times,
/// modulo two to the 64.
proof fn lemma_gear_roll_difference(h1: u64, h2: u64, w: Seq<u8>)
    ensures
        (gear_roll(h1, w) - gear_roll(h2, w) - (h1 - h2) * pow2(w.len())) % word_modulus() == 0,
    decreases w.len(),
{
    if w.len() == 0 {
        vstd::arithmetic::power2::lemma2_to64();
        assert((h1 - h2) * pow2(0) == h1 - h2) by (nonlinear_arith)
            requires
                pow2(0) == 1,
        ;
    } else {
        let rest = w.drop_last();
        lemma_gear_roll_difference(h1, h2, rest);
        let x = (h1 - h2) * pow2(rest.len());
        lemma_gear_step_difference(gear_roll(h1, rest), gear_roll(h2, rest), w.last(), x);
        lemma_pow2_unfold(w.len());
        assert(2 * x == (h1 - h2) * pow2(w.len())) by (nonlinear_arith)
            requires
                x == (h1 - h2) * pow2(rest.len()),
                pow2(w.len()) == 2 * pow2(rest.len()),
        ;
    }
}

/// Locality of the rolling hash: once a whole window of bytes has been
/// fed, the state depends on those bytes only, not on the state before.
pub proof fn lemma_gear_window(h1: u64, h2: u64, w: Seq<u8>)
    requires
        w.len() >= gear_window(),
    ensures
        gear_roll(h1, w) == gear_roll(h2, w),
{
    let m = word_modulus();
    let cut = w.len() - 64;
    let head = w.take(cut);
    let tail = w.skip(cut);
    assert(head + tail =~= w);
    lemma_gear_roll_concat(h1, head, tail);
    lemma_gear_roll_concat(h2, head, tail);
    let a = gear_roll(h1, head);
    let b = gear_roll(h2, head);
    lemma_gear_roll_difference(a, b, tail);
    lemma2_to64_rest();
    let d = gear_roll(a, tail) - gear_roll(b, tail);
    assert(pow2(64) == m);
    assert((a - b) * pow2(64) == m * (a - b)) by (nonlinear_arith)
        requires
            pow2(64) == m,
    ;
    lemma_mod_multiples_vanish(-(a - b), d, m);
    assert(m * (-(a - b)) + d == d - (a - b) * pow2(64)) by (nonlinear_arith)
        requires
            (a - b) * pow2(64) == m * (a - b),
    ;
    assert(d % m == 0);
    lemma_fundamental_div_mod(d, m);
    let q = d / m;
    assert(q == 0) by (nonlinear_arith)
        requires
            d == m * q,
            -m < d < m,
            m > 0,
    ;
}

} // verus!
