//! Arithmetic of sequence numbers.
//!
//! A ring counts the items it ever accepted and the items it ever handed out. Those
//! counts are unbounded; the ring stores each as a 64-bit counter that wraps, and finds
//! the slot of a count by masking the counter with `capacity - 1`. The lemmas here
//! show that, as long as two counts lie less than 2^64 apart, the wrapped counters give
//! back their exact distance, and that the mask of a wrapped counter is the count
//! modulo the capacity.

use vstd::prelude::*;
use vstd::arithmetic::div_mod::{lemma_fundamental_div_mod, lemma_mod_bound, lemma_mod_mod};
use vstd::arithmetic::power2::{lemma2_to64_rest, lemma_pow2_adds, lemma_pow2_pos, lemma_pow2_strictly_increases, pow2};
use vstd::bits::{lemma_u64_low_bits_mask_is_mod, lemma_u64_pow2_no_overflow, low_bits_mask};

verus! {

/// The number of values a 64-bit counter can hold.
pub open spec fn modulus() -> int {
    0x1_0000_0000_0000_0000
}

/// The 64-bit counter that stands for the unbounded count `count`.
pub open spec fn stamp(count: nat) -> u64 {
    (count as int % modulus()) as u64
}

/// The index of the slot that holds the item with sequence number `count`.
pub open spec fn slot(count: nat, capacity: nat) -> int {
    count as int % capacity as int
}

/// `n` is 2^k for some k below 64.
pub open spec fn is_power_of_two(n: nat) -> bool {
    exists|k: nat| k < 64 && n == #[trigger] pow2(k)
}

/// The smaller of two naturals.
pub open spec fn min_nat(a: nat, b: nat) -> nat {
    if a <= b {
        a
    } else {
        b
    }
}

/// Two counts less than 2^64 apart: the wrapping difference of their counters is
/// their distance.
pub proof fn lemma_stamp_distance(later: nat, earlier: nat)
    requires
        earlier <= later,
        later - earlier < modulus(),
    ensures
        stamp(later).wrapping_sub(stamp(earlier)) == later - earlier,
{
    let m = modulus();
    lemma_fundamental_div_mod(later as int, m);
    lemma_fundamental_div_mod(earlier as int, m);
    lemma_mod_bound(later as int, m);
    lemma_mod_bound(earlier as int, m);
    let ql = later as int / m;
    let qe = earlier as int / m;
    assert(later - earlier == m * (ql - qe) + (later as int % m - earlier as int % m)) by (nonlinear_arith)
        requires
            later == m * ql + later as int % m,
            earlier == m * qe + earlier as int % m,
    ;
    assert(ql - qe == 0 || ql - qe == 1) by (nonlinear_arith)
        requires
            0 <= later - earlier < m,
            later - earlier == m * (ql - qe) + (later as int % m - earlier as int % m),
            0 <= later as int % m < m,
            0 <= earlier as int % m < m,
            m > 0,
    ;
}

/// Adding `n` to a counter with wrap-around gives the counter of the count plus `n`.
pub proof fn lemma_stamp_advance(count: nat, n: nat)
    requires
        n < modulus(),
    ensures
        stamp(count).wrapping_add(n as u64) == stamp(count + n),
{
    let m = modulus();
    lemma_fundamental_div_mod(count as int, m);
    lemma_fundamental_div_mod((count + n) as int, m);
    lemma_mod_bound(count as int, m);
    lemma_mod_bound((count + n) as int, m);
    let q0 = count as int / m;
    let q1 = (count + n) as int / m;
    assert(q1 - q0 == 0 || q1 - q0 == 1) by (nonlinear_arith)
        requires
            count == m * q0 + count as int % m,
            count + n == m * q1 + (count + n) as int % m,
            0 <= n < m,
            0 <= count as int % m < m,
            0 <= (count + n) as int % m < m,
            m > 0,
    ;
    assert(m * q1 == m * q0 + m * (q1 - q0)) by (nonlinear_arith);
}

/// A power of two below 2^64 is positive and divides 2^64.
pub proof fn lemma_power_of_two_bounds(capacity: nat)
    requires
        is_power_of_two(capacity),
    ensures
        0 < capacity < modulus(),
        modulus() % (capacity as int) == 0,
{
    let k = choose|k: nat| k < 64 && capacity == #[trigger] pow2(k);
    lemma_pow2_pos(k);
    lemma_pow2_strictly_increases(k, 64);
    lemma2_to64_rest();
    lemma_pow2_adds(k, (64 - k) as nat);
    lemma_pow2_pos((64 - k) as nat);
    let rest = pow2((64 - k) as nat) as int;
    assert(modulus() == capacity * rest);
    assert((capacity * rest) % (capacity as int) == 0) by (nonlinear_arith)
        requires
            capacity > 0,
    ;
}

/// Masking a counter with `capacity - 1` gives the slot of the count it stands for.
pub proof fn lemma_stamp_slot(count: nat, capacity: nat)
    requires
        is_power_of_two(capacity),
    ensures
        0 <= slot(count, capacity) < capacity,
        (stamp(count) & ((capacity - 1) as u64)) == slot(count, capacity),
{
    let k = choose|k: nat| k < 64 && capacity == #[trigger] pow2(k);
    lemma_power_of_two_bounds(capacity);
    lemma_u64_pow2_no_overflow(k);
    lemma_u64_low_bits_mask_is_mod(stamp(count), k);
    assert(low_bits_mask(k) == capacity - 1);
    lemma_pow2_adds(k, (64 - k) as nat);
    lemma_pow2_pos((64 - k) as nat);
    lemma2_to64_rest();
    lemma_mod_mod(count as int, capacity as int, pow2((64 - k) as nat) as int);
    lemma_mod_bound(count as int, capacity as int);
    lemma_mod_bound(count as int, modulus());
}

/// The slots of `capacity` consecutive counts are pairwise distinct.
pub proof fn lemma_slots_distinct(a: nat, b: nat, capacity: nat)
    requires
        capacity > 0,
        a < b,
        b - a < capacity,
    ensures
        slot(a, capacity) != slot(b, capacity),
{
    let c = capacity as int;
    lemma_fundamental_div_mod(a as int, c);
    lemma_fundamental_div_mod(b as int, c);
    lemma_mod_bound(a as int, c);
    lemma_mod_bound(b as int, c);
    let qa = a as int / c;
    let qb = b as int / c;
    if slot(a, capacity) == slot(b, capacity) {
        assert(b - a == c * (qb - qa)) by (nonlinear_arith)
            requires
                a == c * qa + a as int % c,
                b == c * qb + b as int % c,
                a as int % c == b as int % c,
        ;
        assert(false) by (nonlinear_arith)
            requires
                b - a == c * (qb - qa),
                0 < b - a < c,
        ;
    }
}

/// The slot after a count's slot, within a run that does not reach the end of the
/// buffer, is the next index.
pub proof fn lemma_slot_offset(count: nat, offset: nat, capacity: nat)
    requires
        capacity > 0,
        slot(count, capacity) + offset < capacity,
    ensures
        slot(count + offset, capacity) == slot(count, capacity) + offset,
{
    let c = capacity as int;
    lemma_fundamental_div_mod(count as int, c);
    lemma_mod_bound(count as int, c);
    let q = count as int / c;
    vstd::arithmetic::div_mod::lemma_fundamental_div_mod_converse(
        (count + offset) as int,
        c,
        q,
        slot(count, capacity) + offset,
    );
}

} // verus!
