//! Single-bit reasoning about 64-bit words.

use vstd::prelude::*;

verus! {

/// Whether bit `lane` of `word` is set. Lanes outside `0..64` are never set.
pub open spec fn lane_bit(word: u64, lane: int) -> bool {
    0 <= lane < 64 && (word >> (lane as u64)) & 1 == 1
}

/// A bit of `a | b` is set exactly when it is set in `a` or in `b`.
pub proof fn lemma_bit_or(a: u64, b: u64, lane: int)
    ensures
        lane_bit(a | b, lane) == (lane_bit(a, lane) || lane_bit(b, lane)),
{
    if 0 <= lane < 64 {
        let i = lane as u64;
        assert((((a | b) >> i) & 1 == 1) == (((a >> i) & 1 == 1) || ((b >> i) & 1 == 1)))
            by (bit_vector)
            requires
                i < 64,
        ;
    }
}

/// Shifting left by `s` moves bit `lane - s` to `lane` and clears the low `s` bits.
pub proof fn lemma_bit_shl(a: u64, s: u64, lane: int)
    requires
        s < 64,
        lane < 64,
    ensures
        lane_bit(a << s, lane) == (lane >= s && lane_bit(a, lane - s)),
{
    if 0 <= lane {
        let i = lane as u64;
        if i >= s {
            let d = (i - s) as u64;
            assert((((a << s) >> i) & 1 == 1) == ((a >> d) & 1 == 1)) by (bit_vector)
                requires
                    i < 64,
                    s <= i,
                    d == i - s,
            ;
        } else {
            assert(((a << s) >> i) & 1 == 0) by (bit_vector)
                requires
                    i < s,
                    s < 64,
            ;
        }
    }
}

/// Shifting right by `s` moves bit `lane + s` to `lane`.
pub proof fn lemma_bit_shr(a: u64, s: u64, lane: int)
    requires
        s < 64,
        0 <= lane,
    ensures
        lane_bit(a >> s, lane) == lane_bit(a, lane + s),
{
    if lane < 64 {
        let i = lane as u64;
        if i + s < 64 {
            let d = (i + s) as u64;
            assert((((a >> s) >> i) & 1 == 1) == ((a >> d) & 1 == 1)) by (bit_vector)
                requires
                    i < 64,
                    s < 64,
                    d == i + s,
                    d < 64,
            ;
        } else {
            assert(((a >> s) >> i) & 1 == 0) by (bit_vector)
                requires
                    i < 64,
                    s < 64,
                    i + s >= 64,
            ;
        }
    }
}

/// The word 1 has bit 0 set and no other.
pub proof fn lemma_bit_one(lane: int)
    ensures
        lane_bit(1, lane) == (lane == 0),
{
    if 0 <= lane < 64 {
        let i = lane as u64;
        assert((((1u64 >> i) & 1) == 1) == (i == 0)) by (bit_vector)
            requires
                i < 64,
        ;
    }
}

/// The word 0 has no bit set.
pub proof fn lemma_bit_zero(lane: int)
    ensures
        !lane_bit(0, lane),
{
    if 0 <= lane < 64 {
        let i = lane as u64;
        assert((0u64 >> i) & 1 == 0) by (bit_vector);
    }
}

/// The word of all ones has every bit set.
pub proof fn lemma_bit_full(lane: int)
    requires
        0 <= lane < 64,
    ensures
        lane_bit(u64::MAX, lane),
{
    let i = lane as u64;
    assert((0xffff_ffff_ffff_ffffu64 >> i) & 1 == 1) by (bit_vector)
        requires
            i < 64,
    ;
}

/// Reads bit `lane` of `word`.
pub fn test_bit(word: u64, lane: usize) -> (set: bool)
    requires
        lane < 64,
    ensures
        set == lane_bit(word, lane as int),
{
    (word >> (lane as u64)) & 1 == 1
}

/// Sets bit `lane` of `word` to `value` and leaves the other bits alone.
pub fn with_bit(word: u64, lane: usize, value: bool) -> (out: u64)
    requires
        lane < 64,
    ensures
        forall|i: int|
            0 <= i < 64 ==> #[trigger] lane_bit(out, i) == (if i == lane {
                value
            } else {
                lane_bit(word, i)
            }),
{
    let s = lane as u64;
    let mask: u64 = 1u64 << s;
    let out = if value {
        word | mask
    } else {
        word & !mask
    };
    proof {
        assert forall|i: int| 0 <= i < 64 implies #[trigger] lane_bit(out, i) == (if i == lane {
            value
        } else {
            lane_bit(word, i)
        }) by {
            let j = i as u64;
            assert((((word | (1u64 << s)) >> j) & 1 == 1) == (j == s || (word >> j) & 1 == 1))
                by (bit_vector)
                requires
                    j < 64,
                    s < 64,
            ;
            assert((((word & !(1u64 << s)) >> j) & 1 == 1) == (j != s && (word >> j) & 1 == 1))
                by (bit_vector)
                requires
                    j < 64,
                    s < 64,
            ;
        }
    }
    out
}

} // verus!
