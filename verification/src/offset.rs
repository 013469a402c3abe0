//! Seeding the leading columns with a distinct counter for every lane.

use crate::bits::{
    lane_bit, lemma_bit_one, lemma_bit_or, lemma_bit_shl, lemma_bit_shr, lemma_bit_zero,
};
use crate::num::{balanced_trits, drop_digits, lemma_balanced_value, lemma_value_bound};
use crate::trits::{
    balanced_digit, column_wf, lane_trit, lane_trits, low_trit, pow3, trits_value, BCTrit, Trit,
    LANES, RADIX,
};
use vstd::arithmetic::div_mod::{
    lemma_add_mod_noop_right, lemma_fundamental_div_mod, lemma_fundamental_div_mod_converse,
    lemma_mod_mod, lemma_small_mod,
};
use vstd::prelude::*;

verus! {

/// Number of leading columns that hold the counter: the least `k` with
/// `3^k >= LANES`.
pub const OFFSET_TRITS: usize = 4;

/// Number of distinct counter values, `3^OFFSET_TRITS`.
pub const OFFSET_PERIOD: usize = 81;

/// Position `phase + lane` of a pattern that repeats every `period` positions
/// lies among the first `run` positions of its period.
#[verifier::opaque]
pub open spec fn in_run(phase: int, lane: int, run: int, period: int) -> bool {
    (phase + lane) % period < run
}

/// The low `run` bits of `seed` are set and no others.
pub open spec fn is_seed(seed: u64, run: int) -> bool {
    forall|i: int| 0 <= i < 64 ==> (#[trigger] lane_bit(seed, i) <==> i < run)
}

/// Lays copies of `seed` end to end at stride `period`, starting `phase`
/// positions into the first copy.
pub fn striped_word(seed: u64, phase: u64, run: u64, period: u64) -> (word: u64)
    requires
        0 < run <= period,
        run <= 64,
        period <= 0x1_0000_0000,
        phase < period,
        is_seed(seed, run as int),
    ensures
        forall|i: int|
            0 <= i < 64 ==> (#[trigger] lane_bit(word, i) <==> in_run(
                phase as int,
                i,
                run as int,
                period as int,
            )),
{
    let mut word: u64 = if phase < 64 {
        seed >> phase
    } else {
        0
    };
    let mut start: u64 = period - phase;
    let ghost mut copies: int = 1;
    proof {
        reveal(in_run);
        assert forall|i: int| 0 <= i < 64 implies (#[trigger] lane_bit(word, i) <==> (in_run(
            phase as int,
            i,
            run as int,
            period as int,
        ) && phase + i < copies * period)) by {
            if phase < 64 {
                lemma_bit_shr(seed, phase, i);
            } else {
                lemma_bit_zero(i);
            }
            if phase + i < period {
                lemma_small_mod((phase + i) as nat, period as nat);
            }
        }
    }
    while start < 64
        invariant
            0 < run <= period,
            run <= 64,
            period <= 0x1_0000_0000,
            phase < period,
            is_seed(seed, run as int),
            copies >= 1,
            start == copies * period - phase,
            forall|i: int|
                0 <= i < 64 ==> (#[trigger] lane_bit(word, i) <==> (in_run(
                    phase as int,
                    i,
                    run as int,
                    period as int,
                ) && phase + i < copies * period)),
        decreases 64 + period - start,
    {
        let ghost before = word;
        word = word | (seed << start);
        proof {
            reveal(in_run);
            assert forall|i: int| 0 <= i < 64 implies (#[trigger] lane_bit(word, i) <==> (in_run(
                phase as int,
                i,
                run as int,
                period as int,
            ) && phase + i < (copies + 1) * period)) by {
                lemma_bit_or(before, seed << start, i);
                lemma_bit_shl(seed, start, i);
                assert((copies + 1) * period == copies * period + period) by (nonlinear_arith);
                if copies * period <= phase + i < copies * period + period {
                    lemma_fundamental_div_mod_converse(
                        phase + i,
                        period as int,
                        copies,
                        phase + i - copies * period,
                    );
                }
            }
            assert((copies + 1) * period == copies * period + period) by (nonlinear_arith);
            copies = copies + 1;
        }
        start = start + period;
    }
    word
}

/// `run == 3^p` and `carry == (3^p - 1) / 2` for a digit position `p` of the counter.
pub open spec fn digit_scale(p: int, run: int, carry: int) -> bool {
    &&& 0 <= p <= OFFSET_TRITS
    &&& run == pow3(p as nat)
    &&& 2 * carry + 1 == run
}

/// The scales of the counter's digit positions, written out.
proof fn lemma_digit_scales(p: int, run: int, carry: int)
    requires
        digit_scale(p, run, carry),
    ensures
        p == 0 && run == 1 && carry == 0 || p == 1 && run == 3 && carry == 1 || p == 2 && run == 9
            && carry == 4 || p == 3 && run == 27 && carry == 13 || p == 4 && run == 81 && carry
            == 40,
{
    reveal_with_fuel(pow3, 5);
}

/// A stripe over the quotients `x / 3` is a stripe three times as wide over
/// the numbers `x` themselves.
proof fn lemma_stripe_widens(x: int, run: int)
    requires
        run > 0,
    ensures
        in_run(0, x / 3, run, 3 * run) == in_run(0, x, 3 * run, 9 * run),
{
    reveal(in_run);
    let q = x / (9 * run);
    let r = x % (9 * run);
    let t = run * q;
    lemma_fundamental_div_mod(x, 9 * run);
    assert((9 * run) * q == 9 * t) by (nonlinear_arith)
        requires
            t == run * q,
    ;
    assert((3 * run) * q == 3 * t) by (nonlinear_arith)
        requires
            t == run * q,
    ;
    assert(x == 9 * t + r);
    assert(x / 3 == 3 * t + r / 3);
    lemma_fundamental_div_mod_converse(x / 3, 3 * run, q, r / 3);
}

/// Digit `p` of `n` is +1 on the middle third of each period of `3^(p+1)`
/// consecutive integers and -1 on the last third, the periods being shifted
/// down by `carry`.
proof fn lemma_digit_thirds(n: int, p: int, run: int, carry: int)
    requires
        0 <= p < 4,
        digit_scale(p, run, carry),
    ensures
        -1 <= balanced_digit(n, p as nat) <= 1,
        balanced_digit(n, p as nat) == 1 <==> in_run(carry + 2 * run, n, run, 3 * run),
        balanced_digit(n, p as nat) == -1 <==> in_run(carry + run, n, run, 3 * run),
    decreases p,
{
    lemma_digit_scales(p, run, carry);
    if p == 0 {
        reveal(in_run);
        assert(in_run(carry + 2 * run, n, run, 3 * run) == ((2 + n) % 3 < 1));
        assert(in_run(carry + run, n, run, 3 * run) == ((1 + n) % 3 < 1));
    } else {
        // Dropping the least significant digit of `n` leaves `(n + 1) / 3`.
        let m = (n + 1) / 3;
        assert(m == (n - low_trit(n)) / 3);
        assert(balanced_digit(n, p as nat) == balanced_digit(m, (p - 1) as nat));
        let prev_run = run / 3;
        let prev_carry = (carry - 1) / 3;
        assert(digit_scale(p - 1, prev_run, prev_carry)) by {
            reveal_with_fuel(pow3, 5);
        }
        lemma_digit_thirds(m, p - 1, prev_run, prev_carry);
        lemma_stripe_widens(n + carry + 2 * run, prev_run);
        lemma_stripe_widens(n + carry + run, prev_run);
        assert(prev_carry + 2 * prev_run + m == (n + carry + 2 * run) / 3);
        assert(prev_carry + prev_run + m == (n + carry + run) / 3);
        lemma_in_run_slides(prev_carry + 2 * prev_run, m, prev_run, 3 * prev_run);
        lemma_in_run_slides(prev_carry + prev_run, m, prev_run, 3 * prev_run);
        lemma_in_run_slides(carry + 2 * run, n, run, 3 * run);
        lemma_in_run_slides(carry + run, n, run, 3 * run);
    }
}

/// Only the sum of phase and lane matters.
proof fn lemma_in_run_slides(phase: int, lane: int, run: int, period: int)
    ensures
        in_run(phase, lane, run, period) == in_run(0, phase + lane, run, period),
{
    reveal(in_run);
}

/// Reducing the counter's start modulo the counter period, and the phase
/// modulo the digit's own period, leaves the digit's stripe where it was.
proof fn lemma_phase_reduced(value: int, lane: int, add: int, run: int)
    requires
        run == 1 || run == 3 || run == 9 || run == 27,
    ensures
        in_run((value % 81 + add) % (3 * run), lane, run, 3 * run) == in_run(
            add,
            value + lane,
            run,
            3 * run,
        ),
{
    reveal(in_run);
    let period = 3 * run;
    let folds: int = if run == 1 {
        27
    } else if run == 3 {
        9
    } else if run == 9 {
        3
    } else {
        1
    };
    assert(period * folds == 81) by (nonlinear_arith)
        requires
            run == 1 && folds == 27 || run == 3 && folds == 9 || run == 9 && folds == 3 || run
                == 27 && folds == 1,
            period == 3 * run,
    ;
    lemma_mod_mod(value, period, folds);
    lemma_add_mod_noop_right(lane, value % 81 + add, period);
    lemma_add_mod_noop_right(lane + add, value % 81, period);
    lemma_add_mod_noop_right(lane + add, value, period);
}

/// Column `p` of the counter: every lane `i` holds digit `p` of `value + i`,
/// and no lane has both bits set.
pub open spec fn counter_column(column: BCTrit, value: int, p: int) -> bool {
    &&& column_wf(column)
    &&& forall|lane: int|
        0 <= lane < LANES ==> #[trigger] lane_trit(column, lane) == balanced_digit(
            value + lane,
            p as nat,
        )
}

/// What seeding does to a column sequence: the leading `OFFSET_TRITS` columns
/// hold the counter that starts at `value`, and the rest is untouched.
pub open spec fn seeded(before: Seq<BCTrit>, after: Seq<BCTrit>, value: int) -> bool {
    &&& after.len() == before.len()
    &&& forall|p: int| OFFSET_TRITS <= p < after.len() ==> after[p] == before[p]
    &&& forall|p: int| 0 <= p < OFFSET_TRITS ==> counter_column(#[trigger] after[p], value, p)
}

/// A lane whose two bits follow the stripes of digit `p` reads as digit `p`
/// of `value + lane`, and has at most one of them set.
proof fn lemma_lane_digit(column: BCTrit, value: int, lane: int, p: int, run: int, carry: int)
    requires
        0 <= p < OFFSET_TRITS,
        digit_scale(p, run, carry),
        0 <= lane < LANES,
        lane_bit(column.1, lane) <==> in_run(
            (value % 81 + carry + 2 * run) % (3 * run),
            lane,
            run,
            3 * run,
        ),
        lane_bit(column.0, lane) <==> in_run(
            (value % 81 + carry + run) % (3 * run),
            lane,
            run,
            3 * run,
        ),
    ensures
        lane_trit(column, lane) == balanced_digit(value + lane, p as nat),
        !(lane_bit(column.0, lane) && lane_bit(column.1, lane)),
{
    lemma_digit_scales(p, run, carry);
    lemma_digit_thirds(value + lane, p, run, carry);
    lemma_phase_reduced(value, lane, carry + 2 * run, run);
    lemma_phase_reduced(value, lane, carry + run, run);
}

/// Builds column `p` of the counter that starts at `value`, from a seed of
/// `3^p` set bits. `shift` is `value` reduced to the counter's period, and
/// `carry` is what the digits below `p` have taken up.
fn digit_column(
    seed: u64,
    shift: u64,
    run: u64,
    carry: u64,
    Ghost(value): Ghost<int>,
    Ghost(p): Ghost<int>,
) -> (column: BCTrit)
    requires
        0 <= p < OFFSET_TRITS,
        digit_scale(p, run as int, carry as int),
        is_seed(seed, run as int),
        shift == value % 81,
    ensures
        counter_column(column, value, p),
{
    proof {
        lemma_digit_scales(p, run as int, carry as int);
    }
    let period: u64 = 3 * run;
    let pos = striped_word(seed, (shift + carry + 2 * run) % period, run, period);
    let neg = striped_word(seed, (shift + carry + run) % period, run, period);
    proof {
        assert forall|lane: int| 0 <= lane < LANES implies #[trigger] lane_trit((neg, pos), lane)
            == balanced_digit(value + lane, p as nat) by {
            lemma_lane_digit((neg, pos), value, lane, p, run as int, carry as int);
        }
        assert forall|lane: int| 0 <= lane < LANES implies !(#[trigger] lane_bit(neg, lane)
            && lane_bit(pos, lane)) by {
            lemma_lane_digit((neg, pos), value, lane, p, run as int, carry as int);
        }
    }
    (neg, pos)
}

/// Triples the width of a seed: from `run` set bits to `3 * run`, as far as
/// the word reaches.
fn widened(seed: u64, run: u64) -> (wide: u64)
    requires
        0 < run < 64,
        is_seed(seed, run as int),
    ensures
        is_seed(wide, 3 * run),
{
    let doubled: u64 = seed | (seed << run);
    let wide: u64 = doubled | (doubled << run);
    proof {
        assert forall|i: int| 0 <= i < 64 implies (#[trigger] lane_bit(wide, i) <==> i < 3
            * run) by {
            lemma_bit_or(doubled, doubled << run, i);
            lemma_bit_shl(doubled, run, i);
            lemma_bit_or(seed, seed << run, i);
            lemma_bit_shl(seed, run, i);
            if i >= run {
                lemma_bit_or(seed, seed << run, i - run);
                lemma_bit_shl(seed, run, i - run);
            }
        }
    }
    wide
}

/// The number of trit positions needed to tell all lanes apart.
pub fn trits_in_word_offset() -> (k: usize)
    ensures
        k == OFFSET_TRITS,
        pow3(k as nat) == OFFSET_PERIOD,
        pow3(k as nat) >= LANES,
        pow3((k - 1) as nat) < LANES,
{
    let mut k: usize = 1;
    let mut power: usize = RADIX;
    proof {
        reveal_with_fuel(pow3, 5);
    }
    while power < LANES
        invariant
            1 <= k <= 4,
            power == pow3(k as nat),
            power <= 81,
            k > 1 ==> pow3((k - 1) as nat) < LANES,
        decreases 4 - k,
    {
        proof {
            reveal_with_fuel(pow3, 5);
        }
        power = power * RADIX;
        k = k + 1;
    }
    proof {
        reveal_with_fuel(pow3, 5);
    }
    k
}

/// Bit-sliced columns whose leading positions can be seeded with a counter.
pub trait Offset {
    /// The columns as a sequence.
    spec fn columns(&self) -> Seq<BCTrit>;

    /// Overwrites the leading `OFFSET_TRITS` columns so that lane `i` reads
    /// there as `(value + i) mod 81` in balanced ternary, least significant
    /// digit first.
    fn offset(&mut self, value: isize)
        requires
            old(self).columns().len() >= OFFSET_TRITS,
        ensures
            seeded(old(self).columns(), final(self).columns(), value as int),
    ;
}

impl Offset for [BCTrit] {
    open spec fn columns(&self) -> Seq<BCTrit> {
        self@
    }

    fn offset(&mut self, value: isize) {
        // The divisor is neither 0 nor -1, so there always is a remainder.
        let shift: u64 = match value.checked_rem_euclid(81) {
            Some(r) => r as u64,
            None => 0,
        };
        let mut carry: u64 = 0;
        let mut run: u64 = 1;
        let mut seed: u64 = 1;
        let mut p: usize = 0;
        proof {
            reveal_with_fuel(pow3, 5);
            assert forall|i: int| 0 <= i < 64 implies (#[trigger] lane_bit(seed, i) <==> i
                < run) by {
                lemma_bit_one(i);
            }
        }
        while p < OFFSET_TRITS
            invariant
                self@.len() == old(self)@.len(),
                self@.len() >= OFFSET_TRITS,
                p <= OFFSET_TRITS,
                shift == (value as int) % 81,
                digit_scale(p as int, run as int, carry as int),
                is_seed(seed, run as int),
                forall|q: int| OFFSET_TRITS <= q < self@.len() ==> self@[q] == old(self)@[q],
                forall|q: int| 0 <= q < p ==> counter_column(#[trigger] self@[q], value as int, q),
            decreases OFFSET_TRITS - p,
        {
            proof {
                lemma_digit_scales(p as int, run as int, carry as int);
                reveal_with_fuel(pow3, 5);
            }
            self[p] = digit_column(seed, shift, run, carry, Ghost(value as int), Ghost(p as int));
            seed = widened(seed, run);
            carry = carry + run;
            run = 3 * run;
            p = p + 1;
        }
    }
}

/// What `lane` reads in the counter columns at the head of `columns`.
pub open spec fn counter_trits(columns: Seq<BCTrit>, lane: int) -> Seq<Trit> {
    lane_trits(columns.take(OFFSET_TRITS as int), lane)
}

/// After seeding with `value`, lane `i` reads in the counter columns the low
/// `OFFSET_TRITS` balanced-ternary digits of `value + i`. They denote the one
/// integer between -40 and 40 that is congruent to `value + i` modulo 81.
pub proof fn lemma_offset_value(before: Seq<BCTrit>, after: Seq<BCTrit>, value: int, lane: int)
    requires
        before.len() >= OFFSET_TRITS,
        seeded(before, after, value),
        0 <= lane < LANES,
    ensures
        counter_trits(after, lane) == balanced_trits(value + lane, OFFSET_TRITS as nat),
        trits_value(counter_trits(after, lane)) % 81 == (value + lane) % 81,
        -40 <= trits_value(counter_trits(after, lane)) <= 40,
{
    let window = counter_trits(after, lane);
    assert forall|p: int| 0 <= p < OFFSET_TRITS implies window[p] == balanced_digit(
        value + lane,
        p as nat,
    ) by {
        assert(counter_column(after[p], value, p));
    }
    assert(window =~= balanced_trits(value + lane, OFFSET_TRITS as nat));
    lemma_balanced_value(value + lane, OFFSET_TRITS as nat);
    lemma_value_bound(window);
    reveal_with_fuel(pow3, 5);
    let dropped = drop_digits(value + lane, OFFSET_TRITS as nat);
    assert(pow3(OFFSET_TRITS as nat) * dropped == 81 * dropped) by (nonlinear_arith)
        requires
            pow3(OFFSET_TRITS as nat) == 81,
    ;
}

/// After seeding, no two lanes read the same counter value.
pub proof fn lemma_offset_distinct(
    before: Seq<BCTrit>,
    after: Seq<BCTrit>,
    value: int,
    lane: int,
    other: int,
)
    requires
        before.len() >= OFFSET_TRITS,
        seeded(before, after, value),
        0 <= lane < LANES,
        0 <= other < LANES,
        lane != other,
    ensures
        trits_value(counter_trits(after, lane)) != trits_value(counter_trits(after, other)),
{
    lemma_offset_value(before, after, value, lane);
    lemma_offset_value(before, after, value, other);
}

} // verus!
