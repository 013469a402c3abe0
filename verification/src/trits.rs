//! Trits, bit-sliced trit columns, and balanced-ternary digits.

use crate::bits::lane_bit;
use vstd::prelude::*;

verus! {

/// A balanced ternary digit: -1, 0 or 1.
pub type Trit = i8;

/// One bit-sliced column, `(neg, pos)`: bit `i` of `neg` set means lane `i`
/// holds -1 at this position, bit `i` of `pos` set means it holds +1, and
/// neither bit set means 0.
pub type BCTrit = (u64, u64);

/// Arity of the ternary alphabet.
pub const RADIX: usize = 3;

/// Number of candidate streams packed into one column.
pub const LANES: usize = 64;

/// `3^k`.
pub open spec fn pow3(k: nat) -> nat
    decreases k,
{
    if k == 0 {
        1
    } else {
        3 * pow3((k - 1) as nat)
    }
}

pub open spec fn valid_trit(t: Trit) -> bool {
    -1 <= t <= 1
}

pub open spec fn valid_trits(trits: Seq<Trit>) -> bool {
    forall|i: int| 0 <= i < trits.len() ==> valid_trit(#[trigger] trits[i])
}

/// The trit that `column` holds for `lane`. A lane with both bits set reads as +1.
pub open spec fn lane_trit(column: BCTrit, lane: int) -> Trit {
    if lane_bit(column.1, lane) {
        1i8
    } else if lane_bit(column.0, lane) {
        -1i8
    } else {
        0i8
    }
}

/// No lane of `column` has both of its bits set.
pub open spec fn column_wf(column: BCTrit) -> bool {
    forall|lane: int|
        0 <= lane < LANES ==> !(#[trigger] lane_bit(column.0, lane) && lane_bit(column.1, lane))
}

/// The trit sequence that `lane` carries through `columns`, one trit per column.
pub open spec fn lane_trits(columns: Seq<BCTrit>, lane: int) -> Seq<Trit> {
    Seq::new(columns.len(), |p: int| lane_trit(columns[p], lane))
}

/// The integer that `trits` denotes, least significant trit first.
pub open spec fn trits_value(trits: Seq<Trit>) -> int
    decreases trits.len(),
{
    if trits.len() == 0 {
        0
    } else {
        trits[0] as int + 3 * trits_value(trits.drop_first())
    }
}

/// The least significant balanced-ternary digit of `n`.
pub open spec fn low_trit(n: int) -> Trit {
    if n % 3 == 2 {
        -1i8
    } else if n % 3 == 1 {
        1i8
    } else {
        0i8
    }
}

/// Digit `p` (0 is least significant) of the balanced-ternary numeral of `n`.
pub open spec fn balanced_digit(n: int, p: nat) -> Trit
    decreases p,
{
    if p == 0 {
        low_trit(n)
    } else {
        balanced_digit((n - low_trit(n)) / 3, (p - 1) as nat)
    }
}

/// Whether every element of `trits` is -1, 0 or 1.
pub fn trits_are_valid(trits: &[Trit]) -> (valid: bool)
    ensures
        valid == valid_trits(trits@),
{
    let mut p: usize = 0;
    while p < trits.len()
        invariant
            p <= trits@.len(),
            forall|q: int| 0 <= q < p ==> valid_trit(#[trigger] trits@[q]),
        decreases trits@.len() - p,
    {
        if trits[p] < -1 || trits[p] > 1 {
            return false;
        }
        p = p + 1;
    }
    true
}

} // verus!
