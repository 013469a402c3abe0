//! Conversions between machine integers and balanced-ternary trit sequences,
//! least significant trit first.

use crate::trits::{balanced_digit, low_trit, pow3, trits_value, valid_trits, Trit};
use vstd::prelude::*;

verus! {

/// The low `size` balanced-ternary digits of `n`, least significant first.
pub open spec fn balanced_trits(n: int, size: nat) -> Seq<Trit> {
    Seq::new(size, |p: int| balanced_digit(n, p as nat))
}

/// What is left of `n` once its least significant digit is dropped.
pub open spec fn drop_low(n: int) -> int {
    (n - low_trit(n)) / 3
}

/// What is left of `n` once its `count` least significant digits are dropped.
pub open spec fn drop_digits(n: int, count: nat) -> int
    decreases count,
{
    if count == 0 {
        n
    } else {
        drop_digits(drop_low(n), (count - 1) as nat)
    }
}

/// Dropping one more digit is dropping the low digit of what was left.
pub proof fn lemma_drop_one_more(n: int, count: nat)
    ensures
        drop_digits(n, count + 1) == drop_low(drop_digits(n, count)),
        balanced_digit(n, count) == low_trit(drop_digits(n, count)),
    decreases count,
{
    if count > 0 {
        lemma_drop_one_more(drop_low(n), (count - 1) as nat);
        assert(drop_digits(n, count + 1) == drop_digits(drop_low(n), count));
    } else {
        assert(drop_digits(n, 1) == drop_digits(drop_low(n), 0));
    }
}

/// The low `size` digits of `n` denote `n` less a multiple of `3^size`: the
/// part of `n` that the dropped digits stand for.
pub proof fn lemma_balanced_value(n: int, size: nat)
    ensures
        trits_value(balanced_trits(n, size)) == n - pow3(size) * drop_digits(n, size),
    decreases size,
{
    if size > 0 {
        let rest = drop_low(n);
        let smaller = (size - 1) as nat;
        lemma_balanced_value(rest, smaller);
        assert(balanced_trits(n, size).drop_first() =~= balanced_trits(rest, smaller));
        assert(balanced_trits(n, size)[0] == low_trit(n));
        assert(n == low_trit(n) + 3 * rest);
        assert(trits_value(balanced_trits(n, size)) == low_trit(n) + 3 * trits_value(
            balanced_trits(rest, smaller),
        ));
        assert(3 * (pow3(smaller) * drop_digits(rest, smaller)) == pow3(size) * drop_digits(
            n,
            size,
        )) by (nonlinear_arith)
            requires
                pow3(size) == 3 * pow3(smaller),
                drop_digits(n, size) == drop_digits(rest, smaller),
        ;
    } else {
        assert(balanced_trits(n, size) =~= Seq::<Trit>::empty());
        assert(pow3(size) * drop_digits(n, size) == n) by (nonlinear_arith)
            requires
                pow3(size) == 1,
                drop_digits(n, size) == n,
        ;
    }
}

/// A sequence of `k` proper trits denotes an integer of magnitude at most
/// `(3^k - 1) / 2`.
pub proof fn lemma_value_bound(trits: Seq<Trit>)
    requires
        valid_trits(trits),
    ensures
        -pow3(trits.len()) < 2 * trits_value(trits) < pow3(trits.len()),
    decreases trits.len(),
{
    if trits.len() > 0 {
        lemma_value_bound(trits.drop_first());
    }
}

/// `3^k` grows with `k`.
pub proof fn lemma_pow3_grows(low: nat, high: nat)
    requires
        low <= high,
    ensures
        0 < pow3(low) <= pow3(high),
    decreases high,
{
    if low < high {
        lemma_pow3_grows(low, (high - 1) as nat);
    } else if low > 0 {
        lemma_pow3_grows((low - 1) as nat, (high - 1) as nat);
    }
}

/// The integer that `trits` denotes.
pub fn trits2int(trits: &[Trit]) -> (value: isize)
    requires
        valid_trits(trits@),
        pow3(trits@.len()) <= isize::MAX,
    ensures
        value == trits_value(trits@),
{
    let mut value: isize = 0;
    let mut p: usize = trits.len();
    proof {
        assert(trits@.subrange(p as int, trits@.len() as int) =~= Seq::<Trit>::empty());
    }
    while p > 0
        invariant
            p <= trits@.len(),
            valid_trits(trits@),
            pow3(trits@.len()) <= isize::MAX,
            value == trits_value(trits@.subrange(p as int, trits@.len() as int)),
        decreases p,
    {
        proof {
            let tail = trits@.subrange(p as int, trits@.len() as int);
            let longer = trits@.subrange(p - 1, trits@.len() as int);
            assert(longer.drop_first() =~= tail);
            assert(longer[0] == trits@[p - 1]);
            lemma_value_bound(tail);
            lemma_value_bound(longer);
            lemma_pow3_grows(longer.len(), trits@.len());
            lemma_pow3_grows(tail.len(), longer.len());
        }
        p = p - 1;
        value = value * 3 + trits[p] as isize;
    }
    proof {
        assert(trits@.subrange(0, trits@.len() as int) =~= trits@);
    }
    value
}

/// The low `size` balanced-ternary digits of `v`, least significant first.
pub(crate) fn low_digits(v: i128, size: usize) -> (trits: Vec<Trit>)
    ensures
        trits@ == balanced_trits(v as int, size as nat),
        valid_trits(trits@),
{
    let mut trits: Vec<Trit> = Vec::new();
    let mut rest: i128 = v;
    let mut p: usize = 0;
    while p < size
        invariant
            p <= size,
            trits@.len() == p,
            rest == drop_digits(v as int, p as nat),
            forall|q: int|
                0 <= q < p ==> #[trigger] trits@[q] == balanced_digit(v as int, q as nat),
            valid_trits(trits@),
        decreases size - p,
    {
        proof {
            lemma_drop_one_more(v as int, p as nat);
        }
        let remainder = match rest.checked_rem_euclid(3) {
            Some(r) => r,
            None => 0,
        };
        let quotient = match rest.checked_div_euclid(3) {
            Some(q) => q,
            None => 0,
        };
        if remainder == 2 {
            trits.push(-1);
            rest = quotient + 1;
        } else {
            trits.push(remainder as Trit);
            rest = quotient;
        }
        p = p + 1;
    }
    proof {
        assert(trits@ =~= balanced_trits(v as int, size as nat));
    }
    trits
}

/// The low `size` balanced-ternary digits of `v`, least significant first.
pub fn int2trits(v: isize, size: usize) -> (trits: Vec<Trit>)
    ensures
        trits@ == balanced_trits(v as int, size as nat),
        valid_trits(trits@),
{
    low_digits(v as i128, size)
}

} // verus!
