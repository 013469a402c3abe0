//! Packing trit sequences into bit-sliced columns and reading single lanes
//! back out of them.

use crate::bits::{lane_bit, lemma_bit_full, lemma_bit_zero, test_bit, with_bit};
use crate::trits::{column_wf, lane_trit, lane_trits, valid_trit, valid_trits, BCTrit, Trit, LANES};
use vstd::prelude::*;

verus! {

/// The column in which every lane holds `trit`.
pub open spec fn uniform_column(trit: Trit) -> BCTrit {
    if trit == 1 {
        (0u64, u64::MAX)
    } else if trit == -1 {
        (u64::MAX, 0u64)
    } else {
        (0u64, 0u64)
    }
}

/// The columns in which every lane carries `trits`.
pub open spec fn uniform_columns(trits: Seq<Trit>) -> Seq<BCTrit> {
    Seq::new(trits.len(), |p: int| uniform_column(trits[p]))
}

/// `after` is `before` with `lane` set to `trit` and every other lane as it was.
pub open spec fn lane_written(before: BCTrit, after: BCTrit, lane: int, trit: Trit) -> bool {
    &&& lane_bit(after.0, lane) == (trit == -1)
    &&& lane_bit(after.1, lane) == (trit == 1)
    &&& forall|other: int|
        0 <= other < LANES && other != lane ==> #[trigger] lane_bit(after.0, other) == lane_bit(
            before.0,
            other,
        )
    &&& forall|other: int|
        0 <= other < LANES && other != lane ==> #[trigger] lane_bit(after.1, other) == lane_bit(
            before.1,
            other,
        )
}

/// Every lane of a uniform column reads as the trit it was made from.
pub proof fn lemma_uniform_column(trit: Trit, lane: int)
    requires
        valid_trit(trit),
        0 <= lane < LANES,
    ensures
        lane_trit(uniform_column(trit), lane) == trit,
        !(lane_bit(uniform_column(trit).0, lane) && lane_bit(uniform_column(trit).1, lane)),
{
    lemma_bit_full(lane);
    lemma_bit_zero(lane);
}

/// Spreads one trit over all lanes of a column.
pub fn trit_to_bct(trit: Trit) -> (column: BCTrit)
    requires
        valid_trit(trit),
    ensures
        column == uniform_column(trit),
        column_wf(column),
        forall|lane: int| 0 <= lane < LANES ==> #[trigger] lane_trit(column, lane) == trit,
{
    let column: BCTrit = if trit == 1 {
        (0u64, u64::MAX)
    } else if trit == -1 {
        (u64::MAX, 0u64)
    } else {
        (0u64, 0u64)
    };
    proof {
        assert forall|lane: int| 0 <= lane < LANES implies #[trigger] lane_trit(column, lane)
            == trit by {
            lemma_uniform_column(trit, lane);
        }
        assert forall|lane: int| 0 <= lane < LANES implies !(#[trigger] lane_bit(column.0, lane)
            && lane_bit(column.1, lane)) by {
            lemma_uniform_column(trit, lane);
        }
    }
    column
}

/// Reads the trit that `column` holds for `lane`.
pub fn bct_to_trit(column: BCTrit, lane: usize) -> (trit: Trit)
    requires
        lane < LANES,
    ensures
        trit == lane_trit(column, lane as int),
        valid_trit(trit),
{
    if test_bit(column.1, lane) {
        1
    } else if test_bit(column.0, lane) {
        -1
    } else {
        0
    }
}

/// Packs `trits` into columns, the same sequence in every lane.
pub fn encode(trits: &[Trit]) -> (columns: Vec<BCTrit>)
    requires
        valid_trits(trits@),
    ensures
        columns@ == uniform_columns(trits@),
        forall|p: int| 0 <= p < columns@.len() ==> column_wf(#[trigger] columns@[p]),
        forall|lane: int| 0 <= lane < LANES ==> #[trigger] lane_trits(columns@, lane) == trits@,
{
    let mut columns: Vec<BCTrit> = Vec::new();
    let mut p: usize = 0;
    while p < trits.len()
        invariant
            p <= trits@.len(),
            valid_trits(trits@),
            columns@.len() == p,
            forall|q: int| 0 <= q < p ==> #[trigger] columns@[q] == uniform_column(trits@[q]),
            forall|q: int| 0 <= q < p ==> column_wf(#[trigger] columns@[q]),
        decreases trits@.len() - p,
    {
        columns.push(trit_to_bct(trits[p]));
        p = p + 1;
    }
    proof {
        assert(columns@ =~= uniform_columns(trits@));
        lemma_uniform_roundtrip(trits@);
    }
    columns
}

/// Packing a sequence into every lane and reading any lane back gives the
/// sequence again.
pub proof fn lemma_uniform_roundtrip(trits: Seq<Trit>)
    requires
        valid_trits(trits),
    ensures
        forall|lane: int|
            0 <= lane < LANES ==> #[trigger] lane_trits(uniform_columns(trits), lane) == trits,
{
    assert forall|lane: int| 0 <= lane < LANES implies #[trigger] lane_trits(
        uniform_columns(trits),
        lane,
    ) == trits by {
        assert forall|p: int| 0 <= p < trits.len() implies lane_trits(
            uniform_columns(trits),
            lane,
        )[p] == trits[p] by {
            lemma_uniform_column(trits[p], lane);
        }
        assert(lane_trits(uniform_columns(trits), lane) =~= trits);
    }
}

/// What a column reads as, lane by lane, after one lane has been written.
pub proof fn lemma_lane_written(before: BCTrit, after: BCTrit, lane: int, trit: Trit)
    requires
        0 <= lane < LANES,
        valid_trit(trit),
        lane_written(before, after, lane, trit),
    ensures
        lane_trit(after, lane) == trit,
        forall|other: int|
            0 <= other < LANES && other != lane ==> #[trigger] lane_trit(after, other)
                == lane_trit(before, other),
        column_wf(before) ==> column_wf(after),
{
    assert forall|other: int| 0 <= other < LANES && other != lane implies #[trigger] lane_trit(
        after,
        other,
    ) == lane_trit(before, other) by {
        assert(lane_bit(after.0, other) == lane_bit(before.0, other));
        assert(lane_bit(after.1, other) == lane_bit(before.1, other));
    }
    if column_wf(before) {
        assert forall|i: int| 0 <= i < LANES implies !(#[trigger] lane_bit(after.0, i)
            && lane_bit(after.1, i)) by {
            if i != lane {
                assert(lane_bit(after.0, i) == lane_bit(before.0, i));
                assert(lane_bit(after.1, i) == lane_bit(before.1, i));
                assert(!(lane_bit(before.0, i) && lane_bit(before.1, i)));
            }
        }
    }
}

/// Writes `trits` into one lane of the leading columns. Other lanes, and the
/// columns past the end of `trits`, keep what they held.
pub fn write_lane(columns: &mut [BCTrit], lane: usize, trits: &[Trit])
    requires
        lane < LANES,
        trits@.len() <= old(columns)@.len(),
        valid_trits(trits@),
    ensures
        final(columns)@.len() == old(columns)@.len(),
        forall|p: int|
            0 <= p < trits@.len() ==> lane_written(
                old(columns)@[p],
                #[trigger] final(columns)@[p],
                lane as int,
                trits@[p],
            ),
        forall|p: int|
            trits@.len() <= p < old(columns)@.len() ==> #[trigger] final(columns)@[p] == old(
                columns,
            )@[p],
        lane_trits(final(columns)@, lane as int).take(trits@.len() as int) == trits@,
        forall|other: int|
            0 <= other < LANES && other != lane ==> #[trigger] lane_trits(final(columns)@, other)
                == lane_trits(old(columns)@, other),
        forall|p: int|
            0 <= p < old(columns)@.len() && column_wf(old(columns)@[p]) ==> column_wf(
                #[trigger] final(columns)@[p],
            ),
{
    let mut p: usize = 0;
    while p < trits.len()
        invariant
            lane < LANES,
            p <= trits@.len() <= columns@.len(),
            valid_trits(trits@),
            columns@.len() == old(columns)@.len(),
            forall|q: int|
                0 <= q < p ==> lane_written(
                    old(columns)@[q],
                    #[trigger] columns@[q],
                    lane as int,
                    trits@[q],
                ),
            forall|q: int| p <= q < columns@.len() ==> #[trigger] columns@[q] == old(columns)@[q],
        decreases trits@.len() - p,
    {
        let trit = trits[p];
        let column = columns[p];
        let neg = with_bit(column.0, lane, trit == -1);
        let pos = with_bit(column.1, lane, trit == 1);
        columns[p] = (neg, pos);
        p = p + 1;
    }
    proof {
        let before = old(columns)@;
        let after = columns@;
        assert forall|q: int| 0 <= q < trits@.len() implies lane_trits(after, lane as int).take(
            trits@.len() as int,
        )[q] == trits@[q] by {
            lemma_lane_written(before[q], after[q], lane as int, trits@[q]);
        }
        assert(lane_trits(after, lane as int).take(trits@.len() as int) =~= trits@);
        assert forall|other: int| 0 <= other < LANES && other != lane implies #[trigger] lane_trits(
            after,
            other,
        ) == lane_trits(before, other) by {
            assert forall|q: int| 0 <= q < after.len() implies lane_trits(after, other)[q]
                == lane_trits(before, other)[q] by {
                if q < trits@.len() {
                    lemma_lane_written(before[q], after[q], lane as int, trits@[q]);
                }
            }
            assert(lane_trits(after, other) =~= lane_trits(before, other));
        }
        assert forall|q: int| 0 <= q < before.len() && column_wf(before[q]) implies column_wf(
            #[trigger] after[q],
        ) by {
            if q < trits@.len() {
                lemma_lane_written(before[q], after[q], lane as int, trits@[q]);
            }
        }
    }
}

/// A read-only view of bit-sliced columns that hands out one lane at a time.
pub struct TrinaryDemultiplexer<'a> {
    columns: &'a [BCTrit],
}

impl<'a> View for TrinaryDemultiplexer<'a> {
    type V = Seq<BCTrit>;

    closed spec fn view(&self) -> Seq<BCTrit> {
        self.columns@
    }
}

impl<'a> TrinaryDemultiplexer<'a> {
    /// Wraps `columns` without copying them.
    pub fn new(columns: &'a [BCTrit]) -> (demux: Self)
        ensures
            demux@ == columns@,
    {
        TrinaryDemultiplexer { columns }
    }

    /// Number of trits that each lane carries.
    pub fn len(&self) -> (n: usize)
        ensures
            n == self@.len(),
    {
        self.columns.len()
    }

    /// The trit of `lane` at column `position`.
    pub fn trit(&self, lane: usize, position: usize) -> (trit: Trit)
        requires
            lane < LANES,
            position < self@.len(),
        ensures
            trit == lane_trit(self@[position as int], lane as int),
            valid_trit(trit),
    {
        bct_to_trit(self.columns[position], lane)
    }

    /// The whole trit sequence of `lane`, one trit per column.
    pub fn get(&self, lane: usize) -> (trits: Vec<Trit>)
        requires
            lane < LANES,
        ensures
            trits@ == lane_trits(self@, lane as int),
            valid_trits(trits@),
    {
        let mut trits: Vec<Trit> = Vec::new();
        let mut p: usize = 0;
        while p < self.columns.len()
            invariant
                lane < LANES,
                p <= self.columns@.len(),
                trits@.len() == p,
                forall|q: int|
                    0 <= q < p ==> #[trigger] trits@[q] == lane_trit(
                        self.columns@[q],
                        lane as int,
                    ),
                valid_trits(trits@),
            decreases self.columns@.len() - p,
        {
            trits.push(bct_to_trit(self.columns[p], lane));
            p = p + 1;
        }
        proof {
            assert(trits@ =~= lane_trits(self@, lane as int));
        }
        trits
    }
}

} // verus!
