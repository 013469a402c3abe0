//! Hamming-nonce acceptance: which lane, if any, of a permuted column buffer
//! is a valid nonce at a given security level.

use crate::mux::{encode, uniform_columns, TrinaryDemultiplexer};
use crate::num::{balanced_trits, low_digits};
use crate::offset::{seeded, Offset, OFFSET_TRITS};
use crate::trits::{
    column_wf, lane_trits, trits_are_valid, valid_trits, BCTrit, Trit, LANES,
};
use vstd::prelude::*;
use vstd::slice::slice_subrange;

verus! {

/// Number of trits that encode the input length ahead of the input.
pub const LENGTH_TRITS: usize = 12;

/// How many leading thirds of a candidate must balance before it is accepted.
#[derive(Clone, Copy, Debug, PartialEq, Eq, Structural)]
pub enum Security {
    /// Level 1: the first third sums to zero.
    Low,
    /// Level 2: the first third does not sum to zero, the first two thirds do.
    Medium,
    /// Level 3: neither the first third nor the first two thirds sum to
    /// zero, the whole sequence does.
    High,
}

/// Why a search request was turned down.
#[derive(Clone, Copy, Debug, PartialEq, Eq, Structural)]
pub enum SearchError {
    /// The security level is not 1, 2 or 3.
    InvalidSecurity,
    /// The output length is zero or exceeds the number of columns.
    InvalidLength,
    /// A trit of the sponge state is not -1, 0 or 1.
    InvalidTrit,
    /// The sponge state is shorter than the counter window.
    ShortState,
}

/// The sum of all trits of a sequence.
pub open spec fn trit_sum(trits: Seq<Trit>) -> int
    decreases trits.len(),
{
    if trits.len() == 0 {
        0
    } else {
        trit_sum(trits.drop_last()) + trits.last() as int
    }
}

/// The acceptance rule of each security level, over a candidate's trits.
/// A third is `len / 3` trits long: the first third is the first `len / 3`
/// trits, the first two thirds are the first `2 * (len / 3)`, and the whole
/// is every trit of the candidate.
pub open spec fn accepts(trits: Seq<Trit>, security: Security) -> bool {
    let n = trits.len() as int;
    let first = trit_sum(trits.take(n / 3));
    let second = trit_sum(trits.take(2 * (n / 3)));
    let whole = trit_sum(trits);
    match security {
        Security::Low => first == 0,
        Security::Medium => first != 0 && second == 0,
        Security::High => first != 0 && second != 0 && whole == 0,
    }
}

/// The candidate in `lane` of `columns` is accepted at `security`.
pub open spec fn lane_accepted(columns: Seq<BCTrit>, security: Security, lane: int) -> bool {
    accepts(lane_trits(columns, lane), security)
}

/// The lowest accepted lane that is not below `from`, if there is one.
pub open spec fn first_accepted_from(columns: Seq<BCTrit>, security: Security, from: int) -> Option<
    int,
>
    decreases LANES - from,
{
    if from >= LANES {
        None
    } else if lane_accepted(columns, security, from) {
        Some(from)
    } else {
        first_accepted_from(columns, security, from + 1)
    }
}

/// The lowest accepted lane of `columns`, if there is one.
pub open spec fn first_accepted(columns: Seq<BCTrit>, security: Security) -> Option<int> {
    first_accepted_from(columns, security, 0)
}

/// The security level that the number `level` names.
pub open spec fn security_of(level: int) -> Option<Security> {
    if level == 1 {
        Some(Security::Low)
    } else if level == 2 {
        Some(Security::Medium)
    } else if level == 3 {
        Some(Security::High)
    } else {
        None
    }
}

/// What one test of `columns` yields: the trits of the lowest accepted lane.
pub open spec fn search_outcome(columns: Seq<BCTrit>, security: Security) -> Option<Seq<Trit>> {
    match first_accepted(columns, security) {
        Some(lane) => Some(lane_trits(columns, lane)),
        None => None,
    }
}

/// Sums the first `end` trits.
fn prefix_sum(trits: &[Trit], end: usize) -> (sum: i128)
    requires
        end <= trits@.len(),
    ensures
        sum == trit_sum(trits@.take(end as int)),
{
    let mut sum: i128 = 0;
    let mut p: usize = 0;
    while p < end
        invariant
            p <= end <= trits@.len(),
            sum == trit_sum(trits@.take(p as int)),
            -128 * p <= sum <= 128 * p,
        decreases end - p,
    {
        proof {
            assert(trits@.take(p + 1).drop_last() =~= trits@.take(p as int));
        }
        sum = sum + trits[p] as i128;
        p = p + 1;
    }
    sum
}

impl Security {
    /// The number by which this level goes.
    pub open spec fn level_spec(self) -> int {
        match self {
            Security::Low => 1,
            Security::Medium => 2,
            Security::High => 3,
        }
    }

    /// The level that `level` names; `None` for anything but 1, 2 and 3.
    pub fn from_level(level: u8) -> (security: Option<Security>)
        ensures
            security == security_of(level as int),
    {
        if level == 1 {
            Some(Security::Low)
        } else if level == 2 {
            Some(Security::Medium)
        } else if level == 3 {
            Some(Security::High)
        } else {
            None
        }
    }

    /// The number by which this level goes.
    pub fn level(&self) -> (level: u8)
        ensures
            level == self.level_spec(),
            security_of(level as int) == Some(*self),
    {
        match self {
            Security::Low => 1,
            Security::Medium => 2,
            Security::High => 3,
        }
    }

    /// Applies this level's acceptance rule to a candidate's trits.
    pub fn accepts(&self, trits: &[Trit]) -> (accepted: bool)
        ensures
            accepted == accepts(trits@, *self),
    {
        let n = trits.len();
        let third = n / 3;
        let two_thirds = 2 * third;
        let first = prefix_sum(trits, third);
        match self {
            Security::Low => first == 0,
            Security::Medium => first != 0 && prefix_sum(trits, two_thirds) == 0,
            Security::High => {
                proof {
                    assert(trits@.take(n as int) =~= trits@);
                }
                first != 0 && prefix_sum(trits, two_thirds) != 0 && prefix_sum(trits, n) == 0
            },
        }
    }
}

/// The lowest accepted lane is accepted, no lane below it is, and where there
/// is none, no lane is accepted at all.
pub proof fn lemma_first_accepted(columns: Seq<BCTrit>, security: Security, from: int)
    requires
        0 <= from <= LANES,
    ensures
        match first_accepted_from(columns, security, from) {
            Some(lane) => {
                &&& from <= lane < LANES
                &&& lane_accepted(columns, security, lane)
                &&& forall|j: int| from <= j < lane ==> !lane_accepted(columns, security, j)
            },
            None => forall|j: int| from <= j < LANES ==> !lane_accepted(columns, security, j),
        },
    decreases LANES - from,
{
    if from < LANES && !lane_accepted(columns, security, from) {
        lemma_first_accepted(columns, security, from + 1);
    }
}

/// What a test hands out is the whole of an accepted lane.
pub proof fn lemma_outcome_accepted(columns: Seq<BCTrit>, security: Security)
    ensures
        match search_outcome(columns, security) {
            Some(trits) => trits.len() == columns.len() && accepts(trits, security),
            None => forall|lane: int| 0 <= lane < LANES ==> !lane_accepted(columns, security, lane),
        },
{
    lemma_first_accepted(columns, security, 0);
}

/// No candidate is accepted at two different security levels.
pub proof fn lemma_levels_exclusive(trits: Seq<Trit>, one: Security, other: Security)
    requires
        one != other,
    ensures
        !(accepts(trits, one) && accepts(trits, other)),
{
}

/// The CPU implementation of the Hamming-nonce search.
pub struct CpuHam;

impl CpuHam {
    /// The trits to absorb ahead of an input of `len` trits: the low
    /// `LENGTH_TRITS` balanced-ternary digits of `len`, most significant first.
    pub fn length_trits(len: usize) -> (trits: Vec<Trit>)
        ensures
            trits@ == balanced_trits(len as int, LENGTH_TRITS as nat).reverse(),
            valid_trits(trits@),
    {
        let digits = low_digits(len as i128, LENGTH_TRITS);
        let mut trits: Vec<Trit> = Vec::new();
        let mut p: usize = 0;
        while p < LENGTH_TRITS
            invariant
                p <= LENGTH_TRITS,
                digits@.len() == LENGTH_TRITS,
                valid_trits(digits@),
                trits@.len() == p,
                forall|q: int| 0 <= q < p ==> #[trigger] trits@[q] == digits@[LENGTH_TRITS - 1 - q],
            decreases LENGTH_TRITS - p,
        {
            trits.push(digits[LENGTH_TRITS - 1 - p]);
            p = p + 1;
        }
        proof {
            assert(trits@ =~= digits@.reverse());
        }
        trits
    }

    /// Turns the sponge state that absorbing left behind into the columns the
    /// search starts from: the state in every lane, then the counter from 0
    /// over the leading columns, so that every lane begins with another nonce.
    pub fn prepare_search(state: &[Trit]) -> (prepared: Result<Vec<BCTrit>, SearchError>)
        ensures
            match prepared {
                Err(SearchError::InvalidTrit) => !valid_trits(state@),
                Err(SearchError::ShortState) => valid_trits(state@) && state@.len() < OFFSET_TRITS,
                Err(_) => false,
                Ok(columns) => {
                    &&& valid_trits(state@)
                    &&& state@.len() >= OFFSET_TRITS
                    &&& seeded(uniform_columns(state@), columns@, 0)
                    &&& forall|p: int| 0 <= p < columns@.len() ==> column_wf(#[trigger] columns@[p])
                },
            },
    {
        if !trits_are_valid(state) {
            return Err(SearchError::InvalidTrit);
        }
        if state.len() < OFFSET_TRITS {
            return Err(SearchError::ShortState);
        }
        let mut columns = encode(state);
        columns.as_mut_slice().offset(0);
        Ok(columns)
    }

    /// Tests every lane of a permuted column buffer and names the lowest
    /// accepted one. `None` means that the search goes on.
    pub fn check(columns: &[BCTrit], security: Security) -> (lane: Option<usize>)
        ensures
            match lane {
                Some(l) => l < LANES && first_accepted(columns@, security) == Some(l as int),
                None => first_accepted(columns@, security) is None,
            },
    {
        let demux = TrinaryDemultiplexer::new(columns);
        let mut lane: usize = 0;
        while lane < LANES
            invariant
                lane <= LANES,
                demux@ == columns@,
                first_accepted(columns@, security) == first_accepted_from(
                    columns@,
                    security,
                    lane as int,
                ),
            decreases LANES - lane,
        {
            let trits = demux.get(lane);
            if security.accepts(trits.as_slice()) {
                return Some(lane);
            }
            lane = lane + 1;
        }
        None
    }

    /// Checks a request for `length` output trits at the level that
    /// `security` names against a buffer of `columns` columns.
    pub fn validate(columns: usize, length: u8, security: u8) -> (request: Result<
        Security,
        SearchError,
    >)
        ensures
            match request {
                Err(SearchError::InvalidSecurity) => security_of(security as int) is None,
                Err(SearchError::InvalidLength) => security_of(security as int) is Some && (length
                    == 0 || length > columns),
                Err(_) => false,
                Ok(level) => security_of(security as int) == Some(level) && 0 < length <= columns,
            },
    {
        match Security::from_level(security) {
            None => Err(SearchError::InvalidSecurity),
            Some(level) => {
                if length == 0 || length as usize > columns {
                    Err(SearchError::InvalidLength)
                } else {
                    Ok(level)
                }
            },
        }
    }

    /// One round of the search: tests the leading `length` columns of a
    /// permuted buffer at the level that `security` names and hands out the
    /// trits of the lowest accepted lane. `Ok(None)` means that no lane was
    /// accepted and the search goes on.
    pub fn search(columns: &[BCTrit], length: u8, security: u8) -> (found: Result<
        Option<Vec<Trit>>,
        SearchError,
    >)
        ensures
            match found {
                Err(SearchError::InvalidSecurity) => security_of(security as int) is None,
                Err(SearchError::InvalidLength) => security_of(security as int) is Some && (length
                    == 0 || length > columns@.len()),
                Err(_) => false,
                Ok(trits) => {
                    &&& security_of(security as int) is Some
                    &&& 0 < length <= columns@.len()
                    &&& match trits {
                        Some(t) => search_outcome(
                            columns@.take(length as int),
                            security_of(security as int).unwrap(),
                        ) == Some(t@),
                        None => search_outcome(
                            columns@.take(length as int),
                            security_of(security as int).unwrap(),
                        ) is None,
                    }
                },
            },
    {
        let level = match Self::validate(columns.len(), length, security) {
            Ok(level) => level,
            Err(error) => {
                return Err(error);
            },
        };
        let window = slice_subrange(columns, 0, length as usize);
        match Self::check(window, level) {
            Some(lane) => Ok(Some(TrinaryDemultiplexer::new(window).get(lane))),
            None => Ok(None),
        }
    }
}

} // verus!
