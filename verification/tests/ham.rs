use curl_cpu::ham::{CpuHam, SearchError, Security, LENGTH_TRITS};
use curl_cpu::mux::{encode, write_lane, TrinaryDemultiplexer};
use curl_cpu::offset::{Offset, OFFSET_TRITS};
use curl_cpu::trits::{BCTrit, Trit, LANES};

#[test]
fn security_levels_are_one_two_three() {
    assert_eq!(Security::from_level(1), Some(Security::Low));
    assert_eq!(Security::from_level(2), Some(Security::Medium));
    assert_eq!(Security::from_level(3), Some(Security::High));
    assert_eq!(Security::from_level(0), None);
    assert_eq!(Security::from_level(4), None);
    assert_eq!(Security::from_level(255), None);
    assert_eq!(Security::Low.level(), 1);
    assert_eq!(Security::Medium.level(), 2);
    assert_eq!(Security::High.level(), 3);
}

#[test]
fn level_one_looks_at_the_first_third_only() {
    for rest in [[0, 0, 0, 0, 0, 0], [1, 1, 1, 1, 1, 1], [-1, -1, -1, 1, 0, -1]] {
        let mut trits: Vec<Trit> = vec![1, -1, 0];
        trits.extend_from_slice(&rest);
        assert!(Security::Low.accepts(&trits));
        assert!(!Security::Medium.accepts(&trits));
        assert!(!Security::High.accepts(&trits));
    }
    assert!(!Security::Low.accepts(&[1, 0, 0, -1, 0, 0, 0, 0, 0]));
}

#[test]
fn level_two_needs_the_first_third_unbalanced() {
    let trits: [Trit; 9] = [1, 1, 0, -1, -1, 0, 1, 1, 1];
    assert!(!Security::Low.accepts(&trits));
    assert!(Security::Medium.accepts(&trits));
    assert!(!Security::High.accepts(&trits));
    // Balanced over two thirds, but over the first third too.
    assert!(!Security::Medium.accepts(&[1, -1, 0, 1, -1, 0, 1, 1, 1]));
}

#[test]
fn level_three_needs_both_shorter_sums_unbalanced() {
    let trits: [Trit; 9] = [1, 1, 1, 0, 0, 0, -1, -1, -1];
    assert!(!Security::Low.accepts(&trits));
    assert!(!Security::Medium.accepts(&trits));
    assert!(Security::High.accepts(&trits));
    assert!(!Security::High.accepts(&[1, 1, 1, 0, 0, 0, -1, -1, 0]));
}

#[test]
fn no_sequence_is_accepted_at_two_levels() {
    let mut trits: [Trit; 6] = [-1; 6];
    loop {
        let accepted = [Security::Low, Security::Medium, Security::High]
            .iter()
            .filter(|level| level.accepts(&trits))
            .count();
        assert!(accepted <= 1);
        let mut p = 0;
        while p < 6 && trits[p] == 1 {
            trits[p] = -1;
            p += 1;
        }
        if p == 6 {
            break;
        }
        trits[p] += 1;
    }
}

#[test]
fn thirds_of_a_length_not_divisible_by_three() {
    // 11 trits: a third is 3 trits, so the first two thirds are 6.
    let trits: [Trit; 11] = [1, 0, 0, 0, 0, -1, 1, 1, 1, 1, 1];
    assert!(Security::Medium.accepts(&trits));
    let trits: [Trit; 11] = [1, 0, 0, 0, 0, 0, -1, 1, 1, 1, 1];
    assert!(!Security::Medium.accepts(&trits));
    // Shorter than three trits: the first third is empty and sums to zero.
    assert!(Security::Low.accepts(&[1, 1]));
    assert!(Security::Low.accepts(&[]));
    assert!(!Security::High.accepts(&[]));
}

#[test]
fn thirds_of_five_trits_are_one_trit_each() {
    // Sums over 1, 2 and 5 trits: 1, 1, 0.
    let trits: [Trit; 5] = [1, 0, -1, 0, 0];
    assert!(!Security::Low.accepts(&trits));
    assert!(!Security::Medium.accepts(&trits));
    assert!(Security::High.accepts(&trits));
    // Sums over 1 and 2 trits: 1, 0. The third trit is not looked at.
    let trits: [Trit; 5] = [1, -1, 1, 0, 0];
    assert!(!Security::Low.accepts(&trits));
    assert!(Security::Medium.accepts(&trits));
    assert!(!Security::High.accepts(&trits));
    // Eight trits: the first two thirds are 4, the fifth trit is past them.
    let trits: [Trit; 8] = [1, 0, 0, -1, 1, 0, 0, 0];
    assert!(Security::Medium.accepts(&trits));
    assert!(!Security::High.accepts(&trits));
}

#[test]
fn search_cuts_five_columns_into_thirds_of_one() {
    let columns = encode(&[1, 0, -1, 0, 0]);
    assert_eq!(CpuHam::search(&columns, 5, 1), Ok(None));
    assert_eq!(CpuHam::search(&columns, 5, 2), Ok(None));
    assert_eq!(CpuHam::search(&columns, 5, 3), Ok(Some(vec![1, 0, -1, 0, 0])));
    assert_eq!(CpuHam::check(&columns, Security::High), Some(0));
    let columns = encode(&[1, -1, 1, 0, 0]);
    assert_eq!(CpuHam::search(&columns, 5, 1), Ok(None));
    assert_eq!(CpuHam::search(&columns, 5, 2), Ok(Some(vec![1, -1, 1, 0, 0])));
    assert_eq!(CpuHam::search(&columns, 5, 3), Ok(None));
}

#[test]
fn check_names_the_lowest_accepted_lane() {
    let rejected: Vec<Trit> = vec![1, 1, 1, 0, 0, 0, 0, 0, 0];
    let accepted: Vec<Trit> = vec![1, -1, 0, 1, 1, 1, 1, 1, 1];
    let mut columns = encode(&rejected);
    assert_eq!(CpuHam::check(&columns, Security::Low), None);
    write_lane(&mut columns, 9, &accepted);
    assert_eq!(CpuHam::check(&columns, Security::Low), Some(9));
    write_lane(&mut columns, 5, &accepted);
    assert_eq!(CpuHam::check(&columns, Security::Low), Some(5));
    write_lane(&mut columns, 63, &accepted);
    assert_eq!(CpuHam::check(&columns, Security::Low), Some(5));
    assert_eq!(CpuHam::check(&columns, Security::Medium), None);
    assert_eq!(CpuHam::check(&encode(&accepted), Security::Low), Some(0));
}

#[test]
fn check_finds_the_last_lane() {
    let rejected: Vec<Trit> = vec![1, 1, 1, 0, 0, 0];
    let mut columns = encode(&rejected);
    write_lane(&mut columns, 63, &[1, 1, 1, -1, -1, -1]);
    assert_eq!(CpuHam::check(&columns, Security::High), Some(63));
    assert_eq!(CpuHam::check(&columns, Security::Low), None);
}

#[test]
fn search_hands_out_the_accepted_lane() {
    let rejected: Vec<Trit> = vec![1, 1, 1, 0, 0, 0, 0, 0, 0, 1, -1, 1];
    let mut columns = encode(&rejected);
    write_lane(&mut columns, 17, &[1, 0, -1, 1, 1, 1, 0, 1, 1, -1]);
    assert_eq!(
        CpuHam::search(&columns, 9, 1),
        Ok(Some(vec![1, 0, -1, 1, 1, 1, 0, 1, 1]))
    );
    assert_eq!(CpuHam::search(&columns, 9, 2), Ok(None));
    // With twelve trits the first third has four, and lane 17 no longer balances.
    assert_eq!(CpuHam::search(&columns, 12, 1), Ok(None));
}

#[test]
fn search_rejects_bad_requests() {
    let columns: Vec<BCTrit> = vec![(0, 0); 9];
    assert_eq!(CpuHam::search(&columns, 9, 0), Err(SearchError::InvalidSecurity));
    assert_eq!(CpuHam::search(&columns, 9, 4), Err(SearchError::InvalidSecurity));
    assert_eq!(CpuHam::search(&columns, 0, 1), Err(SearchError::InvalidLength));
    assert_eq!(CpuHam::search(&columns, 10, 3), Err(SearchError::InvalidLength));
    assert_eq!(CpuHam::search(&columns, 0, 9), Err(SearchError::InvalidSecurity));
    assert_eq!(CpuHam::search(&columns, 9, 1), Ok(Some(vec![0; 9])));
    assert_eq!(CpuHam::search(&[], 1, 1), Err(SearchError::InvalidLength));
}

#[test]
fn validate_checks_level_then_length() {
    assert_eq!(CpuHam::validate(243, 243, 1), Ok(Security::Low));
    assert_eq!(CpuHam::validate(243, 1, 2), Ok(Security::Medium));
    assert_eq!(CpuHam::validate(243, 81, 3), Ok(Security::High));
    assert_eq!(CpuHam::validate(243, 244, 1), Err(SearchError::InvalidLength));
    assert_eq!(CpuHam::validate(243, 0, 1), Err(SearchError::InvalidLength));
    assert_eq!(CpuHam::validate(0, 1, 1), Err(SearchError::InvalidLength));
    assert_eq!(CpuHam::validate(243, 243, 0), Err(SearchError::InvalidSecurity));
    assert_eq!(CpuHam::validate(243, 0, 4), Err(SearchError::InvalidSecurity));
    assert_eq!(CpuHam::validate(1000, 255, 3), Ok(Security::High));
}

#[test]
fn length_trits_put_the_most_significant_trit_first() {
    assert_eq!(LENGTH_TRITS, 12);
    assert_eq!(CpuHam::length_trits(0), vec![0; 12]);
    assert_eq!(CpuHam::length_trits(1), vec![0, 0, 0, 0, 0, 0, 0, 0, 0, 0, 0, 1]);
    assert_eq!(CpuHam::length_trits(5), vec![0, 0, 0, 0, 0, 0, 0, 0, 0, 1, -1, -1]);
    assert_eq!(CpuHam::length_trits(243), vec![0, 0, 0, 0, 0, 0, 1, 0, 0, 0, 0, 0]);
    // (3^12 - 1) / 2 is the largest length that twelve trits hold.
    assert_eq!(CpuHam::length_trits(265720), vec![1; 12]);
    assert_eq!(CpuHam::length_trits(265721), vec![-1; 12]);
}

#[test]
fn prepare_search_seeds_the_counter_over_the_state() {
    let state: Vec<Trit> = vec![1, 1, 1, 1, -1, 0, 1, 0, -1];
    let columns = CpuHam::prepare_search(&state).unwrap();
    assert_eq!(columns.len(), 9);
    let demux = TrinaryDemultiplexer::new(&columns);
    assert_eq!(demux.get(0), vec![0, 0, 0, 0, -1, 0, 1, 0, -1]);
    assert_eq!(demux.get(5), vec![-1, -1, 1, 0, -1, 0, 1, 0, -1]);
    assert_eq!(demux.get(63), vec![0, 0, 1, -1, -1, 0, 1, 0, -1]);
    let mut expected = encode(&state);
    expected.as_mut_slice().offset(0);
    assert_eq!(columns, expected);
}

#[test]
fn prepare_search_rejects_a_bad_state() {
    assert_eq!(CpuHam::prepare_search(&[0, 1, 2, 0, 0]), Err(SearchError::InvalidTrit));
    assert_eq!(CpuHam::prepare_search(&[0, -2]), Err(SearchError::InvalidTrit));
    assert_eq!(CpuHam::prepare_search(&[0, 1, -1]), Err(SearchError::ShortState));
    assert_eq!(CpuHam::prepare_search(&[]), Err(SearchError::ShortState));
    assert!(CpuHam::prepare_search(&[0, 1, -1, 0]).is_ok());
}

#[test]
fn length_trits_of_the_largest_length() {
    let trits = CpuHam::length_trits(usize::MAX);
    let mut value: i128 = 0;
    for trit in &trits {
        value = value * 3 + *trit as i128;
    }
    assert_eq!(trits.len(), 12);
    assert_eq!((usize::MAX as i128 - value) % 531441, 0);
}

fn flip(columns: &mut [BCTrit]) {
    for column in columns[OFFSET_TRITS..].iter_mut() {
        *column = (column.1, column.0);
    }
}

#[test]
fn search_without_an_accepted_lane_is_exhausted() {
    // Five +1 trits follow the counter in the first third, so the sum of
    // nine trits stays at 1 or above; flipped, at -1 or below.
    let state: Vec<Trit> = vec![1; 27];
    let mut columns = CpuHam::prepare_search(&state).unwrap();
    let mut found = None;
    for _ in 0..50 {
        flip(&mut columns);
        match CpuHam::search(&columns, 27, 1) {
            Ok(Some(trits)) => {
                found = Some(trits);
                break;
            }
            Ok(None) => {}
            Err(error) => panic!("{:?}", error),
        }
    }
    assert_eq!(found, None);
}

#[test]
fn run_testsuite() {
    // A stand-in for the permutation: every round moves the counter on by
    // the number of lanes.
    let state: Vec<Trit> = vec![0; 9];
    for security in 1u8..=3 {
        let level = Security::from_level(security).unwrap();
        let mut columns = CpuHam::prepare_search(&state).unwrap();
        let mut found = None;
        for round in 1..=3 {
            columns.as_mut_slice().offset(round * LANES as isize);
            if let Some(trits) = CpuHam::search(&columns, 9, security).unwrap() {
                found = Some(trits);
                break;
            }
        }
        match security {
            // 73 = 81 - 9 + 1 is the first counter value from 64 on whose low
            // three digits balance; it sits in lane 9.
            1 => assert_eq!(found, Some(vec![1, 0, -1, 0, 0, 0, 0, 0, 0])),
            // 65 = 81 - 27 + 9 + 3 - 1 balances over four digits, not over three.
            2 => assert_eq!(found, Some(vec![-1, 1, 1, -1, 0, 0, 0, 0, 0])),
            // The trits past the counter are zero, so the whole sum is the
            // sum of the first two thirds.
            _ => assert_eq!(found, None),
        }
        if let Some(trits) = found {
            assert!(level.accepts(&trits));
        }
    }
}
