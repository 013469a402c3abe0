use curl_cpu::num::{int2trits, trits2int};
use curl_cpu::trits::Trit;

#[test]
fn int2trits_small_values() {
    assert_eq!(int2trits(0, 3), vec![0, 0, 0]);
    assert_eq!(int2trits(1, 3), vec![1, 0, 0]);
    assert_eq!(int2trits(2, 3), vec![-1, 1, 0]);
    assert_eq!(int2trits(5, 4), vec![-1, -1, 1, 0]);
    assert_eq!(int2trits(-5, 4), vec![1, 1, -1, 0]);
    assert_eq!(int2trits(63, 4), vec![0, 0, 1, -1]);
    assert_eq!(int2trits(40, 4), vec![1, 1, 1, 1]);
    assert_eq!(int2trits(-40, 4), vec![-1, -1, -1, -1]);
    assert_eq!(int2trits(7, 0), Vec::<Trit>::new());
}

#[test]
fn int2trits_keeps_the_low_digits() {
    // 41 = 81 - 40
    assert_eq!(int2trits(41, 4), vec![-1, -1, -1, -1]);
    assert_eq!(int2trits(41, 5), vec![-1, -1, -1, -1, 1]);
    assert_eq!(int2trits(81, 4), vec![0, 0, 0, 0]);
}

#[test]
fn trits2int_small_values() {
    assert_eq!(trits2int(&[]), 0);
    assert_eq!(trits2int(&[1]), 1);
    assert_eq!(trits2int(&[-1]), -1);
    assert_eq!(trits2int(&[-1, 1]), 2);
    assert_eq!(trits2int(&[0, 0, 1, -1]), -18);
    assert_eq!(trits2int(&[1, 1, 1, 1]), 40);
    assert_eq!(trits2int(&[0, 0, 0, 0, 1]), 81);
}

#[test]
fn conversion_round_trips() {
    for v in -3000isize..3000 {
        let trits = int2trits(v, 9);
        assert_eq!(trits.len(), 9);
        assert_eq!(trits2int(&trits), v);
    }
}

#[test]
fn int2trits_at_the_ends_of_the_range() {
    for v in [isize::MAX, isize::MIN, isize::MAX - 1, isize::MIN + 1] {
        let trits = int2trits(v, 41);
        let mut value: i128 = 0;
        for trit in trits.iter().rev() {
            assert!(-1 <= *trit && *trit <= 1);
            value = value * 3 + *trit as i128;
        }
        assert_eq!(value, v as i128);
    }
}
