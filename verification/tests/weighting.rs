use exom::weights::add_sat;
use exom::weights::idf_milli;
use exom::weights::mul_sat;

#[test]
fn idf_is_one_when_every_note_holds_the_term() {
    // ln(1) = 0, so the weight factor is exactly 1.0
    assert_eq!(idf_milli(4, 4), 1000);
    assert_eq!(idf_milli(1, 1), 1000);
}

#[test]
fn idf_of_a_term_in_no_note_of_one() {
    // ln((1 + 1) / (0 + 1)) + 1 = ln 2 + 1, which is 1.693 in milli units
    assert_eq!(idf_milli(0, 1), 1693);
}

#[test]
fn idf_never_falls_below_one() {
    for df in 0..8u64 {
        assert!(idf_milli(df, 7.max(df)) >= 1000);
    }
}

#[test]
fn saturating_arithmetic_stops_at_the_largest_value() {
    assert_eq!(add_sat(u64::MAX - 1, 5), u64::MAX);
    assert_eq!(add_sat(2, 3), 5);
    assert_eq!(mul_sat(u64::MAX / 2, 3), u64::MAX);
    assert_eq!(mul_sat(6, 7), 42);
    assert_eq!(mul_sat(0, u64::MAX), 0);
}
