use loan_payoff::{round_to_currency, round_to_decimals};

// Amounts are in units of 1/10,000 dollar: 40_010 units is 4.001 dollars.

#[test]
fn currency_drops_a_tenth_of_a_cent() {
    assert_eq!(round_to_currency(40_010), 40_000); // 4.001 -> 4.00
}

#[test]
fn currency_keeps_whole_cents() {
    assert_eq!(round_to_currency(40_110), 40_100); // 4.011 -> 4.01
}

#[test]
fn currency_rounds_up_at_the_cent_boundary() {
    assert_eq!(round_to_currency(40_990), 41_000); // 4.099 -> 4.10
}

#[test]
fn currency_ties_go_away_from_zero() {
    assert_eq!(round_to_currency(150), 200); // 1.5 cents -> 2 cents
    assert_eq!(round_to_currency(-150), -200);
}

#[test]
fn currency_rounding_is_idempotent_on_samples() {
    for v in [40_010i64, 40_990, 150, -150, 0, 123_456_789] {
        let once = round_to_currency(v);
        assert_eq!(round_to_currency(once), once);
    }
}

#[test]
fn decimals_follow_the_requested_precision() {
    assert_eq!(round_to_decimals(40_010, 0), 40_000); // 4.001 -> 4
    assert_eq!(round_to_decimals(40_010, 1), 40_000);
    assert_eq!(round_to_decimals(40_010, 2), 40_000);
    assert_eq!(round_to_decimals(40_010, 3), 40_010); // kept at 3 places
    assert_eq!(round_to_decimals(40_010, 4), 40_010);
}
