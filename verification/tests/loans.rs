use loan_payoff::{pay_loans, pay_loans_all_orderings, round_to_currency, Error, Loan, Rate};

fn loan(name: &str, initial_value: i64, rate: Rate, n: i64, payment: i64) -> Loan {
    Loan::new(name.to_owned(), initial_value, rate, n, payment)
}

fn within_five_cents(a: i64, b: i64) -> bool {
    (a - b).abs() <= 500
}

#[test]
fn payment_formula_matches_stated_payments() {
    // (principal, rate, term, expected payment), amounts in 1/10,000 dollar.
    let cases = [
        (100_000_000, Rate::new(625, 100_000), 48, 2_417_900), // 7.5% annual
        (120_000_000, Rate::new(1_083, 100_000), 36, 4_043_300), // 13% annual
        (120_000_000, Rate::new(2_083, 100_000), 36, 4_771_200), // 25% annual
    ];
    for (initial, rate, n, expected) in cases {
        let l = loan("", initial, rate, n, 0);
        let calculated = round_to_currency(l.calculate_payment_amount());
        assert!(
            within_five_cents(expected, calculated),
            "expected {} to be within 5 cents of {}",
            calculated,
            expected
        );
    }
}

#[test]
fn pay_loan_applies_interest_then_payment() {
    let l = loan("a", 100_000_000, Rate::new(625, 100_000), 48, 2_417_900);
    // One period: $62.50 interest accrues, the full payment is taken.
    let (paid, remaining) = l.pay_loan(100_000_000, 2_417_900);
    assert_eq!(paid, 2_417_900);
    assert_eq!(remaining, 98_207_100);
}

#[test]
fn pay_loan_clamps_the_final_payment() {
    let l = loan("a", 100_000_000, Rate::new(625, 100_000), 48, 2_417_900);
    // $1.00 of balance: a cent of interest accrues, then the balance clears.
    let (paid, remaining) = l.pay_loan(10_000, 2_417_900);
    assert_eq!(paid, 10_100);
    assert_eq!(remaining, 0);
}

#[test]
fn pay_loan_offered_nothing_pays_nothing() {
    let l = loan("a", 100_000_000, Rate::new(625, 100_000), 48, 2_417_900);
    assert_eq!(l.pay_loan(123_400, 0), (0, 0));
}

#[test]
fn zero_extra_still_converges() {
    // Contractual payments alone retire both loans within their terms.
    let loans = vec![
        loan("l1", 100_000_000, Rate::new(625, 100_000), 48, 2_417_900),
        loan("l2", 120_000_000, Rate::new(2_083, 100_000), 36, 4_771_200),
    ];
    let ordering = vec![0, 1];
    let (is_debt_snowball, actual_costs_total, savings_total) =
        pay_loans(&loans, 0, &ordering).unwrap();
    assert!(is_debt_snowball);
    assert_eq!(actual_costs_total, 287_094_700);
    assert_eq!(savings_total, 727_700);
}

#[test]
fn reversed_ordering_changes_the_outcome() {
    let loans = vec![
        loan("l1", 100_000_000, Rate::new(625, 100_000), 48, 2_417_900),
        loan("l2", 120_000_000, Rate::new(8, 1_200), 48, 2_929_600),
    ];
    let ordering = vec![1, 0];
    let (is_debt_snowball, actual_costs_total, savings_total) =
        pay_loans(&loans, 1_000_000, &ordering).unwrap();
    assert!(!is_debt_snowball);
    assert_eq!(actual_costs_total, 250_007_400);
    assert_eq!(savings_total, 6_672_600);
}

#[test]
fn mismatched_payment_is_rejected() {
    // The stated payment is far from the amortization payment of $241.79.
    let loans = vec![loan("bad", 100_000_000, Rate::new(625, 100_000), 48, 2_000_000)];
    let ordering = vec![0];
    assert!(matches!(
        pay_loans(&loans, 1_000_000, &ordering),
        Err(Error::InvalidLoan(0))
    ));
    assert!(matches!(
        pay_loans_all_orderings(&loans, 1_000_000),
        Err(Error::InvalidLoan(0))
    ));
}

#[test]
fn underpaying_loan_never_converges() {
    // Five cents under the amortization payment is still accepted as valid,
    // but without any extra amount the balance outlives the term.
    let loans = vec![loan("slow", 100_000_000, Rate::new(625, 100_000), 48, 2_417_400)];
    let ordering = vec![0];
    assert!(matches!(
        pay_loans(&loans, 0, &ordering),
        Err(Error::LoanGoesToInf)
    ));
    assert!(matches!(
        pay_loans_all_orderings(&loans, 0),
        Err(Error::LoanGoesToInf)
    ));
}

#[test]
fn names_do_not_change_the_outcome() {
    let a = vec![
        loan("car", 100_000_000, Rate::new(625, 100_000), 48, 2_417_900),
        loan("card", 120_000_000, Rate::new(2_083, 100_000), 36, 4_771_200),
    ];
    let b = vec![
        loan("first", 100_000_000, Rate::new(625, 100_000), 48, 2_417_900),
        loan("second", 120_000_000, Rate::new(2_083, 100_000), 36, 4_771_200),
    ];
    let ordering = vec![0, 1];
    let ra = pay_loans(&a, 1_000_000, &ordering).unwrap();
    let rb = pay_loans(&b, 1_000_000, &ordering).unwrap();
    assert_eq!(ra, rb);
    let oa = pay_loans_all_orderings(&a, 1_000_000).unwrap();
    let ob = pay_loans_all_orderings(&b, 1_000_000).unwrap();
    assert_eq!(oa.ordering, ob.ordering);
    assert_eq!(oa.savings, ob.savings);
    assert_eq!(oa.is_debt_snowball, ob.is_debt_snowball);
    assert_eq!(oa.savings_over_debt_snowball, ob.savings_over_debt_snowball);
}

#[test]
fn evaluation_is_deterministic() {
    let loans = vec![
        loan("l1", 100_000_000, Rate::new(625, 100_000), 48, 2_417_900),
        loan("l2", 120_000_000, Rate::new(2_083, 100_000), 36, 4_771_200),
    ];
    let ordering = vec![1, 0];
    let first = pay_loans(&loans, 1_000_000, &ordering).unwrap();
    let second = pay_loans(&loans, 1_000_000, &ordering).unwrap();
    assert_eq!(first, second);
}

#[test]
fn single_loan_with_no_extra_never_overpays() {
    let loans = vec![loan("only", 100_000_000, Rate::new(625, 100_000), 48, 2_417_900)];
    let ordering = vec![0];
    let (_, actual_costs_total, savings_total) = pay_loans(&loans, 0, &ordering).unwrap();
    let expected_total = round_to_currency(2_417_900 * 48);
    assert!(actual_costs_total <= expected_total);
    assert!(savings_total >= 0);
}
