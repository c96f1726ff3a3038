use loan_payoff::{pay_loans, pay_loans_all_orderings, Loan, Rate};

#[test]
fn basic_payoff() {
    let loan1 = Loan {
        name: "l1".to_owned(),
        initial_value: 100_000_000,
        rate: Rate { num: 625, den: 100_000 }, // 7.5% annual
        number_of_payments: 48,
        payment_amount: 2_417_900,
    };
    let loan2 = Loan {
        name: "l2".to_owned(),
        initial_value: 120_000_000,
        rate: Rate { num: 2_083, den: 100_000 }, // 25% annual
        number_of_payments: 36,
        payment_amount: 4_771_200,
    };
    let loans = vec![loan1, loan2];
    let extra_amount: i64 = 1_000_000;
    let mut ordering = vec![0; loans.len()];
    for i in 0..ordering.len() {
        ordering[i] = i
    }
    let (is_debt_snowball, actual_costs_total, savings_total) =
        pay_loans(&loans, extra_amount, &ordering).unwrap();

    assert!(is_debt_snowball);
    assert!(actual_costs_total == 282_449_000);
    assert!(savings_total == 5_373_400);
}

#[test]
fn outperform_debt_snowball() {
    let loan1 = Loan {
        name: "l1".to_owned(),
        initial_value: 100_000_000,
        rate: Rate { num: 625, den: 100_000 }, // 7.5% annual
        number_of_payments: 48,
        payment_amount: 2_417_900,
    };
    let loan2 = Loan {
        name: "l2".to_owned(),
        initial_value: 120_000_000,
        rate: Rate { num: 8, den: 1_200 }, // 8% annual
        number_of_payments: 48,
        payment_amount: 2_929_600,
    };
    let loans = vec![loan1, loan2];
    let extra_amount: i64 = 1_000_000;
    let optimal_payoff = pay_loans_all_orderings(&loans, extra_amount).unwrap();

    assert!(optimal_payoff.is_debt_snowball == false);
    assert!(optimal_payoff.savings_over_debt_snowball == 321_500);
    assert!(optimal_payoff.savings == 6_672_600);
    assert!(optimal_payoff.ordering.get(0) == Some(&1));
    assert!(optimal_payoff.ordering.get(1) == Some(&0));
}
