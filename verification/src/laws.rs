//! Laws of the evaluation model: properties that hold of every input, each
//! proved against the specification functions that the executable
//! functions' contracts speak of.

use vstd::prelude::*;
use vstd::arithmetic::div_mod::lemma_add_mod_noop;
use vstd::arithmetic::div_mod::lemma_sub_mod_noop;
use vstd::arithmetic::div_mod::lemma_mul_mod_noop_left;
use vstd::arithmetic::div_mod::lemma_mod_multiples_basic;
use vstd::arithmetic::div_mod::lemma_fundamental_div_mod;
use crate::loan::Loan;
use crate::evaluate::{
    loan_valid, first_invalid_from, ordering_is_snowball, max_periods_prefix, initial_balances,
    expected_costs, walk_from, sim_from, total_over, evaluate_ordering, SimOutcome, SimRun,
    pay_loans_post,
};
use crate::money::{spec_round_to_currency, lemma_round_of_multiple, lemma_round_to_currency_close};
use crate::search::lemma_valid_all_orderings;
use crate::Error;

verus! {

/// When every loan's stated payment is within five cents of its computed
/// amortization payment, evaluating any ordering of them never reports an
/// invalid loan: validation can only reject a loan whose payment is off.
pub proof fn lemma_valid_loans_never_rejected(loans: Seq<Loan>, extra: int, ordering: Seq<usize>)
    requires
        forall|i: int| 0 <= i < loans.len() ==> loan_valid(#[trigger] loans[i]),
        forall|t: int| 0 <= t < ordering.len() ==> (#[trigger] ordering[t]) < loans.len(),
    ensures
        !(evaluate_ordering(loans, extra, ordering) is Invalid),
{
    lemma_valid_all_orderings(loans, ordering, 0);
}

/// Evaluating an ordering is a function of its inputs alone: two results
/// that both satisfy the contract of [`crate::evaluate::pay_loans`] on the
/// same inputs are the same result. There is no hidden state, so repeating
/// an evaluation repeats its totals.
pub proof fn lemma_evaluation_deterministic(
    loans: Seq<Loan>,
    extra: int,
    ordering: Seq<usize>,
    r1: Result<(bool, i64, i64), Error>,
    r2: Result<(bool, i64, i64), Error>,
)
    requires
        pay_loans_post(loans, extra, ordering, r1),
        pay_loans_post(loans, extra, ordering, r2),
    ensures
        r1 == r2,
{
    match (r1, r2) {
        (Ok(t1), Ok(t2)) => {
            assert(t1.1 as int == t2.1 as int);
            assert(t1.2 as int == t2.2 as int);
        },
        (Err(Error::InvalidLoan(i1)), Err(Error::InvalidLoan(i2))) => {
            assert(i1 as int == i2 as int);
        },
        _ => {},
    }
}

/// Two loan sets that agree on every numeric term, whatever their names.
pub open spec fn same_terms(l1: Seq<Loan>, l2: Seq<Loan>) -> bool {
    &&& l1.len() == l2.len()
    &&& (forall|i: int|
        0 <= i < l1.len() ==> {
            &&& (#[trigger] l1[i]).initial_value == l2[i].initial_value
            &&& l1[i].rate == l2[i].rate
            &&& l1[i].number_of_payments == l2[i].number_of_payments
            &&& l1[i].payment_amount == l2[i].payment_amount
        })
}

proof fn lemma_terms_first_invalid(l1: Seq<Loan>, l2: Seq<Loan>, ordering: Seq<usize>, k: int)
    requires
        same_terms(l1, l2),
        forall|t: int| 0 <= t < ordering.len() ==> (#[trigger] ordering[t]) < l1.len(),
    ensures
        first_invalid_from(l1, ordering, k) == first_invalid_from(l2, ordering, k),
    decreases ordering.len() - k,
{
    if 0 <= k < ordering.len() {
        assert(loan_valid(l1[ordering[k] as int]) == loan_valid(l2[ordering[k] as int]));
        lemma_terms_first_invalid(l1, l2, ordering, k + 1);
    }
}

proof fn lemma_terms_max_periods(l1: Seq<Loan>, l2: Seq<Loan>, ordering: Seq<usize>, k: int)
    requires
        same_terms(l1, l2),
        forall|t: int| 0 <= t < ordering.len() ==> (#[trigger] ordering[t]) < l1.len(),
        k <= ordering.len(),
    ensures
        max_periods_prefix(l1, ordering, k) == max_periods_prefix(l2, ordering, k),
    decreases k,
{
    if k > 0 {
        lemma_terms_max_periods(l1, l2, ordering, k - 1);
    }
}

proof fn lemma_terms_walk(
    l1: Seq<Loan>,
    l2: Seq<Loan>,
    ordering: Seq<usize>,
    k: int,
    bal: Seq<int>,
    act: Seq<int>,
    pool: int,
    extra: int,
)
    requires
        same_terms(l1, l2),
        forall|t: int| 0 <= t < ordering.len() ==> (#[trigger] ordering[t]) < l1.len(),
    ensures
        walk_from(l1, ordering, k, bal, act, pool, extra) == walk_from(
            l2,
            ordering,
            k,
            bal,
            act,
            pool,
            extra,
        ),
    decreases ordering.len() - k,
{
    if 0 <= k < ordering.len() {
        let ix = ordering[k] as int;
        if bal[ix] > 0 {
            let offered = l1[ix].payment_amount + pool;
            let step = crate::loan::spec_pay_loan(
                l1[ix].rate.num as int,
                l1[ix].rate.den as int,
                bal[ix],
                offered,
            );
            let bal2 = bal.update(ix, step.1);
            let act2 = act.update(ix, spec_round_to_currency(act[ix] + step.0));
            let pool2 = step.0 - offered;
            let extra2 = if step.1 == 0 {
                spec_round_to_currency(extra + l1[ix].payment_amount)
            } else {
                extra
            };
            lemma_terms_walk(l1, l2, ordering, k + 1, bal2, act2, pool2, extra2);
        } else {
            lemma_terms_walk(l1, l2, ordering, k + 1, bal, act, pool, extra);
        }
    }
}

proof fn lemma_terms_sim(
    l1: Seq<Loan>,
    l2: Seq<Loan>,
    ordering: Seq<usize>,
    bal: Seq<int>,
    act: Seq<int>,
    extra: int,
    left: nat,
)
    requires
        same_terms(l1, l2),
        forall|t: int| 0 <= t < ordering.len() ==> (#[trigger] ordering[t]) < l1.len(),
    ensures
        sim_from(l1, ordering, bal, act, extra, left) == sim_from(
            l2,
            ordering,
            bal,
            act,
            extra,
            left,
        ),
    decreases left,
{
    if crate::evaluate::has_active(bal, ordering) && left > 0 && !crate::evaluate::over_limit(
        bal,
        ordering,
    ) && !(extra > crate::evaluate::POOL_LIMIT || extra < -(crate::evaluate::POOL_LIMIT as int)) {
        lemma_terms_walk(l1, l2, ordering, 0, bal, act, extra, extra);
        let stepped = walk_from(l1, ordering, 0, bal, act, extra, extra);
        lemma_terms_sim(l1, l2, ordering, stepped.0, stepped.1, stepped.2, (left - 1) as nat);
    }
}

/// Loan names are immaterial: two loan sets with the same numeric terms
/// evaluate every ordering to the same outcome, so savings, totals, and the
/// structure of the result depend only on the numbers.
pub proof fn lemma_names_immaterial(
    l1: Seq<Loan>,
    l2: Seq<Loan>,
    extra: int,
    ordering: Seq<usize>,
)
    requires
        same_terms(l1, l2),
        forall|t: int| 0 <= t < ordering.len() ==> (#[trigger] ordering[t]) < l1.len(),
    ensures
        evaluate_ordering(l1, extra, ordering) == evaluate_ordering(l2, extra, ordering),
{
    lemma_terms_first_invalid(l1, l2, ordering, 0);
    assert(ordering_is_snowball(l1, ordering) == ordering_is_snowball(l2, ordering)) by {
        if ordering_is_snowball(l1, ordering) {
            assert forall|k: int| 0 <= k && k + 1 < ordering.len() implies l2[#[trigger] ordering[k] as int].initial_value
                <= l2[ordering[k + 1] as int].initial_value by {
                assert(l1[ordering[k] as int].initial_value <= l1[ordering[k
                    + 1] as int].initial_value);
            }
        }
        if ordering_is_snowball(l2, ordering) {
            assert forall|k: int| 0 <= k && k + 1 < ordering.len() implies l1[#[trigger] ordering[k] as int].initial_value
                <= l1[ordering[k + 1] as int].initial_value by {
                assert(l2[ordering[k] as int].initial_value <= l2[ordering[k
                    + 1] as int].initial_value);
            }
        }
    }
    lemma_terms_max_periods(l1, l2, ordering, ordering.len() as int);
    assert(initial_balances(l1, ordering) =~= initial_balances(l2, ordering));
    assert(expected_costs(l1, ordering) =~= expected_costs(l2, ordering));
    let maxp = max_periods_prefix(l1, ordering, ordering.len() as int);
    let zeros = Seq::new(l1.len(), |i: int| 0int);
    assert(Seq::new(l2.len(), |i: int| 0int) =~= zeros);
    lemma_terms_sim(
        l1,
        l2,
        ordering,
        initial_balances(l1, ordering),
        zeros,
        extra,
        maxp as nat,
    );
}

/// Two whole-cent amounts within half a cent of each other are ordered.
proof fn lemma_multiple_close_le(a: int, b: int)
    requires
        a % 100 == 0,
        b % 100 == 0,
        a < b + 50,
    ensures
        a <= b,
{
    lemma_fundamental_div_mod(a, 100);
    lemma_fundamental_div_mod(b, 100);
}

/// One simulation period of a single loan with no extra amount pays at
/// most the contractual payment, in whole cents.
proof fn lemma_single_sim_bounded(
    loans: Seq<Loan>,
    ordering: Seq<usize>,
    bal: Seq<int>,
    act: Seq<int>,
    extra: int,
    left: nat,
)
    requires
        loans.len() == 1,
        ordering.len() == 1,
        ordering[0] == 0usize,
        bal.len() == 1,
        act.len() == 1,
        loans[0].rate.well_formed(),
        loans[0].payment_amount >= 0,
        loans[0].payment_amount % 100 == 0,
        act[0] % 100 == 0,
        crate::evaluate::has_active(bal, ordering) ==> extra == 0,
    ensures
        match sim_from(loans, ordering, bal, act, extra, left) {
            SimRun::Done { costs } => costs.len() == 1 && costs[0] % 100 == 0 && costs[0] <= act[0]
                + left * (loans[0].payment_amount as int),
            SimRun::Diverged => true,
        },
    decreases left,
{
    let pay = loans[0].payment_amount as int;
    let num = loans[0].rate.num as int;
    let den = loans[0].rate.den as int;
    if !crate::evaluate::has_active(bal, ordering) {
        assert(left * pay >= 0) by (nonlinear_arith)
            requires
                left >= 0,
                pay >= 0;
    } else if left == 0 || crate::evaluate::over_limit(bal, ordering) || extra
        > crate::evaluate::POOL_LIMIT || extra < -(crate::evaluate::POOL_LIMIT as int) {
    } else {
        let k0 = choose|k: int| 0 <= k < ordering.len() && bal[#[trigger] ordering[k] as int] > 0;
        assert(k0 == 0);
        assert(bal[0] > 0);
        let step = crate::loan::spec_pay_loan(num, den, bal[0], pay);
        let paid = step.0;
        let nb = step.1;
        if pay == 0 {
            assert(paid == 0 && nb == 0);
        } else {
            crate::loan::lemma_interest_bounds(bal[0], num, den);
            let pv1 = bal[0] + crate::loan::spec_interest(bal[0], num, den);
            let rounded = spec_round_to_currency(pv1);
            lemma_round_to_currency_close(pv1);
            lemma_mod_multiples_basic(
                crate::money::div_nearest(pv1, 100),
                100,
            );
            assert(rounded % 100 == 0);
            if pay > pv1 {
                assert(paid == rounded);
                lemma_multiple_close_le(rounded, pay);
                assert(0 <= paid <= pay);
            } else {
                assert(paid == pay);
            }
        }
        assert(0 <= paid <= pay && paid % 100 == 0);
        lemma_add_mod_noop(act[0], paid, 100);
        lemma_round_of_multiple(act[0] + paid);
        let act2 = act.update(0, spec_round_to_currency(act[0] + paid));
        assert(act2[0] == act[0] + paid);
        let bal2 = bal.update(0, nb);
        let extra2 = if nb == 0 {
            spec_round_to_currency(extra + pay)
        } else {
            extra
        };
        let stepped = walk_from(loans, ordering, 0, bal, act, extra, extra);
        assert(stepped == walk_from(loans, ordering, 1, bal2, act2, paid - pay, extra2));
        assert(stepped.0 == bal2 && stepped.1 == act2 && stepped.2 == extra2);
        assert(crate::evaluate::has_active(bal2, ordering) ==> extra2 == 0) by {
            if crate::evaluate::has_active(bal2, ordering) {
                let k1 = choose|k: int|
                    0 <= k < ordering.len() && bal2[#[trigger] ordering[k] as int] > 0;
                assert(k1 == 0);
                assert(nb != 0);
            }
        }
        lemma_single_sim_bounded(loans, ordering, bal2, act2, extra2, (left - 1) as nat);
        match sim_from(loans, ordering, bal2, act2, extra2, (left - 1) as nat) {
            SimRun::Done { costs } => {
                assert(left * pay == (left - 1) as nat * pay + pay) by (nonlinear_arith)
                    requires
                        left >= 1;
            },
            SimRun::Diverged => {},
        }
    }
}

/// With no extra amount, a single loan whose payment is a nonnegative whole
/// number of cents never costs more than its contractual total: whenever
/// the evaluation converges, the total actually paid stays at or below the
/// contractual total and the savings are nonnegative. (With several loans
/// the overage rule of the period walk can shortchange a later loan and
/// raise its cost above the contractual total, so the bound is stated for
/// the single-loan schedule.)
pub proof fn lemma_single_loan_no_extra_within_schedule(loans: Seq<Loan>, ordering: Seq<usize>)
    requires
        loans.len() == 1,
        ordering.len() == 1,
        ordering[0] == 0usize,
        loans[0].well_formed(),
        loans[0].payment_amount >= 0,
        loans[0].payment_amount % 100 == 0,
    ensures
        match evaluate_ordering(loans, 0, ordering) {
            SimOutcome::Finished { snowball, actual_total, savings_total } => actual_total
                <= spec_round_to_currency(
                loans[0].payment_amount as int * loans[0].number_of_payments as int,
            ) && savings_total >= 0,
            _ => true,
        },
{
    let pay = loans[0].payment_amount as int;
    let n = loans[0].number_of_payments as int;
    if first_invalid_from(loans, ordering, 0) is None {
        assert(max_periods_prefix(loans, ordering, 0) == 0);
        let maxp = max_periods_prefix(loans, ordering, 1);
        assert(maxp == n);
        let bal0 = initial_balances(loans, ordering);
        let zeros = Seq::new(loans.len(), |i: int| 0int);
        assert(bal0.len() == 1 && zeros.len() == 1);
        assert(zeros[0] == 0);
        lemma_single_sim_bounded(loans, ordering, bal0, zeros, 0, maxp as nat);
        match sim_from(loans, ordering, bal0, zeros, 0, maxp as nat) {
            SimRun::Done { costs } => {
                assert(total_over(ordering, costs, 1) == 0);
                assert(total_over(ordering, costs, 0) == costs[0]);
                lemma_mul_mod_noop_left(pay, n, 100);
                assert((pay * n) % 100 == 0);
                lemma_round_of_multiple(pay * n);
                let expv = expected_costs(loans, ordering);
                assert(crate::evaluate::named_before(ordering, 1, 0));
                assert(expv[0] == pay * n);
                assert(total_over(ordering, expv, 1) == 0);
                assert(total_over(ordering, expv, 0) == pay * n);
                assert(costs[0] <= maxp * pay);
                assert(maxp * pay == pay * n) by (nonlinear_arith)
                    requires
                        maxp == n;
                lemma_round_of_multiple(costs[0]);
                lemma_sub_mod_noop(pay * n, costs[0], 100);
                lemma_round_of_multiple(pay * n - costs[0]);
            },
            SimRun::Diverged => {},
        }
    }
}

} // verus!
