//! Evaluation of one priority ordering: validation, the period-by-period
//! simulation, and the cost totals.
//!
//! The specification model is a family of recursive spec functions over
//! unbounded integers; [`pay_loans`] is proved to return exactly what the
//! model says, so every caller can reason about the simulation purely
//! through [`evaluate_ordering`].

use vstd::prelude::*;
use crate::loan::{
    Loan, spec_payment_amount, spec_pay_loan, AMOUNT_LIMIT, BALANCE_LIMIT, PERIODS_LIMIT,
};
use crate::money::{spec_round_to_currency, round_to_currency, lemma_round_to_currency_close};
use crate::Error;

verus! {

/// Most loans one search accepts; factorially many orderings are evaluated,
/// so the count has to stay small.
pub const MAX_LOANS: usize = 8;

/// Cutoff on the pooled extra amount carried between periods. Within the
/// accepted limits the pool stays below the original extra amount plus the
/// sum of every payment, which is far below this; a simulation state past
/// the cutoff is reported as non-converging.
pub const POOL_LIMIT: i64 = 10_000_000_000_000;

/// A loan is valid when its stated payment is within five cents of the
/// amortization formula applied to its terms, after currency rounding.
pub open spec fn loan_valid(loan: Loan) -> bool {
    let calc = spec_round_to_currency(
        spec_payment_amount(
            loan.initial_value as int,
            loan.rate.num as int,
            loan.rate.den as int,
            loan.number_of_payments as nat,
        ),
    );
    -500 <= calc - loan.payment_amount <= 500
}

/// Whether some entry among the first `k` of the ordering names loan `j`.
pub open spec fn named_before(ordering: Seq<usize>, k: int, j: int) -> bool {
    exists|t: int| 0 <= t < k && (#[trigger] ordering[t]) as int == j
}

/// The loan index of the first invalid loan met while walking the ordering
/// from position `k`, if any.
pub open spec fn first_invalid_from(loans: Seq<Loan>, ordering: Seq<usize>, k: int) -> Option<
    int,
>
    decreases ordering.len() - k,
{
    if k < 0 || k >= ordering.len() {
        None
    } else if !loan_valid(loans[ordering[k] as int]) {
        Some(ordering[k] as int)
    } else {
        first_invalid_from(loans, ordering, k + 1)
    }
}

/// An ordering is a debt-snowball ordering when the principals along it
/// never decrease: the smallest balance always comes first.
pub open spec fn ordering_is_snowball(loans: Seq<Loan>, ordering: Seq<usize>) -> bool {
    forall|k: int|
        0 <= k && k + 1 < ordering.len() ==> loans[#[trigger] ordering[k] as int].initial_value
            <= loans[ordering[k + 1] as int].initial_value
}

/// The longest contractual term among the first `k` entries of the ordering;
/// it bounds how many periods a converging simulation may take.
pub open spec fn max_periods_prefix(loans: Seq<Loan>, ordering: Seq<usize>, k: int) -> int
    decreases k,
{
    if k <= 0 {
        0
    } else {
        let m = max_periods_prefix(loans, ordering, k - 1);
        let v = loans[ordering[k - 1] as int].number_of_payments as int;
        if v > m {
            v
        } else {
            m
        }
    }
}

/// Starting balances: the principal for every loan named by the ordering,
/// zero (already retired) for every other loan.
pub open spec fn initial_balances(loans: Seq<Loan>, ordering: Seq<usize>) -> Seq<int> {
    Seq::new(
        loans.len(),
        |i: int|
            if named_before(ordering, ordering.len() as int, i) {
                loans[i].initial_value as int
            } else {
                0
            },
    )
}

/// Contractual total cost per loan named by the ordering: the stated
/// payment times the term, rounded to currency.
pub open spec fn expected_costs(loans: Seq<Loan>, ordering: Seq<usize>) -> Seq<int> {
    Seq::new(
        loans.len(),
        |i: int|
            if named_before(ordering, ordering.len() as int, i) {
                spec_round_to_currency(
                    loans[i].payment_amount as int * loans[i].number_of_payments as int,
                )
            } else {
                0
            },
    )
}

/// Whether any loan named by the ordering still carries a positive balance.
pub open spec fn has_active(bal: Seq<int>, ordering: Seq<usize>) -> bool {
    exists|k: int| 0 <= k < ordering.len() && bal[#[trigger] ordering[k] as int] > 0
}

/// Whether some balance has grown past [`BALANCE_LIMIT`], beyond which no
/// accepted payment plan can ever retire it.
pub open spec fn over_limit(bal: Seq<int>, ordering: Seq<usize>) -> bool {
    exists|k: int|
        0 <= k < ordering.len() && bal[#[trigger] ordering[k] as int] > BALANCE_LIMIT as int
}

/// One period's walk along the ordering from position `k`.
///
/// Each loan still active is offered its contractual payment plus the pool;
/// what the payment step hands back updates the balance, the cumulative
/// cost, and the pool for the next loan of the same period (an overage is
/// zero or negative: a clamped payment shrinks the pool). A loan retired
/// this period folds its payment into the next period's extra amount.
/// Returns the balances, the cumulative costs, and the next period's extra.
pub open spec fn walk_from(
    loans: Seq<Loan>,
    ordering: Seq<usize>,
    k: int,
    bal: Seq<int>,
    act: Seq<int>,
    pool: int,
    extra: int,
) -> (Seq<int>, Seq<int>, int)
    decreases ordering.len() - k,
{
    if k < 0 || k >= ordering.len() {
        (bal, act, extra)
    } else {
        let ix = ordering[k] as int;
        if bal[ix] > 0 {
            let loan = loans[ix];
            let offered = loan.payment_amount + pool;
            let step = spec_pay_loan(loan.rate.num as int, loan.rate.den as int, bal[ix], offered);
            let bal2 = bal.update(ix, step.1);
            let act2 = act.update(ix, spec_round_to_currency(act[ix] + step.0));
            let pool2 = step.0 - offered;
            let extra2 = if step.1 == 0 {
                spec_round_to_currency(extra + loan.payment_amount)
            } else {
                extra
            };
            walk_from(loans, ordering, k + 1, bal2, act2, pool2, extra2)
        } else {
            walk_from(loans, ordering, k + 1, bal, act, pool, extra)
        }
    }
}

/// How a simulation run ends: every balance retired (with the cumulative
/// costs), or no convergence within the period budget.
pub enum SimRun {
    Diverged,
    Done { costs: Seq<int> },
}

/// The simulation from a given state with `left` periods of budget left.
///
/// A period only runs while some balance is positive; running out of budget,
/// or a state past the balance or pool cutoffs, is divergence.
pub open spec fn sim_from(
    loans: Seq<Loan>,
    ordering: Seq<usize>,
    bal: Seq<int>,
    act: Seq<int>,
    extra: int,
    left: nat,
) -> SimRun
    decreases left,
{
    if !has_active(bal, ordering) {
        SimRun::Done { costs: act }
    } else if left == 0 {
        SimRun::Diverged
    } else if over_limit(bal, ordering) {
        SimRun::Diverged
    } else if extra > POOL_LIMIT || extra < -(POOL_LIMIT as int) {
        SimRun::Diverged
    } else {
        let stepped = walk_from(loans, ordering, 0, bal, act, extra, extra);
        sim_from(loans, ordering, stepped.0, stepped.1, stepped.2, (left - 1) as nat)
    }
}

/// The total over the walk of a per-loan quantity (an ordering names each
/// loan once, so this is the sum over the loans it names).
pub open spec fn total_over(ordering: Seq<usize>, values: Seq<int>, k: int) -> int
    decreases ordering.len() - k,
{
    if k < 0 || k >= ordering.len() {
        0
    } else {
        values[ordering[k] as int] + total_over(ordering, values, k + 1)
    }
}

/// How evaluating one ordering ends.
pub enum SimOutcome {
    /// The loan at this index failed validation; nothing was simulated.
    Invalid { index: int },
    /// The ordering did not retire every balance within the longest
    /// contractual term among its loans.
    Diverged,
    /// Every balance was retired: whether the ordering is a debt-snowball
    /// ordering, the total actually paid, and the savings against the
    /// contractual total, both currency-rounded.
    Finished { snowball: bool, actual_total: int, savings_total: int },
}

/// The complete mathematical model of [`pay_loans`]: validate every loan
/// along the ordering, then simulate period by period and total the costs.
pub open spec fn evaluate_ordering(loans: Seq<Loan>, extra: int, ordering: Seq<usize>) -> SimOutcome {
    match first_invalid_from(loans, ordering, 0) {
        Some(i) => SimOutcome::Invalid { index: i },
        None => {
            let maxp = max_periods_prefix(loans, ordering, ordering.len() as int);
            let zeros = Seq::new(loans.len(), |i: int| 0int);
            match sim_from(
                loans,
                ordering,
                initial_balances(loans, ordering),
                zeros,
                extra,
                maxp as nat,
            ) {
                SimRun::Diverged => SimOutcome::Diverged,
                SimRun::Done { costs } => {
                    let expected = total_over(ordering, expected_costs(loans, ordering), 0);
                    let actual = total_over(ordering, costs, 0);
                    SimOutcome::Finished {
                        snowball: ordering_is_snowball(loans, ordering),
                        actual_total: spec_round_to_currency(actual),
                        savings_total: spec_round_to_currency(expected - actual),
                    }
                },
            }
        },
    }
}

/// What [`pay_loans`] promises: its result is exactly what
/// [`evaluate_ordering`] says of its inputs.
pub open spec fn pay_loans_post(
    loans: Seq<Loan>,
    extra: int,
    ordering: Seq<usize>,
    r: Result<(bool, i64, i64), Error>,
) -> bool {
    match r {
        Ok(t) => evaluate_ordering(loans, extra, ordering) == (SimOutcome::Finished {
            snowball: t.0,
            actual_total: t.1 as int,
            savings_total: t.2 as int,
        }),
        Err(e) => match e {
            Error::InvalidLoan(i) => evaluate_ordering(loans, extra, ordering)
                == (SimOutcome::Invalid { index: i as int }),
            Error::LoanGoesToInf => evaluate_ordering(loans, extra, ordering)
                == SimOutcome::Diverged,
            Error::OtherError(_) => false,
        },
    }
}

/// A small set of well-formed loans with an ordering that names distinct
/// in-range loans (a permutation, or a prefix of one).
pub open spec fn ordering_ok(loans: Seq<Loan>, ordering: Seq<usize>) -> bool {
    &&& loans.len() <= MAX_LOANS as int
    &&& (forall|i: int| 0 <= i < loans.len() ==> (#[trigger] loans[i]).well_formed())
    &&& ordering.len() <= MAX_LOANS as int
    &&& (forall|k: int| 0 <= k < ordering.len() ==> (#[trigger] ordering[k]) < loans.len())
    &&& (forall|k1: int, k2: int|
        0 <= k1 < k2 < ordering.len() ==> ordering[k1] != ordering[k2])
}

/// The preconditions under which [`pay_loans`] operates: valid loans and
/// ordering, and an extra amount within range.
pub open spec fn pay_loans_pre(loans: Seq<Loan>, extra: int, ordering: Seq<usize>) -> bool {
    &&& ordering_ok(loans, ordering)
    &&& -(AMOUNT_LIMIT as int) <= extra <= AMOUNT_LIMIT as int
}

/// Whether this loan's stated payment is within five cents of its computed
/// amortization payment.
pub(crate) fn loan_is_valid(loan: &Loan) -> (b: bool)
    requires
        loan.well_formed(),
    ensures
        b == loan_valid(*loan),
{
    let calc = loan.calculate_payment_amount();
    let rounded = round_to_currency(calc);
    proof {
        lemma_round_to_currency_close(calc as int);
    }
    let diff = rounded - loan.payment_amount;
    -500 <= diff && diff <= 500
}

/// The mathematical contents of a vector of machine amounts.
pub open spec fn as_ints(s: Seq<i64>) -> Seq<int> {
    Seq::new(s.len(), |i: int| s[i] as int)
}

/// Updating one machine amount updates one mathematical entry.
proof fn lemma_as_ints_update(s: Seq<i64>, i: int, v: i64)
    requires
        0 <= i < s.len(),
    ensures
        as_ints(s.update(i, v)) == as_ints(s).update(i, v as int),
{
    assert(as_ints(s.update(i, v)) =~= as_ints(s).update(i, v as int));
}

/// Whether any loan named by the ordering still has a positive balance.
fn any_active(remaining: &Vec<i64>, ordering: &Vec<usize>) -> (b: bool)
    requires
        forall|k: int| 0 <= k < ordering@.len() ==> (#[trigger] ordering@[k]) < remaining@.len(),
    ensures
        b == has_active(as_ints(remaining@), ordering@),
{
    let n = ordering.len();
    let mut k: usize = 0;
    while k < n
        invariant
            k <= n,
            n == ordering@.len(),
            forall|t: int| 0 <= t < ordering@.len() ==> (#[trigger] ordering@[t])
                < remaining@.len(),
            forall|t: int| 0 <= t < k ==> as_ints(remaining@)[(#[trigger] ordering@[t]) as int]
                <= 0,
        decreases n - k,
    {
        if remaining[ordering[k]] > 0 {
            return true;
        }
        k = k + 1;
    }
    false
}

/// Whether any loan named by the ordering has a balance past the cutoff.
fn any_over_limit(remaining: &Vec<i64>, ordering: &Vec<usize>) -> (b: bool)
    requires
        forall|k: int| 0 <= k < ordering@.len() ==> (#[trigger] ordering@[k]) < remaining@.len(),
    ensures
        b == over_limit(as_ints(remaining@), ordering@),
{
    let n = ordering.len();
    let mut k: usize = 0;
    while k < n
        invariant
            k <= n,
            n == ordering@.len(),
            forall|t: int| 0 <= t < ordering@.len() ==> (#[trigger] ordering@[t])
                < remaining@.len(),
            forall|t: int| 0 <= t < k ==> as_ints(remaining@)[(#[trigger] ordering@[t]) as int]
                <= BALANCE_LIMIT as int,
        decreases n - k,
    {
        if remaining[ordering[k]] > BALANCE_LIMIT {
            return true;
        }
        k = k + 1;
    }
    false
}

/// A vector of `n` zero amounts.
fn zero_amounts(n: usize) -> (v: Vec<i64>)
    ensures
        v@.len() == n,
        forall|i: int| 0 <= i < n ==> v@[i] == 0,
{
    let mut v: Vec<i64> = Vec::new();
    let mut i: usize = 0;
    while i < n
        invariant
            i <= n,
            v@.len() == i,
            forall|j: int| 0 <= j < i ==> v@[j] == 0,
        decreases n - i,
    {
        v.push(0);
        i = i + 1;
    }
    v
}

/// How much one loan's cumulative cost can change in one period, with
/// room to spare: one offered payment plus the pool and the rounding steps.
pub const ACT_STEP: i64 = 40_000_000_000_000;

/// Walk the ordering once for one period, paying each active loan its
/// contractual payment plus the pool; returns the next period's extra.
#[verifier::loop_isolation(false)]
#[verifier::rlimit(100)]
fn run_period(
    loans: &Vec<Loan>,
    ordering: &Vec<usize>,
    remaining: &mut Vec<i64>,
    actual: &mut Vec<i64>,
    extra: i64,
) -> (new_extra: i64)
    requires
        ordering_ok(loans@, ordering@),
        old(remaining)@.len() == loans@.len(),
        old(actual)@.len() == loans@.len(),
        forall|t: int|
            0 <= t < ordering@.len() ==> (#[trigger] old(remaining)@[ordering@[t] as int]) as int
                <= BALANCE_LIMIT as int,
        forall|j: int|
            0 <= j < loans@.len() ==> -100 <= (#[trigger] old(remaining)@[j]) as int
                <= 2_300_000_000_000_000_000int,
        forall|j: int|
            0 <= j < loans@.len() ==> -150_000_000_000_000_000int <= (
            #[trigger] old(actual)@[j]) as int <= 150_000_000_000_000_000int,
        -(POOL_LIMIT as int) <= extra as int <= POOL_LIMIT as int,
    ensures
        final(remaining)@.len() == loans@.len(),
        final(actual)@.len() == loans@.len(),
        ({
            let w = walk_from(
                loans@,
                ordering@,
                0,
                as_ints(old(remaining)@),
                as_ints(old(actual)@),
                extra as int,
                extra as int,
            );
            as_ints(final(remaining)@) == w.0 && as_ints(final(actual)@) == w.1 && new_extra as int
                == w.2
        }),
        forall|j: int|
            0 <= j < loans@.len() ==> -100 <= (#[trigger] final(remaining)@[j]) as int
                <= 2_300_000_000_000_000_000int,
        forall|j: int|
            0 <= j < loans@.len() ==> -(ACT_STEP as int) <= (#[trigger] final(actual)@[j]) as int
                - (old(actual)@[j] as int) <= ACT_STEP as int,
        -20_000_000_000_000 <= new_extra <= 20_000_000_000_000,
{
    let n_ord = ordering.len();
    let mut pool = extra;
    let mut extra_cur = extra;
    let mut k: usize = 0;
    while k < n_ord
        invariant
            k <= n_ord,
            remaining@.len() == loans@.len(),
            actual@.len() == loans@.len(),
            walk_from(
                loans@,
                ordering@,
                0,
                as_ints(old(remaining)@),
                as_ints(old(actual)@),
                extra as int,
                extra as int,
            ) == walk_from(
                loans@,
                ordering@,
                k as int,
                as_ints(remaining@),
                as_ints(actual@),
                pool as int,
                extra_cur as int,
            ),
            forall|t: int|
                k as int <= t < ordering@.len() ==> (#[trigger] remaining@[ordering@[t] as int])
                    as int <= BALANCE_LIMIT as int,
            forall|j: int|
                0 <= j < loans@.len() ==> -100 <= (#[trigger] remaining@[j]) as int
                    <= 2_300_000_000_000_000_000int,
            forall|t: int|
                k as int <= t < ordering@.len() ==> (#[trigger] actual@[ordering@[t] as int])
                    == old(actual)@[ordering@[t] as int],
            forall|j: int|
                0 <= j < loans@.len() ==> -(ACT_STEP as int) <= (#[trigger] actual@[j]) as int - (
                old(actual)@[j] as int) <= ACT_STEP as int,
            -(POOL_LIMIT as int) - (k as int) * 1_100_000_000_000int <= pool as int
                <= POOL_LIMIT as int + (k as int) * 1_100_000_000_000int,
            -(POOL_LIMIT as int) - (k as int) * 1_100_000_000_000int <= extra_cur as int
                <= POOL_LIMIT as int + (k as int) * 1_100_000_000_000int,
        decreases n_ord - k,
    {
        let i = ordering[k];
        let bal_i = remaining[i];
        if bal_i > 0 {
            let offered = loans[i].payment_amount + pool;
            let (paid, nb) = loans[i].pay_loan(bal_i, offered);
            let ghost pre_remaining = remaining@;
            let ghost pre_actual = actual@;
            remaining[i] = nb;
            let a_raw = actual[i] + paid;
            let a_rounded = round_to_currency(a_raw);
            actual[i] = a_rounded;
            proof {
                lemma_as_ints_update(pre_remaining, i as int, nb);
                lemma_as_ints_update(pre_actual, i as int, a_rounded);
                lemma_round_to_currency_close(a_raw as int);
            }
            if nb == 0 {
                let e_raw = extra_cur + loans[i].payment_amount;
                extra_cur = round_to_currency(e_raw);
                proof {
                    lemma_round_to_currency_close(e_raw as int);
                }
            }
            pool = paid - offered;
        }
        k = k + 1;
    }
    extra_cur
}

/// Run the simulation from freshly prepared state until every balance is
/// retired or the period budget runs out; returns the cumulative costs.
#[verifier::loop_isolation(false)]
#[verifier::rlimit(100)]
fn run_simulation(
    loans: &Vec<Loan>,
    ordering: &Vec<usize>,
    remaining: Vec<i64>,
    actual: Vec<i64>,
    extra_amount: i64,
    max_number_payments: i64,
) -> (r: Result<Vec<i64>, Error>)
    requires
        ordering_ok(loans@, ordering@),
        remaining@.len() == loans@.len(),
        actual@.len() == loans@.len(),
        forall|j: int|
            0 <= j < loans@.len() ==> -100 <= (#[trigger] remaining@[j]) as int
                <= 2_300_000_000_000_000_000int,
        forall|j: int| 0 <= j < loans@.len() ==> (#[trigger] actual@[j]) == 0,
        -(POOL_LIMIT as int) <= extra_amount as int <= POOL_LIMIT as int,
        0 <= max_number_payments <= PERIODS_LIMIT,
    ensures
        match r {
            Ok(costs) => sim_from(
                loans@,
                ordering@,
                as_ints(remaining@),
                as_ints(actual@),
                extra_amount as int,
                max_number_payments as nat,
            ) == (SimRun::Done { costs: as_ints(costs@) }) && costs@.len() == loans@.len() && (
            forall|j: int|
                0 <= j < loans@.len() ==> -150_000_000_000_000_000int <= (#[trigger] costs@[j])
                    as int <= 150_000_000_000_000_000int),
            Err(e) => (e is LoanGoesToInf) && sim_from(
                loans@,
                ordering@,
                as_ints(remaining@),
                as_ints(actual@),
                extra_amount as int,
                max_number_payments as nat,
            ) == SimRun::Diverged,
        },
{
    let mut rem = remaining;
    let mut act = actual;
    let mut extra = extra_amount;
    let mut count: i64 = 0;
    let mut active = any_active(&rem, ordering);
    while active
        invariant
            rem@.len() == loans@.len(),
            act@.len() == loans@.len(),
            active == has_active(as_ints(rem@), ordering@),
            0 <= count <= max_number_payments,
            sim_from(
                loans@,
                ordering@,
                as_ints(remaining@),
                as_ints(actual@),
                extra_amount as int,
                max_number_payments as nat,
            ) == sim_from(
                loans@,
                ordering@,
                as_ints(rem@),
                as_ints(act@),
                extra as int,
                (max_number_payments - count) as nat,
            ),
            forall|j: int|
                0 <= j < loans@.len() ==> -100 <= (#[trigger] rem@[j]) as int
                    <= 2_300_000_000_000_000_000int,
            forall|j: int|
                0 <= j < loans@.len() ==> -(count as int) * (ACT_STEP as int) <= (
                #[trigger] act@[j]) as int <= (count as int) * (ACT_STEP as int),
            -20_000_000_000_000 <= extra <= 20_000_000_000_000,
        decreases PERIODS_LIMIT - count,
    {
        count = count + 1;
        if count > max_number_payments {
            return Err(Error::LoanGoesToInf);
        }
        if any_over_limit(&rem, ordering) {
            return Err(Error::LoanGoesToInf);
        }
        if extra > POOL_LIMIT || extra < -POOL_LIMIT {
            return Err(Error::LoanGoesToInf);
        }
        proof {
            assert forall|t: int| 0 <= t < ordering@.len() implies (
            #[trigger] rem@[ordering@[t] as int]) as int <= BALANCE_LIMIT as int by {
                assert(!over_limit(as_ints(rem@), ordering@));
                assert(as_ints(rem@)[ordering@[t] as int] == rem@[ordering@[t] as int] as int);
            }
            assert forall|j: int| 0 <= j < loans@.len() implies -150_000_000_000_000_000int <= (
            #[trigger] act@[j]) as int <= 150_000_000_000_000_000int by {
                assert((count - 1) as int * (ACT_STEP as int) <= 3600 * (ACT_STEP as int))
                    by (nonlinear_arith)
                    requires
                        0 <= (count - 1) as int <= 3600,
                        ACT_STEP == 40_000_000_000_000i64;
            }
        }
        let ghost pre_rem = rem@;
        let ghost pre_act = act@;
        let new_extra = run_period(loans, ordering, &mut rem, &mut act, extra);
        extra = new_extra;
        proof {
            assert forall|j: int| 0 <= j < loans@.len() implies -(count as int) * (
            ACT_STEP as int) <= (#[trigger] act@[j]) as int <= (count as int) * (ACT_STEP as int)
                by {
                assert((count as int) * (ACT_STEP as int) == (count - 1) as int * (ACT_STEP as int)
                    + ACT_STEP as int) by (nonlinear_arith);
            }
        }
        active = any_active(&rem, ordering);
    }
    proof {
        assert forall|j: int| 0 <= j < loans@.len() implies -150_000_000_000_000_000int <= (
        #[trigger] act@[j]) as int <= 150_000_000_000_000_000int by {
            assert((count as int) * (ACT_STEP as int) <= 3600 * (ACT_STEP as int))
                by (nonlinear_arith)
                requires
                    0 <= count as int <= 3600,
                    ACT_STEP == 40_000_000_000_000i64;
        }
    }
    Ok(act)
}

/// Validate every loan along the ordering and prepare the simulation:
/// classify the ordering as debt snowball or not, find the period budget,
/// and fill in starting balances and contractual total costs.
#[verifier::loop_isolation(false)]
#[verifier::rlimit(100)]
fn validate_loans(
    loans: &Vec<Loan>,
    ordering: &Vec<usize>,
    remaining: &mut Vec<i64>,
    expected: &mut Vec<i64>,
) -> (r: Result<(bool, i64), Error>)
    requires
        ordering_ok(loans@, ordering@),
        old(remaining)@.len() == loans@.len(),
        old(expected)@.len() == loans@.len(),
        forall|j: int| 0 <= j < loans@.len() ==> (#[trigger] old(remaining)@[j]) == 0,
        forall|j: int| 0 <= j < loans@.len() ==> (#[trigger] old(expected)@[j]) == 0,
    ensures
        final(remaining)@.len() == loans@.len(),
        final(expected)@.len() == loans@.len(),
        match r {
            Ok(t) => first_invalid_from(loans@, ordering@, 0) is None && t.0
                == ordering_is_snowball(loans@, ordering@) && t.1 as int == max_periods_prefix(
                loans@,
                ordering@,
                ordering@.len() as int,
            ) && 0 <= t.1 <= PERIODS_LIMIT && as_ints(final(remaining)@) == initial_balances(
                loans@,
                ordering@,
            ) && as_ints(final(expected)@) == expected_costs(loans@, ordering@) && (forall|j: int|
                0 <= j < loans@.len() ==> 0 <= (#[trigger] final(remaining)@[j]) as int
                    <= AMOUNT_LIMIT as int) && (forall|j: int|
                0 <= j < loans@.len() ==> -3_700_000_000_000_000int <= (
                #[trigger] final(expected)@[j]) as int <= 3_700_000_000_000_000int),
            Err(e) => match e {
                Error::InvalidLoan(i) => first_invalid_from(loans@, ordering@, 0) == Some(
                    i as int,
                ),
                _ => false,
            },
        },
{
    let n_ord = ordering.len();
    let n_loans = loans.len();
    let mut is_debt_snowball = true;
    let mut max_cost: i64 = 0;
    let mut max_number_payments: i64 = 0;
    let mut k: usize = 0;
    while k < n_ord
        invariant
            k <= n_ord,
            remaining@.len() == n_loans,
            expected@.len() == n_loans,
            first_invalid_from(loans@, ordering@, 0) == first_invalid_from(
                loans@,
                ordering@,
                k as int,
            ),
            is_debt_snowball == (forall|j: int|
                0 <= j && j + 1 < k as int ==> loans@[#[trigger] ordering@[j] as int].initial_value
                    <= loans@[ordering@[j + 1] as int].initial_value),
            k > 0 && is_debt_snowball ==> max_cost == loans@[ordering@[k as int
                - 1] as int].initial_value,
            k == 0 ==> max_cost == 0,
            max_cost >= 0,
            max_number_payments == max_periods_prefix(loans@, ordering@, k as int),
            0 <= max_number_payments <= PERIODS_LIMIT,
            forall|j: int|
                0 <= j < n_loans as int ==> (#[trigger] remaining@[j]) as int == (
                if named_before(ordering@, k as int, j) {
                    loans@[j].initial_value as int
                } else {
                    0
                }),
            forall|j: int|
                0 <= j < n_loans as int ==> (#[trigger] expected@[j]) as int == (
                if named_before(ordering@, k as int, j) {
                    spec_round_to_currency(
                        loans@[j].payment_amount as int * loans@[j].number_of_payments as int,
                    )
                } else {
                    0
                }),
        decreases n_ord - k,
    {
        let i = ordering[k];
        if !loan_is_valid(&loans[i]) {
            return Err(Error::InvalidLoan(i));
        }
        if max_cost > loans[i].initial_value {
            is_debt_snowball = false;
        } else {
            max_cost = loans[i].initial_value;
        }
        if loans[i].number_of_payments > max_number_payments {
            max_number_payments = loans[i].number_of_payments;
        }
        proof {
            assert(loans@[i as int].payment_amount as int * loans@[i as int].number_of_payments
                as int <= 3_600_000_000_000_000int && loans@[i as int].payment_amount as int
                * loans@[i as int].number_of_payments as int >= -3_600_000_000_000_000int)
                by (nonlinear_arith)
                requires
                    -1_000_000_000_000 <= loans@[i as int].payment_amount as int
                        <= 1_000_000_000_000,
                    0 < loans@[i as int].number_of_payments as int <= 3600;
        }
        remaining[i] = loans[i].initial_value;
        let exp_raw = loans[i].payment_amount * loans[i].number_of_payments;
        expected[i] = round_to_currency(exp_raw);
        proof {
            lemma_round_to_currency_close(exp_raw as int);
            assert forall|j: int| 0 <= j < n_loans as int && j != i as int implies (named_before(
                ordering@,
                k as int + 1,
                j,
            ) == named_before(ordering@, k as int, j)) by {
                if named_before(ordering@, k as int + 1, j) {
                    let t = choose|t: int|
                        0 <= t < k as int + 1 && (#[trigger] ordering@[t]) as int == j;
                    assert(t < k as int);
                    assert(named_before(ordering@, k as int, j));
                }
                if named_before(ordering@, k as int, j) {
                    let t = choose|t: int|
                        0 <= t < k as int && (#[trigger] ordering@[t]) as int == j;
                    assert(named_before(ordering@, k as int + 1, j));
                }
            }
            assert(named_before(ordering@, k as int + 1, i as int));
        }
        k = k + 1;
    }
    proof {
        assert(as_ints(remaining@) =~= initial_balances(loans@, ordering@));
        assert(as_ints(expected@) =~= expected_costs(loans@, ordering@));
        assert(first_invalid_from(loans@, ordering@, 0) is None);
        assert(is_debt_snowball == ordering_is_snowball(loans@, ordering@));
        assert(max_number_payments as int == max_periods_prefix(
            loans@,
            ordering@,
            ordering@.len() as int,
        ));
        assert forall|j: int| 0 <= j < loans@.len() implies 0 <= (#[trigger] remaining@[j]) as int
            <= AMOUNT_LIMIT as int by {
            assert(loans@[j].well_formed());
        }
        assert forall|j: int| 0 <= j < loans@.len() implies -3_700_000_000_000_000int <= (
        #[trigger] expected@[j]) as int <= 3_700_000_000_000_000int by {
            assert(loans@[j].well_formed());
            if named_before(ordering@, ordering@.len() as int, j) {
                assert(loans@[j].payment_amount as int * loans@[j].number_of_payments as int
                    <= 3_600_000_000_000_000int && loans@[j].payment_amount as int
                    * loans@[j].number_of_payments as int >= -3_600_000_000_000_000int)
                    by (nonlinear_arith)
                    requires
                        -1_000_000_000_000 <= loans@[j].payment_amount as int <= 1_000_000_000_000,
                        0 < loans@[j].number_of_payments as int <= 3600;
                lemma_round_to_currency_close(
                    loans@[j].payment_amount as int * loans@[j].number_of_payments as int,
                );
            }
        }
    }
    Ok((is_debt_snowball, max_number_payments))
}

/// Total the contractual and actual costs over the loans the ordering
/// names; returns the raw actual total and the raw savings.
#[verifier::loop_isolation(false)]
fn sum_costs(ordering: &Vec<usize>, expected: &Vec<i64>, actual: &Vec<i64>) -> (r: (i64, i64))
    requires
        ordering@.len() <= MAX_LOANS as int,
        forall|k: int|
            0 <= k < ordering@.len() ==> (#[trigger] ordering@[k]) < expected@.len(),
        expected@.len() == actual@.len(),
        forall|j: int|
            0 <= j < expected@.len() ==> -3_700_000_000_000_000int <= (#[trigger] expected@[j])
                as int <= 3_700_000_000_000_000int,
        forall|j: int|
            0 <= j < actual@.len() ==> -150_000_000_000_000_000int <= (#[trigger] actual@[j])
                as int <= 150_000_000_000_000_000int,
    ensures
        r.0 as int == total_over(ordering@, as_ints(actual@), 0),
        r.1 as int == total_over(ordering@, as_ints(expected@), 0) - total_over(
            ordering@,
            as_ints(actual@),
            0,
        ),
        -2_000_000_000_000_000_000 <= r.0 <= 2_000_000_000_000_000_000,
        -2_000_000_000_000_000_000 <= r.1 <= 2_000_000_000_000_000_000,
{
    let n_ord = ordering.len();
    let mut expected_total: i64 = 0;
    let mut actual_total: i64 = 0;
    let mut savings_total: i64 = 0;
    let mut k: usize = 0;
    while k < n_ord
        invariant
            k <= n_ord,
            expected_total as int + total_over(ordering@, as_ints(expected@), k as int)
                == total_over(ordering@, as_ints(expected@), 0),
            actual_total as int + total_over(ordering@, as_ints(actual@), k as int) == total_over(
                ordering@,
                as_ints(actual@),
                0,
            ),
            savings_total as int == expected_total as int - actual_total as int,
            -(k as int) * 3_700_000_000_000_000int <= expected_total as int <= (k as int)
                * 3_700_000_000_000_000int,
            -(k as int) * 150_000_000_000_000_000int <= actual_total as int <= (k as int)
                * 150_000_000_000_000_000int,
        decreases n_ord - k,
    {
        let i = ordering[k];
        expected_total = expected_total + expected[i];
        actual_total = actual_total + actual[i];
        savings_total = savings_total + (expected[i] - actual[i]);
        k = k + 1;
    }
    (actual_total, savings_total)
}

/// Evaluate one ordering: validate every loan along it, then simulate
/// period by period until every balance is retired, and total the costs.
///
/// Returns `(is_debt_snowball, actual_costs_total, savings_total)` on
/// convergence; `InvalidLoan` for the first loan along the ordering whose
/// stated payment is more than five cents from its amortization payment;
/// `LoanGoesToInf` when some balance survives past the longest contractual
/// term among the loans of the ordering.
#[verifier::loop_isolation(false)]
#[verifier::rlimit(100)]
pub fn pay_loans(loans: &Vec<Loan>, extra_amount: i64, ordering: &Vec<usize>) -> (r: Result<
    (bool, i64, i64),
    Error,
>)
    requires
        pay_loans_pre(loans@, extra_amount as int, ordering@),
    ensures
        pay_loans_post(loans@, extra_amount as int, ordering@, r),
        r matches Ok(t) ==> -2_100_000_000_000_000_000 <= t.1 <= 2_100_000_000_000_000_000
            && -2_100_000_000_000_000_000 <= t.2 <= 2_100_000_000_000_000_000,
{
    let n_loans = loans.len();
    let mut remaining = zero_amounts(n_loans);
    let mut expected = zero_amounts(n_loans);
    let (is_debt_snowball, max_number_payments) =
        match validate_loans(loans, ordering, &mut remaining, &mut expected) {
        Ok(t) => t,
        Err(e) => {
            return Err(e);
        },
    };
    let actual = zero_amounts(n_loans);
    proof {
        assert(as_ints(actual@) =~= Seq::new(loans@.len(), |i: int| 0int));
    }
    let costs = match run_simulation(
        loans,
        ordering,
        remaining,
        actual,
        extra_amount,
        max_number_payments,
    ) {
        Ok(costs) => costs,
        Err(e) => {
            return Err(e);
        },
    };
    let (actual_raw, savings_raw) = sum_costs(ordering, &expected, &costs);
    let actual_rounded = round_to_currency(actual_raw);
    let savings_rounded = round_to_currency(savings_raw);
    proof {
        lemma_round_to_currency_close(actual_raw as int);
        lemma_round_to_currency_close(savings_raw as int);
    }
    Ok((is_debt_snowball, actual_rounded, savings_rounded))
}

} // verus!
