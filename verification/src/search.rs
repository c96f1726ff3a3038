//! Exhaustive search over every priority ordering of the loans.
//!
//! With a handful of loans the number of orderings is small, and the payoff
//! landscape gives no reason to trust a greedy shortcut, so every ordering
//! is evaluated. The enumerator is proved sound (it yields only orderings)
//! and complete (every ordering of the loans appears), so the winner's
//! optimality quantifies over all of them.

use vstd::prelude::*;
use vstd::set_lib::lemma_len_subset;
use crate::loan::{Loan, AMOUNT_LIMIT};
use crate::evaluate::{
    loan_valid, evaluate_ordering, ordering_is_snowball, first_invalid_from, pay_loans,
    SimOutcome, MAX_LOANS,
};
use crate::money::{spec_round_to_currency, round_to_currency};
use crate::Error;

verus! {

/// The best-savings trackers start one dollar below zero, beneath any
/// savings a converging ordering is allowed to report as a success.
pub const BEST_INIT: i64 = -10_000;

/// The result of the full search: the ordering with the greatest savings,
/// and how it compares to the debt-snowball heuristic.
pub struct OptimalPayoff {
    /// The winning permutation of loan indices.
    pub ordering: Vec<usize>,
    /// Its savings against the contractual schedules, in units.
    pub savings: i64,
    /// Whether the winning ordering is itself a debt-snowball ordering.
    pub is_debt_snowball: bool,
    /// The winner's savings minus the best savings of any debt-snowball
    /// ordering, currency-rounded.
    pub savings_over_debt_snowball: i64,
}

/// A priority ordering of `n` loans: `n` distinct indices below `n`.
pub open spec fn is_ordering_perm(p: Seq<usize>, n: int) -> bool {
    &&& p.len() == n
    &&& (forall|k: int| 0 <= k < p.len() ==> ((#[trigger] p[k]) as int) < n)
    &&& (forall|k1: int, k2: int| 0 <= k1 < k2 < p.len() ==> p[k1] != p[k2])
}

/// The least loan index whose loan fails validation, scanning from `k`.
pub open spec fn first_invalid_loan_from(loans: Seq<Loan>, k: int) -> Option<int>
    decreases loans.len() - k,
{
    if k < 0 || k >= loans.len() {
        None
    } else if !loan_valid(loans[k]) {
        Some(k)
    } else {
        first_invalid_loan_from(loans, k + 1)
    }
}

/// Whether evaluating this ordering retires every balance.
pub open spec fn converges(loans: Seq<Loan>, extra: int, p: Seq<usize>) -> bool {
    evaluate_ordering(loans, extra, p) is Finished
}

/// The savings a converging ordering reports (zero otherwise).
pub open spec fn savings_of(loans: Seq<Loan>, extra: int, p: Seq<usize>) -> int {
    match evaluate_ordering(loans, extra, p) {
        SimOutcome::Finished { snowball, actual_total, savings_total } => savings_total,
        _ => 0,
    }
}

/// The debt-snowball flag a converging ordering reports (false otherwise).
pub open spec fn snowball_of(loans: Seq<Loan>, extra: int, p: Seq<usize>) -> bool {
    match evaluate_ordering(loans, extra, p) {
        SimOutcome::Finished { snowball, actual_total, savings_total } => snowball,
        _ => false,
    }
}

/// `v` is the best savings reached by any converging debt-snowball
/// ordering, floored at [`BEST_INIT`] the way the search tracks it.
pub open spec fn best_snowball_savings(loans: Seq<Loan>, extra: int, n: int, v: int) -> bool {
    ||| (v == BEST_INIT as int && (forall|p: Seq<usize>|
        (is_ordering_perm(p, n) && converges(loans, extra, p) && ordering_is_snowball(loans, p))
            ==> #[trigger] savings_of(loans, extra, p) <= BEST_INIT as int))
    ||| (v > BEST_INIT as int && (exists|p: Seq<usize>|
        is_ordering_perm(p, n) && converges(loans, extra, p) && ordering_is_snowball(loans, p)
            && #[trigger] savings_of(loans, extra, p) == v) && (forall|p: Seq<usize>|
        (is_ordering_perm(p, n) && converges(loans, extra, p) && ordering_is_snowball(loans, p))
            ==> #[trigger] savings_of(loans, extra, p) <= v))
}

/// The set of indices below `n`.
spec fn below_set(n: int) -> Set<usize> {
    Set::new(|x: usize| (x as int) < n)
}

proof fn lemma_below_set_len(n: int)
    requires
        0 <= n <= 8,
    ensures
        below_set(n).finite(),
        below_set(n).len() == n,
    decreases n,
{
    broadcast use vstd::set::group_set_axioms;

    if n == 0 {
        assert(below_set(0) =~= Set::empty());
    } else {
        lemma_below_set_len(n - 1);
        assert(below_set(n) =~= below_set(n - 1).insert((n - 1) as usize));
        assert(!below_set(n - 1).contains((n - 1) as usize));
    }
}

/// Every ordering of `n >= 1` loans names the last loan index somewhere.
proof fn lemma_perm_contains_top(p: Seq<usize>, n: int)
    requires
        is_ordering_perm(p, n),
        1 <= n <= 8,
    ensures
        exists|k: int| 0 <= k < p.len() && (#[trigger] p[k]) as int == n - 1,
{
    broadcast use vstd::set::group_set_axioms;

    if forall|k: int| 0 <= k < p.len() ==> (#[trigger] p[k]) as int != n - 1 {
        assert(p.no_duplicates());
        p.unique_seq_to_set();
        assert(p.to_set().len() == n);
        assert forall|x: usize| p.to_set().contains(x) implies below_set(n - 1).contains(x) by {
            let k = choose|k: int| 0 <= k < p.len() && p[k] == x;
            assert(((p[k]) as int) < n);
            assert((p[k]) as int != n - 1);
        }
        assert(p.to_set().subset_of(below_set(n - 1)));
        lemma_below_set_len(n - 1);
        lemma_len_subset(p.to_set(), below_set(n - 1));
        assert(false);
    }
}

/// Removing the position that names the last loan index from an ordering of
/// `n` loans leaves an ordering of `n - 1` loans, and inserting it back
/// restores the original.
proof fn lemma_perm_split(p: Seq<usize>, n: int, pos: int)
    requires
        is_ordering_perm(p, n),
        n >= 1,
        0 <= pos < p.len(),
        (p[pos]) as int == n - 1,
    ensures
        is_ordering_perm(p.remove(pos), n - 1),
        p.remove(pos).insert(pos, p[pos]) == p,
{
    let q = p.remove(pos);
    assert(q.len() == n - 1);
    assert forall|i: int| 0 <= i < q.len() implies ((#[trigger] q[i]) as int) < n - 1 by {
        if i < pos {
            assert(q[i] == p[i]);
            assert(p[i] != p[pos]);
        } else {
            assert(q[i] == p[i + 1]);
            assert(p[i + 1] != p[pos]);
        }
    }
    assert forall|i1: int, i2: int| 0 <= i1 < i2 < q.len() implies q[i1] != q[i2] by {
        if i1 < pos {
            assert(q[i1] == p[i1]);
        } else {
            assert(q[i1] == p[i1 + 1]);
        }
        if i2 < pos {
            assert(q[i2] == p[i2]);
        } else {
            assert(q[i2] == p[i2 + 1]);
        }
    }
    q.insert_ensures(pos, p[pos]);
    assert(q.insert(pos, p[pos]) =~= p);
}

/// An ordering of `n - 1` loans with the last loan index inserted anywhere
/// is an ordering of `n` loans.
proof fn lemma_perm_insert(p: Seq<usize>, n: int, pos: int)
    requires
        is_ordering_perm(p, n - 1),
        1 <= n <= 8,
        0 <= pos <= p.len(),
    ensures
        is_ordering_perm(p.insert(pos, (n - 1) as usize), n),
{
    let q = p.insert(pos, (n - 1) as usize);
    p.insert_ensures(pos, (n - 1) as usize);
    assert(q.len() == n);
    assert forall|i: int| 0 <= i < q.len() implies ((#[trigger] q[i]) as int) < n by {
        if i < pos {
            assert(q[i] == p[i]);
        } else if i == pos {
        } else {
            assert(q[i] == p[i - 1]);
        }
    }
    assert forall|i1: int, i2: int| 0 <= i1 < i2 < q.len() implies q[i1] != q[i2] by {
        if i1 < pos {
            assert(q[i1] == p[i1]);
            assert(((p[i1]) as int) < n - 1);
        } else if i1 == pos {
            assert(q[i1] == (n - 1) as usize);
        } else {
            assert(q[i1] == p[i1 - 1]);
            assert(((p[i1 - 1]) as int) < n - 1);
        }
        if i2 < pos {
            assert(q[i2] == p[i2]);
            assert(((p[i2]) as int) < n - 1);
        } else if i2 == pos {
            assert(q[i2] == (n - 1) as usize);
        } else {
            assert(q[i2] == p[i2 - 1]);
            assert(((p[i2 - 1]) as int) < n - 1);
        }
    }
}

/// When every loan is valid, no ordering can report an invalid loan.
pub proof fn lemma_valid_all_orderings(loans: Seq<Loan>, ordering: Seq<usize>, k: int)
    requires
        forall|i: int| 0 <= i < loans.len() ==> loan_valid(#[trigger] loans[i]),
        forall|t: int| 0 <= t < ordering.len() ==> (#[trigger] ordering[t]) < loans.len(),
    ensures
        first_invalid_from(loans, ordering, k) is None,
    decreases ordering.len() - k,
{
    if 0 <= k < ordering.len() {
        assert(loan_valid(loans[ordering[k] as int]));
        lemma_valid_all_orderings(loans, ordering, k + 1);
    }
}

/// A copy of an ordering.
fn copy_ordering(p: &Vec<usize>) -> (q: Vec<usize>)
    ensures
        q@ == p@,
{
    let mut q: Vec<usize> = Vec::new();
    let mut i: usize = 0;
    while i < p.len()
        invariant
            i <= p@.len(),
            q@ == p@.subrange(0, i as int),
        decreases p@.len() - i,
    {
        q.push(p[i]);
        proof {
            assert(q@ =~= p@.subrange(0, i as int + 1));
        }
        i = i + 1;
    }
    proof {
        assert(p@.subrange(0, p@.len() as int) =~= p@);
    }
    q
}

/// A copy of an ordering with one more index inserted at `pos`.
fn insert_at(p: &Vec<usize>, pos: usize, v: usize) -> (q: Vec<usize>)
    requires
        pos <= p@.len(),
    ensures
        q@ == p@.insert(pos as int, v),
{
    let mut q: Vec<usize> = Vec::new();
    let mut i: usize = 0;
    while i < pos
        invariant
            i <= pos <= p@.len(),
            q@ == p@.subrange(0, i as int),
        decreases pos - i,
    {
        q.push(p[i]);
        proof {
            assert(q@ =~= p@.subrange(0, i as int + 1));
        }
        i = i + 1;
    }
    q.push(v);
    let mut i: usize = pos;
    while i < p.len()
        invariant
            pos <= i <= p@.len(),
            q@ == p@.subrange(0, pos as int).push(v) + p@.subrange(pos as int, i as int),
        decreases p@.len() - i,
    {
        q.push(p[i]);
        proof {
            assert(p@.subrange(0, pos as int).push(v) + p@.subrange(pos as int, i as int + 1) =~= (
            p@.subrange(0, pos as int).push(v) + p@.subrange(pos as int, i as int)).push(p@[i as int]));
        }
        i = i + 1;
    }
    proof {
        p@.insert_ensures(pos as int, v);
        assert(q@ =~= p@.insert(pos as int, v));
    }
    q
}

/// The element the enumerator stores for prefix ordering `t` of the
/// smaller set and insertion position `pp`.
spec fn stored_insertion(
    res: Seq<Vec<usize>>,
    smaller: Seq<Vec<usize>>,
    n: int,
    t: int,
    pp: int,
) -> bool {
    res[t * n + pp]@ == smaller[t]@.insert(pp, (n - 1) as usize)
}

/// Every ordering of `n` loan indices, each exactly once up to order of
/// generation: sound (every element is an ordering) and complete (every
/// ordering appears).
#[verifier::loop_isolation(false)]
#[verifier::rlimit(100)]
fn all_orderings(n: usize) -> (res: Vec<Vec<usize>>)
    requires
        n <= 8,
    ensures
        forall|j: int| 0 <= j < res@.len() ==> is_ordering_perm((#[trigger] res@[j])@, n as int),
        forall|p: Seq<usize>|
            #[trigger] is_ordering_perm(p, n as int) ==> exists|j: int|
                0 <= j < res@.len() && (#[trigger] res@[j])@ == p,
    decreases n,
{
    if n == 0 {
        let mut res: Vec<Vec<usize>> = Vec::new();
        res.push(Vec::new());
        proof {
            assert forall|p: Seq<usize>| #[trigger] is_ordering_perm(p, 0) implies exists|j: int|
                0 <= j < res@.len() && (#[trigger] res@[j])@ == p by {
                assert(res@[0]@ =~= p);
            }
        }
        res
    } else {
        let smaller = all_orderings(n - 1);
        let mut res: Vec<Vec<usize>> = Vec::new();
        let mut j: usize = 0;
        while j < smaller.len()
            invariant
                j <= smaller@.len(),
                res@.len() == j * n as int,
                forall|t: int| 0 <= t < res@.len() ==> is_ordering_perm(
                    (#[trigger] res@[t])@,
                    n as int,
                ),
                forall|t: int, pp: int|
                    0 <= t && 0 <= pp < n as int && t * n as int + pp < res@.len()
                        ==> #[trigger] stored_insertion(res@, smaller@, n as int, t, pp),
            decreases smaller@.len() - j,
        {
            let mut pos: usize = 0;
            while pos < n
                invariant
                    pos <= n,
                    j < smaller@.len(),
                    res@.len() == j * n as int + pos as int,
                    forall|t: int| 0 <= t < res@.len() ==> is_ordering_perm(
                        (#[trigger] res@[t])@,
                        n as int,
                    ),
                    forall|t: int, pp: int|
                        0 <= t && 0 <= pp < n as int && t * n as int + pp < res@.len()
                            ==> #[trigger] stored_insertion(res@, smaller@, n as int, t, pp),
                decreases n - pos,
            {
                let q = insert_at(&smaller[j], pos, n - 1);
                proof {
                    lemma_perm_insert(smaller@[j as int]@, n as int, pos as int);
                }
                let ghost res_old = res@;
                res.push(q);
                proof {
                    assert forall|t: int, pp: int|
                        0 <= t && 0 <= pp < n as int && t * n as int + pp
                            < res@.len() implies #[trigger] stored_insertion(
                        res@,
                        smaller@,
                        n as int,
                        t,
                        pp,
                    ) by {
                        if t * n as int + pp < res_old.len() {
                            assert(stored_insertion(res_old, smaller@, n as int, t, pp));
                            assert(res@[t * n as int + pp] == res_old[t * n as int + pp]);
                        } else {
                            assert(t * n as int + pp == res_old.len());
                            assert(t == j as int && pp == pos as int) by (nonlinear_arith)
                                requires
                                    t * n as int + pp == j as int * n as int + pos as int,
                                    0 <= t,
                                    0 <= pp < n as int,
                                    0 <= pos as int, (pos as int) < n as int,
                                    0 <= j as int;
                            assert(res@[t * n as int + pp]@ == smaller@[t]@.insert(
                                pp,
                                (n - 1) as usize,
                            ));
                        }
                    }
                }
                pos = pos + 1;
            }
            proof {
                assert((j as int + 1) * n as int == j as int * n as int + n as int)
                    by (nonlinear_arith);
            }
            j = j + 1;
        }
        proof {
            assert forall|p: Seq<usize>| #[trigger] is_ordering_perm(p, n as int) implies exists|
                u: int,
            |
                0 <= u < res@.len() && (#[trigger] res@[u])@ == p by {
                lemma_perm_contains_top(p, n as int);
                let pos = choose|k: int| 0 <= k < p.len() && (#[trigger] p[k]) as int == n - 1;
                lemma_perm_split(p, n as int, pos);
                let rest = p.remove(pos);
                assert(is_ordering_perm(rest, (n - 1) as int));
                let t = choose|t: int| 0 <= t < smaller@.len() && (#[trigger] smaller@[t])@ == rest;
                let u = t * n as int + pos;
                assert(0 <= u && u < res@.len()) by (nonlinear_arith)
                    requires
                        u == t * n as int + pos,
                        0 <= t < smaller@.len(),
                        0 <= pos, pos < n as int,
                        res@.len() == smaller@.len() * n as int;
                assert(stored_insertion(res@, smaller@, n as int, t, pos));
                assert(res@[u]@ == p);
            }
        }
        res
    }
}

/// Transfer a bound that holds of every evaluated ordering to every
/// ordering there is, via the enumerator's completeness.
proof fn lemma_bound_all_orderings(
    loans: Seq<Loan>,
    extra: int,
    orderings: Seq<Vec<usize>>,
    n: int,
    bound: int,
)
    requires
        forall|p: Seq<usize>|
            #[trigger] is_ordering_perm(p, n) ==> exists|j: int|
                0 <= j < orderings.len() && (#[trigger] orderings[j])@ == p,
        forall|t: int|
            0 <= t < orderings.len() && converges(loans, extra, (#[trigger] orderings[t])@)
                ==> savings_of(loans, extra, orderings[t]@) <= bound,
    ensures
        forall|p: Seq<usize>|
            (is_ordering_perm(p, n) && converges(loans, extra, p)) ==> #[trigger] savings_of(
                loans,
                extra,
                p,
            ) <= bound,
{
    assert forall|p: Seq<usize>|
        (is_ordering_perm(p, n) && converges(loans, extra, p)) implies #[trigger] savings_of(
        loans,
        extra,
        p,
    ) <= bound by {
        let t = choose|t: int| 0 <= t < orderings.len() && (#[trigger] orderings[t])@ == p;
    }
}

/// The same transfer, restricted to debt-snowball orderings.
proof fn lemma_bound_snowball_orderings(
    loans: Seq<Loan>,
    extra: int,
    orderings: Seq<Vec<usize>>,
    n: int,
    bound: int,
)
    requires
        forall|p: Seq<usize>|
            #[trigger] is_ordering_perm(p, n) ==> exists|j: int|
                0 <= j < orderings.len() && (#[trigger] orderings[j])@ == p,
        forall|t: int|
            0 <= t < orderings.len() && converges(loans, extra, (#[trigger] orderings[t])@)
                && ordering_is_snowball(loans, orderings[t]@) ==> savings_of(
                loans,
                extra,
                orderings[t]@,
            ) <= bound,
    ensures
        forall|p: Seq<usize>|
            (is_ordering_perm(p, n) && converges(loans, extra, p) && ordering_is_snowball(
                loans,
                p,
            )) ==> #[trigger] savings_of(loans, extra, p) <= bound,
{
    assert forall|p: Seq<usize>|
        (is_ordering_perm(p, n) && converges(loans, extra, p) && ordering_is_snowball(
            loans,
            p,
        )) implies #[trigger] savings_of(loans, extra, p) <= bound by {
        let t = choose|t: int| 0 <= t < orderings.len() && (#[trigger] orderings[t])@ == p;
    }
}

/// Search every ordering of the loans for the one that saves the most.
///
/// Fails with `InvalidLoan` for the least index whose loan's stated payment
/// is more than five cents from its amortization payment, and with
/// `LoanGoesToInf` when no ordering converges with savings at or above
/// zero. Otherwise the winner is optimal over every ordering, and its
/// savings are compared to the best debt-snowball ordering's.
#[verifier::loop_isolation(false)]
#[verifier::rlimit(100)]
pub fn pay_loans_all_orderings(loans: &Vec<Loan>, extra_amount: i64) -> (r: Result<
    OptimalPayoff,
    Error,
>)
    requires
        loans@.len() <= MAX_LOANS as int,
        forall|i: int| 0 <= i < loans@.len() ==> (#[trigger] loans@[i]).well_formed(),
        -(AMOUNT_LIMIT as int) <= extra_amount as int <= AMOUNT_LIMIT as int,
    ensures
        match r {
            Ok(op) => {
                &&& first_invalid_loan_from(loans@, 0) is None
                &&& is_ordering_perm(op.ordering@, loans@.len() as int)
                &&& converges(loans@, extra_amount as int, op.ordering@)
                &&& op.savings as int == savings_of(loans@, extra_amount as int, op.ordering@)
                &&& op.savings >= 0
                &&& (forall|p: Seq<usize>|
                    (is_ordering_perm(p, loans@.len() as int) && converges(
                        loans@,
                        extra_amount as int,
                        p,
                    )) ==> #[trigger] savings_of(loans@, extra_amount as int, p)
                        <= op.savings as int)
                &&& op.is_debt_snowball == snowball_of(loans@, extra_amount as int, op.ordering@)
                &&& (exists|v: int|
                    #[trigger] best_snowball_savings(loans@, extra_amount as int, loans@.len() as int, v)
                        && op.savings_over_debt_snowball as int == spec_round_to_currency(
                        op.savings as int - v,
                    ))
            },
            Err(e) => match e {
                Error::InvalidLoan(i) => first_invalid_loan_from(loans@, 0) == Some(i as int),
                Error::LoanGoesToInf => first_invalid_loan_from(loans@, 0) is None && (forall|
                    p: Seq<usize>,
                |
                    (is_ordering_perm(p, loans@.len() as int) && converges(
                        loans@,
                        extra_amount as int,
                        p,
                    )) ==> #[trigger] savings_of(loans@, extra_amount as int, p) < 0),
                Error::OtherError(_) => false,
            },
        },
{
    let n = loans.len();
    let mut i: usize = 0;
    while i < n
        invariant
            i <= n,
            first_invalid_loan_from(loans@, 0) == first_invalid_loan_from(loans@, i as int),
            forall|t: int| 0 <= t < i as int ==> loan_valid(#[trigger] loans@[t]),
        decreases n - i,
    {
        if !crate::evaluate::loan_is_valid(&loans[i]) {
            return Err(Error::InvalidLoan(i));
        }
        i = i + 1;
    }
    let orderings = all_orderings(n);
    let mut best_savings: i64 = BEST_INIT;
    let mut best_ordering: Vec<usize> = Vec::new();
    let mut is_snowball_best = false;
    let mut best_sb_savings: i64 = BEST_INIT;
    let ghost mut best_sb_witness: Seq<usize> = Seq::empty();
    let mut j: usize = 0;
    while j < orderings.len()
        invariant
            j <= orderings@.len(),
            BEST_INIT <= best_savings <= 2_100_000_000_000_000_000,
            BEST_INIT <= best_sb_savings <= 2_100_000_000_000_000_000,
            best_savings > BEST_INIT ==> {
                &&& is_ordering_perm(best_ordering@, loans@.len() as int)
                &&& converges(loans@, extra_amount as int, best_ordering@)
                &&& savings_of(loans@, extra_amount as int, best_ordering@) == best_savings as int
                &&& is_snowball_best == snowball_of(loans@, extra_amount as int, best_ordering@)
            },
            forall|t: int|
                0 <= t < j as int && converges(loans@, extra_amount as int, (
                #[trigger] orderings@[t])@) ==> savings_of(loans@, extra_amount as int, orderings@[t]@)
                    <= best_savings as int,
            best_sb_savings > BEST_INIT ==> {
                &&& is_ordering_perm(best_sb_witness, loans@.len() as int)
                &&& converges(loans@, extra_amount as int, best_sb_witness)
                &&& ordering_is_snowball(loans@, best_sb_witness)
                &&& savings_of(loans@, extra_amount as int, best_sb_witness)
                    == best_sb_savings as int
            },
            forall|t: int|
                0 <= t < j as int && converges(loans@, extra_amount as int, (
                #[trigger] orderings@[t])@) && ordering_is_snowball(loans@, orderings@[t]@)
                    ==> savings_of(loans@, extra_amount as int, orderings@[t]@)
                    <= best_sb_savings as int,
        decreases orderings@.len() - j,
    {
        proof {
            lemma_valid_all_orderings(loans@, orderings@[j as int]@, 0);
        }
        let result = pay_loans(loans, extra_amount, &orderings[j]);
        match result {
            Ok((sb, _actual_total, sv)) => {
                proof {
                    assert(evaluate_ordering(loans@, extra_amount as int, orderings@[j as int]@)
                        is Finished);
                }
                if sv > best_savings {
                    best_savings = sv;
                    best_ordering = copy_ordering(&orderings[j]);
                    is_snowball_best = sb;
                }
                if sb && sv > best_sb_savings {
                    best_sb_savings = sv;
                    proof {
                        best_sb_witness = orderings@[j as int]@;
                    }
                }
            },
            Err(Error::LoanGoesToInf) => {},
            Err(e) => {
                // The prepass established that every loan is valid, so the
                // evaluation cannot report an invalid loan here.
                proof {
                    assert(false);
                }
                return Err(e);
            },
        }
        j = j + 1;
    }
    if best_savings < 0 {
        proof {
            lemma_bound_all_orderings(
                loans@,
                extra_amount as int,
                orderings@,
                loans@.len() as int,
                best_savings as int,
            );
        }
        return Err(Error::LoanGoesToInf);
    }
    let over = round_to_currency(best_savings - best_sb_savings);
    proof {
        lemma_bound_all_orderings(
            loans@,
            extra_amount as int,
            orderings@,
            loans@.len() as int,
            best_savings as int,
        );
        lemma_bound_snowball_orderings(
            loans@,
            extra_amount as int,
            orderings@,
            loans@.len() as int,
            best_sb_savings as int,
        );
        assert(best_snowball_savings(
            loans@,
            extra_amount as int,
            loans@.len() as int,
            best_sb_savings as int,
        ));
    }
    Ok(
        OptimalPayoff {
            ordering: best_ordering,
            savings: best_savings,
            is_debt_snowball: is_snowball_best,
            savings_over_debt_snowball: over,
        },
    )
}

} // verus!
