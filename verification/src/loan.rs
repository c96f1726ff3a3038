//! One loan's terms, its amortization payment, and one period of payment.
//!
//! Amounts are money units (1/10,000 dollar, see [`crate::money`]); the
//! periodic rate is an exact fraction `num / den`. The amortization payment
//! is evaluated in fixed-point arithmetic scaled by [`POW_SCALE`], rounding
//! to nearest at each step, which keeps it well within the five-cent
//! tolerance that loan validation allows.

use vstd::prelude::*;
use crate::money::{
    div_nearest, spec_round_to_currency, div_nearest_i128, round_to_currency,
    lemma_div_nearest_bounds, lemma_div_nearest_magnitude, MONEY_MAX,
};

verus! {

/// Largest principal, payment, or extra amount accepted, in units
/// (one hundred million dollars).
pub const AMOUNT_LIMIT: i64 = 1_000_000_000_000;

/// Largest denominator of a rate fraction (so rates are exact down to one
/// part in a billion).
pub const RATE_DEN_LIMIT: u32 = 1_000_000_000;

/// Longest contractual term accepted, in periods (three hundred years of
/// monthly payments).
pub const PERIODS_LIMIT: i64 = 3600;

/// A balance beyond this many units can never be repaid within the periods
/// and amounts accepted above, so a simulation that reaches it has already
/// failed to converge.
pub const BALANCE_LIMIT: i64 = 1_000_000_000_000_000_000;

/// Largest single offered payment the period step accepts; the pooled
/// amounts of a simulation stay far below this.
pub const OFFER_LIMIT: i64 = 100_000_000_000_000;

/// The payment reported when the fixed-point evaluation of the amortization
/// formula leaves the representable range; it is far from every payment a
/// well-formed loan can state, so such a loan is reported invalid.
pub const HUGE_PAYMENT: i64 = 10_000_000_000_000;

/// Fixed-point scale for the growth factor `(1 + rate)^n`.
pub const POW_SCALE: i128 = 1_000_000_000_000;

/// Cap on the fixed-point growth factor. Beyond this the factor
/// `q / (q - 1)` of the amortization formula is one to twelve decimal
/// places, so capping does not move the payment by a whole unit.
pub const POW_CAP: i128 = 1_000_000_000_000_000_000_000_000;

/// A periodic interest rate as the exact fraction `num / den`.
#[derive(Clone, Copy, Debug, PartialEq, Eq, Structural)]
pub struct Rate {
    pub num: u32,
    pub den: u32,
}

impl Rate {
    /// A usable rate is positive, no more than one per period, and exact
    /// to at most one part in a billion.
    pub open spec fn well_formed(self) -> bool {
        1 <= self.num && self.num <= self.den && self.den <= RATE_DEN_LIMIT
    }

    pub fn new(num: u32, den: u32) -> (r: Rate)
        requires
            1 <= num,
            num <= den,
            den <= RATE_DEN_LIMIT,
        ensures
            r.num == num,
            r.den == den,
            r.well_formed(),
    {
        Rate { num, den }
    }
}

/// One loan's terms. The balance during a simulation is tracked outside the
/// record, so the same loans serve every ordering unchanged.
#[derive(Clone, Debug)]
pub struct Loan {
    /// Display name; no result of the library depends on it.
    pub name: String,
    /// Original principal, in units.
    pub initial_value: i64,
    /// Periodic interest rate.
    pub rate: Rate,
    /// Contractual number of payments.
    pub number_of_payments: i64,
    /// Stated fixed periodic payment, in units.
    pub payment_amount: i64,
}

impl Loan {
    /// The ranges within which every simulation step stays in bounds.
    pub open spec fn well_formed(self) -> bool {
        &&& 0 < self.initial_value <= AMOUNT_LIMIT
        &&& self.rate.well_formed()
        &&& 0 < self.number_of_payments <= PERIODS_LIMIT
        &&& -AMOUNT_LIMIT <= self.payment_amount <= AMOUNT_LIMIT
    }

    pub fn new(
        name: String,
        initial_value: i64,
        rate: Rate,
        number_of_payments: i64,
        payment_amount: i64,
    ) -> (r: Loan)
        ensures
            r.name == name,
            r.initial_value == initial_value,
            r.rate == rate,
            r.number_of_payments == number_of_payments,
            r.payment_amount == payment_amount,
    {
        Loan { name, initial_value, rate, number_of_payments, payment_amount }
    }
}

/// The fixed-point growth factor `(1 + num/den)^n`, scaled by [`POW_SCALE`],
/// rounded to nearest after each multiplication and capped at [`POW_CAP`].
pub open spec fn spec_growth_power(num: int, den: int, n: nat) -> int
    decreases n,
{
    if n == 0 {
        POW_SCALE as int
    } else {
        let prev = spec_growth_power(num, den, (n - 1) as nat);
        if prev >= POW_CAP {
            POW_CAP as int
        } else {
            let next = div_nearest(prev * (den + num), den);
            if next > POW_CAP {
                POW_CAP as int
            } else {
                next
            }
        }
    }
}

/// The growth factor stays within `[POW_SCALE, POW_CAP]`, grows with `n`,
/// and after at least one period exceeds the scale by a usable margin.
pub proof fn lemma_growth_power_bounds(num: int, den: int, n: nat)
    requires
        1 <= num <= den <= RATE_DEN_LIMIT as int,
    ensures
        POW_SCALE <= spec_growth_power(num, den, n) <= POW_CAP,
        n >= 1 ==> spec_growth_power(num, den, n) >= POW_SCALE + 999,
    decreases n,
{
    if n > 0 {
        lemma_growth_power_bounds(num, den, (n - 1) as nat);
        let prev = spec_growth_power(num, den, (n - 1) as nat);
        if prev < POW_CAP {
            let next = div_nearest(prev * (den + num), den);
            lemma_div_nearest_bounds(prev * (den + num), den);
            assert(next >= POW_SCALE + 999) by (nonlinear_arith)
                requires
                    2 * den * next >= 2 * (prev * (den + num)) - den,
                    POW_SCALE <= prev,
                    1 <= num <= den <= RATE_DEN_LIMIT as int,
                    POW_SCALE == 1_000_000_000_000,
                    RATE_DEN_LIMIT == 1_000_000_000u32;
        }
    }
}

/// The amortization payment for principal `v` at rate `num/den` over `n`
/// periods: `v * rate * (1+rate)^n / ((1+rate)^n - 1)`, evaluated in
/// fixed-point with one rounding per step. Outside the representable range
/// the result is [`HUGE_PAYMENT`].
pub open spec fn spec_payment_amount(v: int, num: int, den: int, n: nat) -> int {
    let q = spec_growth_power(num, den, n);
    if q <= POW_SCALE {
        HUGE_PAYMENT as int
    } else {
        let ratio = div_nearest(q * POW_SCALE, q - POW_SCALE);
        let factor = div_nearest(num * ratio, den);
        if factor > 4 * POW_SCALE {
            HUGE_PAYMENT as int
        } else {
            div_nearest(v * factor, POW_SCALE as int)
        }
    }
}

/// One period's interest on the balance `pv`, rounded to currency:
/// the nearest cent to `pv * num / den`.
pub open spec fn spec_interest(pv: int, num: int, den: int) -> int {
    100 * div_nearest(pv * num, 100 * den)
}

/// Interest is bounded by the balance itself (the rate is at most one)
/// plus half a cent of rounding, and has the sign of the balance.
pub proof fn lemma_interest_bounds(pv: int, num: int, den: int)
    requires
        1 <= num <= den,
    ensures
        pv >= 0 ==> 0 <= spec_interest(pv, num, den) <= pv + 50,
        pv < 0 ==> pv - 50 <= spec_interest(pv, num, den) <= 0,
{
    let b = div_nearest(pv * num, 100 * den);
    lemma_div_nearest_bounds(pv * num, 100 * den);
    if pv >= 0 {
        assert(pv * num >= 0) by (nonlinear_arith)
            requires
                pv >= 0,
                num >= 1;
        lemma_div_nearest_magnitude(pv * num, 100 * den);
        assert(100 * b <= pv + 50) by (nonlinear_arith)
            requires
                2 * (100 * den) * b <= 2 * (pv * num) + 100 * den,
                pv >= 0,
                1 <= num <= den,
                b >= 0;
    } else {
        assert(pv * num < 0) by (nonlinear_arith)
            requires
                pv < 0,
                num >= 1;
        lemma_div_nearest_magnitude(-(pv * num), 100 * den);
        assert(div_nearest(pv * num, 100 * den) == -div_nearest(-(pv * num), 100 * den));
        assert(100 * b >= pv - 50) by (nonlinear_arith)
            requires
                2 * (100 * den) * b >= 2 * (pv * num) - 100 * den,
                pv < 0,
                1 <= num <= den,
                b <= 0;
    }
}

/// What one period's payment step returns: `(amount paid, new balance)`.
///
/// An offered amount of zero is the degenerate case and clears the pair.
/// Otherwise interest accrues (rounded to currency), an offer beyond the
/// accrued balance is clamped to that balance rounded to currency, and the
/// new balance is rounded to currency again after the payment.
pub open spec fn spec_pay_loan(num: int, den: int, pv: int, offered: int) -> (int, int) {
    if offered == 0 {
        (0, 0)
    } else {
        let pv1 = pv + spec_interest(pv, num, den);
        let rounded = spec_round_to_currency(pv1);
        let paid = if offered > pv1 {
            rounded
        } else {
            offered
        };
        (paid, spec_round_to_currency(rounded - paid))
    }
}

impl Loan {
    /// The standard amortizing-loan payment for this loan's terms,
    /// `initial_value * rate * (1+rate)^n / ((1+rate)^n - 1)`, in units.
    pub fn calculate_payment_amount(&self) -> (r: i64)
        requires
            self.well_formed(),
        ensures
            r as int == spec_payment_amount(
                self.initial_value as int,
                self.rate.num as int,
                self.rate.den as int,
                self.number_of_payments as nat,
            ),
            0 <= r <= HUGE_PAYMENT,
    {
        let num = self.rate.num;
        let den = self.rate.den;
        let n = self.number_of_payments;
        let mut q: i128 = POW_SCALE;
        let mut i: i64 = 0;
        while i < n
            invariant
                0 <= i <= n,
                self.well_formed(),
                num == self.rate.num,
                den == self.rate.den,
                n == self.number_of_payments,
                q == spec_growth_power(num as int, den as int, i as nat),
                POW_SCALE <= q <= POW_CAP,
            decreases n - i,
        {
            if q >= POW_CAP {
                q = POW_CAP;
            } else {
                proof {
                    assert(0 <= (q as int) * ((den as int) + (num as int))
                        <= 2_000_000_000_000_000_000_000_000_000_000_000int) by (nonlinear_arith)
                        requires
                            1_000_000_000_000 <= q as int,
                            (q as int) < 1_000_000_000_000_000_000_000_000,
                            1 <= num as int,
                            num as int <= den as int,
                            den as int <= 1_000_000_000;
                }
                let prod: i128 = q * ((den as i128) + (num as i128));
                let next = div_nearest_i128(prod, den as i128);
                proof {
                    lemma_div_nearest_bounds(prod as int, den as int);
                    lemma_div_nearest_magnitude(prod as int, den as int);
                }
                q = if next > POW_CAP {
                    POW_CAP
                } else {
                    next
                };
            }
            i = i + 1;
            proof {
                lemma_growth_power_bounds(num as int, den as int, i as nat);
            }
        }
        proof {
            lemma_growth_power_bounds(num as int, den as int, n as nat);
        }
        if q <= POW_SCALE {
            return HUGE_PAYMENT;
        }
        let ratio = div_nearest_i128(q * POW_SCALE, q - POW_SCALE);
        proof {
            lemma_div_nearest_bounds(q as int * POW_SCALE as int, q as int - POW_SCALE as int);
            assert((q as int) * (POW_SCALE as int) >= 0) by (nonlinear_arith)
                requires
                    q as int >= POW_SCALE as int,
                    POW_SCALE == 1_000_000_000_000;
            lemma_div_nearest_magnitude(q as int * POW_SCALE as int, q as int - POW_SCALE as int);
            if q <= 2 * POW_SCALE {
                assert(ratio <= 3_000_000_000_000_000_000_000i128) by (nonlinear_arith)
                    requires
                        2 * ((q as int) - POW_SCALE as int) * (ratio as int) <= 2 * ((q as int)
                            * (POW_SCALE as int)) + ((q as int) - POW_SCALE as int),
                        POW_SCALE as int + 999 <= q as int,
                        q as int <= 2 * (POW_SCALE as int),
                        POW_SCALE == 1_000_000_000_000,
                        ratio as int >= 0;
            } else {
                assert(ratio <= 3_000_000_000_000_000_000_000i128) by (nonlinear_arith)
                    requires
                        2 * ((q as int) - POW_SCALE as int) * (ratio as int) <= 2 * ((q as int)
                            * (POW_SCALE as int)) + ((q as int) - POW_SCALE as int),
                        2 * (POW_SCALE as int) < q as int,
                        q as int <= POW_CAP as int,
                        POW_SCALE == 1_000_000_000_000,
                        POW_CAP == 1_000_000_000_000_000_000_000_000,
                        ratio as int >= 0;
            }
        }
        proof {
            assert(0 <= (num as int) * (ratio as int)
                <= 3_000_000_000_000_000_000_000_000_000_000int) by (nonlinear_arith)
                requires
                    1 <= num as int,
                    num as int <= 1_000_000_000,
                    0 <= ratio as int <= 3_000_000_000_000_000_000_000int;
        }
        let factor = div_nearest_i128((num as i128) * ratio, den as i128);
        proof {
            assert((num as int) * (ratio as int) >= 0) by (nonlinear_arith)
                requires
                    num as int >= 1,
                    ratio as int >= 0;
            lemma_div_nearest_magnitude((num as int) * (ratio as int), den as int);
        }
        if factor > 4 * POW_SCALE {
            return HUGE_PAYMENT;
        }
        proof {
            assert((self.initial_value as int) * (factor as int) >= 0) by (nonlinear_arith)
                requires
                    self.initial_value as int >= 1,
                    factor as int >= 0;
            assert((self.initial_value as int) * (factor as int) <= 4_000_000_000_000_000_000_000_000int)
                by (nonlinear_arith)
                requires
                    1 <= self.initial_value as int <= AMOUNT_LIMIT as int,
                    0 <= factor as int <= 4 * (POW_SCALE as int),
                    AMOUNT_LIMIT == 1_000_000_000_000i64,
                    POW_SCALE == 1_000_000_000_000;
            lemma_div_nearest_magnitude((self.initial_value as int) * (factor as int), POW_SCALE as int);
            lemma_div_nearest_bounds((self.initial_value as int) * (factor as int), POW_SCALE as int);
        }
        let p = div_nearest_i128((self.initial_value as i128) * factor, POW_SCALE);
        p as i64
    }

    /// Pay one period on this loan from the balance `present_value`,
    /// offering `payment_amount`; returns the amount actually paid and the
    /// new balance, each rounded to currency as a statement would.
    pub fn pay_loan(&self, present_value: i64, payment_amount: i64) -> (r: (i64, i64))
        requires
            self.rate.well_formed(),
            -BALANCE_LIMIT <= present_value <= BALANCE_LIMIT,
            -OFFER_LIMIT <= payment_amount <= OFFER_LIMIT,
        ensures
            r.0 as int == spec_pay_loan(
                self.rate.num as int,
                self.rate.den as int,
                present_value as int,
                payment_amount as int,
            ).0,
            r.1 as int == spec_pay_loan(
                self.rate.num as int,
                self.rate.den as int,
                present_value as int,
                payment_amount as int,
            ).1,
            present_value > 0 ==> -100 <= r.1 as int <= 2 * present_value as int + 300 + (
            if payment_amount >= 0 {
                payment_amount as int
            } else {
                -(payment_amount as int)
            }),
            present_value > 0 ==> (r.0 == payment_amount || (payment_amount > 0 && 0 <= r.0
                <= payment_amount + 50)),
    {
        if payment_amount == 0 {
            return (0, 0);
        }
        let num = self.rate.num;
        let den = self.rate.den;
        proof {
            assert(-1_000_000_000_000_000_000_000_000_000int <= (present_value as int) * (
            num as int) <= 1_000_000_000_000_000_000_000_000_000int) by (nonlinear_arith)
                requires
                    -1_000_000_000_000_000_000 <= present_value as int
                        <= 1_000_000_000_000_000_000,
                    1 <= num as int,
                    num as int <= 1_000_000_000;
        }
        let prod: i128 = (present_value as i128) * (num as i128);
        let qq = div_nearest_i128(prod, 100 * (den as i128));
        proof {
            lemma_interest_bounds(present_value as int, num as int, den as int);
        }
        let interest: i64 = (qq as i64) * 100;
        let pv1: i64 = present_value + interest;
        let rounded = round_to_currency(pv1);
        proof {
            crate::money::lemma_round_to_currency_close(pv1 as int);
        }
        let paid: i64 = if payment_amount > pv1 {
            rounded
        } else {
            payment_amount
        };
        let nb = round_to_currency(rounded - paid);
        proof {
            crate::money::lemma_round_to_currency_close(rounded as int - paid as int);
        }
        (paid, nb)
    }
}

} // verus!
