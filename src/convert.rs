//! The two directions of conversion and the amounts they produce.
use crate::rate::Rate;
use vstd::arithmetic::div_mod::{
    lemma_div_denominator, lemma_div_is_ordered, lemma_hoist_over_denominator,
};
use vstd::prelude::*;

verus! {

/// Hours worked in a year: forty hours a week, fifty-two weeks.
pub const WORKING_HOURS_PER_YEAR: u64 = 40 * 52;

/// The largest amount that can be shown; larger amounts are shown as this.
pub const MAX_AMOUNT: i32 = 2147483647;

/// A whole part at or above this bound gives the largest amount in every
/// direction, so the digits beyond it need not be read.
const WHOLE_CAP: u64 = 2080 * 2147483648;

/// The direction of a conversion. Its unit word labels the rate as given,
/// and the opposite word labels the converted amount.
#[derive(Clone, Copy, Debug, PartialEq, Eq, PartialOrd, Ord, Hash, Structural)]
pub enum ConvertTo {
    /// The rate is multiplied by the working hours of a year.
    Hourly,
    /// The rate is divided by the working hours of a year.
    Salary,
}

/// An amount, with everything above `MAX_AMOUNT` brought down to it.
pub open spec fn saturate(v: int) -> int {
    if v > MAX_AMOUNT as int {
        MAX_AMOUNT as int
    } else {
        v
    }
}

/// `floor(r * 2080)` for the rate `r = num / den`.
pub open spec fn times_hours(num: nat, den: nat) -> int {
    (num * 2080) as int / den as int
}

/// `floor(r / 2080)` for the rate `r = num / den`.
pub open spec fn per_hours(num: nat, den: nat) -> int {
    num as int / (2080 * den) as int
}

/// The converted amount of the rate `num / den`, before it is capped.
pub open spec fn converted_exact(c: ConvertTo, num: nat, den: nat) -> int {
    match c {
        ConvertTo::Hourly => times_hours(num, den),
        ConvertTo::Salary => per_hours(num, den),
    }
}

/// The amount that a conversion shows for the rate `num / den`.
pub open spec fn converted_amount(c: ConvertTo, num: nat, den: nat) -> int {
    saturate(converted_exact(c, num, den))
}

/// The amount shown for the rate `num / den` itself: its whole part.
pub open spec fn whole_amount(num: nat, den: nat) -> int {
    saturate(num as int / den as int)
}

impl ConvertTo {
    /// The unit word of the current rate's description.
    pub open spec fn unit_spec(self) -> Seq<char> {
        match self {
            ConvertTo::Hourly => "hour"@,
            ConvertTo::Salary => "year"@,
        }
    }

    /// The unit word of the converted rate's description.
    pub open spec fn opposite_spec(self) -> Seq<char> {
        match self {
            ConvertTo::Hourly => "year"@,
            ConvertTo::Salary => "hour"@,
        }
    }

    pub fn unit(&self) -> (r: &'static str)
        ensures
            r@ == self.unit_spec(),
    {
        match self {
            ConvertTo::Hourly => "hour",
            ConvertTo::Salary => "year",
        }
    }

    pub fn opposite(&self) -> (r: &'static str)
        ensures
            r@ == self.opposite_spec(),
    {
        match self {
            ConvertTo::Hourly => "year",
            ConvertTo::Salary => "hour",
        }
    }

    /// The converted amount of `rate`, rounded down and capped at `MAX_AMOUNT`.
    pub fn new_rate(&self, rate: &Rate) -> (r: i32)
        requires
            rate.wf(),
        ensures
            r as int == converted_amount(*self, rate.numerator(), rate.denominator()),
            0 <= r,
    {
        proof {
            lemma_rate_split(rate);
        }
        let whole = rate.whole_capped(WHOLE_CAP);
        let amount: u64 = match self {
            ConvertTo::Hourly => {
                let frac = rate.scaled_fraction(WORKING_HOURS_PER_YEAR);
                WORKING_HOURS_PER_YEAR * whole + frac
            },
            ConvertTo::Salary => whole / WORKING_HOURS_PER_YEAR,
        };
        proof {
            let w = rate.whole_value();
            if w >= WHOLE_CAP {
                lemma_div_is_ordered(WHOLE_CAP as int, w as int, 2080);
            }
        }
        if amount > MAX_AMOUNT as u64 {
            MAX_AMOUNT
        } else {
            amount as i32
        }
    }
}

/// The phrase naming what the rate is converted to.
pub open spec fn conversion_msg_spec(c: ConvertTo) -> Seq<char> {
    match c {
        ConvertTo::Hourly => "a salary"@,
        ConvertTo::Salary => "an hourly pay"@,
    }
}

pub fn get_conversion_msg(convert_to: ConvertTo) -> (r: &'static str)
    ensures
        r@ == conversion_msg_spec(convert_to),
{
    match convert_to {
        ConvertTo::Hourly => "a salary",
        ConvertTo::Salary => "an hourly pay",
    }
}

/// The whole part of `rate`, capped at `MAX_AMOUNT`.
pub fn whole_rate(rate: &Rate) -> (r: i32)
    requires
        rate.wf(),
    ensures
        r as int == whole_amount(rate.numerator(), rate.denominator()),
        0 <= r,
{
    proof {
        lemma_rate_split(rate);
    }
    let whole = rate.whole_capped(WHOLE_CAP);
    if whole > MAX_AMOUNT as u64 {
        MAX_AMOUNT
    } else {
        whole as i32
    }
}

/// The exact amounts of a rate, stated over its whole part and the digits
/// after its point.
proof fn lemma_rate_split(rate: &Rate)
    requires
        rate.wf(),
    ensures
        rate.numerator() as int / rate.denominator() as int == rate.whole_value(),
        times_hours(rate.numerator(), rate.denominator()) == 2080 * rate.whole_value() + (2080
            * rate.fraction_value()) as int / rate.denominator() as int,
        per_hours(rate.numerator(), rate.denominator()) == rate.whole_value() as int / 2080,
{
    rate.lemma_parts();
    let w = rate.whole_value();
    let f = rate.fraction_value();
    let d = rate.denominator();
    let n = rate.numerator();
    lemma_hoist_over_denominator(f as int, w as int, d);
    assert(f as int / d as int == 0) by {
        vstd::arithmetic::div_mod::lemma_basic_div(f as int, d as int);
    }
    assert((n * 2080) == 2080 * f + (2080 * w) * d) by (nonlinear_arith)
        requires
            n == w * d + f,
    ;
    lemma_hoist_over_denominator((2080 * f) as int, (2080 * w) as int, d);
    lemma_div_denominator(n as int, d as int, 2080);
    assert(d * 2080 == 2080 * d);
}

} // verus!
