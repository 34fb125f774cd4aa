//! Non-negative decimal pay rates, held exactly as their digits.
use vstd::arithmetic::div_mod::{lemma_div_denominator, lemma_div_is_ordered, lemma_hoist_over_denominator};
use vstd::arithmetic::mul::lemma_mul_inequality;
use vstd::prelude::*;

verus! {

/// Ten to the power `n`.
pub open spec fn pow10(n: nat) -> nat
    decreases n,
{
    if n == 0 {
        1
    } else {
        10 * pow10((n - 1) as nat)
    }
}

/// The number written by a sequence of decimal digits, most significant first.
pub open spec fn digits_value(s: Seq<u8>) -> nat
    decreases s.len(),
{
    if s.len() == 0 {
        0
    } else {
        digits_value(s.drop_last()) * 10 + s.last() as nat
    }
}

/// Every element is a decimal digit.
pub open spec fn all_digit_values(s: Seq<u8>) -> bool {
    forall|i: int| 0 <= i < s.len() ==> #[trigger] s[i] < 10
}

pub open spec fn is_digit_char(c: char) -> bool {
    '0' <= c && c <= '9'
}

pub open spec fn all_digit_chars(t: Seq<char>) -> bool {
    forall|i: int| 0 <= i < t.len() ==> #[trigger] is_digit_char(t[i])
}

/// The value of one decimal digit character.
pub open spec fn char_digit(c: char) -> u8 {
    (c as u32 - '0' as u32) as u8
}

pub open spec fn chars_to_digits(t: Seq<char>) -> Seq<u8> {
    t.map_values(|c: char| char_digit(c))
}

/// The text is a rate: digits, or digits with one decimal point, with at
/// least one digit in all.
pub open spec fn is_rate_text(t: Seq<char>) -> bool {
    (t.len() > 0 && all_digit_chars(t)) || exists|p: int|
        0 <= p < t.len() && t.len() >= 2 && #[trigger] t[p] == '.' && all_digit_chars(
            t.subrange(0, p),
        ) && all_digit_chars(t.subrange(p + 1, t.len() as int))
}

pub proof fn lemma_pow10_positive(n: nat)
    ensures
        pow10(n) > 0,
    decreases n,
{
    if n > 0 {
        lemma_pow10_positive((n - 1) as nat);
    }
}

/// Digits written after others shift them by a power of ten.
pub proof fn lemma_digits_value_append(a: Seq<u8>, b: Seq<u8>)
    ensures
        digits_value(a + b) == digits_value(a) * pow10(b.len()) + digits_value(b),
    decreases b.len(),
{
    if b.len() == 0 {
        assert(a + b =~= a);
        assert(pow10(0) == 1);
        assert(digits_value(a) * 1 == digits_value(a));
    } else {
        let ab = a + b;
        assert(ab.drop_last() =~= a + b.drop_last());
        lemma_digits_value_append(a, b.drop_last());
        let p = pow10(b.drop_last().len());
        assert(pow10(b.len()) == 10 * p);
        assert(ab.last() == b.last());
        let va = digits_value(a);
        let vb = digits_value(b.drop_last());
        assert(digits_value(ab) == (va * p + vb) * 10 + b.last() as nat);
        assert(digits_value(b) == vb * 10 + b.last() as nat);
        assert((va * p + vb) * 10 == va * (10 * p) + vb * 10) by (nonlinear_arith);
        assert(va * pow10(b.len()) == va * (10 * p));
    }
}

/// A number of `n` digits is below `10^n`.
pub proof fn lemma_digits_value_bound(s: Seq<u8>)
    requires
        all_digit_values(s),
    ensures
        digits_value(s) < pow10(s.len()),
    decreases s.len(),
{
    if s.len() > 0 {
        let d = s.drop_last();
        assert(all_digit_values(d)) by {
            assert forall|i: int| 0 <= i < d.len() implies #[trigger] d[i] < 10 by {
                assert(d[i] == s[i]);
            }
        }
        lemma_digits_value_bound(d);
        assert(s.last() == s[s.len() - 1]);
        let v = digits_value(d);
        let p = pow10(d.len());
        assert(v + 1 <= p);
        assert(v * 10 + 10 <= p * 10) by (nonlinear_arith)
            requires
                v + 1 <= p,
        ;
    }
}

/// Why a text is not a rate.
#[derive(Clone, Copy, Debug, PartialEq, Eq)]
pub enum RateError {
    /// The text is empty.
    Empty,
    /// The text holds something other than digits and one decimal point,
    /// or no digit at all.
    Invalid,
}

/// A non-negative pay rate, held exactly as the decimal digits before and
/// after its decimal point.
#[derive(Debug)]
pub struct Rate {
    whole: Vec<u8>,
    fraction: Vec<u8>,
}

impl Rate {
    /// The digits before the decimal point, most significant first.
    pub closed spec fn whole_digits(&self) -> Seq<u8> {
        self.whole@
    }

    /// The digits after the decimal point.
    pub closed spec fn fraction_digits(&self) -> Seq<u8> {
        self.fraction@
    }

    pub open spec fn wf(&self) -> bool {
        all_digit_values(self.whole_digits()) && all_digit_values(self.fraction_digits())
    }

    /// The rate equals `numerator() / denominator()`.
    pub open spec fn numerator(&self) -> nat {
        digits_value(self.whole_digits() + self.fraction_digits())
    }

    pub open spec fn denominator(&self) -> nat {
        pow10(self.fraction_digits().len())
    }

    /// The whole part of the rate: the number its digits before the point write.
    pub open spec fn whole_value(&self) -> nat {
        digits_value(self.whole_digits())
    }

    /// The digits after the point as one number: the fractional part is
    /// `fraction_value() / denominator()`.
    pub open spec fn fraction_value(&self) -> nat {
        digits_value(self.fraction_digits())
    }

    /// The rate splits into its whole part and a fraction below one.
    pub proof fn lemma_parts(&self)
        requires
            self.wf(),
        ensures
            self.denominator() > 0,
            self.fraction_value() < self.denominator(),
            self.numerator() == self.whole_value() * self.denominator() + self.fraction_value(),
    {
        lemma_pow10_positive(self.fraction_digits().len());
        lemma_digits_value_bound(self.fraction_digits());
        lemma_digits_value_append(self.whole_digits(), self.fraction_digits());
    }

    /// The whole part, or `cap` where the whole part is larger.
    pub fn whole_capped(&self, cap: u64) -> (r: u64)
        requires
            self.wf(),
        ensures
            r == if self.whole_value() < cap { self.whole_value() } else { cap as nat },
    {
        let mut acc: u64 = 0;
        let mut i: usize = 0;
        while i < self.whole.len()
            invariant
                self.wf(),
                0 <= i <= self.whole@.len(),
                acc == if digits_value(self.whole@.subrange(0, i as int)) < cap {
                    digits_value(self.whole@.subrange(0, i as int))
                } else {
                    cap as nat
                },
            decreases self.whole@.len() - i,
        {
            let ghost prev = self.whole@.subrange(0, i as int);
            let ghost next = self.whole@.subrange(0, i + 1);
            assert(next.drop_last() =~= prev);
            let d = self.whole[i];
            assert(d < 10);
            assert(digits_value(next) == digits_value(prev) * 10 + d as nat);
            let next: u128 = acc as u128 * 10 + d as u128;
            if next > cap as u128 {
                acc = cap;
            } else {
                acc = next as u64;
            }
            i = i + 1;
        }
        assert(self.whole@.subrange(0, self.whole@.len() as int) =~= self.whole@);
        acc
    }

    /// `factor` times the fractional part, rounded down.
    pub fn scaled_fraction(&self, factor: u64) -> (r: u64)
        requires
            self.wf(),
            factor <= u32::MAX,
        ensures
            r as int == (factor * self.fraction_value()) as int / self.denominator() as int,
            r <= factor,
    {
        let k = self.fraction.len();
        let mut carry: u64 = 0;
        let mut j: usize = k;
        assert(self.fraction@.subrange(k as int, k as int) =~= Seq::<u8>::empty());
        while j > 0
            invariant
                self.wf(),
                k == self.fraction@.len(),
                factor <= u32::MAX,
                0 <= j <= k,
                carry <= factor,
                carry as int == (factor * digits_value(self.fraction@.subrange(j as int, k as int)))
                    as int / pow10((k - j) as nat) as int,
            decreases j,
        {
            let ghost rest = self.fraction@.subrange(j as int, k as int);
            let ghost all = self.fraction@.subrange(j - 1, k as int);
            let d = self.fraction[j - 1];
            assert(d < 10);
            proof {
                let p = pow10((k - j) as nat);
                let v = digits_value(rest);
                assert(all =~= seq![d] + rest);
                lemma_digits_value_append(seq![d], rest);
                assert(seq![d].drop_last() =~= Seq::<u8>::empty());
                assert(seq![d].last() == d);
                assert(digits_value(Seq::<u8>::empty()) == 0);
                assert(digits_value(seq![d]) == d as nat);
                assert(pow10((k - (j - 1)) as nat) == 10 * p);
                lemma_pow10_positive((k - j) as nat);
                let x = factor * (d as nat * p + v);
                assert(factor * (d as nat * p + v) == (factor * d) * p + factor * v)
                    by (nonlinear_arith);
                lemma_hoist_over_denominator((factor * v) as int, (factor * d) as int, p);
                lemma_div_denominator(x as int, p as int, 10);
                assert(p * 10 == 10 * p);
            }
            assert(factor * (d as u64) <= 10 * u32::MAX) by (nonlinear_arith)
                requires
                    factor <= u32::MAX,
                    d < 10,
            ;
            carry = (factor * d as u64 + carry) / 10;
            proof {
                let p = pow10((k - (j - 1)) as nat);
                let v = digits_value(all);
                assert(all_digit_values(all)) by {
                    assert forall|i: int| 0 <= i < all.len() implies #[trigger] all[i] < 10 by {
                        assert(all[i] == self.fraction@[j - 1 + i]);
                    }
                }
                lemma_digits_value_bound(all);
                lemma_pow10_positive((k - (j - 1)) as nat);
                lemma_mul_inequality(v as int, p as int, factor as int);
                lemma_div_is_ordered((factor * v) as int, (p * factor) as int, p as int);
                assert((p * factor) as int / p as int == factor) by {
                    vstd::arithmetic::div_mod::lemma_div_multiples_vanish(factor as int, p as int);
                }
            }
            j = j - 1;
        }
        assert(self.fraction@.subrange(0, k as int) =~= self.fraction@);
        carry
    }

    /// Reads a rate written in decimal: digits with at most one decimal
    /// point (`20`, `0.5`, `5.`, `.25`).
    pub fn parse(text: &str) -> (r: Result<Rate, RateError>)
        ensures
            match r {
                Ok(rate) => {
                    let t = text@;
                    let n = rate.whole_digits().len() as int;
                    rate.wf() && is_rate_text(t) && if n == t.len() {
                        rate.whole_digits() == chars_to_digits(t)
                            && rate.fraction_digits().len() == 0
                    } else {
                        n < t.len() && t[n] == '.' && rate.whole_digits() == chars_to_digits(
                            t.subrange(0, n),
                        ) && rate.fraction_digits() == chars_to_digits(
                            t.subrange(n + 1, t.len() as int),
                        )
                    }
                },
                Err(e) => !is_rate_text(text@) && (e == RateError::Empty <==> text@.len() == 0),
            },
    {
        let ghost t = text@;
        let n = text.unicode_len();
        let mut whole: Vec<u8> = Vec::new();
        let mut fraction: Vec<u8> = Vec::new();
        let mut seen_point = false;
        let mut point: usize = 0;
        let mut i: usize = 0;
        while i < n
            invariant
                n == t.len(),
                t == text@,
                0 <= i <= n,
                all_digit_values(whole@),
                all_digit_values(fraction@),
                !seen_point ==> {
                    &&& all_digit_chars(t.subrange(0, i as int))
                    &&& whole@ == chars_to_digits(t.subrange(0, i as int))
                    &&& fraction@.len() == 0
                },
                seen_point ==> {
                    &&& point < i
                    &&& t[point as int] == '.'
                    &&& all_digit_chars(t.subrange(0, point as int))
                    &&& whole@ == chars_to_digits(t.subrange(0, point as int))
                    &&& all_digit_chars(t.subrange(point + 1, i as int))
                    &&& fraction@ == chars_to_digits(t.subrange(point + 1, i as int))
                },
            decreases n - i,
        {
            let c = text.get_char(i);
            if '0' <= c && c <= '9' {
                let d = (c as u32 - '0' as u32) as u8;
                if seen_point {
                    fraction.push(d);
                    assert(t.subrange(point + 1, i + 1) =~= t.subrange(point + 1, i as int).push(c));
                    assert(fraction@ =~= chars_to_digits(t.subrange(point + 1, i + 1)));
                } else {
                    whole.push(d);
                    assert(t.subrange(0, i + 1) =~= t.subrange(0, i as int).push(c));
                    assert(whole@ =~= chars_to_digits(t.subrange(0, i + 1)));
                }
            } else if c == '.' && !seen_point {
                seen_point = true;
                point = i;
                assert(t.subrange(point + 1, i + 1) =~= Seq::<char>::empty());
                assert(fraction@ =~= chars_to_digits(t.subrange(point + 1, i + 1)));
            } else {
                proof {
                    Self::lemma_bad_char(t, i as int, seen_point, point as int);
                }
                return Err(RateError::Invalid);
            }
            i = i + 1;
        }
        if n == 0 {
            return Err(RateError::Empty);
        }
        if seen_point && n < 2 {
            assert forall|p: int|
                !(0 <= p < t.len() && t.len() >= 2 && #[trigger] t[p] == '.' && all_digit_chars(
                    t.subrange(0, p),
                ) && all_digit_chars(t.subrange(p + 1, t.len() as int))) by {}
            assert(!is_digit_char(t[0]));
            return Err(RateError::Invalid);
        }
        proof {
            assert(t.subrange(0, n as int) =~= t);
            if seen_point {
                assert(0 <= point < t.len() && t.len() >= 2 && t[point as int] == '.');
            }
        }
        Ok(Rate { whole, fraction })
    }

    proof fn lemma_bad_char(t: Seq<char>, i: int, seen_point: bool, point: int)
        requires
            0 <= i < t.len(),
            !is_digit_char(t[i]),
            t[i] != '.' || seen_point,
            seen_point ==> 0 <= point < i && t[point] == '.',
        ensures
            !is_rate_text(t),
    {
        assert(!all_digit_chars(t));
        assert forall|p: int|
            !(0 <= p < t.len() && t.len() >= 2 && #[trigger] t[p] == '.' && all_digit_chars(
                t.subrange(0, p),
            ) && all_digit_chars(t.subrange(p + 1, t.len() as int))) by {
            if 0 <= p < t.len() && t[p] == '.' && all_digit_chars(t.subrange(0, p))
                && all_digit_chars(t.subrange(p + 1, t.len() as int)) {
                if i < p {
                    assert(t.subrange(0, p)[i] == t[i]);
                } else if i > p {
                    assert(t.subrange(p + 1, t.len() as int)[i - p - 1] == t[i]);
                } else {
                    assert(seen_point);
                    assert(t.subrange(0, p)[point] == t[point]);
                }
            }
        }
    }
}

} // verus!
