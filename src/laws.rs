//! Laws that relate the conversions and the descriptions.
use crate::convert::{converted_amount, per_hours, times_hours, ConvertTo, MAX_AMOUNT};
use crate::text::{decimal, digit_char, grouped, three_digits};
use vstd::arithmetic::div_mod::{
    lemma_div_denominator, lemma_div_is_ordered, lemma_div_multiples_vanish,
    lemma_fundamental_div_mod, lemma_mod_bound,
};
use vstd::arithmetic::mul::lemma_mul_is_commutative;
use vstd::prelude::*;

verus! {

/// Where it is not capped, the hourly conversion of the rate `num / den` is
/// `floor(r * 2080)`: the largest whole number at or below `r * 2080`.
pub proof fn lemma_hourly_is_floor(num: nat, den: nat)
    requires
        den > 0,
        times_hours(num, den) <= MAX_AMOUNT as int,
    ensures
        converted_amount(ConvertTo::Hourly, num, den) == times_hours(num, den),
        times_hours(num, den) * den <= num * 2080,
        num * 2080 < (times_hours(num, den) + 1) * den,
{
    lemma_fundamental_div_mod((num * 2080) as int, den as int);
    lemma_mod_bound((num * 2080) as int, den as int);
    lemma_mul_is_commutative(times_hours(num, den), den as int);
    let q = times_hours(num, den);
    assert((q + 1) * den == q * den + den) by (nonlinear_arith);
}

/// Where it is not capped, the salary conversion of the rate `num / den` is
/// `floor(r / 2080)`: the largest whole number at or below `r / 2080`.
pub proof fn lemma_salary_is_floor(num: nat, den: nat)
    requires
        den > 0,
        per_hours(num, den) <= MAX_AMOUNT as int,
    ensures
        converted_amount(ConvertTo::Salary, num, den) == per_hours(num, den),
        per_hours(num, den) * (2080 * den) <= num,
        num < (per_hours(num, den) + 1) * (2080 * den),
{
    lemma_fundamental_div_mod(num as int, (2080 * den) as int);
    lemma_mod_bound(num as int, (2080 * den) as int);
    lemma_mul_is_commutative(per_hours(num, den), (2080 * den) as int);
    let q = per_hours(num, den);
    let d = (2080 * den) as int;
    assert((q + 1) * d == q * d + d) by (nonlinear_arith);
}

/// Converting the rate `r = num / den` with `Hourly` and the whole amount
/// that comes out with `Salary` gives back `r` within one. It fails only
/// above `MAX_AMOUNT / 2080 + 1`, where the first amount is capped too far
/// below `r * 2080`.
pub proof fn lemma_round_trip_hourly_salary(num: nat, den: nat)
    requires
        den > 0,
        num <= (MAX_AMOUNT / 2080 + 1) * den,
    ensures
        ({
            let back = converted_amount(
                ConvertTo::Salary,
                converted_amount(ConvertTo::Hourly, num, den) as nat,
                1,
            );
            (back - 1) * den <= num && num <= (back + 1) * den
        }),
{
    let h = converted_amount(ConvertTo::Hourly, num, den);
    let x = (num * 2080) as int;
    assert(h >= 0) by {
        vstd::arithmetic::div_mod::lemma_div_pos_is_pos(x, den as int);
    }
    assert(per_hours(h as nat, 1) == h / 2080);
    assert(h / 2080 <= MAX_AMOUNT as int) by {
        lemma_div_is_ordered(h, MAX_AMOUNT as int, 2080);
    }
    let back = h / 2080;
    if times_hours(num, den) <= MAX_AMOUNT as int {
        // back == floor(floor(r * 2080) / 2080) == floor(r)
        lemma_div_denominator(x, den as int, 2080);
        lemma_div_denominator(x, 2080, den as int);
        lemma_div_multiples_vanish(num as int, 2080);
        assert(x == 2080 * num);
        assert(den * 2080 == 2080 * den);
        assert(back == num as int / den as int);
        lemma_fundamental_div_mod(num as int, den as int);
        lemma_mod_bound(num as int, den as int);
        assert(back * den <= num && num < (back + 1) * den) by (nonlinear_arith)
            requires
                num == den * back + num % den,
                0 <= num % den < den,
        ;
        assert((back - 1) * den <= back * den) by (nonlinear_arith)
            requires
                den > 0,
        ;
    } else {
        // the amount is capped: back == MAX_AMOUNT / 2080, and r lies
        // between back and back + 1
        assert(h == MAX_AMOUNT as int);
        assert(back == MAX_AMOUNT / 2080);
        lemma_fundamental_div_mod(x, den as int);
        lemma_mod_bound(x, den as int);
        let t = times_hours(num, den);
        assert(t >= MAX_AMOUNT as int + 1);
        assert(2080 * num >= (MAX_AMOUNT as int + 1) * den) by (nonlinear_arith)
            requires
                x == den * t + x % (den as int),
                x % (den as int) >= 0,
                t >= MAX_AMOUNT as int + 1,
                x == 2080 * num,
                den > 0,
        ;
        assert((back - 1) * den <= num) by (nonlinear_arith)
            requires
                2080 * num >= 2147483648 * den,
                back == 1032444,
                den > 0,
        ;
    }
}

/// Converting the rate `r = num / den` with `Salary` and the whole amount
/// that comes out with `Hourly` gives back `r` within one exactly where
/// `r` is within one above a multiple of 2080 whose conversion is not
/// capped: elsewhere `2080 * floor(r / 2080)` lies further below `r`.
pub proof fn lemma_round_trip_salary_hourly(num: nat, den: nat)
    requires
        den > 0,
        num % (2080 * den) <= den,
        2080 * per_hours(num, den) <= MAX_AMOUNT as int,
    ensures
        ({
            let back = converted_amount(
                ConvertTo::Hourly,
                converted_amount(ConvertTo::Salary, num, den) as nat,
                1,
            );
            (back - 1) * den <= num && num <= (back + 1) * den
        }),
{
    let d = (2080 * den) as int;
    let s = per_hours(num, den);
    lemma_fundamental_div_mod(num as int, d);
    lemma_mod_bound(num as int, d);
    assert(s >= 0) by {
        vstd::arithmetic::div_mod::lemma_div_pos_is_pos(num as int, d);
    }
    assert(s <= MAX_AMOUNT as int);
    assert(converted_amount(ConvertTo::Salary, num, den) == s);
    assert(times_hours(s as nat, 1) == s * 2080);
    let back = s * 2080;
    assert(converted_amount(ConvertTo::Hourly, s as nat, 1) == back);
    assert(num == back * den + (num as int) % d) by (nonlinear_arith)
        requires
            num == d * s + (num as int) % d,
            d == 2080 * den,
            back == s * 2080,
    ;
    assert((back - 1) * den <= back * den) by (nonlinear_arith)
        requires
            den > 0,
    ;
    assert((back + 1) * den == back * den + den) by (nonlinear_arith);
}

/// No decimal digit is a comma.
proof fn lemma_decimal_has_no_comma(n: nat)
    ensures
        decimal(n).len() >= 1,
        forall|i: int| 0 <= i < decimal(n).len() ==> #[trigger] decimal(n)[i] != ',',
    decreases n,
{
    if n >= 10 {
        lemma_decimal_has_no_comma(n / 10);
    }
}

/// The characters of a text that are not commas, in order.
pub open spec fn without_commas(s: Seq<char>) -> Seq<char> {
    s.filter(not_comma())
}

pub open spec fn not_comma() -> spec_fn(char) -> bool {
    |c: char| c != ','
}

proof fn lemma_without_commas_keeps(s: Seq<char>)
    requires
        forall|i: int| 0 <= i < s.len() ==> #[trigger] s[i] != ',',
    ensures
        without_commas(s) == s,
    decreases s.len(),
{
    reveal(Seq::filter);
    if s.len() > 0 {
        let d = s.drop_last();
        assert forall|i: int| 0 <= i < d.len() implies #[trigger] d[i] != ',' by {
            assert(d[i] == s[i]);
        }
        lemma_without_commas_keeps(d);
        assert(s.last() == s[s.len() - 1]);
        assert(d.push(s.last()) =~= s);
    }
}

/// The last three digits of a number of four digits or more.
proof fn lemma_decimal_split(n: nat)
    requires
        n >= 1000,
    ensures
        decimal(n) == decimal(n / 1000) + three_digits(n % 1000),
{
    let r = n % 1000;
    assert(n / 10 >= 100);
    assert(n / 10 / 10 == n / 100);
    assert(n / 100 / 10 == n / 1000);
    assert((n / 100) % 10 == r / 100);
    assert((n / 10) % 10 == (r / 10) % 10);
    assert(n % 10 == r % 10);
    let a = n / 10;
    let b = a / 10;
    assert(b == n / 100);
    assert(decimal(n) == decimal(a).push(digit_char(n % 10)));
    assert(decimal(a) == decimal(b).push(digit_char(a % 10)));
    assert(decimal(b) == decimal(b / 10).push(digit_char(b % 10)));
    assert(decimal(n) =~= decimal(n / 1000) + three_digits(r));
}

/// Taking the commas out of the grouped form of a number leaves its plain
/// decimal digits: grouping only inserts separators.
pub proof fn lemma_grouping_keeps_digits(n: nat)
    ensures
        without_commas(grouped(n)) == decimal(n),
    decreases n,
{
    lemma_decimal_has_no_comma(n);
    if n < 1000 {
        lemma_without_commas_keeps(decimal(n));
    } else {
        let h = grouped(n / 1000);
        let t = three_digits(n % 1000);
        lemma_grouping_keeps_digits(n / 1000);
        Seq::filter_distributes_over_add(h + seq![','], t, not_comma());
        Seq::filter_distributes_over_add(h, seq![','], not_comma());
        lemma_without_commas_keeps(t);
        reveal(Seq::filter);
        assert(seq![','].drop_last() =~= Seq::<char>::empty());
        let comma = seq![','];
        assert(!(not_comma())(','));
        assert(comma.last() == ',');
        assert(Seq::<char>::empty().filter(not_comma()) == Seq::<char>::empty());
        assert(without_commas(comma) =~= Seq::<char>::empty());
        lemma_decimal_split(n);
    }
}

/// In the grouped form of a number a comma stands exactly at every fourth
/// place counted from the right, so that three digits stand between two
/// commas and after the last one.
pub proof fn lemma_grouping_separators(n: nat)
    ensures
        forall|i: int|
            0 <= i < grouped(n).len() ==> (#[trigger] grouped(n)[i] == ',' <==> (grouped(n).len()
                - i) % 4 == 0),
    decreases n,
{
    let g = grouped(n);
    if n < 1000 {
        lemma_decimal_has_no_comma(n);
        assert(decimal(n).len() <= 3) by {
            if n >= 10 {
                if n >= 100 {
                    assert(decimal(n / 10 / 10).len() == 1);
                }
                assert(decimal(n / 10).len() <= 2);
            }
        }
    } else {
        let h = grouped(n / 1000);
        lemma_grouping_separators(n / 1000);
        let t = three_digits(n % 1000);
        assert forall|i: int| 0 <= i < g.len() implies (#[trigger] g[i] == ',' <==> (g.len() - i)
            % 4 == 0) by {
            if i < h.len() {
                assert(g[i] == h[i]);
                assert((g.len() - i) % 4 == (h.len() - i) % 4);
            } else if i == h.len() {
                assert(g[i] == ',');
            } else {
                let d = i - h.len() - 1;
                assert(g[i] == t[d]);
                assert(t[d] != ',');
            }
        }
    }
}

} // verus!
