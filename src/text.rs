//! The sentences that describe a rate and its conversion.
use crate::convert::{
    conversion_msg_spec, converted_amount, get_conversion_msg, whole_amount, whole_rate, ConvertTo,
};
use crate::rate::Rate;
use num_format::ToFormattedString;
use vstd::prelude::*;

verus! {

/// The character of a decimal digit.
pub open spec fn digit_char(d: nat) -> char {
    seq!['0', '1', '2', '3', '4', '5', '6', '7', '8', '9'][d as int]
}

/// `n` in decimal digits, without separators.
pub open spec fn decimal(n: nat) -> Seq<char>
    decreases n,
{
    if n < 10 {
        seq![digit_char(n)]
    } else {
        decimal(n / 10).push(digit_char(n % 10))
    }
}

/// The three digits of `n < 1000`, with leading zeros.
pub open spec fn three_digits(n: nat) -> Seq<char> {
    seq![digit_char(n / 100), digit_char((n / 10) % 10), digit_char(n % 10)]
}

/// `n` in decimal digits, with a comma before each group of three digits
/// counted from the right.
pub open spec fn grouped(n: nat) -> Seq<char>
    decreases n,
{
    if n < 1000 {
        decimal(n)
    } else {
        grouped(n / 1000) + seq![','] + three_digits(n % 1000)
    }
}

/// Relies on num_format's `to_formatted_string` under `Locale::en`, whose
/// separator is "," and whose grouping is by threes: the decimal digits of
/// a non-negative number, a comma before each group of three from the right.
#[verifier::external_body]
fn format_grouped(n: i32) -> (r: String)
    requires
        n >= 0,
    ensures
        r@ == grouped(n as nat),
{
    n.to_formatted_string(&num_format::Locale::en)
}

/// The amount of a description: `$`, the grouped amount, ` per `, the unit.
pub open spec fn pay_rate_spec(amount: Seq<char>, unit: Seq<char>) -> Seq<char> {
    "$"@ + amount + " per "@ + unit
}

/// The whole sentence, from its three parts.
pub open spec fn sentence_spec(current: Seq<char>, target: Seq<char>, new: Seq<char>) -> Seq<
    char,
> {
    "Your current pay rate of "@ + current + " converted to "@ + target + " would be "@ + new
}

/// The grouped whole part of `rate`, capped at the largest amount.
pub fn current_amount_text(rate: &Rate) -> (r: String)
    requires
        rate.wf(),
    ensures
        r@ == grouped(whole_amount(rate.numerator(), rate.denominator()) as nat),
{
    format_grouped(whole_rate(rate))
}

/// The grouped converted amount of `rate`.
pub fn new_amount_text(rate: &Rate, convert_to: ConvertTo) -> (r: String)
    requires
        rate.wf(),
    ensures
        r@ == grouped(converted_amount(convert_to, rate.numerator(), rate.denominator()) as nat),
{
    format_grouped(convert_to.new_rate(rate))
}

/// `$<amount> per <unit>`.
pub fn pay_rate_text(amount: &str, unit: &str) -> (r: String)
    ensures
        r@ == pay_rate_spec(amount@, unit@),
{
    let mut s = String::from_str("$");
    s.append(amount);
    s.append(" per ");
    s.append(unit);
    s
}

/// `Your current pay rate of <current> converted to <target> would be <new>`.
pub fn conversion_sentence(current: &str, target: &str, new: &str) -> (r: String)
    ensures
        r@ == sentence_spec(current@, target@, new@),
{
    let mut s = String::from_str("Your current pay rate of ");
    s.append(current);
    s.append(" converted to ");
    s.append(target);
    s.append(" would be ");
    s.append(new);
    s
}

/// The description of the rate as given, labelled with the unit of `convert_to`.
pub fn get_current_rate(rate: &Rate, convert_to: ConvertTo) -> (r: String)
    requires
        rate.wf(),
    ensures
        r@ == pay_rate_spec(
            grouped(whole_amount(rate.numerator(), rate.denominator()) as nat),
            convert_to.unit_spec(),
        ),
{
    let amount = current_amount_text(rate);
    pay_rate_text(amount.as_str(), convert_to.unit())
}

/// The description of the converted rate, labelled with the opposite unit.
pub fn get_new_rate(rate: &Rate, convert_to: ConvertTo) -> (r: String)
    requires
        rate.wf(),
    ensures
        r@ == pay_rate_spec(
            grouped(converted_amount(convert_to, rate.numerator(), rate.denominator()) as nat),
            convert_to.opposite_spec(),
        ),
{
    let amount = new_amount_text(rate, convert_to);
    pay_rate_text(amount.as_str(), convert_to.opposite())
}

/// The one line that describes `rate` and its conversion.
pub fn other_pay_rate_line(rate: &Rate, convert_to: ConvertTo) -> (r: String)
    requires
        rate.wf(),
    ensures
        r@ == sentence_spec(
            pay_rate_spec(
                grouped(whole_amount(rate.numerator(), rate.denominator()) as nat),
                convert_to.unit_spec(),
            ),
            conversion_msg_spec(convert_to),
            pay_rate_spec(
                grouped(converted_amount(convert_to, rate.numerator(), rate.denominator()) as nat),
                convert_to.opposite_spec(),
            ),
        ),
{
    let current = get_current_rate(rate, convert_to);
    let new = get_new_rate(rate, convert_to);
    conversion_sentence(current.as_str(), get_conversion_msg(convert_to), new.as_str())
}

} // verus!
