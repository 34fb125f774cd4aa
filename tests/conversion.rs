use payrate::convert::{get_conversion_msg, whole_rate, ConvertTo, MAX_AMOUNT, WORKING_HOURS_PER_YEAR};
use payrate::rate::{Rate, RateError};
use payrate::text::{
    conversion_sentence, current_amount_text, get_current_rate, get_new_rate, new_amount_text,
    other_pay_rate_line, pay_rate_text,
};

fn rate(text: &str) -> Rate {
    Rate::parse(text).expect("a valid rate")
}

#[test]
fn working_hours_are_forty_times_fifty_two() {
    assert_eq!(WORKING_HOURS_PER_YEAR, 2080);
}

#[test]
fn hourly_of_twenty_is_41600() {
    let r = rate("20");
    assert_eq!(ConvertTo::Hourly.new_rate(&r), 41600);
    assert_eq!(
        other_pay_rate_line(&r, ConvertTo::Hourly),
        "Your current pay rate of $20 per hour converted to a salary would be $41,600 per year"
    );
}

#[test]
fn salary_of_41600_is_20() {
    let r = rate("41600");
    assert_eq!(ConvertTo::Salary.new_rate(&r), 20);
    assert_eq!(
        other_pay_rate_line(&r, ConvertTo::Salary),
        "Your current pay rate of $41,600 per year converted to an hourly pay would be $20 per hour"
    );
}

#[test]
fn zero_rate_gives_zero_both_ways() {
    let r = rate("0");
    assert_eq!(ConvertTo::Hourly.new_rate(&r), 0);
    assert_eq!(ConvertTo::Salary.new_rate(&r), 0);
    assert_eq!(
        other_pay_rate_line(&r, ConvertTo::Hourly),
        "Your current pay rate of $0 per hour converted to a salary would be $0 per year"
    );
    assert_eq!(
        other_pay_rate_line(&r, ConvertTo::Salary),
        "Your current pay rate of $0 per year converted to an hourly pay would be $0 per hour"
    );
}

#[test]
fn half_an_hour_rate_gives_1040() {
    let r = rate("0.5");
    assert_eq!(ConvertTo::Hourly.new_rate(&r), 1040);
    assert_eq!(get_new_rate(&r, ConvertTo::Hourly), "$1,040 per year");
    assert_eq!(get_current_rate(&r, ConvertTo::Hourly), "$0 per hour");
}

#[test]
fn missing_rate_is_refused() {
    assert_eq!(Rate::parse("").unwrap_err(), RateError::Empty);
}

#[test]
fn malformed_rates_are_refused() {
    for text in [".", "abc", "1.2.3", "-5", "1e3", " 5", "5 ", "1,000", "١٢"] {
        assert_eq!(Rate::parse(text).unwrap_err(), RateError::Invalid, "{}", text);
    }
}

#[test]
fn point_may_stand_at_either_end() {
    assert_eq!(whole_rate(&rate("5.")), 5);
    assert_eq!(ConvertTo::Hourly.new_rate(&rate(".25")), 520);
    assert_eq!(whole_rate(&rate(".25")), 0);
}

#[test]
fn hourly_is_rounded_down() {
    assert_eq!(ConvertTo::Hourly.new_rate(&rate("0.1")), 208);
    assert_eq!(ConvertTo::Hourly.new_rate(&rate("12.349")), 25685);
    assert_eq!(ConvertTo::Hourly.new_rate(&rate("0.0004807692307692307692307693")), 1);
    assert_eq!(ConvertTo::Hourly.new_rate(&rate("0.0004807692307692307692307692")), 0);
}

#[test]
fn salary_is_rounded_down() {
    assert_eq!(ConvertTo::Salary.new_rate(&rate("2079.999")), 0);
    assert_eq!(ConvertTo::Salary.new_rate(&rate("2080")), 1);
    assert_eq!(ConvertTo::Salary.new_rate(&rate("100000")), 48);
    assert_eq!(ConvertTo::Salary.new_rate(&rate("4160.75")), 2);
}

#[test]
fn large_rates_are_capped() {
    let r = rate("99999999999999999999999999.5");
    assert_eq!(ConvertTo::Hourly.new_rate(&r), MAX_AMOUNT);
    assert_eq!(ConvertTo::Salary.new_rate(&r), MAX_AMOUNT);
    assert_eq!(whole_rate(&r), MAX_AMOUNT);
    assert_eq!(ConvertTo::Hourly.new_rate(&rate("1032445")), MAX_AMOUNT);
    assert_eq!(ConvertTo::Hourly.new_rate(&rate("1032444")), 2147483520);
    assert_eq!(ConvertTo::Salary.new_rate(&rate("4466765987839")), 2147483647);
    assert_eq!(current_amount_text(&r), "2,147,483,647");
}

#[test]
fn round_trip_hourly_then_salary() {
    for text in ["20.5", "0", "0.999", "1032444.5", "1032445"] {
        let r = rate(text);
        let h = ConvertTo::Hourly.new_rate(&r);
        let back = ConvertTo::Salary.new_rate(&rate(&h.to_string()));
        let value: f64 = text.parse().unwrap();
        assert!((back as f64 - value).abs() <= 1.0, "{}", text);
    }
}

#[test]
fn round_trip_salary_then_hourly() {
    for text in ["41600.5", "41601", "0.75", "2080"] {
        let r = rate(text);
        let s = ConvertTo::Salary.new_rate(&r);
        let back = ConvertTo::Hourly.new_rate(&rate(&s.to_string()));
        let value: f64 = text.parse().unwrap();
        assert!((back as f64 - value).abs() <= 1.0, "{}", text);
    }
    // further from a multiple of 2080 the round trip drifts
    let s = ConvertTo::Salary.new_rate(&rate("3000"));
    assert_eq!(ConvertTo::Hourly.new_rate(&rate(&s.to_string())), 2080);
}

#[test]
fn thousands_are_grouped() {
    assert_eq!(get_current_rate(&rate("1234"), ConvertTo::Hourly), "$1,234 per hour");
    assert_eq!(get_current_rate(&rate("999.9"), ConvertTo::Salary), "$999 per year");
    assert_eq!(get_current_rate(&rate("1000"), ConvertTo::Salary), "$1,000 per year");
    assert_eq!(current_amount_text(&rate("1000000")), "1,000,000");
    assert_eq!(current_amount_text(&rate("12345678")), "12,345,678");
    assert_eq!(new_amount_text(&rate("500"), ConvertTo::Hourly), "1,040,000");
    assert_eq!(new_amount_text(&rate("500"), ConvertTo::Salary), "0");
}

#[test]
fn unit_words_and_phrases() {
    assert_eq!(ConvertTo::Hourly.unit(), "hour");
    assert_eq!(ConvertTo::Salary.unit(), "year");
    assert_eq!(ConvertTo::Hourly.opposite(), "year");
    assert_eq!(ConvertTo::Salary.opposite(), "hour");
    assert_eq!(get_conversion_msg(ConvertTo::Hourly), "a salary");
    assert_eq!(get_conversion_msg(ConvertTo::Salary), "an hourly pay");
}

#[test]
fn sentence_parts_are_joined() {
    assert_eq!(pay_rate_text("7", "week"), "$7 per week");
    assert_eq!(
        conversion_sentence("A", "B", "C"),
        "Your current pay rate of A converted to B would be C"
    );
}

#[test]
fn grouping_only_inserts_commas() {
    for text in ["7", "12", "999", "1000", "65432", "2147483647"] {
        let grouped = current_amount_text(&rate(text));
        assert_eq!(grouped.replace(',', ""), text);
        let len = grouped.len();
        for (i, c) in grouped.chars().enumerate() {
            assert_eq!(c == ',', (len - i) % 4 == 0, "{}", grouped);
        }
    }
}
