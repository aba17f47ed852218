use hours::time::{parse_difference, parse_time};

#[test]
fn nine_to_five_is_eight_hours() {
    assert_eq!(parse_difference("9:00am", "5:00pm"), Some(800));
}

#[test]
fn a_span_wraps_past_midnight() {
    assert_eq!(parse_difference("11:00pm", "1:00am"), Some(200));
}

#[test]
fn a_time_to_itself_is_zero() {
    assert_eq!(parse_difference("1:00pm", "1:00pm"), Some(0));
}

#[test]
fn a_span_needs_both_times() {
    assert_eq!(parse_difference("9:00am", "25:00"), None);
    assert_eq!(parse_difference("", "5:00pm"), None);
    assert_eq!(parse_difference("x", "y"), None);
}

#[test]
fn the_longest_span_is_short_of_a_day() {
    assert_eq!(parse_difference("12:01am", "12:00am"), Some(2398));
    assert_eq!(parse_difference("1:00am", "11:59pm"), Some(2298));
}

#[test]
fn hours_out_of_range_are_no_time() {
    assert_eq!(parse_time("13:00"), None);
    assert_eq!(parse_time("0:00"), None);
    assert_eq!(parse_time(""), None);
    assert_eq!(parse_time("0"), None);
    assert_eq!(parse_time("13"), None);
}

#[test]
fn minutes_out_of_range_are_no_time() {
    assert_eq!(parse_time("1:60"), None);
    assert_eq!(parse_time("1:100pm"), None);
}

#[test]
fn an_hour_of_zero_before_the_colon_is_no_time() {
    assert_eq!(parse_time("0:05"), None);
    assert_eq!(parse_time(":30"), None);
    assert_eq!(parse_time("00:59pm"), None);
}

#[test]
fn twelve_stays_twelve() {
    assert_eq!(parse_time("12:00am"), Some(1200));
    assert_eq!(parse_time("12:00pm"), Some(1200));
    assert_eq!(parse_time("12:30pm"), Some(1250));
    assert_eq!(parse_time("12"), Some(1200));
}

#[test]
fn pm_moves_to_the_afternoon() {
    assert_eq!(parse_time("1:30pm"), Some(1350));
    assert_eq!(parse_time("1:30am"), Some(150));
    assert_eq!(parse_time("1:30"), Some(150));
    assert_eq!(parse_time("11:59pm"), Some(2398));
    assert_eq!(parse_time("9pm"), Some(2100));
    assert_eq!(parse_time("9"), Some(900));
}

#[test]
fn the_suffix_is_read_in_either_case() {
    assert_eq!(parse_time("1:30PM"), Some(1350));
    assert_eq!(parse_time("1:30Pm"), Some(1350));
    assert_eq!(parse_time("1:30pM"), Some(1350));
    assert_eq!(parse_time("1:30AM"), Some(150));
}

#[test]
fn minutes_round_to_hundredths() {
    assert_eq!(parse_time("1:20am"), Some(133));
    assert_eq!(parse_time("1:40am"), Some(167));
    assert_eq!(parse_time("1:01am"), Some(102));
    assert_eq!(parse_time("1:59am"), Some(198));
    assert_eq!(parse_time("1:03am"), Some(105));
    assert_eq!(parse_time("1:15am"), Some(125));
}

#[test]
fn every_hour_and_minute_follows_the_formula() {
    for h in 1u64..=12 {
        for m in 0u64..=59 {
            let fraction = ((m as f64 / 60.0) * 100.0).round() / 100.0;
            for (suffix, pm) in [("am", false), ("pm", true)] {
                let hour = if pm && h != 12 { h + 12 } else { h };
                let expected = ((hour as f64 + fraction) * 100.0).round() as u64;
                let plain = format!("{}:{:02}{}", h, m, suffix);
                assert_eq!(parse_time(&plain), Some(expected), "{}", plain);
                let padded = format!("{:02}:{}{}", h, m, suffix.to_uppercase());
                assert_eq!(parse_time(&padded), Some(expected), "{}", padded);
            }
        }
    }
}

#[test]
fn scanning_stops_at_the_first_other_character() {
    assert_eq!(parse_time("1:5x9"), Some(108));
    assert_eq!(parse_time("7 30"), Some(700));
    assert_eq!(parse_time(" 9:00"), None);
    assert_eq!(parse_time("9:00 in the evening, pm"), Some(2100));
    assert_eq!(parse_time("pm"), None);
}

#[test]
fn the_last_colon_parts_hour_and_minute() {
    assert_eq!(parse_time("1:2:3"), Some(205));
    assert_eq!(parse_time("1:30:"), None);
    assert_eq!(parse_time("5::"), None);
    assert_eq!(parse_time("5:"), Some(500));
}

#[test]
fn long_runs_of_digits_do_not_overflow() {
    assert_eq!(parse_time("99999999999999999999999999999999"), None);
    assert_eq!(parse_time("1:99999999999999999999999999999999"), None);
    assert_eq!(parse_time("18446744073709551617"), None);
    assert_eq!(parse_time("0000000000000000000000000009:05am"), Some(908));
    assert_eq!(parse_time("9:000000000000000000000000000030"), Some(950));
}

#[test]
fn text_beyond_ascii_is_read_by_its_bytes() {
    assert_eq!(parse_time("9:30\u{e9}pm"), Some(2150));
    assert_eq!(parse_time("\u{661}:30"), None);
}
