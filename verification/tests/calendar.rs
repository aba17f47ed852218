use hours::calendar::{get_days_from_month, month_to_string, Date, MAX_YEAR, MIN_YEAR};
use hours::entry::get_ymd;

fn text(year: i32, month: u32, day: u32) -> Option<String> {
    Date::new(year, month, day).to_text()
}

#[test]
fn a_date_is_written_with_dashes_and_zeros() {
    assert_eq!(text(2024, 6, 1), Some("2024-06-01".to_string()));
    assert_eq!(text(2024, 12, 31), Some("2024-12-31".to_string()));
    assert_eq!(text(5, 1, 9), Some("0005-01-09".to_string()));
    assert_eq!(text(0, 1, 1), Some("0000-01-01".to_string()));
    assert_eq!(text(9999, 12, 31), Some("9999-12-31".to_string()));
}

#[test]
fn a_year_out_of_four_digits_has_a_sign() {
    assert_eq!(text(10000, 1, 1), Some("+10000-01-01".to_string()));
    assert_eq!(text(-1, 1, 1), Some("-0001-01-01".to_string()));
    assert_eq!(text(-12345, 3, 4), Some("-12345-03-04".to_string()));
    assert_eq!(text(MAX_YEAR, 12, 31), Some("+262142-12-31".to_string()));
    assert_eq!(text(MIN_YEAR, 1, 1), Some("-262143-01-01".to_string()));
}

#[test]
fn what_names_no_day_has_no_text() {
    assert_eq!(text(2023, 2, 29), None);
    assert_eq!(text(2024, 2, 30), None);
    assert_eq!(text(2024, 4, 31), None);
    assert_eq!(text(2024, 0, 1), None);
    assert_eq!(text(2024, 13, 1), None);
    assert_eq!(text(2024, 1, 0), None);
    assert_eq!(text(2024, 1, 32), None);
    assert_eq!(text(MAX_YEAR + 1, 1, 1), None);
    assert_eq!(text(MIN_YEAR - 1, 12, 31), None);
    assert_eq!(text(1900, 2, 29), None);
}

#[test]
fn leap_days_are_days() {
    assert_eq!(text(2024, 2, 29), Some("2024-02-29".to_string()));
    assert_eq!(text(2000, 2, 29), Some("2000-02-29".to_string()));
    assert_eq!(text(-4, 2, 29), Some("-0004-02-29".to_string()));
    assert_eq!(text(0, 2, 29), Some("0000-02-29".to_string()));
}

#[test]
fn a_written_date_reads_back() {
    for (y, m, d) in [(2024, 6, 1), (1, 1, 1), (9999, 12, 31), (0, 2, 29), (1987, 10, 5)] {
        let written = text(y, m, d).unwrap();
        assert_eq!(get_ymd(&written), (y as u16, m as u8, d as u8));
    }
}

#[test]
fn months_have_their_lengths() {
    assert_eq!(get_days_from_month(2023, 1), 31);
    assert_eq!(get_days_from_month(2023, 2), 28);
    assert_eq!(get_days_from_month(2024, 2), 29);
    assert_eq!(get_days_from_month(1900, 2), 28);
    assert_eq!(get_days_from_month(2000, 2), 29);
    assert_eq!(get_days_from_month(2023, 4), 30);
    assert_eq!(get_days_from_month(2023, 11), 30);
    assert_eq!(get_days_from_month(2023, 12), 31);
    assert_eq!(get_days_from_month(MIN_YEAR, 1), 31);
    assert_eq!(get_days_from_month(MAX_YEAR, 11), 30);
    assert_eq!(get_days_from_month(MAX_YEAR - 1, 12), 31);
}

#[test]
fn every_month_has_the_length_of_the_calendar() {
    let years = (1600..=2400).chain([MIN_YEAR, MIN_YEAR + 1, -400, -100, -4, -1, 0, 1, 4]).chain(
        [9999, 10000, 100000, MAX_YEAR - 1, MAX_YEAR],
    );
    for year in years {
        let leap =
            year.rem_euclid(4) == 0 && (year.rem_euclid(100) != 0 || year.rem_euclid(400) == 0);
        for month in 1..=12u32 {
            if month == 12 && year == MAX_YEAR {
                continue;
            }
            let expected = match month {
                2 if leap => 29,
                2 => 28,
                4 | 6 | 9 | 11 => 30,
                _ => 31,
            };
            assert_eq!(get_days_from_month(year, month), expected, "{}-{}", year, month);
        }
    }
}

#[test]
fn months_have_their_names() {
    let names = [
        "January",
        "February",
        "March",
        "April",
        "May",
        "June",
        "July",
        "August",
        "September",
        "October",
        "November",
        "December",
    ];
    for n in 1..=12u32 {
        assert_eq!(month_to_string(n), names[n as usize - 1]);
    }
}
