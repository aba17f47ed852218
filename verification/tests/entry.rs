use std::cmp::Ordering;

use hours::entry::{get_ymd, Entry};
use hours::order::{sort_batches, sort_entries};

fn entry(date: &str, description: &str) -> Entry {
    Entry::new(
        date.to_string(),
        description.to_string(),
        "9:00am".to_string(),
        "5:00pm".to_string(),
        800,
    )
}

fn dates(entries: &[Entry]) -> Vec<String> {
    entries.iter().map(|e| format!("{} {}", e.date, e.description)).collect()
}

#[test]
fn a_date_gives_year_month_and_day() {
    assert_eq!(get_ymd("2024-06-01"), (2024, 6, 1));
    assert_eq!(get_ymd("2024-6-1"), (2024, 6, 1));
    assert_eq!(get_ymd("0001-01-01"), (1, 1, 1));
    assert_eq!(get_ymd("65535-255-255"), (65535, 255, 255));
}

#[test]
fn a_date_with_fewer_than_three_fields_is_all_zero() {
    assert_eq!(get_ymd(""), (0, 0, 0));
    assert_eq!(get_ymd("2024"), (0, 0, 0));
    assert_eq!(get_ymd("2024-06"), (0, 0, 0));
}

#[test]
fn a_field_that_is_no_number_counts_as_zero() {
    assert_eq!(get_ymd("a-b-c"), (0, 0, 0));
    assert_eq!(get_ymd("2024-x-1"), (2024, 0, 1));
    assert_eq!(get_ymd("2024--1"), (2024, 0, 1));
    assert_eq!(get_ymd("2024-06-"), (2024, 6, 0));
    assert_eq!(get_ymd("2024-06-1 "), (2024, 6, 0));
    assert_eq!(get_ymd("--"), (0, 0, 0));
    assert_eq!(get_ymd("+-+-+"), (0, 0, 0));
}

#[test]
fn a_field_that_is_too_large_counts_as_zero() {
    assert_eq!(get_ymd("65536-1-1"), (0, 1, 1));
    assert_eq!(get_ymd("2024-256-1"), (2024, 0, 1));
    assert_eq!(get_ymd("2024-1-99999999999999999999999999"), (2024, 1, 0));
    assert_eq!(get_ymd("000000000000000000000000002024-0001-0001"), (2024, 1, 1));
}

#[test]
fn a_plus_may_stand_before_a_number() {
    assert_eq!(get_ymd("+5-+6-+7"), (5, 6, 7));
    assert_eq!(get_ymd("++5-6-7"), (0, 6, 7));
}

#[test]
fn only_the_first_three_fields_count() {
    assert_eq!(get_ymd("2024-06-01-17"), (2024, 6, 1));
    assert_eq!(get_ymd("-2024-06-01"), (0, 0, 6));
    assert_eq!(get_ymd("-24-06-01"), (0, 24, 6));
}

#[test]
fn new_keeps_every_field() {
    let e = Entry::new(
        "2024-06-01".to_string(),
        "review".to_string(),
        "9:00am".to_string(),
        "5:30pm".to_string(),
        850,
    );
    assert_eq!(e.date, "2024-06-01");
    assert_eq!(e.description, "review");
    assert_eq!(e.start, "9:00am");
    assert_eq!(e.end, "5:30pm");
    assert_eq!(e.hours, 850);
    assert!(!e.is_separator());
}

#[test]
fn a_separator_is_empty() {
    let e = Entry::separator();
    assert!(e.is_separator());
    assert_eq!(e.date, "");
    assert_eq!(e.description, "");
    assert_eq!(e.start, "");
    assert_eq!(e.end, "");
    assert_eq!(e.hours, 0);
    assert_eq!(e.rank(), 0);
}

#[test]
fn the_rank_orders_as_the_dates_do() {
    assert_eq!(entry("2024-06-01", "").rank(), (2024 * 256 + 6) * 256 + 1);
    assert!(entry("2024-06-01", "").newer_than(&entry("2024-01-01", "")));
    assert!(!entry("2024-01-01", "").newer_than(&entry("2024-06-01", "")));
    assert!(!entry("2024-01-01", "").newer_than(&entry("2024-01-01", "")));
    assert!(entry("2024-01-02", "").newer_than(&entry("2024-01-01", "")));
    assert!(entry("2025-01-01", "").newer_than(&entry("2024-12-31", "")));
    assert!(entry("2024-10-01", "").newer_than(&entry("2024-9-30", "")));
}

#[test]
fn two_texts_for_one_day_do_not_stand_level() {
    let short = entry("2024-1-1", "");
    let long = entry("2024-01-01", "");
    assert_eq!(short.rank(), long.rank());
    assert!(short.newer_than(&long));
    assert!(!long.newer_than(&short));
    assert!(entry("2024-01-01-x", "").newer_than(&long));
    assert!(!long.newer_than(&entry("2024-01-01-x", "")));
    assert!(long.newer_than(&entry("2024-01-01x", "")));
    assert!(entry("x", "").newer_than(&entry("", "")));
    assert!(!entry("", "").newer_than(&entry("", "")));
}

#[test]
fn entries_stand_level_exactly_where_they_are_equal() {
    let dates = ["2024-06-01", "2024-6-1", "2024-06-01 ", "2024-01-01", "", "x", "y", "+2024-6-1"];
    for a in dates {
        for b in dates {
            let (one, other) = (entry(a, "one"), entry(b, "other"));
            let level = !one.newer_than(&other) && !other.newer_than(&one);
            assert_eq!(level, a == b, "{:?} {:?}", a, b);
            assert_eq!(one == other, a == b);
            assert_eq!(one.cmp(&other) == Ordering::Equal, a == b);
            assert_eq!(one.cmp(&other) == Ordering::Less, one.newer_than(&other));
            assert_eq!(one.cmp(&other) == Ordering::Greater, other.newer_than(&one));
            assert_eq!(one.cmp(&other), other.cmp(&one).reverse());
        }
    }
}

#[test]
fn the_later_day_compares_as_less() {
    assert_eq!(entry("2024-06-01", "").cmp(&entry("2024-01-01", "")), Ordering::Less);
    assert_eq!(entry("2024-01-01", "").cmp(&entry("2024-06-01", "")), Ordering::Greater);
    assert_eq!(entry("2024-01-01", "a").cmp(&entry("2024-01-01", "b")), Ordering::Equal);
    assert_eq!(entry("2024-1-1", "").cmp(&entry("2024-01-01", "")), Ordering::Less);
}

#[test]
fn texts_for_one_day_are_kept_apart_in_sorting() {
    let mut list = vec![
        entry("2024-01-01", "a"),
        entry("2024-1-1", "b"),
        entry("2024-01-01", "c"),
        entry("2024-01-02", "d"),
        entry("2024-1-1", "e"),
        entry("2024-1-01", "f"),
    ];
    sort_entries(&mut list);
    assert_eq!(
        dates(&list),
        [
            "2024-01-02 d",
            "2024-1-1 b",
            "2024-1-1 e",
            "2024-1-01 f",
            "2024-01-01 a",
            "2024-01-01 c",
        ]
    );
}

#[test]
fn sorting_agrees_with_a_stable_sort_by_day_and_text() {
    let mut list = Vec::new();
    let mut seed: u32 = 99;
    for i in 0..300 {
        seed = seed.wrapping_mul(1103515245).wrapping_add(12345);
        let y = 2023 + (seed >> 16) % 2;
        let m = 1 + (seed >> 8) % 3;
        let d = 1 + (seed >> 3) % 4;
        let date = match (seed >> 20) % 4 {
            0 => format!("{:04}-{:02}-{:02}", y, m, d),
            1 => format!("{}-{}-{}", y, m, d),
            2 => format!("+{}-{:02}-{}", y, m, d),
            _ => format!("{}-{}-{:03}", y, m, d),
        };
        list.push(entry(&date, &format!("{}", i)));
    }
    let mut expected = list.clone();
    expected.sort_by(|a, b| {
        get_ymd(&b.date).cmp(&get_ymd(&a.date)).then(b.date.as_bytes().cmp(a.date.as_bytes()))
    });
    sort_entries(&mut list);
    assert_eq!(dates(&list), dates(&expected));
}

#[test]
fn batches_are_sorted_each_by_itself() {
    let mut list = vec![
        entry("2024-01-01", "a"),
        entry("2024-06-01", "b"),
        entry("2024-03-01", "c"),
        entry("", "first end"),
        entry("", "second end"),
        entry("2025-01-01", "d"),
        entry("2025-01-01", "e"),
        entry("2025-02-01", "f"),
        entry("", "third end"),
        entry("2020-01-01", "g"),
        entry("2021-01-01", "h"),
    ];
    sort_batches(&mut list);
    assert_eq!(
        dates(&list),
        [
            "2024-06-01 b",
            "2024-03-01 c",
            "2024-01-01 a",
            " first end",
            " second end",
            "2025-02-01 f",
            "2025-01-01 d",
            "2025-01-01 e",
            " third end",
            "2021-01-01 h",
            "2020-01-01 g",
        ]
    );
    let mut none: Vec<Entry> = Vec::new();
    sort_batches(&mut none);
    assert!(none.is_empty());
    let mut marks = vec![entry("", "x"), entry("", "y")];
    sort_batches(&mut marks);
    assert_eq!(dates(&marks), [" x", " y"]);
}

#[test]
fn entries_are_equal_by_their_date_text() {
    assert!(entry("2024-06-01", "a") == entry("2024-06-01", "b"));
    assert!(entry("2024-06-01", "a") != entry("2024-06-02", "a"));
    assert!(entry("2024-06-01", "a") != entry("2024-6-1", "a"));
}

#[test]
fn the_later_of_two_dates_comes_first() {
    let mut one = vec![entry("2024-01-01", "old"), entry("2024-06-01", "new")];
    sort_entries(&mut one);
    assert_eq!(dates(&one), ["2024-06-01 new", "2024-01-01 old"]);
    let mut other = vec![entry("2024-06-01", "new"), entry("2024-01-01", "old")];
    sort_entries(&mut other);
    assert_eq!(dates(&other), ["2024-06-01 new", "2024-01-01 old"]);
}

#[test]
fn entries_of_one_date_keep_their_order() {
    let mut list = vec![
        entry("2024-03-01", "a"),
        entry("2024-05-01", "b"),
        entry("2024-03-01", "c"),
        entry("2024-05-01", "d"),
        entry("2024-04-01", "e"),
        entry("2024-03-01", "f"),
        entry("", "g"),
        entry("2024-05-01", "h"),
    ];
    sort_entries(&mut list);
    assert_eq!(
        dates(&list),
        [
            "2024-05-01 b",
            "2024-05-01 d",
            "2024-05-01 h",
            "2024-04-01 e",
            "2024-03-01 a",
            "2024-03-01 c",
            "2024-03-01 f",
            " g",
        ]
    );
}

#[test]
fn sorting_agrees_with_a_stable_sort_by_date() {
    let mut list = Vec::new();
    let mut seed: u32 = 12345;
    for i in 0..200 {
        seed = seed.wrapping_mul(1103515245).wrapping_add(12345);
        let y = 2020 + (seed >> 16) % 3;
        let m = 1 + (seed >> 8) % 12;
        let d = 1 + (seed >> 3) % 28;
        list.push(entry(&format!("{:04}-{:02}-{:02}", y, m, d), &format!("{}", i)));
    }
    let mut expected = list.clone();
    expected.sort_by(|a, b| get_ymd(&b.date).cmp(&get_ymd(&a.date)));
    sort_entries(&mut list);
    assert_eq!(dates(&list), dates(&expected));
}

#[test]
fn sorting_short_lists_changes_nothing() {
    let mut none: Vec<Entry> = Vec::new();
    sort_entries(&mut none);
    assert!(none.is_empty());
    let mut one = vec![entry("2024-01-01", "only")];
    sort_entries(&mut one);
    assert_eq!(dates(&one), ["2024-01-01 only"]);
}
