use hours::entry::Entry;
use hours::decimal::parse_hours;
use hours::store::{
    entry_from_line, get_entry, hours_to_string, read_archive, read_entrys, wipe_entrys,
    write_entry, write_to_archive,
};

fn made(date: &str, description: &str, start: &str, end: &str, hours: u64) -> Entry {
    Entry::new(
        date.to_string(),
        description.to_string(),
        start.to_string(),
        end.to_string(),
        hours,
    )
}

fn fields(e: &Entry) -> (String, String, String, String, u64) {
    (e.date.clone(), e.description.clone(), e.start.clone(), e.end.clone(), e.hours)
}

fn all_fields(entries: &[Entry]) -> Vec<(String, String, String, String, u64)> {
    entries.iter().map(fields).collect()
}

fn owned(date: &str, description: &str, start: &str, end: &str, hours: u64) -> (
    String,
    String,
    String,
    String,
    u64,
) {
    (date.to_string(), description.to_string(), start.to_string(), end.to_string(), hours)
}

#[test]
fn a_line_has_five_fields() {
    let e = get_entry("2024-06-01,review,9:00am,5:30pm,8.5".to_string()).unwrap();
    assert_eq!(fields(&e), owned("2024-06-01", "review", "9:00am", "5:30pm", 850));
}

#[test]
fn fields_may_be_empty() {
    let e = get_entry(",,,,0".to_string()).unwrap();
    assert_eq!(fields(&e), owned("", "", "", "", 0));
    let e = get_entry("2024-06-01,,9am,5pm,8".to_string()).unwrap();
    assert_eq!(fields(&e), owned("2024-06-01", "", "9am", "5pm", 800));
}

#[test]
fn a_line_with_fewer_fields_holds_no_entry() {
    assert!(get_entry("".to_string()).is_none());
    assert!(get_entry("-".to_string()).is_none());
    assert!(get_entry("2024-06-01".to_string()).is_none());
    assert!(get_entry("2024-06-01,review,9:00am,5:30pm".to_string()).is_none());
    assert!(get_entry("2024-06-01,review,9:00am,8.5".to_string()).is_none());
    assert!(get_entry(",,,".to_string()).is_none());
}

#[test]
fn a_line_whose_hours_are_no_number_holds_no_entry() {
    assert!(get_entry("2024-06-01,review,9:00am,5:30pm,".to_string()).is_none());
    assert!(get_entry("2024-06-01,review,9:00am,5:30pm,eight".to_string()).is_none());
    assert!(get_entry("2024-06-01,review,9:00am,5:30pm,8.5 ".to_string()).is_none());
    assert!(get_entry("2024-06-01,review,9:00am,5:30pm,8,5".to_string()).is_none());
}

#[test]
fn a_comma_in_a_field_moves_the_fields_behind_it() {
    assert!(get_entry("2024-06-01,plan, then review,9:00am,5:30pm,8.5".to_string()).is_none());
    let e = get_entry("2024-06-01,a,b,9:00am,5".to_string()).unwrap();
    assert_eq!(fields(&e), owned("2024-06-01", "a", "b", "9:00am", 500));
}

#[test]
fn fields_keep_what_is_beyond_ascii() {
    let e = entry_from_line("2024-06-01,caf\u{e9} \u{2615},9:00am,5:00pm,8").unwrap();
    assert_eq!(fields(&e), owned("2024-06-01", "caf\u{e9} \u{2615}", "9:00am", "5:00pm", 800));
}

#[test]
fn hours_are_read_in_hundredths() {
    assert_eq!(parse_hours(b"8"), Some(800));
    assert_eq!(parse_hours(b"7.5"), Some(750));
    assert_eq!(parse_hours(b"0.25"), Some(25));
    assert_eq!(parse_hours(b"0.05"), Some(5));
    assert_eq!(parse_hours(b"0"), Some(0));
    assert_eq!(parse_hours(b"0.0"), Some(0));
    assert_eq!(parse_hours(b"13.50"), Some(1350));
    assert_eq!(parse_hours(b"0008.10"), Some(810));
}

#[test]
fn hours_with_more_digits_are_rounded() {
    assert_eq!(parse_hours(b"8.329999999999998"), Some(833));
    assert_eq!(parse_hours(b"1.004"), Some(100));
    assert_eq!(parse_hours(b"1.005"), Some(101));
    assert_eq!(parse_hours(b"1.0049"), Some(100));
    assert_eq!(parse_hours(b"0.999"), Some(100));
    assert_eq!(parse_hours(b"2.3400000000000003"), Some(234));
}

#[test]
fn the_point_may_stand_at_either_end() {
    assert_eq!(parse_hours(b"8."), Some(800));
    assert_eq!(parse_hours(b".5"), Some(50));
    assert_eq!(parse_hours(b".05"), Some(5));
    assert_eq!(parse_hours(b".004"), Some(0));
    assert_eq!(parse_hours(b".005"), Some(1));
    assert_eq!(parse_hours(b"0."), Some(0));
}

#[test]
fn a_plus_may_stand_before_the_hours() {
    assert_eq!(parse_hours(b"+8"), Some(800));
    assert_eq!(parse_hours(b"+7.5"), Some(750));
    assert_eq!(parse_hours(b"+.5"), Some(50));
    assert_eq!(parse_hours(b"+0"), Some(0));
}

#[test]
fn an_exponent_moves_the_point() {
    assert_eq!(parse_hours(b"1e1"), Some(1000));
    assert_eq!(parse_hours(b"1E1"), Some(1000));
    assert_eq!(parse_hours(b"1e+1"), Some(1000));
    assert_eq!(parse_hours(b"1e-1"), Some(10));
    assert_eq!(parse_hours(b"1e0"), Some(100));
    assert_eq!(parse_hours(b"1e-2"), Some(1));
    assert_eq!(parse_hours(b"1e-3"), Some(0));
    assert_eq!(parse_hours(b"4e-3"), Some(0));
    assert_eq!(parse_hours(b"5e-3"), Some(1));
    assert_eq!(parse_hours(b"1.5e2"), Some(15000));
    assert_eq!(parse_hours(b"15e-1"), Some(150));
    assert_eq!(parse_hours(b"0.5e1"), Some(500));
    assert_eq!(parse_hours(b"+.5e+1"), Some(500));
    assert_eq!(parse_hours(b"1.e1"), Some(1000));
    assert_eq!(parse_hours(b"12345e-2"), Some(12345));
    assert_eq!(parse_hours(b"123456e-4"), Some(1235));
    assert_eq!(parse_hours(b"0.000012345e5"), Some(123));
    assert_eq!(parse_hours(b"8.25e000000000000000000000000000"), Some(825));
}

#[test]
fn large_exponents_give_nothing_or_zero() {
    assert_eq!(parse_hours(b"1e17"), Some(10_000_000_000_000_000_000));
    assert_eq!(parse_hours(b"1e18"), None);
    assert_eq!(parse_hours(b"1.8446744073709551615e17"), Some(u64::MAX));
    assert_eq!(parse_hours(b"1.8446744073709551616e17"), None);
    assert_eq!(parse_hours(b"1e99999999999999999999999999999999999999999999"), None);
    assert_eq!(parse_hours(b"0e99999999999999999999999999999999999999999999"), Some(0));
    assert_eq!(parse_hours(b"000.000e340282366920938463463374607431768211456"), Some(0));
    assert_eq!(parse_hours(b"1e-99999999999999999999999999999999999999999999"), Some(0));
    assert_eq!(parse_hours(b"9999999999999999999999999e-99999999999999999999"), Some(0));
    assert_eq!(parse_hours(b"18446744073709551615e-2"), Some(u64::MAX));
    assert_eq!(parse_hours(b"1844674407370955161549e-4"), Some(u64::MAX));
    assert_eq!(parse_hours(b"1844674407370955161550e-4"), None);
}

#[test]
fn other_texts_are_no_hours() {
    let texts: [&[u8]; 34] = [
        b"", b".", b"+", b"-", b"e5", b"E5", b"1e", b"1e+", b"1e-", b".e1", b"+e1", b"+-1",
        b"++1", b"-1", b"-0", b"-.5", b"1e1.5", b"1e1e1", b"1e 1", b"1..2", b"1.2.3", b"1.2x",
        b"x.2", b" 1", b"1 ", b"1,5", b"0x10", b"1_000", b"inf", b"+inf", b"infinity", b"NaN",
        b"nan", b"eight",
    ];
    for text in texts {
        assert_eq!(parse_hours(text), None, "{:?}", String::from_utf8_lossy(text));
    }
}

#[test]
fn hours_agree_with_the_floating_point_reading() {
    let texts = [
        "8", "8.", ".5", "+8", "1e1", "7.5", "0.25", "13.50", "1.5e2", "15e-1", "+.5e+1", "1E3",
        "2.3400000000000003", "8.329999999999998", "123.456", "0.001", "1e-7", "00012.3400e0",
        "6.02e3", "1e17", "x", "", ".", "1e", "e1", "1.2.3", "++1", "1e1e1", " 1", "1 ",
    ];
    for text in texts {
        let expected = match text.parse::<f64>() {
            Ok(v) if v.is_finite() && v >= 0.0 => Some((v * 100.0).round() as u64),
            _ => None,
        };
        assert_eq!(parse_hours(text.as_bytes()), expected, "{:?}", text);
    }
}

#[test]
fn hours_stop_at_sixty_four_bits() {
    assert_eq!(parse_hours(b"184467440737095516.15"), Some(u64::MAX));
    assert_eq!(parse_hours(b"184467440737095516.16"), None);
    assert_eq!(parse_hours(b"184467440737095516.149"), Some(u64::MAX));
    assert_eq!(parse_hours(b"184467440737095516.155"), None);
    assert_eq!(parse_hours(b"184467440737095516"), Some(18446744073709551600));
    assert_eq!(parse_hours(b"184467440737095517"), None);
    assert_eq!(parse_hours(b"18446744073709551615"), None);
    assert_eq!(parse_hours(b"99999999999999999999999999999999999999999"), None);
}

#[test]
fn hours_are_written_without_needless_zeros() {
    assert_eq!(hours_to_string(800), "8");
    assert_eq!(hours_to_string(750), "7.5");
    assert_eq!(hours_to_string(25), "0.25");
    assert_eq!(hours_to_string(5), "0.05");
    assert_eq!(hours_to_string(0), "0");
    assert_eq!(hours_to_string(1350), "13.5");
    assert_eq!(hours_to_string(833), "8.33");
    assert_eq!(hours_to_string(100), "1");
    assert_eq!(hours_to_string(110), "1.1");
    assert_eq!(hours_to_string(101), "1.01");
    assert_eq!(hours_to_string(u64::MAX as u128), "184467440737095516.15");
    assert_eq!(hours_to_string(u128::MAX), "3402823669209384634633746074317682114.55");
}

#[test]
fn written_hours_read_back() {
    for h in (0u64..5000).chain([u64::MAX, u64::MAX - 1, u64::MAX - 15, 1 << 40]) {
        let text = hours_to_string(h as u128);
        assert_eq!(parse_hours(text.as_bytes()), Some(h), "{}", text);
    }
}

#[test]
fn an_entry_is_written_as_one_line() {
    let mut log = String::new();
    write_entry(&made("2024-06-01", "review", "9:00am", "5:30pm", 850), &mut log);
    assert_eq!(log, "2024-06-01,review,9:00am,5:30pm,8.5\n");
    write_entry(&made("2024-06-02", "", "11pm", "1am", 200), &mut log);
    assert_eq!(log, "2024-06-01,review,9:00am,5:30pm,8.5\n2024-06-02,,11pm,1am,2\n");
}

#[test]
fn writing_escapes_nothing() {
    let mut log = String::new();
    write_entry(&made("2024-06-01", "plan, then review", "9am", "5pm", 800), &mut log);
    assert_eq!(log, "2024-06-01,plan, then review,9am,5pm,8\n");
    let mut loaded = Vec::new();
    let mut total = 0;
    read_entrys(&log, &mut loaded, &mut total);
    assert!(loaded.is_empty());
    assert_eq!(total, 0);
}

#[test]
fn a_batch_ends_in_a_dash() {
    let mut archive = "old\n".to_string();
    let batch = [
        made("2024-06-02", "b", "1pm", "2pm", 100),
        made("2024-06-01", "a", "9am", "9:20am", 33),
    ];
    write_to_archive(&batch, &mut archive);
    assert_eq!(archive, "old\n2024-06-02,b,1pm,2pm,1\n2024-06-01,a,9am,9:20am,0.33\n-\n");
}

#[test]
fn an_empty_batch_is_a_dash_alone() {
    let mut archive = String::new();
    write_to_archive(&[], &mut archive);
    assert_eq!(archive, "-\n");
}

#[test]
fn wiping_leaves_an_empty_log() {
    let mut log = "2024-06-01,review,9:00am,5:30pm,8.5\n".to_string();
    wipe_entrys(&mut log);
    assert_eq!(log, "");
}

#[test]
fn what_was_written_is_loaded() {
    let written = [
        made("2024-03-05", "first", "9:00am", "5:00pm", 800),
        made("2024-06-01", "second", "11:00pm", "1:00am", 200),
        made("2024-03-05", "third", "1:20pm", "2:00pm", 67),
        made("2023-12-31", "", "", "", 0),
        made("2024-06-01", "caf\u{e9}", "12am", "12pm", 0),
    ];
    let mut log = String::new();
    for e in &written {
        write_entry(e, &mut log);
    }
    let mut loaded = Vec::new();
    let mut total = 0;
    read_entrys(&log, &mut loaded, &mut total);
    assert_eq!(
        all_fields(&loaded),
        [
            owned("2024-06-01", "second", "11:00pm", "1:00am", 200),
            owned("2024-06-01", "caf\u{e9}", "12am", "12pm", 0),
            owned("2024-03-05", "first", "9:00am", "5:00pm", 800),
            owned("2024-03-05", "third", "1:20pm", "2:00pm", 67),
            owned("2023-12-31", "", "", "", 0),
        ]
    );
    assert_eq!(total, 1067);
}

#[test]
fn loading_puts_the_later_date_first() {
    for log in [
        "2024-01-01,a,9am,5pm,8\n2024-06-01,b,9am,5pm,8\n",
        "2024-06-01,b,9am,5pm,8\n2024-01-01,a,9am,5pm,8\n",
    ] {
        let mut loaded = Vec::new();
        let mut total = 0;
        read_entrys(log, &mut loaded, &mut total);
        assert_eq!(loaded.len(), 2);
        assert_eq!(loaded[0].date, "2024-06-01");
        assert_eq!(loaded[1].date, "2024-01-01");
        assert_eq!(total, 1600);
    }
}

#[test]
fn lines_without_an_entry_are_passed_over() {
    let log = "2024-06-01,a,9am,5pm,8\n\
               garbage\n\
               2024-06-02,b,9am\n\
               \n\
               2024-06-03,c,9am,5pm,many\n\
               -\n\
               2024-06-04,d,9am,5pm,1.5\n";
    let mut loaded = Vec::new();
    let mut total = 0;
    read_entrys(log, &mut loaded, &mut total);
    assert_eq!(
        all_fields(&loaded),
        [owned("2024-06-04", "d", "9am", "5pm", 150), owned("2024-06-01", "a", "9am", "5pm", 800)]
    );
    assert_eq!(total, 950);
}

#[test]
fn line_ends_of_either_kind_are_read() {
    let log = "2024-06-01,a,9am,5pm,8\r\n2024-06-02,b,9am,5pm,7.5\n2024-06-03,c,9am,5pm,1";
    let mut loaded = Vec::new();
    let mut total = 0;
    read_entrys(log, &mut loaded, &mut total);
    assert_eq!(
        all_fields(&loaded),
        [
            owned("2024-06-03", "c", "9am", "5pm", 100),
            owned("2024-06-02", "b", "9am", "5pm", 750),
            owned("2024-06-01", "a", "9am", "5pm", 800),
        ]
    );
    assert_eq!(total, 1650);
}

#[test]
fn a_carriage_return_without_a_newline_stays() {
    let mut loaded = Vec::new();
    let mut total = 0;
    read_entrys("2024-06-01,a,9am,5pm,8\r", &mut loaded, &mut total);
    assert!(loaded.is_empty());
    read_entrys("2024-06-01,a\r,9am,5pm,8\r\n", &mut loaded, &mut total);
    assert_eq!(all_fields(&loaded), [owned("2024-06-01", "a\r", "9am", "5pm", 800)]);
}

#[test]
fn loading_adds_to_what_is_there() {
    let mut loaded = vec![made("2024-06-02", "held", "9am", "5pm", 800)];
    let mut total = 800;
    read_entrys("2024-06-03,new,9am,10am,1\n2024-06-01,old,9am,10am,1\n", &mut loaded, &mut total);
    assert_eq!(
        all_fields(&loaded),
        [
            owned("2024-06-03", "new", "9am", "10am", 100),
            owned("2024-06-02", "held", "9am", "5pm", 800),
            owned("2024-06-01", "old", "9am", "10am", 100),
        ]
    );
    assert_eq!(total, 1000);
}

#[test]
fn an_empty_log_holds_nothing() {
    let mut loaded = Vec::new();
    let mut total = 7;
    read_entrys("", &mut loaded, &mut total);
    assert!(loaded.is_empty());
    assert_eq!(total, 7);
    read_archive("", &mut loaded, &mut total);
    assert!(loaded.is_empty());
    assert_eq!(total, 7);
    read_entrys("\n\n\n", &mut loaded, &mut total);
    assert!(loaded.is_empty());
}

#[test]
fn a_total_stops_at_its_largest_count() {
    let mut loaded = Vec::new();
    let mut total = u128::MAX - 100;
    read_entrys("2024-06-01,a,9am,5pm,0.99\n", &mut loaded, &mut total);
    assert_eq!(total, u128::MAX - 1);
    read_entrys("2024-06-01,a,9am,5pm,8\n", &mut loaded, &mut total);
    assert_eq!(total, u128::MAX);
    read_archive("2024-06-01,a,9am,5pm,8\n", &mut loaded, &mut total);
    assert_eq!(total, u128::MAX);
}

#[test]
fn the_archive_keeps_its_batches_and_has_each_newest_first() {
    let archive = "2024-01-01,a,9am,5pm,8\n\
                   2024-06-01,b,9am,5pm,7.25\n\
                   -\n\
                   broken line\n\
                   2024-03-01,c,9am,5pm,1\n\
                   -\n";
    let mut loaded = Vec::new();
    let mut total = 0;
    read_archive(archive, &mut loaded, &mut total);
    assert_eq!(
        all_fields(&loaded),
        [
            owned("2024-06-01", "b", "9am", "5pm", 725),
            owned("2024-01-01", "a", "9am", "5pm", 800),
            owned("", "", "", "", 0),
            owned("2024-03-01", "c", "9am", "5pm", 100),
            owned("", "", "", "", 0),
        ]
    );
    assert!(loaded[2].is_separator());
    assert!(loaded[4].is_separator());
    assert_eq!(total, 1625);
}

#[test]
fn every_batch_end_stays_behind_its_own_batch() {
    let archive = "2023-01-01,a,9am,5pm,1\n\
                   2023-01-03,b,9am,5pm,2\n\
                   2023-01-02,c,9am,5pm,3\n\
                   -\n\
                   -\n\
                   2025-05-05,d,9am,5pm,4\n\
                   -\n\
                   2022-02-02,e,9am,5pm,5\n\
                   2024-04-04,f,9am,5pm,6\n\
                   2024-04-04,g,9am,5pm,7\n\
                   -\n\
                   2021-01-01,h,9am,5pm,8\n\
                   2021-01-02,i,9am,5pm,9\n";
    let mut loaded = Vec::new();
    let mut total = 0;
    read_archive(archive, &mut loaded, &mut total);
    let shown: Vec<String> =
        loaded.iter().map(|e| format!("{} {}", e.date, e.description)).collect();
    assert_eq!(
        shown,
        [
            "2023-01-03 b",
            "2023-01-02 c",
            "2023-01-01 a",
            " ",
            " ",
            "2025-05-05 d",
            " ",
            "2024-04-04 f",
            "2024-04-04 g",
            "2022-02-02 e",
            " ",
            "2021-01-02 i",
            "2021-01-01 h",
        ]
    );
    assert_eq!(loaded.iter().filter(|e| e.date.is_empty()).count(), 4);
    assert_eq!(total, 4500);
}

#[test]
fn loading_the_archive_leaves_what_was_held_in_front() {
    let mut loaded = vec![
        made("2020-01-01", "held", "9am", "5pm", 800),
        made("2020-06-01", "held too", "9am", "5pm", 800),
    ];
    let mut total = 1600;
    read_archive("2024-01-01,a,9am,5pm,1\n2024-06-01,b,9am,5pm,2\n-\n", &mut loaded, &mut total);
    assert_eq!(
        all_fields(&loaded),
        [
            owned("2020-01-01", "held", "9am", "5pm", 800),
            owned("2020-06-01", "held too", "9am", "5pm", 800),
            owned("2024-06-01", "b", "9am", "5pm", 200),
            owned("2024-01-01", "a", "9am", "5pm", 100),
            owned("", "", "", "", 0),
        ]
    );
    assert_eq!(total, 1900);
}

#[test]
fn a_line_with_an_empty_date_parts_batches_too() {
    let mut loaded = Vec::new();
    let mut total = 0;
    read_archive(
        "2024-01-01,a,9am,5pm,1\n,kept,x,y,2\n2024-06-01,b,9am,5pm,3\n",
        &mut loaded,
        &mut total,
    );
    assert_eq!(
        all_fields(&loaded),
        [
            owned("2024-01-01", "a", "9am", "5pm", 100),
            owned("", "kept", "x", "y", 200),
            owned("2024-06-01", "b", "9am", "5pm", 300),
        ]
    );
    assert_eq!(total, 600);
}

#[test]
fn a_dash_is_a_batch_end_in_the_archive_only() {
    let mut active = Vec::new();
    let mut archived = Vec::new();
    let mut total = 0;
    read_entrys("-\n", &mut active, &mut total);
    read_archive("-\n--\n -\n-\r\n", &mut archived, &mut total);
    assert!(active.is_empty());
    assert_eq!(archived.len(), 2);
    assert_eq!(total, 0);
}

#[test]
fn an_archived_batch_reads_back() {
    let batch = [
        made("2024-06-02", "b", "1pm", "2pm", 100),
        made("2024-06-01", "a", "9am", "9:20am", 33),
    ];
    let mut archive = String::new();
    write_to_archive(&batch, &mut archive);
    write_to_archive(&batch[..1], &mut archive);
    let mut loaded = Vec::new();
    let mut total = 0;
    read_archive(&archive, &mut loaded, &mut total);
    assert_eq!(
        all_fields(&loaded),
        [
            owned("2024-06-02", "b", "1pm", "2pm", 100),
            owned("2024-06-01", "a", "9am", "9:20am", 33),
            owned("", "", "", "", 0),
            owned("2024-06-02", "b", "1pm", "2pm", 100),
            owned("", "", "", "", 0),
        ]
    );
    assert_eq!(total, 233);
}
