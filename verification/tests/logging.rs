//! The calendar, and the name of a match's log file.

use greentd::logging::{civil_from_days, match_log_path, utc_stamp};

#[test]
fn the_epoch_is_the_epoch() {
    assert_eq!(utc_stamp(0), "19700101-000000");
    assert_eq!(utc_stamp(1), "19700101-000001");
    assert_eq!(utc_stamp(86_399), "19700101-235959");
}

#[test]
fn a_known_instant_reads_back_as_itself() {
    // 2023-11-14T22:13:20Z.
    assert_eq!(utc_stamp(1_700_000_000), "20231114-221320");
    // And a leap day, which is where a hand-rolled calendar usually breaks.
    // 2024-02-29T12:20:00Z, and the day after it.
    assert_eq!(utc_stamp(1_709_209_200), "20240229-122000");
    assert_eq!(utc_stamp(1_709_251_200), "20240301-000000");
}

#[test]
fn the_file_name_carries_the_start_time() {
    let dir = "/var/log/greentd";
    assert_eq!(
        match_log_path(dir, Some(1_700_000_000)),
        "/var/log/greentd/greentd-20231114-221320.log"
    );
    // A clock before the epoch is not a panic, it is 1970.
    assert_eq!(
        match_log_path(dir, None),
        "/var/log/greentd/greentd-19700101-000000.log"
    );
}

#[test]
fn a_directory_that_ends_in_a_slash_gets_no_second_one() {
    assert_eq!(match_log_path("logs/", Some(0)), "logs/greentd-19700101-000000.log");
    assert_eq!(match_log_path("", Some(0)), "greentd-19700101-000000.log");
}

#[test]
fn every_century_keeps_its_leap_days() {
    // 2000 was a leap year, 2100 is not.
    assert_eq!(utc_stamp(951_782_400), "20000229-000000");
    assert_eq!(utc_stamp(951_868_800), "20000301-000000");
    assert_eq!(utc_stamp(4_107_456_000), "21000228-000000");
    assert_eq!(utc_stamp(4_107_542_400), "21000301-000000");
    assert_eq!(utc_stamp(253_402_300_799), "99991231-235959");
}

#[test]
fn the_calendar_runs_on_day_after_day() {
    let leap = |year: u32| year % 4 == 0 && (year % 100 != 0 || year % 400 == 0);
    let (mut year, mut month, mut day) = (1970u32, 1u32, 1u32);
    for days in 0..200_000u64 {
        assert_eq!(
            utc_stamp(days * 86_400),
            format!("{year:04}{month:02}{day:02}-000000")
        );
        let length = match month {
            2 if leap(year) => 29,
            2 => 28,
            4 | 6 | 9 | 11 => 30,
            _ => 31,
        };
        if day < length {
            day += 1;
        } else if month < 12 {
            (month, day) = (month + 1, 1);
        } else {
            (year, month, day) = (year + 1, 1, 1);
        }
    }
}

#[test]
fn days_count_back_before_the_epoch_too() {
    assert_eq!(civil_from_days(0), (1970, 1, 1));
    assert_eq!(civil_from_days(-1), (1969, 12, 31));
    assert_eq!(civil_from_days(-719_468), (0, 3, 1));
    assert_eq!(civil_from_days(-719_469), (0, 2, 29));
    assert_eq!(civil_from_days(19_782), (2024, 2, 29));
    for days in [-1_000_000_000_000i64, -36_525, 0, 36_525, 999_999_999_999] {
        let (year, month, day) = civil_from_days(days);
        let (next_year, next_month, next_day) = civil_from_days(days + 1);
        assert!((1..=12).contains(&month) && (1..=31).contains(&day));
        assert!(
            (next_year, next_month, next_day) == (year, month, day + 1)
                || (next_day == 1 && (next_year, next_month) == (year, month + 1))
                || (next_year, next_month, next_day) == (year + 1, 1, 1)
        );
    }
}

#[test]
fn log_names_sort_by_time() {
    let mut before = match_log_path("logs", Some(0));
    for step in 1..2_000u64 {
        let now = match_log_path("logs", Some(step * 123_456_789));
        assert!(before < now, "{before} then {now}");
        before = now;
    }
}

#[test]
fn two_instants_never_share_a_stamp() {
    let mut before = utc_stamp(1_709_164_795);
    for second in 1_709_164_796..1_709_164_810u64 {
        let now = utc_stamp(second);
        assert!(before < now, "{before} then {now}");
        before = now;
    }
}
