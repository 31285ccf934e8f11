//! Times as text.

use portwatch::timefmt::{civil_from_days, format_unix};

#[test]
fn epoch_zero_is_1970_01_01() {
    assert_eq!(format_unix(0), "1970-01-01T00:00:00Z");
}

#[test]
fn known_timestamp_formats_correctly() {
    // 2024-01-01T00:00:00Z
    assert_eq!(format_unix(1_704_067_200), "2024-01-01T00:00:00Z");
}

#[test]
fn mid_day_time_of_day_is_correct() {
    // 2024-06-15T13:45:30Z
    assert_eq!(format_unix(1_718_459_130), "2024-06-15T13:45:30Z");
}

#[test]
fn leap_day_is_handled() {
    // 2024-02-29T12:00:00Z (2024 is a leap year)
    assert_eq!(format_unix(1_709_208_000), "2024-02-29T12:00:00Z");
}

#[test]
fn end_of_year_rolls_to_next_year() {
    // 2023-12-31T23:59:59Z
    assert_eq!(format_unix(1_704_067_199), "2023-12-31T23:59:59Z");
}

#[test]
fn century_boundary_handles_non_leap_century_year() {
    // 2100-03-01T00:00:00Z (2100 is NOT a leap year in Gregorian calendar)
    assert_eq!(format_unix(4_107_542_400), "2100-03-01T00:00:00Z");
}

#[test]
fn days_before_the_epoch_are_dates_too() {
    assert_eq!(civil_from_days(0), (1970, 1, 1));
    assert_eq!(civil_from_days(-1), (1969, 12, 31));
    assert_eq!(civil_from_days(11016), (2000, 2, 29));
    assert_eq!(civil_from_days(-719_468), (0, 3, 1));
    assert_eq!(civil_from_days(-719_469), (0, 2, 29));
    assert_eq!(civil_from_days(-719_529), (-1, 12, 31));
}

#[test]
fn days_follow_each_other() {
    let mut last = civil_from_days(-800_000);
    for z in -799_999i64..-700_000 {
        let date = civil_from_days(z);
        assert!(last < date, "{last:?} {date:?}");
        last = date;
    }
}

#[test]
fn years_of_five_digits_are_written_out() {
    assert_eq!(format_unix(253_402_300_799), "9999-12-31T23:59:59Z");
    assert_eq!(format_unix(253_402_300_800), "10000-01-01T00:00:00Z");
    assert_eq!(format_unix(u64::MAX), "584554051223-11-09T07:00:15Z");
}

#[test]
fn texts_have_one_shape() {
    for secs in [0, 59, 60, 3599, 3600, 86399, 86400, 951_782_400, 253_402_300_799] {
        let text = format_unix(secs);
        assert_eq!(text.len(), 20);
        let marks: Vec<char> = [4, 7, 10, 13, 16, 19]
            .iter()
            .map(|i| text.chars().nth(*i).unwrap())
            .collect();
        assert_eq!(marks, vec!['-', '-', 'T', ':', ':', 'Z']);
    }
    assert_ne!(format_unix(3600), format_unix(60));
}
