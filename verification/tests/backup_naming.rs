use dir_scanner::backup::{backup_dir_name, backup_name_now, format_timestamp, local_time_now, LocalTime};

fn time(year: i32, month: u32, day: u32, hour: u32, minute: u32, second: u32, nanosecond: u32) -> LocalTime {
    LocalTime { year, month, day, hour, minute, second, nanosecond }
}

#[test]
fn backup_name_joins_name_and_stamp() {
    assert_eq!(
        backup_dir_name("Downloads", "2024-01-02_03-04-05"),
        "Downloads_BACKUP_2024-01-02_03-04-05"
    );
    assert_eq!(backup_dir_name("", ""), "_BACKUP_");
}

#[test]
fn stamp_pads_each_field() {
    assert_eq!(format_timestamp(&time(2024, 1, 2, 3, 4, 5, 0)), "2024-01-02_03-04-05");
    assert_eq!(format_timestamp(&time(1999, 12, 31, 23, 59, 58, 999_999_999)), "1999-12-31_23-59-58");
}

#[test]
fn stamp_shows_a_leap_second_as_sixty() {
    assert_eq!(format_timestamp(&time(2016, 12, 31, 23, 59, 59, 1_500_000_000)), "2016-12-31_23-59-60");
}

#[test]
fn stamp_years_outside_four_digits_carry_a_sign() {
    assert_eq!(format_timestamp(&time(5, 6, 7, 8, 9, 10, 0)), "0005-06-07_08-09-10");
    assert_eq!(format_timestamp(&time(0, 1, 1, 0, 0, 0, 0)), "0000-01-01_00-00-00");
    assert_eq!(format_timestamp(&time(-5, 1, 1, 0, 0, 0, 0)), "-0005-01-01_00-00-00");
    assert_eq!(format_timestamp(&time(12345, 1, 1, 0, 0, 0, 0)), "+12345-01-01_00-00-00");
    assert_eq!(format_timestamp(&time(-262144, 1, 1, 0, 0, 0, 0)), "-262144-01-01_00-00-00");
}

#[test]
fn stamp_agrees_with_chrono() {
    let t = time(2031, 7, 9, 14, 5, 3, 0);
    let chrono_text = chrono::NaiveDate::from_ymd_opt(2031, 7, 9)
        .unwrap()
        .and_hms_opt(14, 5, 3)
        .unwrap()
        .format("%Y-%m-%d_%H-%M-%S")
        .to_string();
    assert_eq!(format_timestamp(&t), chrono_text);
}

#[test]
fn local_time_now_is_in_range() {
    let now = local_time_now().expect("clock after 1970");
    assert!((1..=12).contains(&now.month));
    assert!((1..=31).contains(&now.day));
    assert!(now.hour <= 23 && now.minute <= 59 && now.second <= 59);
    assert!(now.nanosecond < 2_000_000_000);
}

#[test]
fn backup_name_now_has_a_local_time_stamp() {
    let name = backup_name_now("photos").expect("clock after 1970");
    let stamp = name.strip_prefix("photos_BACKUP_").expect("prefix");
    let chars: Vec<char> = stamp.chars().collect();
    assert!(chars.len() >= 19);
    let n = chars.len();
    let tail = &chars[n - 15..];
    for (i, c) in tail.iter().enumerate() {
        match i {
            0 | 3 | 9 | 12 => assert_eq!(*c, '-'),
            6 => assert_eq!(*c, '_'),
            _ => assert!(c.is_ascii_digit()),
        }
    }
    assert!(chars[..n - 15].iter().all(|c| c.is_ascii_digit()));
    let field = |i: usize| chars[i].to_digit(10).unwrap() * 10 + chars[i + 1].to_digit(10).unwrap();
    assert!((1..=12).contains(&field(n - 14)));
    assert!((1..=31).contains(&field(n - 11)));
    assert!(field(n - 8) <= 23);
    assert!(field(n - 5) <= 59);
    assert!(field(n - 2) <= 60);
}
