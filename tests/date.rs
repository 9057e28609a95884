use notes_header::date::{date_stamp, today_stamp, CalendarDate};

fn stamp(y: i32, m: u32, d: u32) -> String {
    let date = CalendarDate::new(y, m, d).unwrap();
    String::from_utf8(date_stamp(date)).unwrap()
}

#[test]
fn stamp_of_ordinary_date() {
    assert_eq!(stamp(2024, 6, 15), "06/15/2024");
    assert_eq!(stamp(1999, 12, 31), "12/31/1999");
}

#[test]
fn stamp_pads_small_years() {
    assert_eq!(stamp(5, 1, 2), "01/02/0005");
    assert_eq!(stamp(0, 3, 4), "03/04/0000");
}

#[test]
fn stamp_signs_years_out_of_four_digits() {
    assert_eq!(stamp(12345, 7, 8), "07/08/+12345");
    assert_eq!(stamp(-1, 7, 8), "07/08/-0001");
}

#[test]
fn calendar_date_checks_days() {
    assert!(CalendarDate::new(2024, 2, 29).is_some());
    assert!(CalendarDate::new(2023, 2, 29).is_none());
    assert!(CalendarDate::new(1900, 2, 29).is_none());
    assert!(CalendarDate::new(2000, 2, 29).is_some());
    assert!(CalendarDate::new(2024, 4, 31).is_none());
    assert!(CalendarDate::new(2024, 13, 1).is_none());
    assert!(CalendarDate::new(2024, 1, 0).is_none());
    assert!(CalendarDate::new(262143, 1, 1).is_none());
    assert!(CalendarDate::new(262142, 12, 31).is_some());
    assert!(CalendarDate::new(-262144, 1, 1).is_none());
}

#[test]
fn today_stamp_has_date_shape() {
    let s = today_stamp().unwrap();
    assert_eq!(s.len(), 10);
    assert_eq!(s[2], b'/');
    assert_eq!(s[5], b'/');
    assert!(s.iter().enumerate().all(|(i, b)| i == 2 || i == 5 || b.is_ascii_digit()));
}
