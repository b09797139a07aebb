use accounters_lib::data::datetime::{year_is_leap, Date, DateTime, Time};

use std::str::FromStr;

#[test]
fn datetime_compare_time() {
    assert!(Time::from_str("12:56") < Time::from_str("12:57"));
    assert!(Time::from_str("6:52") < Time::from_str("7:04"));
}

#[test]
fn datetime_compare_date() {
    assert!(Date::from_str("2023-11-08") < Date::from_str("2023-11-09"))
}

#[test]
fn datetime_compare_datetime() {
    assert!(DateTime::from_str("2008-08-04") < DateTime::from_str("2008-08-04T00:05"))
}

#[test]
fn date_parsing() {
    assert_eq!(
        Date {
            year: 2023,
            month: 8,
            day: 16
        },
        Date::from_str("2023-8-16").unwrap()
    );
    // only calendar-valid dates are accepted
    assert!(Date::from_str("2023-13-05").is_err());
    assert!(Date::from_str("2023-02-29").is_err());
    assert!(Date::from_str("2024-02-29").is_ok());
    assert!(Date::from_str("2023-11").is_err());
    assert!(Date::from_str("2023").is_err());
    assert!(Date::from_str("abcd-01-01").is_err());
}

#[test]
fn time_parsing() {
    assert_eq!(
        Time {
            hour: 14,
            minute: 54
        },
        Time::from_str("14:54").unwrap()
    );
    assert!(Time::from_str("25:00").is_err());
    assert!(Time::from_str("12:60").is_err());
    assert!(Time::from_str("12").is_err());
}

#[test]
fn datetime_parsing() {
    let a = DateTime::from_str("2023-07-13 14:54").unwrap();
    assert_eq!(
        Date {
            year: 2023,
            month: 7,
            day: 13
        },
        *a.get_date()
    );
    assert_eq!(
        Some(Time {
            hour: 14,
            minute: 54
        }),
        *a.get_time()
    );
    let b = DateTime::from_str("2023-07-13T14:54").unwrap();
    assert_eq!(a, b);
    let c = DateTime::from_str("2011-07-15").unwrap();
    assert_eq!(None, *c.get_time());
    // a bare date sorts before any timed moment of the same day
    assert!(c < DateTime::from_str("2011-07-15 00:00").unwrap());
}

#[test]
fn datetime_simple() {
    let dt = DateTime::simple((2023, 8, 16), Some((7, 30)));
    assert_eq!(dt, DateTime::from_str("2023-8-16 7:30").unwrap());
    let dd = DateTime::simple((2023, 8, 16), None);
    assert_eq!(dd, DateTime::from_str("2023-8-16").unwrap());
}

#[test]
fn leap_years() {
    assert!(year_is_leap(2000));
    assert!(!year_is_leap(1900));
    assert!(year_is_leap(2024));
    assert!(!year_is_leap(2023));
}

#[test]
fn day_arithmetic() {
    let d = Date {
        year: 2024,
        month: 2,
        day: 28,
    };
    assert_eq!(
        Date {
            year: 2024,
            month: 2,
            day: 29
        },
        d.next_day()
    );
    let e = Date {
        year: 2023,
        month: 2,
        day: 28,
    };
    assert_eq!(
        Date {
            year: 2023,
            month: 3,
            day: 1
        },
        e.next_day()
    );
    let y = Date {
        year: 2023,
        month: 12,
        day: 31,
    };
    assert_eq!(
        Date {
            year: 2024,
            month: 1,
            day: 1
        },
        y.next_day()
    );
    assert_eq!(y, y.next_day().prev_day());
    assert_eq!(
        Date {
            year: 2024,
            month: 3,
            day: 1
        },
        Date {
            year: 2024,
            month: 2,
            day: 27
        }
        .add_days(3)
    );
    assert_eq!(
        Date {
            year: 2023,
            month: 12,
            day: 29
        },
        Date {
            year: 2024,
            month: 1,
            day: 2
        }
        .add_days(-4)
    );
}
