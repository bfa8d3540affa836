use std::str::FromStr;

use easyplanner::calendar::{Calendar, CalendarError, TimeComponent, Weekday};
use easyplanner::model::Timestamp;

#[test]
fn test_parse_weekdays() {
    let cal: Calendar = "Mon,Wed,Fri *-*-* 00:00:00".parse().unwrap();
    assert_eq!(
        cal.weekdays,
        Some(vec![Weekday::Mon, Weekday::Wed, Weekday::Fri])
    );
}

#[test]
fn test_parse_weekday_range() {
    let cal: Calendar = "Mon..Fri *-*-* 00:00:00".parse().unwrap();
    assert_eq!(
        cal.weekdays,
        Some(vec![
            Weekday::Mon,
            Weekday::Tue,
            Weekday::Wed,
            Weekday::Thu,
            Weekday::Fri
        ])
    );
}

#[test]
fn test_parse_time_component() {
    assert_eq!(
        TimeComponent::<0, 23>::from_str("*").unwrap(),
        TimeComponent::Any
    );
    assert_eq!(
        TimeComponent::<0, 23>::from_str("1,2,3").unwrap(),
        TimeComponent::Values(vec![1, 2, 3])
    );
    assert_eq!(
        TimeComponent::<0, 23>::from_str("1..5").unwrap(),
        TimeComponent::Range {
            start: 1,
            end: 5,
            step: None
        }
    );
    assert_eq!(
        TimeComponent::<0, 59>::from_str("1..10/2").unwrap(),
        TimeComponent::Range {
            start: 1,
            end: 10,
            step: Some(2)
        }
    );
}

#[test]
fn test_parse_special_keywords() {
    assert_eq!(
        Calendar::from_str("minutely").unwrap(),
        Calendar::minutely(None)
    );
    assert_eq!(
        Calendar::from_str("hourly").unwrap(),
        Calendar::hourly(None)
    );
    assert_eq!(Calendar::from_str("daily").unwrap(), Calendar::daily(None));
    assert_eq!(
        Calendar::from_str("weekly").unwrap(),
        Calendar::weekly(None)
    );
    assert_eq!(
        Calendar::from_str("monthly").unwrap(),
        Calendar::monthly(None)
    );
    assert_eq!(
        Calendar::from_str("yearly").unwrap(),
        Calendar::yearly(None)
    );
    assert_eq!(
        Calendar::from_str("quarterly").unwrap(),
        Calendar::quarterly(None)
    );
    assert_eq!(
        Calendar::from_str("semiannually").unwrap(),
        Calendar::semiannually(None)
    );
}

#[test]
fn test_format_calendar() {
    let cal = Calendar {
        weekdays: Some(vec![Weekday::Mon, Weekday::Wed, Weekday::Fri]),
        year: TimeComponent::Any,
        month: TimeComponent::Any,
        day: TimeComponent::Any,
        hour: TimeComponent::Values(vec![0]),
        minute: TimeComponent::Values(vec![0]),
        second: TimeComponent::Values(vec![0]),
        timezone: None,
    };
    assert_eq!(cal.to_calendar_string(), "Mon,Wed,Fri *-*-* 0:0:0");
}

#[test]
fn test_invalid_formats() {
    // Invalid weekday
    assert!(matches!(
        Calendar::from_str("Foo *-*-* 00:00:00"),
        Err(CalendarError::InvalidWeekday(s)) if s == "foo"
    ));

    // Invalid time component
    assert!(matches!(
        Calendar::from_str("Mon *-*-* 25:00:00"),
        Err(CalendarError::InvalidTimeComponent(_))
    ));

    // Invalid range (start > end)
    assert!(matches!(
        Calendar::from_str("Mon *-*-* 10..5:00:00"),
        Err(CalendarError::InvalidFormat)
    ));

    // Empty string
    assert!(matches!(
        Calendar::from_str(""),
        Err(CalendarError::InvalidFormat)
    ));

    // Invalid date format
    assert!(matches!(
        Calendar::from_str("2023/12/25"),
        Err(CalendarError::InvalidFormat)
    ));

    // Invalid time format
    assert!(matches!(
        Calendar::from_str("*-*-* 10.30.00"),
        Err(CalendarError::InvalidFormat)
    ));

    // Invalid weekday range
    assert!(matches!(
        Calendar::from_str("Mon..Invalid *-*-* 00:00:00"),
        Err(CalendarError::InvalidFormat),
    ));

    // Invalid step value
    assert!(matches!(
        Calendar::from_str("*-*-* 1..10/invalid:00:00"),
        Err(CalendarError::InvalidFormat)
    ));
}

#[test]
fn test_next_occurrence() {
    let s = "Mon,Wed 2020..2030/2-03..06/3-01,05,06 08..09/3:00,30:00 Europe/Rome";
    let cal: Calendar = s.parse().unwrap();
    let last_occurrence = cal.next_occurrence(Timestamp::new(1744993853));
    assert_eq!(last_occurrence, Some(Timestamp::new(1780293600)));

    let cal = "Thu *-02-29".parse::<Calendar>().unwrap();
    let last_occurrence = cal.next_occurrence(Timestamp::new(1744993853));
    assert_eq!(last_occurrence, Some(Timestamp::new(2592777600)));

    let x = 1745499045;
    let cal = "*-*-* *:*:00".parse::<Calendar>().unwrap();
    let next_occurrence = cal.next_occurrence(Timestamp::new(x));
    assert!(next_occurrence.unwrap() > Timestamp::new(x));

    let x = 1745499045;
    let cal = "*-*-* *:0..59/10:0".parse::<Calendar>().unwrap();
    println!("{}", cal.to_human_readable(false));
    let next_occurrence = cal.next_occurrence(Timestamp::new(x));
    assert!(next_occurrence.unwrap() > Timestamp::new(x));
}

#[test]
fn test_serialize() {
    let cal = Calendar::minutely(None);
    let s = serde_json::to_string(&cal.to_calendar_string()).unwrap();
    println!("{}", s);
}

#[test]
fn test_human_readable_formats() {
    // Test standard named patterns
    assert_eq!(
        Calendar::minutely(None).to_human_readable(true),
        "Every minute"
    );
    assert_eq!(Calendar::hourly(None).to_human_readable(true), "Every hour");
    assert_eq!(Calendar::daily(None).to_human_readable(true), "Daily");
    assert_eq!(Calendar::weekly(None).to_human_readable(true), "Weekly");
    assert_eq!(Calendar::monthly(None).to_human_readable(true), "Monthly");
    assert_eq!(Calendar::yearly(None).to_human_readable(true), "Yearly");
    assert_eq!(
        Calendar::quarterly(None).to_human_readable(true),
        "Quarterly"
    );
    assert_eq!(
        Calendar::semiannually(None).to_human_readable(true),
        "Semi-annually"
    );

    // Test with timezone
    let tz = Some(chrono_tz::US::Eastern);
    assert_eq!(Calendar::daily(tz).to_human_readable(true), "Daily");

    // Test timezone parameter
    let cal_with_tz = Calendar {
        weekdays: None,
        year: TimeComponent::Any,
        month: TimeComponent::Any,
        day: TimeComponent::Values(vec![15]),
        hour: TimeComponent::Values(vec![14]),
        minute: TimeComponent::Values(vec![30]),
        second: TimeComponent::Values(vec![0]),
        timezone: tz,
    };
    assert_eq!(
        cal_with_tz.to_human_readable(true),
        "On the 15th day of each month at 02:30 PM (US/Eastern)"
    );
    assert_eq!(
        cal_with_tz.to_human_readable(false),
        "On the 15th day of each month at 02:30 PM"
    );

    // Test ordinal day formats
    let cal_1st = Calendar {
        weekdays: None,
        year: TimeComponent::Any,
        month: TimeComponent::Any,
        day: TimeComponent::Values(vec![1]),
        hour: TimeComponent::Values(vec![9]),
        minute: TimeComponent::Values(vec![0]),
        second: TimeComponent::Values(vec![0]),
        timezone: None,
    };
    assert_eq!(
        cal_1st.to_human_readable(true),
        "On the 1st day of each month at 09:00 AM"
    );

    let cal_2nd = Calendar {
        weekdays: None,
        year: TimeComponent::Any,
        month: TimeComponent::Any,
        day: TimeComponent::Values(vec![2]),
        hour: TimeComponent::Values(vec![14]),
        minute: TimeComponent::Values(vec![30]),
        second: TimeComponent::Values(vec![0]),
        timezone: None,
    };
    assert_eq!(
        cal_2nd.to_human_readable(true),
        "On the 2nd day of each month at 02:30 PM"
    );

    let cal_3rd = Calendar {
        weekdays: None,
        year: TimeComponent::Any,
        month: TimeComponent::Any,
        day: TimeComponent::Values(vec![3]),
        hour: TimeComponent::Values(vec![0]),
        minute: TimeComponent::Values(vec![0]),
        second: TimeComponent::Values(vec![0]),
        timezone: None,
    };
    assert_eq!(
        cal_3rd.to_human_readable(true),
        "On the 3rd day of each month at midnight"
    );

    let cal_4th = Calendar {
        weekdays: None,
        year: TimeComponent::Any,
        month: TimeComponent::Any,
        day: TimeComponent::Values(vec![4]),
        hour: TimeComponent::Values(vec![12]),
        minute: TimeComponent::Values(vec![0]),
        second: TimeComponent::Values(vec![0]),
        timezone: None,
    };
    assert_eq!(
        cal_4th.to_human_readable(true),
        "On the 4th day of each month at noon"
    );

    let cal_11th = Calendar {
        weekdays: None,
        year: TimeComponent::Any,
        month: TimeComponent::Any,
        day: TimeComponent::Values(vec![11]),
        hour: TimeComponent::Values(vec![9]),
        minute: TimeComponent::Values(vec![15]),
        second: TimeComponent::Values(vec![0]),
        timezone: None,
    };
    assert_eq!(
        cal_11th.to_human_readable(true),
        "On the 11th day of each month at 09:15 AM"
    );

    let cal_21st = Calendar {
        weekdays: None,
        year: TimeComponent::Any,
        month: TimeComponent::Any,
        day: TimeComponent::Values(vec![21]),
        hour: TimeComponent::Values(vec![9]),
        minute: TimeComponent::Values(vec![15]),
        second: TimeComponent::Values(vec![0]),
        timezone: None,
    };
    assert_eq!(
        cal_21st.to_human_readable(true),
        "On the 21st day of each month at 09:15 AM"
    );

    // Test weekday formatting
    let cal_weekday = Calendar {
        weekdays: Some(vec![Weekday::Mon, Weekday::Wed, Weekday::Fri]),
        year: TimeComponent::Any,
        month: TimeComponent::Any,
        day: TimeComponent::Any,
        hour: TimeComponent::Values(vec![17]),
        minute: TimeComponent::Values(vec![0]),
        second: TimeComponent::Values(vec![0]),
        timezone: None,
    };
    assert_eq!(
        cal_weekday.to_human_readable(true),
        "Every day on Mon, Wed, Fri at 05:00 PM"
    );

    // Test with timezone
    let cal_tz = Calendar {
        weekdays: None,
        year: TimeComponent::Any,
        month: TimeComponent::Any,
        day: TimeComponent::Values(vec![15]),
        hour: TimeComponent::Values(vec![14]),
        minute: TimeComponent::Values(vec![30]),
        second: TimeComponent::Values(vec![0]),
        timezone: Some(chrono_tz::Europe::London),
    };
    assert_eq!(
        cal_tz.to_human_readable(true),
        "On the 15th day of each month at 02:30 PM (Europe/London)"
    );

    let cal_every_10 = Calendar {
        weekdays: None,
        year: TimeComponent::Any,
        month: TimeComponent::Any,
        day: TimeComponent::Any,
        hour: TimeComponent::Any,
        minute: TimeComponent::Range {
            start: 0,
            end: 59,
            step: Some(10),
        },
        second: TimeComponent::Values(vec![0]),
        timezone: None,
    };
    assert_eq!(cal_every_10.to_human_readable(true), "Every 10 minutes");

    let cal_every_6h = Calendar {
        weekdays: None,
        year: TimeComponent::Any,
        month: TimeComponent::Any,
        day: TimeComponent::Any,
        hour: TimeComponent::Range {
            start: 0,
            end: 23,
            step: Some(6),
        },
        minute: TimeComponent::Values(vec![0]),
        second: TimeComponent::Values(vec![0]),
        timezone: None,
    };
    assert_eq!(cal_every_6h.to_human_readable(true), "Every 6 hours");

    let cal_every_3d = Calendar {
        weekdays: None,
        year: TimeComponent::Any,
        month: TimeComponent::Any,
        day: TimeComponent::Range {
            start: 1,
            end: 31,
            step: Some(3),
        },
        hour: TimeComponent::Values(vec![0]),
        minute: TimeComponent::Values(vec![0]),
        second: TimeComponent::Values(vec![0]),
        timezone: None,
    };
    assert_eq!(
        cal_every_3d.to_human_readable(true),
        "Every 3 days at midnight"
    );
}
