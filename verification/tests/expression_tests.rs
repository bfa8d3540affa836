use std::str::FromStr;

use easyplanner::calendar::{Calendar, CalendarError, TimeComponent, Weekday};

#[test]
fn written_calendar_reads_back_without_zone() {
    let s = "Mon,Wed 2020..2030/2-03..06/3-01,05,06 08..09/3:00,30:00 Europe/Rome";
    let cal: Calendar = s.parse().unwrap();
    let written = cal.to_calendar_string();
    assert_eq!(written, "Mon,Wed 2020..2030/2-03..06/3-1,5,6 08..09/3:0,30:0");
    let again: Calendar = written.parse().unwrap();
    let mut expected = cal.clone();
    expected.timezone = None;
    assert_eq!(again, expected);
}

#[test]
fn keyword_calendar_written_reads_back() {
    let cal = Calendar::minutely(None);
    assert_eq!(cal.to_calendar_string(), "*-*-* *:*:0");
    let again: Calendar = cal.to_calendar_string().parse().unwrap();
    assert_eq!(again, cal);
    let q = Calendar::quarterly(None);
    assert_eq!(q.to_calendar_string(), "*-1,4,7,10-1 0:0:0");
    assert_eq!(q.to_calendar_string().parse::<Calendar>().unwrap(), q);
}

#[test]
fn written_component_reads_back() {
    let c = TimeComponent::<0, 59>::from_str("1..10/2").unwrap();
    assert_eq!(c.to_component_string(), "01..10/2");
    assert_eq!(TimeComponent::<0, 59>::from_str(&c.to_component_string()).unwrap(), c);
    let v = TimeComponent::<0, 59>::from_str("30,5,5").unwrap();
    assert_eq!(v, TimeComponent::Values(vec![5, 5, 30]));
    assert_eq!(v.to_component_string(), "5,5,30");
    assert_eq!(TimeComponent::<0, 59>::from_str(&v.to_component_string()).unwrap(), v);
}

#[test]
fn weekday_names_read_back() {
    let all = [
        Weekday::Mon,
        Weekday::Tue,
        Weekday::Wed,
        Weekday::Thu,
        Weekday::Fri,
        Weekday::Sat,
        Weekday::Sun,
    ];
    for (i, w) in all.iter().enumerate() {
        assert_eq!(Weekday::parse(w.as_str()).unwrap(), *w);
        assert_eq!(w.index() as usize, i);
        assert_eq!(Weekday::from_index(i as u8), *w);
    }
    assert_eq!(Weekday::parse("FRIDAY").unwrap(), Weekday::Fri);
    assert_eq!(Weekday::Sun.to_display_string(), "Sun");
    assert!(matches!(Weekday::parse("Funday"), Err(CalendarError::InvalidWeekday(s)) if s == "funday"));
}

#[test]
fn iter_lists_admitted_values_from_the_floor() {
    let r = TimeComponent::<0, 59>::Range { start: 1, end: 10, step: Some(3) };
    assert_eq!(r.iter(Some(4)), vec![4, 7, 10]);
    assert_eq!(r.iter(None), vec![1, 4, 7, 10]);
    assert!(r.contains(7));
    assert!(!r.contains(8));
    let any = TimeComponent::<1, 12>::Any;
    assert_eq!(any.iter(Some(10)), vec![10, 11, 12]);
    let vals = TimeComponent::<0, 59>::Values(vec![1, 5, 9]);
    assert_eq!(vals.iter(Some(5)), vec![5, 9]);
    assert_eq!(vals.iter(Some(10)), Vec::<u32>::new());
}

#[test]
fn keyword_calendars_are_named_whatever_their_zone() {
    let tz = Some(chrono_tz::Europe::Rome);
    assert_eq!(Calendar::weekly(tz).to_human_readable(true), "Weekly");
    assert_eq!(Calendar::semiannually(tz).to_human_readable(false), "Semi-annually");
    assert_eq!("MINUTELY".parse::<Calendar>().unwrap(), Calendar::minutely(None));
    assert_eq!("Annually".parse::<Calendar>().unwrap(), Calendar::yearly(None));
}

#[test]
fn each_error_variant_has_an_input() {
    assert!(matches!(Calendar::from_str("Mon Tue"), Err(CalendarError::InvalidFormat)));
    assert!(matches!(
        Calendar::from_str("Xyz *-*-* 00:00:00"),
        Err(CalendarError::InvalidWeekday(s)) if s == "xyz"
    ));
    assert!(matches!(
        Calendar::from_str("*-*-* 24:00:00"),
        Err(CalendarError::InvalidTimeComponent(s)) if s == "Value 24 is out of range"
    ));
    assert!(matches!(
        Calendar::from_str("*-*-* ab:00:00"),
        Err(CalendarError::InvalidTimeComponent(s)) if s == "Invalid value: ab"
    ));
    assert!(matches!(
        TimeComponent::<0, 23>::from_str("10..5"),
        Err(CalendarError::InvalidRange { start: 10, end: 5 })
    ));
    assert!(matches!(
        Calendar::from_str("*-*-* 00:00:00 Mars/Base"),
        Err(CalendarError::InvalidTimezone(s)) if s == "Mars/Base"
    ));
}

#[test]
fn human_readable_formulas() {
    let at = |day: u32, hour: u32, minute: u32| Calendar {
        weekdays: None,
        year: TimeComponent::Any,
        month: TimeComponent::Any,
        day: TimeComponent::Values(vec![day]),
        hour: TimeComponent::Values(vec![hour]),
        minute: TimeComponent::Values(vec![minute]),
        second: TimeComponent::Values(vec![0]),
        timezone: None,
    };
    assert_eq!(at(22, 0, 5).to_human_readable(true), "On the 22nd day of each month at 12:05 AM");
    assert_eq!(at(13, 23, 59).to_human_readable(true), "On the 13th day of each month at 11:59 PM");
    assert_eq!(at(23, 12, 1).to_human_readable(true), "On the 23rd day of each month at 12:01 PM");
    let mut custom = at(1, 9, 0);
    custom.day = TimeComponent::Values(vec![1, 15]);
    assert_eq!(custom.to_human_readable(true), "On a custom schedule at 09:00 AM");
    let days: Calendar = "Sat,Sun *-*-* *:*:00".parse().unwrap();
    assert_eq!(days.to_human_readable(true), "Every day on Sat, Sun");
}

#[test]
fn a_range_field_keeps_its_own_error_unless_reversed_or_its_step_is_unreadable() {
    assert!(matches!(
        Calendar::from_str("*-*-* 0..99:00:00"),
        Err(CalendarError::InvalidTimeComponent(s)) if s == "Range 0-99 is out of range"
    ));
    assert!(matches!(
        Calendar::from_str("*-*-* x..5:00:00"),
        Err(CalendarError::InvalidTimeComponent(s)) if s == "Invalid start value: x"
    ));
    assert!(matches!(
        Calendar::from_str("*-*-* 1..10/2/3:00:00"),
        Err(CalendarError::InvalidTimeComponent(s)) if s == "1..10/2/3"
    ));
    assert!(matches!(Calendar::from_str("*-*-* 9..3:00:00"), Err(CalendarError::InvalidFormat)));
    assert!(matches!(Calendar::from_str("*-*-* 1..9/x:00:00"), Err(CalendarError::InvalidFormat)));
}

#[test]
fn times_of_day_in_twelve_hour_form() {
    let at = |hour: u32, minute: u32| Calendar {
        weekdays: None,
        year: TimeComponent::Any,
        month: TimeComponent::Any,
        day: TimeComponent::Values(vec![15]),
        hour: TimeComponent::Values(vec![hour]),
        minute: TimeComponent::Values(vec![minute]),
        second: TimeComponent::Values(vec![0]),
        timezone: None,
    };
    assert_eq!(at(0, 30).to_human_readable(false), "On the 15th day of each month at 12:30 AM");
    assert_eq!(at(12, 30).to_human_readable(false), "On the 15th day of each month at 12:30 PM");
    assert_eq!(at(13, 5).to_human_readable(false), "On the 15th day of each month at 01:05 PM");
    assert_eq!(at(12, 0).to_human_readable(false), "On the 15th day of each month at noon");
    assert_eq!(at(0, 0).to_human_readable(false), "On the 15th day of each month at midnight");
}
