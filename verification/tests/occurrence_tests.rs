use easyplanner::calendar::Calendar;
use easyplanner::model::Timestamp;

// 1_700_000_000 is Tuesday 2023-11-14 22:13:20 UTC.
const FROM: u64 = 1_700_000_000;

#[test]
fn next_noon_in_utc() {
    let cal: Calendar = "*-*-* 12:00:00".parse().unwrap();
    assert_eq!(cal.next_occurrence(Timestamp::new(FROM)), Some(Timestamp::new(1_700_049_600)));
}

#[test]
fn a_firing_second_is_its_own_next_occurrence() {
    let cal: Calendar = "*-*-* *:*:00".parse().unwrap();
    let at = Timestamp::new(FROM + 40);
    assert_eq!(cal.next_occurrence(at), Some(at));
}

#[test]
fn next_occurrence_reads_the_calendar_zone() {
    let cal: Calendar = "*-*-* 09:00:00 Europe/Rome".parse().unwrap();
    assert_eq!(cal.next_occurrence(Timestamp::new(FROM)), Some(Timestamp::new(1_700_035_200)));
    let plain: Calendar = "*-*-* 09:00:00".parse().unwrap();
    assert_eq!(
        plain.next_occurrence_with_default_tz(Timestamp::new(FROM), chrono_tz::Europe::Rome),
        Some(Timestamp::new(1_700_035_200))
    );
}

#[test]
fn next_occurrence_keeps_to_listed_weekdays() {
    let cal: Calendar = "Sat *-*-* 00:00:00".parse().unwrap();
    assert_eq!(cal.next_occurrence(Timestamp::new(FROM)), Some(Timestamp::new(1_700_265_600)));
}

#[test]
fn a_skipped_wall_clock_time_never_fires() {
    let cal: Calendar = "2024-03-31 02:30:00 Europe/Rome".parse().unwrap();
    assert_eq!(cal.next_occurrence(Timestamp::new(FROM)), None);
}

#[test]
fn a_repeated_wall_clock_time_fires_at_its_first_instant() {
    let cal: Calendar = "2024-10-27 02:30:00 Europe/Rome".parse().unwrap();
    assert_eq!(cal.next_occurrence(Timestamp::new(FROM)), Some(Timestamp::new(1_729_989_000)));
}

#[test]
fn years_end_in_2099() {
    let cal: Calendar = "2020-01-01 00:00:00".parse().unwrap();
    assert_eq!(cal.next_occurrence(Timestamp::new(FROM)), None);
}

#[test]
fn a_zero_step_stops_the_search_only_where_it_is_reached() {
    let reached: Calendar = "*-*-* *:*:0..10/0".parse().unwrap();
    assert_eq!(reached.checked_next_occurrence(Timestamp::new(FROM)), None);
    let past: Calendar = "2000-*-* *:*:0..10/0".parse().unwrap();
    assert_eq!(past.checked_next_occurrence(Timestamp::new(FROM)), Some(None));
    assert_eq!(past.next_occurrence(Timestamp::new(FROM)), None);
}

#[test]
fn times_outside_chrono_are_refused_by_the_checked_search() {
    let cal = Calendar::daily(None);
    assert_eq!(cal.checked_next_occurrence(Timestamp::new(i64::MAX as u64)), None);
    assert_eq!(
        cal.checked_next_occurrence(Timestamp::new(FROM)),
        Some(Some(Timestamp::new(1_700_006_400)))
    );
}

#[test]
fn the_earliest_time_chrono_represents_is_searched() {
    let cal = Calendar::daily(None);
    let earliest: i64 = -8_334_601_228_800;
    assert_eq!(cal.checked_next_occurrence(Timestamp::new(earliest as u64)), Some(None));
    assert_eq!(cal.checked_next_occurrence(Timestamp::new((earliest - 1) as u64)), None);
    let latest: i64 = 8_210_266_876_799;
    assert_eq!(cal.checked_next_occurrence(Timestamp::new(latest as u64)), Some(None));
    assert_eq!(cal.checked_next_occurrence(Timestamp::new((latest + 1) as u64)), None);
}

#[test]
fn a_clock_reading_before_1970_is_taken_as_0() {
    assert_eq!(Timestamp::from_clock(Err(5)), Timestamp::new(0));
    assert_eq!(Timestamp::from_clock(Ok(1_700_000_000)), Timestamp::new(FROM));
    assert_eq!(
        Timestamp::from_clock(Ok(u64::MAX)),
        Timestamp::new(8_210_266_876_799)
    );
    assert!(Timestamp::now() > Timestamp::new(FROM));
}

#[test]
fn searching_again_from_a_next_firing_finds_it() {
    for expr in ["*-*-* 12:00:00", "Sat *-*-* 00:00:00", "*-*-* *:0..59/10:0", "monthly"] {
        let cal: Calendar = expr.parse().unwrap();
        let t = cal.next_occurrence(Timestamp::new(FROM)).unwrap();
        assert!(t >= Timestamp::new(FROM));
        assert_eq!(cal.next_occurrence(t), Some(t));
        assert!(cal.next_occurrence(Timestamp::new(t.as_u64() + 1)).unwrap() > t);
    }
}
