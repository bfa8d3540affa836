use easyplanner::calendar::Calendar;
use easyplanner::model::Timestamp;
use easyplanner::planning;
use easyplanner::planning::PlanningError;
use easyplanner::scheduler::{
    checked_process_all_due, process_all_due, DueProcessResult, SchedulerError, TaskLifecycleEvent,
};
use easyplanner::memory_store::MemoryTaskStore;
use easyplanner::store::{StoreError, TaskRepository, TaskRow, TaskStatus};

/// Moves a task's next firing, as a host would when a row is edited by hand.
fn set_next_occurrence_for_test(store: &mut MemoryTaskStore, id: i64, unix: u64) {
    store.set_next_occurrence_unix(id, Some(unix)).expect("task");
}

#[test]
fn process_all_due_advances_recurring_task_to_active() {
    let mut store = MemoryTaskStore::new();
    let now = Timestamp::new(1_700_000_000);
    let id = planning::add_task(&mut store, "repeat".into(), "minutely", None).unwrap();
    set_next_occurrence_for_test(&mut store, id, now.as_u64().saturating_sub(120));

    let results = process_all_due(&mut store, now).expect("process");
    assert_eq!(results.len(), 1);
    assert!(matches!(results[0], DueProcessResult::Expired(_)));

    let row = store.list_tasks().unwrap().into_iter().find(|r| r.id == id).unwrap();
    assert_eq!(row.status, TaskStatus::Active);
    assert!(row.next_occurrence_unix.is_some());
    assert!(row.next_occurrence_unix.unwrap() > now.as_u64());
}

#[test]
fn process_all_due_finishes_task_with_no_next_occurrence() {
    let mut store = MemoryTaskStore::new();
    let expr = "2020-01-01 08:00:00";
    let fired_at = Timestamp::new(1_577_880_000);
    let id = planning::add_task(&mut store, "once".into(), expr, None).unwrap();
    set_next_occurrence_for_test(&mut store, id, fired_at.as_u64());

    let results = process_all_due(&mut store, Timestamp::new(fired_at.as_u64() + 3600)).expect("process");
    assert_eq!(results.len(), 1);
    assert!(matches!(results[0], DueProcessResult::Finished(_)));

    let row = store.list_tasks().unwrap().into_iter().find(|r| r.id == id).unwrap();
    assert_eq!(row.status, TaskStatus::Finished);
    assert!(row.next_occurrence_unix.is_none());
}

#[test]
fn invalid_wall_clock_tz_on_add_returns_error() {
    let mut store = MemoryTaskStore::new();
    let err = planning::add_task(&mut store, "x".into(), "minutely", Some("Not/AValid/ZoneId"))
        .unwrap_err();
    assert!(matches!(err, planning::PlanningError::InvalidTimezone(_)));
}

#[test]
fn add_due_advance_round_trip() {
    let mut store = MemoryTaskStore::new();
    let expr = "minutely";
    let cal: Calendar = expr.parse().unwrap();
    let now = Timestamp::now();
    let next = cal.next_occurrence(now).expect("next");
    let id = planning::add_task(&mut store, "brush teeth".into(), expr, None).expect("add");
    let stored_expr = store.get_task(id).unwrap().calendar_expr;
    assert_eq!(stored_expr, expr);
    let due = store.tasks_due_before(next).expect("due");
    assert!(
        due.iter().any(|t| t.id == id),
        "task should be due at or after its first next occurrence"
    );
    let next_after = planning::next_occurrence_after_fire(&due[0], next).unwrap();
    store
        .set_next_occurrence_unix(id, next_after.map(|t| t.as_u64()))
        .expect("advance");
    let row = store.get_task(id).unwrap().calendar_expr;
    let cal2: Calendar = row.parse().unwrap();
    let next2 = cal2.next_occurrence(next).expect("second occurrence");
    let stored = store.get_task(id).unwrap().next_occurrence_unix;
    assert_eq!(stored, Some(next2.as_u64()));
}

#[test]
fn next_occurrence_column_matches_calendar_for_specific_expr() {
    let mut store = MemoryTaskStore::new();
    let expr = "*-*-* 12:00:00";
    let cal: Calendar = expr.parse().unwrap();
    let now = Timestamp::now();
    let expected_next = cal.next_occurrence(now).expect("next");
    let id = planning::add_task(&mut store, "lunch".into(), expr, None).unwrap();
    let stored = store.get_task(id).unwrap().next_occurrence_unix;
    assert_eq!(stored, Some(expected_next.as_u64()));
}

#[test]
fn lifecycle_event_reports_outcome() {
    let mut store = MemoryTaskStore::new();
    let id = planning::add_task(&mut store, "due".into(), "minutely", None).unwrap();
    let row = store.get_task(id).unwrap();
    assert_eq!(
        TaskLifecycleEvent::from_result(DueProcessResult::Finished(id)),
        TaskLifecycleEvent::Finished { id }
    );
    assert_eq!(
        TaskLifecycleEvent::from_result(DueProcessResult::Expired(row.clone())),
        TaskLifecycleEvent::Expired { task: row }
    );
}

#[test]
fn list_tasks_returns_all_rows() {
    let mut store = MemoryTaskStore::new();
    planning::add_task(&mut store, "a".into(), "minutely", None).unwrap();
    planning::add_task(&mut store, "b".into(), "minutely", None).unwrap();
    let list = store.list_tasks().expect("list");
    assert_eq!(list.len(), 2);
    let descs: Vec<_> = list.iter().map(|r| r.description.as_str()).collect();
    assert!(descs.contains(&"a"));
    assert!(descs.contains(&"b"));
}

#[test]
fn delete_task_removes_row() {
    let mut store = MemoryTaskStore::new();
    let id = planning::add_task(&mut store, "gone".into(), "minutely", None).unwrap();
    store.delete_task(id).expect("delete");
    let list = store.list_tasks().unwrap();
    assert!(list.iter().all(|r| r.id != id));
    assert!(matches!(store.delete_task(id).unwrap_err(), StoreError::TaskNotFound(i) if i == id));
}

#[test]
fn tasks_due_before_skips_expired_and_finished() {
    let mut store = MemoryTaskStore::new();
    let now = Timestamp::new(1_700_000_000);
    let id = planning::add_task(&mut store, "x".into(), "minutely", None).unwrap();
    set_next_occurrence_for_test(&mut store, id, now.as_u64().saturating_sub(60));
    store
        .set_task_status(id, TaskStatus::Finished)
        .expect("finish");
    let due = store.tasks_due_before(now).expect("due");
    assert!(due.is_empty());
}

fn row_of(store: &MemoryTaskStore, id: i64) -> TaskRow {
    store.get_task(id).unwrap()
}

#[test]
fn tasks_not_due_are_left_alone() {
    let mut store = MemoryTaskStore::new();
    let now = Timestamp::new(1_700_000_000);
    let due = planning::add_task(&mut store, "due".into(), "minutely", None).unwrap();
    let later = planning::add_task(&mut store, "later".into(), "minutely", None).unwrap();
    set_next_occurrence_for_test(&mut store, due, now.as_u64() - 30);
    set_next_occurrence_for_test(&mut store, later, now.as_u64() + 30);
    let before = row_of(&store, later);
    let results = process_all_due(&mut store, now).unwrap();
    assert_eq!(results.len(), 1);
    assert_eq!(row_of(&store, later), before);
    let fired = row_of(&store, due);
    assert_eq!(fired.status, TaskStatus::Active);
    assert_eq!(fired.next_occurrence_unix, Some(1_700_000_040));
}

#[test]
fn due_tasks_are_processed_soonest_first() {
    let mut store = MemoryTaskStore::new();
    let now = Timestamp::new(1_700_000_000);
    let a = planning::add_task(&mut store, "a".into(), "hourly", None).unwrap();
    let b = planning::add_task(&mut store, "b".into(), "hourly", None).unwrap();
    set_next_occurrence_for_test(&mut store, a, now.as_u64() - 10);
    set_next_occurrence_for_test(&mut store, b, now.as_u64() - 500);
    let results = process_all_due(&mut store, now).unwrap();
    let ids: Vec<i64> = results
        .iter()
        .map(|r| match r {
            DueProcessResult::Expired(t) => t.id,
            DueProcessResult::Finished(id) => *id,
        })
        .collect();
    assert_eq!(ids, vec![b, a]);
    // 1_700_000_000 is 22:13:20 UTC; the next whole hour is 23:00:00.
    assert_eq!(row_of(&store, a).next_occurrence_unix, Some(1_700_002_800));
}

#[test]
fn a_task_whose_search_cannot_go_on_stops_the_processing() {
    let mut store = MemoryTaskStore::new();
    let now = Timestamp::new(1_700_000_000);
    let id = store
        .insert_task(
            "stuck".into(),
            "*-*-* *:*:0..10/0",
            None,
            Some(now.as_u64() - 60),
            now.as_u64() - 600,
            true,
            TaskStatus::Active,
        )
        .unwrap();
    assert!(checked_process_all_due(&mut store, now).is_none());
    assert_eq!(row_of(&store, id).status, TaskStatus::Expired);
}

#[test]
fn checked_add_task_refuses_an_expression_whose_search_cannot_go_on() {
    let mut store = MemoryTaskStore::new();
    assert!(planning::checked_add_task(&mut store, "x".into(), "*-*-* *:*:0..10/0", None).is_none());
    assert!(store.list_tasks().unwrap().is_empty());
    let ok = planning::checked_add_task(&mut store, "y".into(), "daily", Some(" Europe/Rome "));
    let id = ok.unwrap().unwrap();
    assert_eq!(row_of(&store, id).wall_clock_tz, Some("Europe/Rome".to_string()));
}

#[test]
fn add_task_reports_a_bad_expression() {
    let mut store = MemoryTaskStore::new();
    let err = planning::add_task(&mut store, "x".into(), "not a calendar", None).unwrap_err();
    assert!(matches!(err, planning::PlanningError::Calendar(_)));
    assert!(store.list_tasks().unwrap().is_empty());
}

#[test]
fn a_blank_zone_name_means_utc() {
    assert_eq!(planning::normalize_wall_clock_tz(Some("   ")), None);
    assert_eq!(
        planning::normalize_wall_clock_tz(Some("  Europe/Rome ")),
        Some("Europe/Rome".to_string())
    );
    assert_eq!(planning::wall_tz_from_stored(None).unwrap(), chrono_tz::UTC);
    assert_eq!(planning::wall_tz_from_stored(Some(" ")).unwrap(), chrono_tz::UTC);
    assert_eq!(
        planning::wall_tz_from_stored(Some("Europe/Rome")).unwrap(),
        chrono_tz::Europe::Rome
    );
    assert!(matches!(
        planning::wall_tz_from_stored(Some("Bad/Zone")),
        Err(planning::PlanningError::InvalidTimezone(s)) if s == "Bad/Zone"
    ));
}

#[test]
fn next_firing_after_fire_reads_the_stored_zone() {
    let row = TaskRow {
        id: 7,
        description: "rome".into(),
        calendar_expr: "*-*-* 09:00:00".into(),
        wall_clock_tz: Some("Europe/Rome".into()),
        next_occurrence_unix: None,
        created_at_unix: 0,
        enabled: true,
        status: TaskStatus::Active,
    };
    let next = planning::next_occurrence_after_fire(&row, Timestamp::new(1_700_000_000)).unwrap();
    assert_eq!(next, Some(Timestamp::new(1_700_035_200)));
    let mut bad = row.clone();
    bad.wall_clock_tz = Some("Nowhere/Land".into());
    assert!(matches!(
        planning::next_occurrence_after_fire(&bad, Timestamp::new(1_700_000_000)),
        Err(planning::PlanningError::InvalidTimezone(_))
    ));
}

#[test]
fn task_status_names() {
    for s in [TaskStatus::Active, TaskStatus::Expired, TaskStatus::Finished] {
        assert_eq!(TaskStatus::parse(s.as_str()), Some(s));
    }
    assert_eq!(TaskStatus::parse("paused"), None);
}

#[test]
fn an_added_task_fires_as_stored() {
    let mut store = MemoryTaskStore::new();
    let id = planning::add_task(&mut store, "tea".into(), "*-*-* 17:00:00", Some(" Europe/Rome "))
        .unwrap();
    let row = row_of(&store, id);
    let again =
        planning::next_occurrence_after_fire(&row, Timestamp::new(row.created_at_unix)).unwrap();
    assert_eq!(again.map(|t| t.as_u64()), row.next_occurrence_unix);
}

#[test]
fn a_stored_zone_name_selects_the_zone_it_was_given_as() {
    for raw in [None, Some("   "), Some(" Asia/Tokyo\t"), Some("Bad/Zone")] {
        let stored = planning::normalize_wall_clock_tz(raw);
        let given = planning::wall_tz_from_stored(raw);
        let kept = planning::wall_tz_from_stored(stored.as_deref());
        match (given, kept) {
            (Ok(a), Ok(b)) => assert_eq!(a, b),
            (Err(_), Err(_)) => {}
            _ => panic!("the stored name selects another zone"),
        }
    }
}

#[test]
fn add_task_at_reads_the_first_firing_from_the_given_time() {
    let mut store = MemoryTaskStore::new();
    let now = Timestamp::new(1_700_000_000);
    let id = planning::add_task_at(&mut store, "lunch".into(), "*-*-* 12:00:00", None, now).unwrap();
    let row = row_of(&store, id);
    assert_eq!(row.created_at_unix, 1_700_000_000);
    assert_eq!(row.next_occurrence_unix, Some(1_700_049_600));
    assert_eq!(row.status, TaskStatus::Active);
    assert!(row.enabled);
    let past = planning::add_task_at(&mut store, "past".into(), "2000-01-01 0..5/0:00:00", None, now)
        .unwrap();
    assert_eq!(row_of(&store, past).next_occurrence_unix, None);
}

#[test]
fn memory_store_hands_out_ascending_ids_and_lists_them_in_order() {
    let mut store = MemoryTaskStore::new();
    assert!(store.list_tasks().unwrap().is_empty());
    let a = store
        .insert_task("a".into(), "hourly", None, Some(50), 7, true, TaskStatus::Active)
        .unwrap();
    let b = store
        .insert_task("b".into(), "daily", Some("UTC".into()), None, 8, false, TaskStatus::Finished)
        .unwrap();
    assert_eq!((a, b), (1, 2));
    store.delete_task(b).unwrap();
    let c = store
        .insert_task("c".into(), "weekly", None, Some(40), 9, true, TaskStatus::Active)
        .unwrap();
    assert_eq!(c, 3);
    let ids: Vec<i64> = store.list_tasks().unwrap().iter().map(|r| r.id).collect();
    assert_eq!(ids, vec![1, 3]);
    let row = store.get_task(a).unwrap();
    assert_eq!(row.description, "a");
    assert_eq!(row.calendar_expr, "hourly");
    assert_eq!(row.next_occurrence_unix, Some(50));
    assert_eq!(row.created_at_unix, 7);
    assert!(matches!(store.get_task(b), Err(StoreError::TaskNotFound(2))));
    assert!(matches!(store.set_task_status(b, TaskStatus::Active), Err(StoreError::TaskNotFound(2))));
}

#[test]
fn memory_store_lists_due_tasks_soonest_first() {
    let mut store = MemoryTaskStore::new();
    let now = Timestamp::new(100);
    let late = store
        .insert_task("late".into(), "hourly", None, Some(90), 0, true, TaskStatus::Active)
        .unwrap();
    let early = store
        .insert_task("early".into(), "hourly", None, Some(10), 0, true, TaskStatus::Active)
        .unwrap();
    let future = store
        .insert_task("future".into(), "hourly", None, Some(101), 0, true, TaskStatus::Active)
        .unwrap();
    let disabled = store
        .insert_task("off".into(), "hourly", None, Some(5), 0, false, TaskStatus::Active)
        .unwrap();
    let edge = store
        .insert_task("edge".into(), "hourly", None, Some(100), 0, true, TaskStatus::Active)
        .unwrap();
    let ids: Vec<i64> = store.tasks_due_before(now).unwrap().iter().map(|r| r.id).collect();
    assert_eq!(ids, vec![early, late, edge]);
    assert!(!ids.contains(&future) && !ids.contains(&disabled));
}

#[test]
fn process_all_due_stops_at_a_task_whose_expression_does_not_read() {
    let mut store = MemoryTaskStore::new();
    let now = Timestamp::new(1_700_000_000);
    let first = store
        .insert_task("first".into(), "minutely", None, Some(now.as_u64() - 100), 0, true, TaskStatus::Active)
        .unwrap();
    let broken = store
        .insert_task("broken".into(), "not a calendar", None, Some(now.as_u64() - 50), 0, true, TaskStatus::Active)
        .unwrap();
    let last = store
        .insert_task("last".into(), "minutely", None, Some(now.as_u64() - 10), 0, true, TaskStatus::Active)
        .unwrap();
    let last_before = row_of(&store, last);
    let err = process_all_due(&mut store, now).unwrap_err();
    assert!(matches!(err, SchedulerError::Planning(PlanningError::Calendar(_))));
    let fired = row_of(&store, first);
    assert_eq!(fired.status, TaskStatus::Active);
    assert_eq!(fired.next_occurrence_unix, Some(1_700_000_040));
    let stopped = row_of(&store, broken);
    assert_eq!(stopped.status, TaskStatus::Expired);
    assert_eq!(stopped.next_occurrence_unix, Some(now.as_u64() - 50));
    assert_eq!(row_of(&store, last), last_before);
}

#[test]
fn an_unknown_stored_zone_fails_whatever_the_expression() {
    let row = TaskRow {
        id: 3,
        description: "x".into(),
        calendar_expr: "not a calendar".into(),
        wall_clock_tz: Some("  Not/AValid/ZoneId ".into()),
        next_occurrence_unix: None,
        created_at_unix: 0,
        enabled: true,
        status: TaskStatus::Active,
    };
    assert!(matches!(
        planning::next_occurrence_after_fire(&row, Timestamp::new(1_700_000_000)),
        Err(PlanningError::InvalidTimezone(s)) if s == "Not/AValid/ZoneId"
    ));
}

#[test]
fn without_a_stored_zone_the_next_firing_is_the_calendars_next_occurrence() {
    for (expr, zone) in [("*-*-* 09:30:00", None), ("Mon *-*-* 08:00:00", Some("   "))] {
        let row = TaskRow {
            id: 4,
            description: "y".into(),
            calendar_expr: expr.into(),
            wall_clock_tz: zone.map(|z: &str| z.to_string()),
            next_occurrence_unix: None,
            created_at_unix: 0,
            enabled: true,
            status: TaskStatus::Active,
        };
        let at = Timestamp::new(1_700_000_000);
        let cal: Calendar = expr.parse().unwrap();
        let expected = cal.next_occurrence(at);
        assert!(expected.is_some());
        assert_eq!(planning::next_occurrence_after_fire(&row, at).unwrap(), expected);
    }
}
