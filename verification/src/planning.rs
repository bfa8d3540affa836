//! Calendar-aware task operations built on a `TaskRepository`.

use vstd::prelude::*;

use crate::calendar::{calendar_wf, Calendar, CalendarError, CalendarErrorView, CalendarView};
use crate::grammar::calendar_parse;
use crate::model::Timestamp;
use crate::occurrence::{in_chrono_range, next_firing, search_steps, utc_spec, wall_of, zone_or};
use crate::store::{opt_string, StoreError, StoreErrorView, TaskRepository, TaskRow, TaskRowView, TaskStatus};
use crate::text::{chars_of, lemma_trim_idempotent, string_from_chars, trim, trim_chars};
use crate::zone::{parse_timezone, spec_parse_tz, utc_zone, MAX_UNIX};

verus! {

/// The errors of planning operations.
#[derive(Debug)]
pub enum PlanningError {
    Store(StoreError),
    Calendar(CalendarError),
    InvalidTimezone(String),
}

/// A planning error as mathematical values.
pub enum PlanningErrorView {
    Store(StoreErrorView),
    Calendar(CalendarErrorView),
    InvalidTimezone(Seq<char>),
}

impl View for PlanningError {
    type V = PlanningErrorView;

    open spec fn view(&self) -> PlanningErrorView {
        match self {
            PlanningError::Store(e) => PlanningErrorView::Store(e@),
            PlanningError::Calendar(e) => PlanningErrorView::Calendar(e@),
            PlanningError::InvalidTimezone(s) => PlanningErrorView::InvalidTimezone(s@),
        }
    }
}

pub open spec fn opt_str(s: Option<&str>) -> Option<Seq<char>> {
    match s {
        Some(x) => Some(x@),
        None => None,
    }
}

/// A zone name as stored: trimmed, and absent when blank.
pub open spec fn normalized_zone(raw: Option<Seq<char>>) -> Option<Seq<char>> {
    match raw {
        Some(s) => if trim(s).len() == 0 {
            None
        } else {
            Some(trim(s))
        },
        None => None,
    }
}

/// The zone that a stored name selects: UTC when absent or blank, else the zone of that
/// (trimmed) name.
pub open spec fn stored_zone(stored: Option<Seq<char>>) -> Result<chrono_tz::Tz, PlanningErrorView> {
    match normalized_zone(stored) {
        None => Ok(utc_spec()),
        Some(t) => match spec_parse_tz(t) {
            Some(z) => Ok(z),
            None => Err(PlanningErrorView::InvalidTimezone(t)),
        },
    }
}

/// The next firing of an expression read in zone `tz` (unless it names its own), at or after
/// `from`; the error when the expression does not read.
pub open spec fn expression_next(expr: Seq<char>, tz: chrono_tz::Tz, from: u64) -> Result<
    Option<u64>,
    PlanningErrorView,
> {
    match calendar_parse(expr) {
        Err(e) => Err(PlanningErrorView::Calendar(e)),
        Ok(c) => Ok(next_firing(c, zone_or(c.timezone, tz), (from as i64) as int)),
    }
}

/// When a task fires at `fired_at`: its next firing, from its stored expression and zone.
pub open spec fn next_after_fire(task: TaskRowView, fired_at: u64) -> Result<
    Option<u64>,
    PlanningErrorView,
> {
    match stored_zone(task.wall_clock_tz) {
        Err(e) => Err(e),
        Ok(tz) => expression_next(task.calendar_expr, tz, fired_at),
    }
}

/// The next firing of an expression, read with the stored zone name `zone`, can be searched
/// from `at`: where the zone name and the expression read, `at` is a time that chrono
/// represents and the search lists no field whose range steps by 0. (When either does not
/// read, that error is reported first.)
pub open spec fn searchable(zone: Option<Seq<char>>, expr: Seq<char>, at: u64) -> bool {
    stored_zone(zone) matches Ok(z) ==> match calendar_parse(expr) {
        Ok(c) => in_chrono_range(at) && search_steps(
            c,
            zone_or(c.timezone, z),
            wall_of(zone_or(c.timezone, z), (at as i64) as int),
        ),
        Err(_) => true,
    }
}

/// The next firing of a task that fired at `fired_at` can be searched.
pub open spec fn fire_searchable(task: TaskRowView, fired_at: u64) -> bool {
    searchable(task.wall_clock_tz, task.calendar_expr, fired_at)
}

/// Trims a zone name and drops it when blank.
pub fn normalize_wall_clock_tz(raw: Option<&str>) -> (r: Option<String>)
    ensures
        opt_string(r) == normalized_zone(opt_str(raw)),
{
    match raw {
        None => None,
        Some(s) => {
            let t = trim_chars(&chars_of(s));
            if t.len() == 0 {
                None
            } else {
                Some(string_from_chars(&t))
            }
        },
    }
}

/// The zone that a stored name selects: UTC when absent or blank.
pub fn wall_tz_from_stored(stored: Option<&str>) -> (r: Result<chrono_tz::Tz, PlanningError>)
    ensures
        match stored_zone(opt_str(stored)) {
            Ok(z) => r == Ok::<chrono_tz::Tz, PlanningError>(z),
            Err(e) => r matches Err(x) && x@ == e,
        },
{
    let norm = normalize_wall_clock_tz(stored);
    match norm {
        None => Ok(utc_zone()),
        Some(t) => match parse_timezone(t.as_str()) {
            Some(z) => Ok(z),
            None => Err(PlanningError::InvalidTimezone(t)),
        },
    }
}

fn zone_of_stored(stored: &Option<String>) -> (r: Result<chrono_tz::Tz, PlanningError>)
    ensures
        match stored_zone(opt_string(*stored)) {
            Ok(z) => r == Ok::<chrono_tz::Tz, PlanningError>(z),
            Err(e) => r matches Err(x) && x@ == e,
        },
{
    match stored {
        Some(s) => wall_tz_from_stored(Some(s.as_str())),
        None => wall_tz_from_stored(None),
    }
}

/// The stored form of a zone name, its zone, and the calendar of an expression; the zone
/// name is read first.
fn zone_and_calendar(expr: &str, raw_zone: Option<&str>) -> (r: Result<
    (Option<String>, chrono_tz::Tz, Calendar),
    PlanningError,
>)
    ensures
        match stored_zone(opt_str(raw_zone)) {
            Err(e) => r matches Err(x) && x@ == e,
            Ok(z) => match calendar_parse(expr@) {
                Err(e) => r matches Err(x) && x@ == PlanningErrorView::Calendar(e),
                Ok(c) => r matches Ok((stored, tz, cal)) && opt_string(stored) == normalized_zone(
                    opt_str(raw_zone),
                ) && tz == z && cal@ == c && calendar_wf(c),
            },
        },
{
    let stored = normalize_wall_clock_tz(raw_zone);
    let tz = match &stored {
        Some(t) => match parse_timezone(t.as_str()) {
            Some(z) => z,
            None => {
                return Err(PlanningError::InvalidTimezone(t.clone()));
            },
        },
        None => utc_zone(),
    };
    match Calendar::parse(expr) {
        Ok(c) => Ok((stored, tz, c)),
        Err(e) => Err(PlanningError::Calendar(e)),
    }
}

/// The next firing of a task that fired at `fired_at`, from its stored expression and zone.
pub fn next_occurrence_after_fire(task: &TaskRow, fired_at: Timestamp) -> (r: Result<
    Option<Timestamp>,
    PlanningError,
>)
    requires
        fire_searchable(task@, fired_at@),
    ensures
        match next_after_fire(task@, fired_at@) {
            Ok(Some(n)) => r matches Ok(Some(t)) && t@ == n,
            Ok(None) => r matches Ok(None),
            Err(e) => r matches Err(x) && x@ == e,
        },
{
    let default_tz = zone_of_stored(&task.wall_clock_tz)?;
    let calendar = match Calendar::parse(task.calendar_expr.as_str()) {
        Ok(c) => c,
        Err(e) => {
            return Err(PlanningError::Calendar(e));
        },
    };
    Ok(calendar.next_occurrence_with_default_tz(fired_at, default_tz))
}

/// As `next_occurrence_after_fire`, for any task and time: `None` where the next firing cannot
/// be searched (see `fire_searchable`).
pub fn checked_next_occurrence_after_fire(task: &TaskRow, fired_at: Timestamp) -> (r: Option<
    Result<Option<Timestamp>, PlanningError>,
>)
    ensures
        r is None <==> !fire_searchable(task@, fired_at@),
        r matches Some(x) ==> match next_after_fire(task@, fired_at@) {
            Ok(Some(n)) => x matches Ok(Some(t)) && t@ == n,
            Ok(None) => x matches Ok(None),
            Err(e) => x matches Err(y) && y@ == e,
        },
{
    let default_tz = match zone_of_stored(&task.wall_clock_tz) {
        Ok(z) => z,
        Err(e) => {
            return Some(Err(e));
        },
    };
    let calendar = match Calendar::parse(task.calendar_expr.as_str()) {
        Ok(c) => c,
        Err(e) => {
            return Some(Err(PlanningError::Calendar(e)));
        },
    };
    match calendar.checked_next_occurrence_with_default_tz(fired_at, default_tz) {
        Some(next) => Some(Ok(next)),
        None => None,
    }
}

/// The task that `add_task` stores: its fields as given, active and enabled, created at
/// `created`, next firing at `next`.
pub open spec fn new_task(
    id: i64,
    description: Seq<char>,
    expr: Seq<char>,
    zone: Option<Seq<char>>,
    next: Option<u64>,
    created: u64,
) -> TaskRowView {
    TaskRowView {
        id,
        description,
        calendar_expr: expr,
        wall_clock_tz: zone,
        next_occurrence_unix: next,
        created_at_unix: created,
        enabled: true,
        status: TaskStatus::Active,
    }
}

/// A planning outcome with its error as a view.
pub open spec fn outcome_view(r: Result<i64, PlanningError>) -> Result<i64, PlanningErrorView> {
    match r {
        Ok(id) => Ok(id),
        Err(e) => Err(e@),
    }
}

/// What adding a task at time `created` does to the store `before`, leaving it `after`, with
/// outcome `r`: a bad zone name or expression is reported and stores nothing; otherwise a new
/// task is stored under a fresh id, with its first firing read from `created`, or the store's
/// error is reported and nothing is stored.
pub open spec fn task_added_at(
    before: Map<i64, TaskRowView>,
    after: Map<i64, TaskRowView>,
    r: Result<i64, PlanningErrorView>,
    description: Seq<char>,
    expr: Seq<char>,
    zone: Option<Seq<char>>,
    created: u64,
) -> bool {
    match stored_zone(zone) {
        Err(e) => r == Err::<i64, PlanningErrorView>(e) && after == before,
        Ok(tz) => match calendar_parse(expr) {
            Err(e) => r == Err::<i64, PlanningErrorView>(PlanningErrorView::Calendar(e)) && after
                == before,
            Ok(c) => match r {
                Ok(id) => !before.contains_key(id) && after == before.insert(
                    id,
                    new_task(
                        id,
                        description,
                        expr,
                        normalized_zone(zone),
                        next_firing(c, zone_or(c.timezone, tz), (created as i64) as int),
                        created,
                    ),
                ),
                Err(x) => x is Store && after == before,
            },
        },
    }
}

/// A zone name, once stored (trimmed, and dropped when blank), selects the zone that it
/// selected as given.
pub proof fn lemma_stored_zone_stable(raw: Option<Seq<char>>)
    ensures
        stored_zone(normalized_zone(raw)) == stored_zone(raw),
{
    if let Some(s) = raw {
        lemma_trim_idempotent(s);
    }
}

/// A task whose stored zone name, trimmed, is not blank and names no zone fails after it
/// fires with that trimmed name as the invalid zone, whatever its expression and firing time;
/// such a task is always searchable, so `next_occurrence_after_fire` takes it.
pub proof fn lemma_invalid_zone_fails(task: TaskRowView, fired_at: u64)
    requires
        normalized_zone(task.wall_clock_tz) matches Some(t) && spec_parse_tz(t) is None,
    ensures
        fire_searchable(task, fired_at),
        next_after_fire(task, fired_at) == Err::<Option<u64>, PlanningErrorView>(
            PlanningErrorView::InvalidTimezone(normalized_zone(task.wall_clock_tz)->Some_0),
        ),
{
}

/// A task with no stored zone (or a blank one) whose expression reads as `c`: after it fires,
/// its next firing is the calendar's own next occurrence from the firing time (the result
/// that `Calendar::next_occurrence` states), and it can be searched exactly when that call's
/// precondition holds.
pub proof fn lemma_after_fire_is_next_occurrence(task: TaskRowView, fired_at: u64, c: CalendarView)
    requires
        normalized_zone(task.wall_clock_tz) is None,
        calendar_parse(task.calendar_expr) == Ok::<CalendarView, CalendarErrorView>(c),
    ensures
        next_after_fire(task, fired_at) == Ok::<Option<u64>, PlanningErrorView>(
            next_firing(c, zone_or(c.timezone, utc_spec()), (fired_at as i64) as int),
        ),
        fire_searchable(task, fired_at) == (in_chrono_range(fired_at) && search_steps(
            c,
            zone_or(c.timezone, utc_spec()),
            wall_of(zone_or(c.timezone, utc_spec()), (fired_at as i64) as int),
        )),
{
}

/// The first firing that `add_task` stores for a task (read at the time `created` of the
/// call) is the next firing that the stored task gives at that time: its stored expression
/// and zone name select the calendar and zone that it was added with.
pub proof fn lemma_added_task_fires_as_stored(
    id: i64,
    description: Seq<char>,
    expr: Seq<char>,
    zone: Option<Seq<char>>,
    created: u64,
)
    requires
        stored_zone(zone) is Ok,
        calendar_parse(expr) is Ok,
    ensures
        ({
            let c = calendar_parse(expr)->Ok_0;
            let tz = stored_zone(zone)->Ok_0;
            let row = new_task(
                id,
                description,
                expr,
                normalized_zone(zone),
                next_firing(c, zone_or(c.timezone, tz), (created as i64) as int),
                created,
            );
            next_after_fire(row, created) == Ok::<Option<u64>, PlanningErrorView>(
                row.next_occurrence_unix,
            )
        }),
{
    lemma_stored_zone_stable(zone);
}

/// Stores the task that `add_task` makes, created at `now` with first firing `next`.
fn insert_new<R: TaskRepository>(
    repo: &mut R,
    description: String,
    calendar_expr: &str,
    stored: Option<String>,
    next: Option<Timestamp>,
    now: Timestamp,
) -> (r: Result<i64, PlanningError>)
    ensures
        match r {
            Ok(id) => !old(repo).tasks().contains_key(id) && final(repo).tasks() == old(
                repo,
            ).tasks().insert(
                id,
                new_task(
                    id,
                    description@,
                    calendar_expr@,
                    opt_string(stored),
                    match next {
                        Some(t) => Some(t@),
                        None => None,
                    },
                    now@,
                ),
            ),
            Err(x) => x@ is Store && final(repo).tasks() == old(repo).tasks(),
        },
        old(repo).can_insert() ==> r is Ok,
{
    let next_unix: Option<u64> = match next {
        Some(t) => Some(t.as_u64()),
        None => None,
    };
    match repo.insert_task(
        description,
        calendar_expr,
        stored,
        next_unix,
        now.as_u64(),
        true,
        TaskStatus::Active,
    ) {
        Ok(id) => Ok(id),
        Err(e) => Err(PlanningError::Store(e)),
    }
}

/// Stores a new task after checking its zone name and expression, as `add_task` does when the
/// clock reads `now`: its first firing is the calendar's next one from `now`.
pub fn add_task_at<R: TaskRepository>(
    repo: &mut R,
    description: String,
    calendar_expr: &str,
    wall_clock_tz_iana: Option<&str>,
    now: Timestamp,
) -> (r: Result<i64, PlanningError>)
    requires
        searchable(opt_str(wall_clock_tz_iana), calendar_expr@, now@),
    ensures
        task_added_at(
            old(repo).tasks(),
            final(repo).tasks(),
            outcome_view(r),
            description@,
            calendar_expr@,
            opt_str(wall_clock_tz_iana),
            now@,
        ),
        stored_zone(opt_str(wall_clock_tz_iana)) is Ok && calendar_parse(calendar_expr@) is Ok
            && old(repo).can_insert() ==> r is Ok,
{
    let (stored, default_tz, calendar) = match zone_and_calendar(calendar_expr, wall_clock_tz_iana) {
        Ok(parts) => parts,
        Err(e) => {
            return Err(e);
        },
    };
    let next = calendar.next_occurrence_with_default_tz(now, default_tz);
    insert_new(repo, description, calendar_expr, stored, next, now)
}

/// Stores a new task after checking its zone name and expression; its first firing is the
/// calendar's next one from the time of the call. The search must be possible from any time
/// the clock can read, since which one it reads is not known before the call.
pub fn add_task<R: TaskRepository>(
    repo: &mut R,
    description: String,
    calendar_expr: &str,
    wall_clock_tz_iana: Option<&str>,
) -> (r: Result<i64, PlanningError>)
    requires
        forall|t: u64| t <= MAX_UNIX ==> #[trigger] searchable(
            opt_str(wall_clock_tz_iana),
            calendar_expr@,
            t,
        ),
    ensures
        exists|created: u64|
            created <= MAX_UNIX && in_chrono_range(created) && #[trigger] task_added_at(
                old(repo).tasks(),
                final(repo).tasks(),
                outcome_view(r),
                description@,
                calendar_expr@,
                opt_str(wall_clock_tz_iana),
                created,
            ),
        stored_zone(opt_str(wall_clock_tz_iana)) is Ok && calendar_parse(calendar_expr@) is Ok
            && old(repo).can_insert() ==> r is Ok,
{
    let now = Timestamp::now();
    proof {
        assert(searchable(opt_str(wall_clock_tz_iana), calendar_expr@, now@));
    }
    let r = add_task_at(repo, description, calendar_expr, wall_clock_tz_iana, now);
    proof {
        assert(in_chrono_range(now@));
    }
    r
}

/// As `add_task`, for any expression: `None`, storing nothing, where the next firing cannot be
/// searched from the time of the call (see `searchable`).
pub fn checked_add_task<R: TaskRepository>(
    repo: &mut R,
    description: String,
    calendar_expr: &str,
    wall_clock_tz_iana: Option<&str>,
) -> (r: Option<Result<i64, PlanningError>>)
    ensures
        exists|created: u64|
            {
                &&& in_chrono_range(created)
                &&& (r is None <==> !#[trigger] searchable(
                    opt_str(wall_clock_tz_iana),
                    calendar_expr@,
                    created,
                ))
                &&& r is None ==> final(repo).tasks() == old(repo).tasks()
                &&& r matches Some(x) ==> task_added_at(
                    old(repo).tasks(),
                    final(repo).tasks(),
                    outcome_view(x),
                    description@,
                    calendar_expr@,
                    opt_str(wall_clock_tz_iana),
                    created,
                )
            },
        stored_zone(opt_str(wall_clock_tz_iana)) is Ok && calendar_parse(calendar_expr@) is Ok
            && old(repo).can_insert() ==> r is None || r matches Some(Ok(_)),
{
    let (stored, default_tz, calendar) = match zone_and_calendar(
        calendar_expr,
        wall_clock_tz_iana,
    ) {
        Ok(parts) => parts,
        Err(e) => {
            let r = Some(Err(e));
            proof {
                assert(in_chrono_range(0u64));
                assert(searchable(opt_str(wall_clock_tz_iana), calendar_expr@, 0u64));
            }
            return r;
        },
    };
    let now = Timestamp::now();
    let ghost z = stored_zone(opt_str(wall_clock_tz_iana))->Ok_0;
    let ghost c = calendar@;
    assert(in_chrono_range(now@));
    match calendar.checked_next_occurrence_with_default_tz(now, default_tz) {
        Some(next) => {
            let r = insert_new(repo, description, calendar_expr, stored, next, now);
            proof {
                assert(searchable(opt_str(wall_clock_tz_iana), calendar_expr@, now@));
                if r is Ok {
                    assert(match next {
                        Some(t) => Some(t@),
                        None => None::<u64>,
                    } == next_firing(c, zone_or(c.timezone, z), (now@ as i64) as int));
                }
                assert(task_added_at(
                    old(repo).tasks(),
                    repo.tasks(),
                    outcome_view(r),
                    description@,
                    calendar_expr@,
                    opt_str(wall_clock_tz_iana),
                    now@,
                ));
            }
            Some(r)
        },
        None => {
            proof {
                assert(!searchable(opt_str(wall_clock_tz_iana), calendar_expr@, now@));
            }
            None
        },
    }
}

} // verus!
