//! Persisted tasks and the storage interface that the planner works against.

use vstd::prelude::*;

use crate::calendar::{CalendarError, CalendarErrorView};
use crate::model::Timestamp;
use crate::text::{chars_eq, chars_of};

verus! {

#[verifier::external_type_specification]
#[verifier::external_body]
pub struct ExSqliteError(rusqlite::Error);

#[verifier::external_type_specification]
#[verifier::external_body]
pub struct ExMigrationError(refinery::Error);

/// Where a task stands: waiting for its next firing, fired and being rescheduled, or done.
#[derive(Debug, Clone, Copy, PartialEq, Eq, Structural)]
pub enum TaskStatus {
    Active,
    Expired,
    Finished,
}

impl TaskStatus {
    /// The name under which the status is stored.
    pub open spec fn name_spec(self) -> Seq<char> {
        match self {
            TaskStatus::Active => "active"@,
            TaskStatus::Expired => "expired"@,
            TaskStatus::Finished => "finished"@,
        }
    }

    /// The name under which the status is stored ("active", "expired", "finished").
    pub fn as_str(&self) -> (r: &'static str)
        ensures
            r@ == self.name_spec(),
    {
        match self {
            TaskStatus::Active => "active",
            TaskStatus::Expired => "expired",
            TaskStatus::Finished => "finished",
        }
    }

    /// The status stored under a name.
    pub fn parse(s: &str) -> (r: Option<TaskStatus>)
        ensures
            r matches Some(st) ==> st.name_spec() == s@,
            r is None ==> s@ != "active"@ && s@ != "expired"@ && s@ != "finished"@,
    {
        let c = chars_of(s);
        if chars_eq(&c, &chars_of("active")) {
            Some(TaskStatus::Active)
        } else if chars_eq(&c, &chars_of("expired")) {
            Some(TaskStatus::Expired)
        } else if chars_eq(&c, &chars_of("finished")) {
            Some(TaskStatus::Finished)
        } else {
            None
        }
    }
}

/// One persisted task. `calendar_expr` decides its schedule; `next_occurrence_unix` keeps the
/// next firing so that due tasks can be found without reading every expression again.
#[derive(Debug, Clone, PartialEq, Eq)]
pub struct TaskRow {
    pub id: i64,
    pub description: String,
    pub calendar_expr: String,
    /// The IANA zone that an expression without a zone reads; `None` means UTC.
    pub wall_clock_tz: Option<String>,
    pub next_occurrence_unix: Option<u64>,
    pub created_at_unix: u64,
    pub enabled: bool,
    pub status: TaskStatus,
}

/// A task as mathematical values.
#[verifier::ext_equal]
pub struct TaskRowView {
    pub id: i64,
    pub description: Seq<char>,
    pub calendar_expr: Seq<char>,
    pub wall_clock_tz: Option<Seq<char>>,
    pub next_occurrence_unix: Option<u64>,
    pub created_at_unix: u64,
    pub enabled: bool,
    pub status: TaskStatus,
}

pub open spec fn opt_string(s: Option<String>) -> Option<Seq<char>> {
    match s {
        Some(x) => Some(x@),
        None => None,
    }
}

impl View for TaskRow {
    type V = TaskRowView;

    open spec fn view(&self) -> TaskRowView {
        TaskRowView {
            id: self.id,
            description: self.description@,
            calendar_expr: self.calendar_expr@,
            wall_clock_tz: opt_string(self.wall_clock_tz),
            next_occurrence_unix: self.next_occurrence_unix,
            created_at_unix: self.created_at_unix,
            enabled: self.enabled,
            status: self.status,
        }
    }
}

impl TaskRow {
    /// A copy of the row, field for field.
    pub fn copy(&self) -> (r: TaskRow)
        ensures
            r@ == self@,
    {
        let tz = match &self.wall_clock_tz {
            Some(s) => Some(s.clone()),
            None => None,
        };
        TaskRow {
            id: self.id,
            description: self.description.clone(),
            calendar_expr: self.calendar_expr.clone(),
            wall_clock_tz: tz,
            next_occurrence_unix: self.next_occurrence_unix,
            created_at_unix: self.created_at_unix,
            enabled: self.enabled,
            status: self.status,
        }
    }
}

/// The errors of the store.
#[derive(Debug)]
pub enum StoreError {
    Sqlite(rusqlite::Error),
    Migrate(refinery::Error),
    Calendar(CalendarError),
    TaskNotFound(i64),
    InvalidTimezone(String),
}

/// A store error; a database or migration error as its kind alone (their values are opaque).
pub enum StoreErrorView {
    Sqlite,
    Migrate,
    Calendar(CalendarErrorView),
    TaskNotFound(i64),
    InvalidTimezone(Seq<char>),
}

impl View for StoreError {
    type V = StoreErrorView;

    open spec fn view(&self) -> StoreErrorView {
        match self {
            StoreError::Sqlite(_) => StoreErrorView::Sqlite,
            StoreError::Migrate(_) => StoreErrorView::Migrate,
            StoreError::Calendar(e) => StoreErrorView::Calendar(e@),
            StoreError::TaskNotFound(id) => StoreErrorView::TaskNotFound(*id),
            StoreError::InvalidTimezone(s) => StoreErrorView::InvalidTimezone(s@),
        }
    }
}

/// The task is due at `now`: enabled, active, and its next firing is set and not after `now`.
pub open spec fn is_due(row: TaskRowView, now: u64) -> bool {
    &&& row.enabled
    &&& row.status == TaskStatus::Active
    &&& row.next_occurrence_unix matches Some(n) && n <= now
}

/// The firing time of a task with one set (0 otherwise).
pub open spec fn next_of(row: TaskRowView) -> u64 {
    match row.next_occurrence_unix {
        Some(n) => n,
        None => 0,
    }
}

/// `row` with another status.
pub open spec fn with_status(row: TaskRowView, status: TaskStatus) -> TaskRowView {
    TaskRowView { status, ..row }
}

/// `row` with another next firing.
pub open spec fn with_next(row: TaskRowView, next: Option<u64>) -> TaskRowView {
    TaskRowView { next_occurrence_unix: next, ..row }
}

/// Storage for tasks, so that callers (bindings, jobs, tests) do not depend on SQL.
///
/// An implementation keeps a table of tasks keyed by id (`tasks`). Each change either
/// happens whole or, when it reports an error, leaves the table as it was.
pub trait TaskRepository {
    /// The stored tasks, by id. A verified implementation (such as `MemoryTaskStore`) defines
    /// it as the map of its rows and is held to the contracts below.
    /// The default, no rows, only spares implementations written outside Verus from naming it;
    /// code that works with any implementation never sees it. An implementation that keeps the
    /// default (such as the SQLite store that hosts use) is held to none of the contracts below
    /// by Verus: they are what its author owes, unchecked.
    open spec fn tasks(&self) -> Map<i64, TaskRowView> {
        Map::empty()
    }

    /// The store fails only where the request itself cannot be met: reading never fails, and
    /// a change to a task fails only when no task has that id. The default, not known, holds
    /// an implementation to nothing; one that states it is held to the clauses that speak of
    /// it below.
    open spec fn reliable(&self) -> bool {
        false
    }

    /// An insert succeeds: the store is reliable and has an id left to hand out. The default,
    /// not known, holds an implementation to nothing.
    open spec fn can_insert(&self) -> bool {
        false
    }

    /// Stores a new task under a fresh id and returns the id.
    fn insert_task(
        &mut self,
        description: String,
        calendar_expr: &str,
        wall_clock_tz: Option<String>,
        next_occurrence_unix: Option<u64>,
        created_at_unix: u64,
        enabled: bool,
        status: TaskStatus,
    ) -> (r: Result<i64, StoreError>)
        ensures
            match r {
                Ok(id) => {
                    &&& !old(self).tasks().contains_key(id)
                    &&& final(self).tasks() == old(self).tasks().insert(
                        id,
                        TaskRowView {
                            id,
                            description: description@,
                            calendar_expr: calendar_expr@,
                            wall_clock_tz: opt_string(wall_clock_tz),
                            next_occurrence_unix,
                            created_at_unix,
                            enabled,
                            status,
                        },
                    )
                },
                Err(_) => final(self).tasks() == old(self).tasks(),
            },
            old(self).can_insert() ==> r is Ok,
            old(self).reliable() ==> final(self).reliable(),
    ;

    /// The task with id `id`.
    fn get_task(&self, id: i64) -> (r: Result<TaskRow, StoreError>)
        ensures
            r matches Ok(row) ==> self.tasks().contains_key(id) && self.tasks()[id] == row@,
            r matches Err(StoreError::TaskNotFound(i)) ==> i == id && !self.tasks().contains_key(id),
            self.reliable() ==> (r is Ok <==> self.tasks().contains_key(id)),
    ;

    /// The due tasks at `now` (see `is_due`), soonest first.
    fn tasks_due_before(&self, now: Timestamp) -> (r: Result<Vec<TaskRow>, StoreError>)
        ensures
            r matches Ok(v) ==> {
                &&& forall|k: int|
                    0 <= k < v@.len() ==> self.tasks().contains_key(#[trigger] v@[k].id)
                        && self.tasks()[v@[k].id] == v@[k]@ && is_due(v@[k]@, now@)
                &&& forall|id: i64|
                    #[trigger] self.tasks().contains_key(id) && is_due(self.tasks()[id], now@)
                        ==> exists|k: int| 0 <= k < v@.len() && #[trigger] v@[k].id == id
                &&& forall|j: int, k: int| 0 <= j < k < v@.len() ==> v@[j].id != v@[k].id
                &&& forall|j: int, k: int|
                    0 <= j <= k < v@.len() ==> next_of(v@[j]@) <= next_of(v@[k]@)
            },
            self.reliable() ==> r is Ok,
    ;

    /// Every task, by ascending id.
    fn list_tasks(&self) -> (r: Result<Vec<TaskRow>, StoreError>)
        ensures
            r matches Ok(v) ==> {
                &&& forall|k: int|
                    0 <= k < v@.len() ==> self.tasks().contains_key(#[trigger] v@[k].id)
                        && self.tasks()[v@[k].id] == v@[k]@
                &&& forall|id: i64|
                    #[trigger] self.tasks().contains_key(id) ==> exists|k: int|
                        0 <= k < v@.len() && #[trigger] v@[k].id == id
                &&& forall|j: int, k: int| 0 <= j < k < v@.len() ==> v@[j].id < v@[k].id
            },
            self.reliable() ==> r is Ok,
    ;

    /// Removes the task with id `id`.
    fn delete_task(&mut self, id: i64) -> (r: Result<(), StoreError>)
        ensures
            r is Ok ==> old(self).tasks().contains_key(id) && final(self).tasks() == old(
                self,
            ).tasks().remove(id),
            r is Err ==> final(self).tasks() == old(self).tasks(),
            r matches Err(StoreError::TaskNotFound(i)) ==> i == id && !old(
                self,
            ).tasks().contains_key(id),
            old(self).reliable() ==> (r is Ok <==> old(self).tasks().contains_key(id)),
            old(self).reliable() ==> final(self).reliable(),
    ;

    /// Sets the status of the task with id `id`.
    fn set_task_status(&mut self, id: i64, status: TaskStatus) -> (r: Result<(), StoreError>)
        ensures
            r is Ok ==> old(self).tasks().contains_key(id) && final(self).tasks() == old(
                self,
            ).tasks().insert(id, with_status(old(self).tasks()[id], status)),
            r is Err ==> final(self).tasks() == old(self).tasks(),
            r matches Err(StoreError::TaskNotFound(i)) ==> i == id && !old(
                self,
            ).tasks().contains_key(id),
            old(self).reliable() ==> (r is Ok <==> old(self).tasks().contains_key(id)),
            old(self).reliable() ==> final(self).reliable(),
    ;

    /// Sets the next firing of the task with id `id`.
    fn set_next_occurrence_unix(&mut self, id: i64, next_occurrence_unix: Option<u64>) -> (r:
        Result<(), StoreError>)
        ensures
            r is Ok ==> old(self).tasks().contains_key(id) && final(self).tasks() == old(
                self,
            ).tasks().insert(id, with_next(old(self).tasks()[id], next_occurrence_unix)),
            r is Err ==> final(self).tasks() == old(self).tasks(),
            r matches Err(StoreError::TaskNotFound(i)) ==> i == id && !old(
                self,
            ).tasks().contains_key(id),
            old(self).reliable() ==> (r is Ok <==> old(self).tasks().contains_key(id)),
            old(self).reliable() ==> final(self).reliable(),
    ;
}

} // verus!
