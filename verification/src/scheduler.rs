//! What happens to tasks that fall due: each is marked expired, then rescheduled to its next
//! firing or, when it has none, finished.

use vstd::prelude::*;

use crate::model::Timestamp;
use crate::planning::{
    checked_next_occurrence_after_fire, fire_searchable, next_after_fire, PlanningError,
    PlanningErrorView,
};
use crate::store::{
    is_due, next_of, with_next, with_status, StoreError, StoreErrorView, TaskRepository, TaskRow, TaskRowView,
    TaskStatus,
};

verus! {

/// The outcome of processing one due task.
#[derive(Debug, Clone, PartialEq, Eq)]
pub enum DueProcessResult {
    /// The task fired and has a next firing; the row as it was, marked expired.
    Expired(TaskRow),
    /// The task fired for the last time.
    Finished(i64),
}

/// The events that a watcher of due tasks reports.
#[derive(Debug, Clone, PartialEq, Eq)]
pub enum TaskLifecycleEvent {
    Expired { task: TaskRow },
    Finished { id: i64 },
}

/// An outcome as mathematical values.
pub enum DueResultView {
    Expired(TaskRowView),
    Finished(i64),
}

impl View for DueProcessResult {
    type V = DueResultView;

    open spec fn view(&self) -> DueResultView {
        match self {
            DueProcessResult::Expired(t) => DueResultView::Expired(t@),
            DueProcessResult::Finished(id) => DueResultView::Finished(*id),
        }
    }
}

/// The errors of processing due tasks.
#[derive(Debug)]
pub enum SchedulerError {
    Store(StoreError),
    Planning(PlanningError),
}

/// A scheduler error as mathematical values.
pub enum SchedulerErrorView {
    Store(StoreErrorView),
    Planning(PlanningErrorView),
}

impl View for SchedulerError {
    type V = SchedulerErrorView;

    open spec fn view(&self) -> SchedulerErrorView {
        match self {
            SchedulerError::Store(e) => SchedulerErrorView::Store(e@),
            SchedulerError::Planning(e) => SchedulerErrorView::Planning(e@),
        }
    }
}

/// A fired task's next firing, where its expression and zone read (none otherwise).
pub open spec fn fired_next(row: TaskRowView, now: u64) -> Option<u64> {
    match next_after_fire(row, now) {
        Ok(n) => n,
        Err(_) => None,
    }
}

/// A fired task once processed: rescheduled and active when it fires again, finished and
/// without a next firing otherwise.
pub open spec fn fired_row(row: TaskRowView, next: Option<u64>) -> TaskRowView {
    TaskRowView {
        status: if next is Some {
            TaskStatus::Active
        } else {
            TaskStatus::Finished
        },
        next_occurrence_unix: next,
        ..row
    }
}

/// The outcome reported for a fired task.
pub open spec fn due_result(row: TaskRowView, next: Option<u64>) -> DueResultView {
    if next is Some {
        DueResultView::Expired(with_status(row, TaskStatus::Expired))
    } else {
        DueResultView::Finished(row.id)
    }
}

/// The id of the task that an outcome is about.
pub open spec fn result_id(r: DueResultView) -> i64 {
    match r {
        DueResultView::Expired(row) => row.id,
        DueResultView::Finished(id) => id,
    }
}

/// Processes one due task: marks it expired, reads its next firing, and reschedules or
/// finishes it. `None` where its next firing cannot be searched, the task left marked
/// expired.
fn process_due_task<R: TaskRepository>(repo: &mut R, task: &TaskRow, now: Timestamp) -> (r: Option<
    Result<DueProcessResult, SchedulerError>,
>)
    ensures
        match r {
            None => {
                &&& !fire_searchable(task@, now@)
                &&& old(repo).tasks().contains_key(task.id)
                &&& final(repo).tasks() == old(repo).tasks().insert(
                    task.id,
                    with_status(old(repo).tasks()[task.id], TaskStatus::Expired),
                )
            },
            Some(Ok(res)) => {
                &&& old(repo).tasks().contains_key(task.id)
                &&& next_after_fire(task@, now@) is Ok
                &&& final(repo).tasks() == old(repo).tasks().insert(
                    task.id,
                    fired_row(old(repo).tasks()[task.id], fired_next(task@, now@)),
                )
                &&& res@ == due_result(task@, fired_next(task@, now@))
            },
            Some(Err(SchedulerError::Store(_))) => {
                ||| final(repo).tasks() == old(repo).tasks()
                ||| old(repo).tasks().contains_key(task.id) && final(repo).tasks() == old(repo).tasks().insert(
                    task.id,
                    with_status(old(repo).tasks()[task.id], TaskStatus::Expired),
                )
                ||| old(repo).tasks().contains_key(task.id) && final(repo).tasks() == old(repo).tasks().insert(
                    task.id,
                    with_next(
                        with_status(old(repo).tasks()[task.id], TaskStatus::Expired),
                        fired_next(task@, now@),
                    ),
                )
            },
            Some(Err(SchedulerError::Planning(pe))) => {
                &&& old(repo).tasks().contains_key(task.id)
                &&& final(repo).tasks() == old(repo).tasks().insert(
                    task.id,
                    with_status(old(repo).tasks()[task.id], TaskStatus::Expired),
                )
                &&& next_after_fire(task@, now@) == Err::<Option<u64>, PlanningErrorView>(pe@)
            },
        },
        next_after_fire(task@, now@) is Err ==> r matches Some(Err(_)),
        !fire_searchable(task@, now@) ==> (r is None || r matches Some(Err(SchedulerError::Store(_)))),
        old(repo).reliable() && old(repo).tasks().contains_key(task.id) && fire_searchable(task@, now@)
            && next_after_fire(task@, now@) is Ok ==> r matches Some(Ok(_)),
        old(repo).reliable() ==> final(repo).reliable(),
{
    let ghost t0 = repo.tasks();
    if let Err(e) = repo.set_task_status(task.id, TaskStatus::Expired) {
        return Some(Err(SchedulerError::Store(e)));
    }
    let next = match checked_next_occurrence_after_fire(task, now) {
        None => {
            return None;
        },
        Some(Ok(n)) => n,
        Some(Err(e)) => {
            return Some(Err(SchedulerError::Planning(e)));
        },
    };
    let next_unix: Option<u64> = match next {
        Some(t) => Some(t.as_u64()),
        None => None,
    };
    if let Err(e) = repo.set_next_occurrence_unix(task.id, next_unix) {
        return Some(Err(SchedulerError::Store(e)));
    }
    if next.is_some() {
        if let Err(e) = repo.set_task_status(task.id, TaskStatus::Active) {
            return Some(Err(SchedulerError::Store(e)));
        }
        proof {
            assert(repo.tasks() =~= t0.insert(
                task.id,
                fired_row(t0[task.id], fired_next(task@, now@)),
            ));
        }
        let mut expired_row = task.copy();
        expired_row.status = TaskStatus::Expired;
        Some(Ok(DueProcessResult::Expired(expired_row)))
    } else {
        if let Err(e) = repo.set_task_status(task.id, TaskStatus::Finished) {
            return Some(Err(SchedulerError::Store(e)));
        }
        proof {
            assert(repo.tasks() =~= t0.insert(
                task.id,
                fired_row(t0[task.id], fired_next(task@, now@)),
            ));
        }
        Some(Ok(DueProcessResult::Finished(task.id)))
    }
}

/// After processing the first `i` due tasks: those are fired (their next firings read), every
/// other task is as it was, and no id is added or removed.
#[verifier::opaque]
spec fn progress(t0: Map<i64, TaskRowView>, cur: Map<i64, TaskRowView>, due: Seq<TaskRowView>, i: int, now: u64) -> bool {
    &&& cur.dom() == t0.dom()
    &&& forall|k: int|
        0 <= k < i ==> next_after_fire(#[trigger] due[k], now) is Ok && cur[due[k].id] == fired_row(
            due[k],
            fired_next(due[k], now),
        )
    &&& forall|id: i64|
        #[trigger] t0.contains_key(id) && (forall|k: int| 0 <= k < i ==> due[k].id != id) ==> cur[id]
            == t0[id]
}

/// The due list that the store reported: exactly the due tasks, each once, soonest first.
#[verifier::opaque]
spec fn due_list(t0: Map<i64, TaskRowView>, due: Seq<TaskRowView>, now: u64) -> bool {
    &&& forall|k: int|
        0 <= k < due.len() ==> t0.contains_key(#[trigger] due[k].id) && t0[due[k].id] == due[k]
            && is_due(due[k], now)
    &&& forall|id: i64|
        #[trigger] t0.contains_key(id) && is_due(t0[id], now) ==> exists|k: int|
            0 <= k < due.len() && #[trigger] due[k].id == id
    &&& forall|j: int, k: int| 0 <= j < k < due.len() ==> due[j].id != due[k].id
    &&& forall|j: int, k: int| 0 <= j <= k < due.len() ==> next_of(due[j]) <= next_of(due[k])
}

proof fn lemma_due_list(t0: Map<i64, TaskRowView>, due: Seq<TaskRow>, now: u64)
    requires
        forall|k: int|
            0 <= k < due.len() ==> t0.contains_key(#[trigger] due[k].id) && t0[due[k].id] == due[k]@
                && is_due(due[k]@, now),
        forall|id: i64|
            #[trigger] t0.contains_key(id) && is_due(t0[id], now) ==> exists|k: int|
                0 <= k < due.len() && #[trigger] due[k].id == id,
        forall|j: int, k: int| 0 <= j < k < due.len() ==> due[j].id != due[k].id,
        forall|j: int, k: int| 0 <= j <= k < due.len() ==> next_of(due[j]@) <= next_of(due[k]@),
    ensures
        due_list(t0, row_views(due), now),
{
    reveal(due_list);
    let dv = row_views(due);
    assert forall|k: int| 0 <= k < due.len() implies #[trigger] dv[k] == due[k]@ by {}
    assert forall|id: i64| #[trigger] t0.contains_key(id) && is_due(t0[id], now) implies exists|k: int|
        0 <= k < dv.len() && #[trigger] dv[k].id == id by {
        let k = choose|k: int| 0 <= k < due.len() && #[trigger] due[k].id == id;
        assert(dv[k].id == id);
    }
    assert forall|j: int, k: int| 0 <= j < k < dv.len() implies dv[j].id != dv[k].id by {
        assert(dv[j] == due[j]@);
        assert(dv[k] == due[k]@);
    }
    assert forall|j: int, k: int| 0 <= j <= k < dv.len() implies next_of(dv[j]) <= next_of(dv[k]) by {
        assert(dv[j] == due[j]@);
        assert(dv[k] == due[k]@);
    }
}

proof fn lemma_progress_start(t0: Map<i64, TaskRowView>, due: Seq<TaskRowView>, now: u64)
    ensures
        progress(t0, t0, due, 0, now),
{
    reveal(progress);
}

proof fn lemma_progress_current(
    t0: Map<i64, TaskRowView>,
    cur: Map<i64, TaskRowView>,
    due: Seq<TaskRowView>,
    i: int,
    now: u64,
)
    requires
        0 <= i < due.len(),
        due_list(t0, due, now),
        progress(t0, cur, due, i, now),
    ensures
        cur.contains_key(due[i].id),
        cur[due[i].id] == due[i],
        t0.contains_key(due[i].id),
        t0[due[i].id] == due[i],
        is_due(due[i], now),
        forall|a: int, b: int| 0 <= a < b < due.len() ==> due[a].id != due[b].id,
{
    reveal(due_list);
    reveal(progress);
    assert forall|k: int| 0 <= k < i implies due[k].id != due[i].id by {
        assert(due[k].id != due[i].id);
    }
}

#[verifier::rlimit(40)]
proof fn lemma_progress_step(
    t0: Map<i64, TaskRowView>,
    cur: Map<i64, TaskRowView>,
    next: Map<i64, TaskRowView>,
    due: Seq<TaskRowView>,
    i: int,
    now: u64,
)
    requires
        0 <= i < due.len(),
        forall|a: int, b: int| 0 <= a < b < due.len() ==> due[a].id != due[b].id,
        progress(t0, cur, due, i, now),
        next_after_fire(due[i], now) is Ok,
        cur.contains_key(due[i].id),
        cur[due[i].id] == due[i],
        next == cur.insert(due[i].id, fired_row(cur[due[i].id], fired_next(due[i], now))),
    ensures
        progress(t0, next, due, i + 1, now),
{
    reveal(progress);
    let id_i = due[i].id;
    assert(next.dom() =~= t0.dom());
    assert(next[id_i] == fired_row(due[i], fired_next(due[i], now)));
    assert forall|id: i64|
        #[trigger] t0.contains_key(id) && (forall|k: int| 0 <= k < i + 1 ==> due[k].id != id) implies next[id]
        == t0[id] by {
        assert(due[i].id != id);
        assert forall|k: int| 0 <= k < i implies due[k].id != id by {
            assert(0 <= k < i + 1);
        }
        assert(next[id] == cur[id]);
    }
    assert forall|k: int|
        0 <= k < i + 1 implies next_after_fire(#[trigger] due[k], now) is Ok && next[due[k].id]
        == fired_row(due[k], fired_next(due[k], now)) by {
        if k < i {
            assert(due[k].id != id_i);
            assert(next[due[k].id] == cur[due[k].id]);
        }
    }
}

proof fn lemma_one_row_changed(
    cur: Map<i64, TaskRowView>,
    after: Map<i64, TaskRowView>,
    id: i64,
    r1: TaskRowView,
    r2: TaskRowView,
)
    requires
        cur.contains_key(id),
        after == cur || after == cur.insert(id, r1) || after == cur.insert(id, r2),
    ensures
        after.dom() == cur.dom(),
        forall|x: i64| x != id && cur.contains_key(x) ==> after[x] == #[trigger] cur[x],
{
    assert(cur.insert(id, r1).dom() =~= cur.dom());
    assert(cur.insert(id, r2).dom() =~= cur.dom());
}

proof fn lemma_progress_stop(
    t0: Map<i64, TaskRowView>,
    cur: Map<i64, TaskRowView>,
    after: Map<i64, TaskRowView>,
    due: Seq<TaskRowView>,
    i: int,
    now: u64,
)
    requires
        0 <= i < due.len(),
        due_list(t0, due, now),
        progress(t0, cur, due, i, now),
        after.dom() == cur.dom(),
        forall|x: i64| x != due[i].id && cur.contains_key(x) ==> after[x] == #[trigger] cur[x],
    ensures
        after.dom() == t0.dom(),
        forall|id: i64|
            #[trigger] t0.contains_key(id) && !is_due(t0[id], now) ==> after[id] == t0[id],
{
    reveal(due_list);
    reveal(progress);
    assert forall|id: i64| #[trigger] t0.contains_key(id) && !is_due(t0[id], now) implies after[id] == t0[id] by {
        assert forall|k: int| 0 <= k < i implies due[k].id != id by {
            if due[k].id == id {
                assert(is_due(t0[id], now));
            }
        }
        if id == due[i].id {
            assert(is_due(t0[id], now));
        }
        assert(cur[id] == t0[id]);
    }
}

/// Processing the due tasks took the store from `t0` to `t1` with outcomes `results`: no id
/// was added or removed, tasks not due are unchanged, each due task was fired (rescheduled
/// and active, or finished), and there is one outcome per due task, soonest first.
#[verifier::opaque]
pub open spec fn all_due_processed(
    t0: Map<i64, TaskRowView>,
    t1: Map<i64, TaskRowView>,
    results: Seq<DueResultView>,
    now: u64,
) -> bool {
    &&& t1.dom() == t0.dom()
    &&& forall|id: i64|
        #[trigger] t0.contains_key(id) && !is_due(t0[id], now) ==> t1[id] == t0[id]
    &&& forall|id: i64|
        #[trigger] t0.contains_key(id) && is_due(t0[id], now) ==> next_after_fire(t0[id], now) is Ok
            && t1[id] == fired_row(t0[id], fired_next(t0[id], now))
    &&& forall|k: int|
        0 <= k < results.len() ==> {
            let id = result_id(#[trigger] results[k]);
            &&& t0.contains_key(id)
            &&& is_due(t0[id], now)
            &&& results[k] == due_result(t0[id], fired_next(t0[id], now))
        }
    &&& forall|id: i64|
        #[trigger] t0.contains_key(id) && is_due(t0[id], now) ==> exists|k: int|
            0 <= k < results.len() && result_id(#[trigger] results[k]) == id
    &&& forall|j: int, k: int| 0 <= j < k < results.len() ==> result_id(results[j]) != result_id(results[k])
    &&& forall|j: int, k: int|
        0 <= j <= k < results.len() ==> next_of(t0[result_id(results[j])]) <= next_of(
            t0[result_id(results[k])],
        )
}

/// The ids of the first `i` due tasks.
spec fn done_before(due: Seq<TaskRowView>, i: int) -> Set<i64> {
    Set::new(|id: i64| exists|k: int| 0 <= k < i && #[trigger] due[k].id == id)
}

/// Processing the due tasks took the store from `t0` to `t1` and stopped at the due task
/// `stop`: the due tasks in `done` were fired (rescheduled and active, or finished), and they
/// are all that fall due before `stop`, as the tasks are processed soonest first; no task
/// but these and `stop` changed, and no id was added or removed.
pub open spec fn stopped_at(
    t0: Map<i64, TaskRowView>,
    t1: Map<i64, TaskRowView>,
    now: u64,
    done: Set<i64>,
    stop: i64,
) -> bool {
    &&& t1.dom() == t0.dom()
    &&& t0.contains_key(stop)
    &&& is_due(t0[stop], now)
    &&& !done.contains(stop)
    &&& forall|id: i64|
        #[trigger] done.contains(id) ==> {
            &&& t0.contains_key(id)
            &&& is_due(t0[id], now)
            &&& next_of(t0[id]) <= next_of(t0[stop])
            &&& next_after_fire(t0[id], now) is Ok
            &&& t1[id] == fired_row(t0[id], fired_next(t0[id], now))
        }
    &&& forall|id: i64|
        #[trigger] t0.contains_key(id) && is_due(t0[id], now) && next_of(t0[id]) < next_of(t0[stop])
            ==> done.contains(id)
    &&& forall|id: i64|
        #[trigger] t0.contains_key(id) && !done.contains(id) && id != stop ==> t1[id] == t0[id]
}

/// What a store error can leave the task that processing stopped at as: unchanged, marked
/// expired, or marked expired with its next firing set.
pub open spec fn left_at_stop(before: TaskRowView, after: TaskRowView, now: u64) -> bool {
    ||| after == before
    ||| after == with_status(before, TaskStatus::Expired)
    ||| after == with_next(with_status(before, TaskStatus::Expired), fired_next(before, now))
}

proof fn lemma_progress_stopped(
    t0: Map<i64, TaskRowView>,
    cur: Map<i64, TaskRowView>,
    after: Map<i64, TaskRowView>,
    due: Seq<TaskRowView>,
    i: int,
    now: u64,
)
    requires
        0 <= i < due.len(),
        due_list(t0, due, now),
        progress(t0, cur, due, i, now),
        after.dom() == cur.dom(),
        forall|x: i64| x != due[i].id && cur.contains_key(x) ==> after[x] == #[trigger] cur[x],
    ensures
        stopped_at(t0, after, now, done_before(due, i), due[i].id),
        t0[due[i].id] == due[i],
{
    reveal(due_list);
    reveal(progress);
    let done = done_before(due, i);
    let stop = due[i].id;
    assert(t0.contains_key(stop) && t0[stop] == due[i]);
    assert(!done.contains(stop)) by {
        if done.contains(stop) {
            let k = choose|k: int| 0 <= k < i && #[trigger] due[k].id == stop;
            assert(due[k].id != due[i].id);
        }
    }
    assert forall|id: i64| #[trigger] done.contains(id) implies {
        &&& t0.contains_key(id)
        &&& is_due(t0[id], now)
        &&& next_of(t0[id]) <= next_of(t0[stop])
        &&& next_after_fire(t0[id], now) is Ok
        &&& after[id] == fired_row(t0[id], fired_next(t0[id], now))
    } by {
        let k = choose|k: int| 0 <= k < i && #[trigger] due[k].id == id;
        assert(t0[due[k].id] == due[k]);
        assert(next_of(due[k]) <= next_of(due[i]));
        assert(next_after_fire(due[k], now) is Ok);
        assert(due[k].id != due[i].id);
        assert(cur.contains_key(id));
    }
    assert forall|id: i64|
        #[trigger] t0.contains_key(id) && is_due(t0[id], now) && next_of(t0[id]) < next_of(t0[stop])
        implies done.contains(id) by {
        let k = choose|k: int| 0 <= k < due.len() && #[trigger] due[k].id == id;
        if k >= i {
            assert(next_of(due[i]) <= next_of(due[k]));
            assert(t0[due[k].id] == due[k]);
        }
        assert(0 <= k < i && due[k].id == id);
    }
    assert forall|id: i64| #[trigger] t0.contains_key(id) && !done.contains(id) && id != stop implies after[id]
        == t0[id] by {
        assert forall|k: int| 0 <= k < i implies due[k].id != id by {
            if due[k].id == id {
                assert(done.contains(id));
            }
        }
        assert(cur[id] == t0[id]);
    }
}

/// When no task is due, processing the due tasks reports nothing and changes nothing.
pub proof fn lemma_nothing_due(
    t0: Map<i64, TaskRowView>,
    t1: Map<i64, TaskRowView>,
    results: Seq<DueResultView>,
    now: u64,
)
    requires
        all_due_processed(t0, t1, results, now),
        forall|id: i64| #[trigger] t0.contains_key(id) ==> !is_due(t0[id], now),
    ensures
        results.len() == 0,
        t1 == t0,
{
    reveal(all_due_processed);
    if results.len() > 0 {
        let id = result_id(results[0]);
        assert(t0.contains_key(id) && is_due(t0[id], now));
    }
    assert(t1 =~= t0);
}

proof fn lemma_progress_done(
    t0: Map<i64, TaskRowView>,
    cur: Map<i64, TaskRowView>,
    due: Seq<TaskRowView>,
    results: Seq<DueResultView>,
    now: u64,
)
    requires
        due_list(t0, due, now),
        progress(t0, cur, due, due.len() as int, now),
        results.len() == due.len(),
        forall|k: int|
            0 <= k < due.len() ==> #[trigger] results[k] == due_result(due[k], fired_next(due[k], now)),
    ensures
        all_due_processed(t0, cur, results, now),
{
    reveal(due_list);
    reveal(progress);
    reveal(all_due_processed);
    assert forall|k: int| 0 <= k < results.len() implies result_id(#[trigger] results[k]) == due[k].id by {
        assert(results[k] == due_result(due[k], fired_next(due[k], now)));
    }
    assert forall|id: i64| #[trigger] t0.contains_key(id) && !is_due(t0[id], now) implies cur[id] == t0[id] by {
        assert forall|k: int| 0 <= k < due.len() implies due[k].id != id by {
            if due[k].id == id {
                assert(is_due(t0[id], now));
            }
        }
    }
    assert forall|id: i64| #[trigger] t0.contains_key(id) && is_due(t0[id], now) implies next_after_fire(
        t0[id],
        now,
    ) is Ok && cur[id] == fired_row(t0[id], fired_next(t0[id], now)) by {
        let k = choose|k: int| 0 <= k < due.len() && #[trigger] due[k].id == id;
        assert(next_after_fire(due[k], now) is Ok);
    }
    assert forall|id: i64| #[trigger] t0.contains_key(id) && is_due(t0[id], now) implies exists|k: int|
        0 <= k < results.len() && result_id(#[trigger] results[k]) == id by {
        let k = choose|k: int| 0 <= k < due.len() && #[trigger] due[k].id == id;
        assert(result_id(results[k]) == id);
    }
    assert forall|j: int, k: int| 0 <= j <= k < results.len() implies next_of(t0[result_id(results[j])])
        <= next_of(t0[result_id(results[k])]) by {
        assert(result_id(results[j]) == due[j].id);
        assert(result_id(results[k]) == due[k].id);
    }
}

pub open spec fn row_views(v: Seq<TaskRow>) -> Seq<TaskRowView> {
    v.map_values(|t: TaskRow| t@)
}

pub open spec fn result_views(v: Seq<DueProcessResult>) -> Seq<DueResultView> {
    v.map_values(|t: DueProcessResult| t@)
}

/// Processes every task due at `now` (see `is_due`), soonest first: each is marked expired,
/// then set to its next firing and made active again, or finished when it has none. Returns
/// one outcome per task, in that order. An error stops it at the task where it came (see
/// `stopped_at`): the tasks before it stay processed, and that task is left marked expired
/// when its next firing does not read.
pub fn process_all_due<R: TaskRepository>(repo: &mut R, now: Timestamp) -> (r: Result<
    Vec<DueProcessResult>,
    SchedulerError,
>)
    requires
        forall|id: i64|
            #[trigger] old(repo).tasks().contains_key(id) && is_due(old(repo).tasks()[id], now@)
                ==> fire_searchable(old(repo).tasks()[id], now@),
    ensures
        final(repo).tasks().dom() == old(repo).tasks().dom(),
        forall|id: i64|
            #[trigger] old(repo).tasks().contains_key(id) && !is_due(old(repo).tasks()[id], now@)
                ==> final(repo).tasks()[id] == old(repo).tasks()[id],
        r matches Ok(results) ==> all_due_processed(
            old(repo).tasks(),
            final(repo).tasks(),
            result_views(results@),
            now@,
        ),
        old(repo).reliable() && (forall|id: i64|
            #[trigger] old(repo).tasks().contains_key(id) && is_due(old(repo).tasks()[id], now@)
                ==> next_after_fire(old(repo).tasks()[id], now@) is Ok) ==> r is Ok,
        r matches Err(SchedulerError::Store(_)) ==> final(repo).tasks() == old(repo).tasks()
            || exists|done: Set<i64>, stop: i64|
            #[trigger] stopped_at(old(repo).tasks(), final(repo).tasks(), now@, done, stop)
                && left_at_stop(old(repo).tasks()[stop], final(repo).tasks()[stop], now@),
        r matches Err(SchedulerError::Planning(pe)) ==> exists|done: Set<i64>, stop: i64|
            #[trigger] stopped_at(old(repo).tasks(), final(repo).tasks(), now@, done, stop)
                && final(repo).tasks()[stop] == with_status(old(repo).tasks()[stop], TaskStatus::Expired)
                && next_after_fire(old(repo).tasks()[stop], now@) == Err::<Option<u64>, PlanningErrorView>(
                pe@,
            ),
{
    let ghost t0 = repo.tasks();
    match checked_process_all_due(repo, now) {
        Some(r) => r,
        None => {
            proof {
                let (done, stop) = choose|done: Set<i64>, stop: i64|
                    #[trigger] stopped_at(t0, repo.tasks(), now@, done, stop)
                        && !fire_searchable(t0[stop], now@);
                assert(t0.contains_key(stop) && is_due(t0[stop], now@));
            }
            Ok(Vec::new())
        },
    }
}

/// As `process_all_due`, for any store and time: `None` where the next firing of a due task
/// cannot be searched (see `fire_searchable`), the tasks before it processed and that task
/// left marked expired.
pub fn checked_process_all_due<R: TaskRepository>(repo: &mut R, now: Timestamp) -> (r: Option<
    Result<Vec<DueProcessResult>, SchedulerError>,
>)
    ensures
        final(repo).tasks().dom() == old(repo).tasks().dom(),
        forall|id: i64|
            #[trigger] old(repo).tasks().contains_key(id) && !is_due(old(repo).tasks()[id], now@)
                ==> final(repo).tasks()[id] == old(repo).tasks()[id],
        r is None ==> exists|done: Set<i64>, stop: i64|
            #[trigger] stopped_at(old(repo).tasks(), final(repo).tasks(), now@, done, stop)
                && final(repo).tasks()[stop] == with_status(old(repo).tasks()[stop], TaskStatus::Expired)
                && !fire_searchable(old(repo).tasks()[stop], now@),
        r matches Some(Ok(results)) ==> all_due_processed(
            old(repo).tasks(),
            final(repo).tasks(),
            result_views(results@),
            now@,
        ),
        r matches Some(Ok(_)) ==> forall|id: i64|
            #[trigger] old(repo).tasks().contains_key(id) && is_due(old(repo).tasks()[id], now@)
                ==> fire_searchable(old(repo).tasks()[id], now@),
        old(repo).reliable() && (forall|id: i64|
            #[trigger] old(repo).tasks().contains_key(id) && is_due(old(repo).tasks()[id], now@)
                ==> fire_searchable(old(repo).tasks()[id], now@) && next_after_fire(
                old(repo).tasks()[id],
                now@,
            ) is Ok) ==> r matches Some(Ok(_)),
        r matches Some(Err(SchedulerError::Store(_))) ==> final(repo).tasks() == old(repo).tasks()
            || exists|done: Set<i64>, stop: i64|
            #[trigger] stopped_at(old(repo).tasks(), final(repo).tasks(), now@, done, stop)
                && left_at_stop(old(repo).tasks()[stop], final(repo).tasks()[stop], now@),
        r matches Some(Err(SchedulerError::Planning(pe))) ==> exists|done: Set<i64>, stop: i64|
            #[trigger] stopped_at(old(repo).tasks(), final(repo).tasks(), now@, done, stop)
                && final(repo).tasks()[stop] == with_status(old(repo).tasks()[stop], TaskStatus::Expired)
                && next_after_fire(old(repo).tasks()[stop], now@) == Err::<Option<u64>, PlanningErrorView>(
                pe@,
            ),
{
    let ghost t0 = repo.tasks();
    let due = match repo.tasks_due_before(now) {
        Ok(v) => v,
        Err(e) => {
            return Some(Err(SchedulerError::Store(e)));
        },
    };
    let ghost dv = row_views(due@);
    proof {
        lemma_due_list(t0, due@, now@);
        lemma_progress_start(t0, dv, now@);
    }
    let mut results: Vec<DueProcessResult> = Vec::new();
    let mut i: usize = 0;
    while i < due.len()
        invariant
            t0 == old(repo).tasks(),
            i <= due@.len(),
            dv == row_views(due@),
            due_list(t0, dv, now@),
            progress(t0, repo.tasks(), dv, i as int, now@),
            results@.len() == i,
            forall|k: int|
                0 <= k < i ==> #[trigger] result_views(results@)[k] == due_result(
                    dv[k],
                    fired_next(dv[k], now@),
                ),
            forall|k: int| 0 <= k < i ==> fire_searchable(#[trigger] dv[k], now@),
            old(repo).reliable() ==> repo.reliable(),
        decreases due@.len() - i,
    {
        let task = &due[i];
        let ghost before = repo.tasks();
        proof {
            lemma_progress_current(t0, before, dv, i as int, now@);
            assert(dv[i as int] == task@);
            assert(t0.contains_key(task.id) && is_due(t0[task.id], now@));
        }
        match process_due_task(repo, task, now) {
            Some(Ok(res)) => {
                proof {
                    lemma_progress_step(t0, before, repo.tasks(), dv, i as int, now@);
                }
                let ghost old_results = results@;
                results.push(res);
                proof {
                    assert forall|k: int| 0 <= k < i + 1 implies #[trigger] result_views(results@)[k]
                        == due_result(dv[k], fired_next(dv[k], now@)) by {
                        if k < i {
                            assert(result_views(results@)[k] == result_views(old_results)[k]);
                        }
                    }
                }
            },
            Some(Err(e)) => {
                proof {
                    let after = repo.tasks();
                    lemma_one_row_changed(
                        before,
                        after,
                        task.id,
                        with_status(before[task.id], TaskStatus::Expired),
                        with_next(with_status(before[task.id], TaskStatus::Expired), fired_next(task@, now@)),
                    );
                    lemma_progress_stop(t0, before, after, dv, i as int, now@);
                    lemma_progress_stopped(t0, before, after, dv, i as int, now@);
                    assert(t0[task.id] == task@);
                    assert(stopped_at(t0, after, now@, done_before(dv, i as int), task.id));
                }
                return Some(Err(e));
            },
            None => {
                proof {
                    let after = repo.tasks();
                    lemma_one_row_changed(
                        before,
                        after,
                        task.id,
                        with_status(before[task.id], TaskStatus::Expired),
                        with_status(before[task.id], TaskStatus::Expired),
                    );
                    lemma_progress_stop(t0, before, after, dv, i as int, now@);
                    lemma_progress_stopped(t0, before, after, dv, i as int, now@);
                    assert(t0[task.id] == task@);
                    assert(stopped_at(t0, after, now@, done_before(dv, i as int), task.id));
                }
                return None;
            },
        }
        i = i + 1;
    }
    proof {
        lemma_progress_done(t0, repo.tasks(), dv, result_views(results@), now@);
        reveal(all_due_processed);
        reveal(due_list);
        assert forall|id: i64|
            #[trigger] t0.contains_key(id) && is_due(t0[id], now@) implies fire_searchable(
            t0[id],
            now@,
        ) by {
            let k = choose|k: int| 0 <= k < dv.len() && #[trigger] dv[k].id == id;
            assert(fire_searchable(dv[k], now@));
        }
    }
    Some(Ok(results))
}

impl TaskLifecycleEvent {
    /// The event that reports an outcome.
    pub fn from_result(result: DueProcessResult) -> (r: TaskLifecycleEvent)
        ensures
            match result {
                DueProcessResult::Expired(task) => r == TaskLifecycleEvent::Expired { task },
                DueProcessResult::Finished(id) => r == TaskLifecycleEvent::Finished { id },
            },
    {
        match result {
            DueProcessResult::Expired(task) => TaskLifecycleEvent::Expired { task },
            DueProcessResult::Finished(id) => TaskLifecycleEvent::Finished { id },
        }
    }
}

} // verus!
