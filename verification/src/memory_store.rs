//! A task store kept in memory: the rows in a vector, by ascending id.

use vstd::prelude::*;

use crate::model::Timestamp;
use crate::store::{
    is_due, next_of, with_next, with_status, StoreError, TaskRepository, TaskRow, TaskRowView,
    TaskStatus,
};

verus! {

/// The error that SQLite reports for a full table, built as rusqlite builds it:
/// `rusqlite::Error::SqliteFailure` over `rusqlite::ffi::Error::new(SQLITE_FULL)`, with no
/// message. Nothing is stated of it: its value is opaque here.
#[verifier::external_body]
fn table_full_error() -> rusqlite::Error {
    rusqlite::Error::SqliteFailure(rusqlite::ffi::Error::new(rusqlite::ffi::SQLITE_FULL), None)
}

/// Tasks kept in memory, by ascending id. Ids are handed out from 1 up and never reused, as
/// by a table with an autoincrementing key; once the largest id has been handed out, an
/// insert fails with the error such a table reports.
pub struct MemoryTaskStore {
    rows: Vec<TaskRow>,
    last_id: i64,
}

/// The ids strictly ascend along the rows.
spec fn ids_ascending(rows: Seq<TaskRow>) -> bool {
    forall|j: int, k: int| #![trigger rows[j], rows[k]] 0 <= j < k < rows.len() ==> rows[j].id < rows[k].id
}

spec fn has_id(rows: Seq<TaskRow>, id: i64) -> bool {
    exists|k: int| 0 <= k < rows.len() && #[trigger] rows[k].id == id
}

spec fn index_of_id(rows: Seq<TaskRow>, id: i64) -> int {
    choose|k: int| 0 <= k < rows.len() && #[trigger] rows[k].id == id
}

/// The rows as a table keyed by id.
spec fn rows_map(rows: Seq<TaskRow>) -> Map<i64, TaskRowView> {
    Map::new(|id: i64| has_id(rows, id), |id: i64| rows[index_of_id(rows, id)]@)
}

proof fn lemma_lookup(rows: Seq<TaskRow>, k: int)
    requires
        ids_ascending(rows),
        0 <= k < rows.len(),
    ensures
        rows_map(rows).contains_key(rows[k].id),
        rows_map(rows)[rows[k].id] == rows[k]@,
{
    assert(has_id(rows, rows[k].id));
    let c = index_of_id(rows, rows[k].id);
    assert(0 <= c < rows.len() && rows[c].id == rows[k].id);
    if c < k {
        assert(rows[c].id < rows[k].id);
    } else if c > k {
        assert(rows[k].id < rows[c].id);
    }
}

proof fn lemma_push(rows: Seq<TaskRow>, r: TaskRow)
    requires
        ids_ascending(rows),
        forall|k: int| 0 <= k < rows.len() ==> #[trigger] rows[k].id < r.id,
    ensures
        ids_ascending(rows.push(r)),
        !rows_map(rows).contains_key(r.id),
        rows_map(rows.push(r)) == rows_map(rows).insert(r.id, r@),
{
    let s = rows.push(r);
    let n = rows.len() as int;
    assert forall|j: int, k: int| #![trigger s[j], s[k]] 0 <= j < k < s.len() implies s[j].id < s[k].id by {
        assert(s[j] == rows[j]);
        if k < n {
            assert(s[k] == rows[k]);
        }
    }
    assert(!has_id(rows, r.id));
    assert forall|id: i64| #[trigger] has_id(s, id) == (has_id(rows, id) || id == r.id) by {
        if has_id(s, id) {
            let k = choose|k: int| 0 <= k < s.len() && #[trigger] s[k].id == id;
            if k < n {
                assert(rows[k].id == id);
            }
        }
        if has_id(rows, id) {
            let k = choose|k: int| 0 <= k < rows.len() && #[trigger] rows[k].id == id;
            assert(s[k].id == id);
        }
        if id == r.id {
            assert(s[n].id == id);
        }
    }
    assert forall|id: i64| #[trigger] rows_map(s).contains_key(id) implies rows_map(s)[id]
        == rows_map(rows).insert(r.id, r@)[id] by {
        if id == r.id {
            lemma_lookup(s, n);
        } else {
            let k = choose|k: int| 0 <= k < rows.len() && #[trigger] rows[k].id == id;
            lemma_lookup(rows, k);
            lemma_lookup(s, k);
        }
    }
    assert(rows_map(s) =~= rows_map(rows).insert(r.id, r@));
}

proof fn lemma_remove(rows: Seq<TaskRow>, k: int)
    requires
        ids_ascending(rows),
        0 <= k < rows.len(),
    ensures
        ids_ascending(rows.remove(k)),
        forall|j: int| 0 <= j < rows.remove(k).len() ==> #[trigger] rows.remove(k)[j] == rows[if j < k { j } else { j + 1 }],
        rows_map(rows).contains_key(rows[k].id),
        rows_map(rows.remove(k)) == rows_map(rows).remove(rows[k].id),
{
    let s = rows.remove(k);
    rows.remove_ensures(k);
    let gone = rows[k].id;
    assert forall|j: int| 0 <= j < s.len() implies #[trigger] s[j] == rows[if j < k { j } else { j + 1 }] by {}
    assert forall|a: int, b: int| #![trigger s[a], s[b]] 0 <= a < b < s.len() implies s[a].id < s[b].id by {
        let a1 = if a < k { a } else { a + 1 };
        let b1 = if b < k { b } else { b + 1 };
        assert(s[a] == rows[a1]);
        assert(s[b] == rows[b1]);
        assert(rows[a1].id < rows[b1].id);
    }
    lemma_lookup(rows, k);
    assert forall|id: i64| #[trigger] has_id(s, id) == (has_id(rows, id) && id != gone) by {
        if has_id(s, id) {
            let j = choose|j: int| 0 <= j < s.len() && #[trigger] s[j].id == id;
            let j1 = if j < k { j } else { j + 1 };
            assert(s[j] == rows[j1]);
            assert(rows[j1].id == id);
            if j1 < k {
                assert(rows[j1].id < rows[k].id);
            } else {
                assert(rows[k].id < rows[j1].id);
            }
        }
        if has_id(rows, id) && id != gone {
            let j = choose|j: int| 0 <= j < rows.len() && #[trigger] rows[j].id == id;
            if j < k {
                assert(s[j] == rows[j]);
                assert(s[j].id == id);
            } else {
                assert(j != k);
                assert(s[j - 1] == rows[j]);
                assert(s[j - 1].id == id);
            }
        }
    }
    assert forall|id: i64| #[trigger] rows_map(s).contains_key(id) implies rows_map(s)[id]
        == rows_map(rows).remove(gone)[id] by {
        let j = choose|j: int| 0 <= j < s.len() && #[trigger] s[j].id == id;
        let j1 = if j < k { j } else { j + 1 };
        assert(s[j] == rows[j1]);
        lemma_lookup(s, j);
        lemma_lookup(rows, j1);
    }
    assert(rows_map(s) =~= rows_map(rows).remove(gone));
}

proof fn lemma_update(rows: Seq<TaskRow>, k: int, r: TaskRow)
    requires
        ids_ascending(rows),
        0 <= k < rows.len(),
        r.id == rows[k].id,
    ensures
        ids_ascending(rows.update(k, r)),
        rows_map(rows).contains_key(r.id),
        rows_map(rows)[r.id] == rows[k]@,
        rows_map(rows.update(k, r)) == rows_map(rows).insert(r.id, r@),
{
    let s = rows.update(k, r);
    assert forall|a: int, b: int| #![trigger s[a], s[b]] 0 <= a < b < s.len() implies s[a].id < s[b].id by {
        assert(s[a].id == rows[a].id);
        assert(s[b].id == rows[b].id);
    }
    lemma_lookup(rows, k);
    assert forall|id: i64| #[trigger] has_id(s, id) == has_id(rows, id) by {
        if has_id(s, id) {
            let j = choose|j: int| 0 <= j < s.len() && #[trigger] s[j].id == id;
            assert(rows[j].id == id);
        }
        if has_id(rows, id) {
            let j = choose|j: int| 0 <= j < rows.len() && #[trigger] rows[j].id == id;
            assert(s[j].id == id);
        }
    }
    assert forall|id: i64| #[trigger] rows_map(s).contains_key(id) implies rows_map(s)[id]
        == rows_map(rows).insert(r.id, r@)[id] by {
        let j = choose|j: int| 0 <= j < s.len() && #[trigger] s[j].id == id;
        lemma_lookup(s, j);
        if j != k {
            assert(rows[j] == s[j]);
            lemma_lookup(rows, j);
        }
    }
    assert(rows_map(s) =~= rows_map(rows).insert(r.id, r@));
}

/// The place of the row with id `id`, if there is one.
fn position_of(rows: &Vec<TaskRow>, id: i64) -> (r: Option<usize>)
    ensures
        r matches Some(k) ==> k < rows@.len() && rows@[k as int].id == id,
        r is None ==> !has_id(rows@, id),
{
    let mut k: usize = 0;
    while k < rows.len()
        invariant
            k <= rows@.len(),
            forall|j: int| 0 <= j < k ==> #[trigger] rows@[j].id != id,
        decreases rows@.len() - k,
    {
        if rows[k].id == id {
            return Some(k);
        }
        k = k + 1;
    }
    None
}

/// Whether the row is due at `now` (see `is_due`).
fn due_at(row: &TaskRow, now: Timestamp) -> (r: bool)
    ensures
        r == is_due(row@, now@),
{
    let active = match row.status {
        TaskStatus::Active => true,
        _ => false,
    };
    let fired = match row.next_occurrence_unix {
        Some(n) => n <= now.as_u64(),
        None => false,
    };
    row.enabled && active && fired
}

/// The next firing of a row, 0 where it has none (see `next_of`).
fn next_value(row: &TaskRow) -> (r: u64)
    ensures
        r == next_of(row@),
{
    match row.next_occurrence_unix {
        Some(n) => n,
        None => 0,
    }
}

impl MemoryTaskStore {
    #[verifier::type_invariant]
    spec fn well_formed(self) -> bool {
        &&& ids_ascending(self.rows@)
        &&& self.last_id >= 0
        &&& forall|k: int| 0 <= k < self.rows@.len() ==> 1 <= #[trigger] self.rows@[k].id <= self.last_id
    }

    /// An empty store.
    pub fn new() -> (s: Self)
        ensures
            s.tasks() == Map::<i64, TaskRowView>::empty(),
            s.reliable(),
            s.can_insert(),
    {
        let s = MemoryTaskStore { rows: Vec::new(), last_id: 0 };
        assert(s.tasks() =~= Map::<i64, TaskRowView>::empty());
        s
    }
}

impl TaskRepository for MemoryTaskStore {
    closed spec fn tasks(&self) -> Map<i64, TaskRowView> {
        rows_map(self.rows@)
    }

    /// Reading never fails here, and a change fails only for an id that is not stored.
    open spec fn reliable(&self) -> bool {
        true
    }

    /// An insert succeeds while the largest id has not been handed out.
    closed spec fn can_insert(&self) -> bool {
        self.last_id < i64::MAX
    }

    fn insert_task(
        &mut self,
        description: String,
        calendar_expr: &str,
        wall_clock_tz: Option<String>,
        next_occurrence_unix: Option<u64>,
        created_at_unix: u64,
        enabled: bool,
        status: TaskStatus,
    ) -> (r: Result<i64, StoreError>)
        ensures
            r matches Ok(id) ==> (final(self).can_insert() <==> id < i64::MAX),
    {
        proof {
            use_type_invariant(&*self);
        }
        if self.last_id == i64::MAX {
            return Err(StoreError::Sqlite(table_full_error()));
        }
        let id: i64 = self.last_id + 1;
        let row = TaskRow {
            id,
            description,
            calendar_expr: calendar_expr.to_owned(),
            wall_clock_tz,
            next_occurrence_unix,
            created_at_unix,
            enabled,
            status,
        };
        let mut rows: Vec<TaskRow> = Vec::new();
        std::mem::swap(&mut rows, &mut self.rows);
        proof {
            lemma_push(rows@, row);
        }
        rows.push(row);
        self.last_id = id;
        self.rows = rows;
        Ok(id)
    }

    fn get_task(&self, id: i64) -> (r: Result<TaskRow, StoreError>) {
        proof {
            use_type_invariant(self);
        }
        match position_of(&self.rows, id) {
            Some(k) => {
                proof {
                    lemma_lookup(self.rows@, k as int);
                }
                Ok(self.rows[k].copy())
            },
            None => Err(StoreError::TaskNotFound(id)),
        }
    }

    fn tasks_due_before(&self, now: Timestamp) -> (r: Result<Vec<TaskRow>, StoreError>) {
        proof {
            use_type_invariant(self);
        }
        let rows = &self.rows;
        let mut out: Vec<TaskRow> = Vec::new();
        let ghost mut src: Seq<int> = Seq::empty();
        let mut i: usize = 0;
        while i < rows.len()
            invariant
                ids_ascending(rows@),
                i <= rows@.len(),
                src.len() == out@.len(),
                forall|j: int|
                    0 <= j < out@.len() ==> 0 <= #[trigger] src[j] < i && out@[j]@ == rows@[src[j]]@
                        && is_due(out@[j]@, now@),
                forall|j: int, l: int| 0 <= j < l < out@.len() ==> src[j] != src[l],
                forall|k: int|
                    0 <= k < i && is_due(#[trigger] rows@[k]@, now@) ==> exists|j: int|
                        0 <= j < out@.len() && src[j] == k,
                forall|j: int, l: int|
                    0 <= j <= l < out@.len() ==> next_of(out@[j]@) <= next_of(out@[l]@),
            decreases rows@.len() - i,
        {
            if due_at(&rows[i], now) {
                let n = next_value(&rows[i]);
                let mut p: usize = 0;
                while p < out.len() && next_value(&out[p]) <= n
                    invariant
                        p <= out@.len(),
                        forall|j: int| 0 <= j < p ==> next_of(#[trigger] out@[j]@) <= n,
                    decreases out@.len() - p,
                {
                    p = p + 1;
                }
                let c = rows[i].copy();
                let ghost old_out = out@;
                let ghost old_src = src;
                proof {
                    old_out.insert_ensures(p as int, c);
                    old_src.insert_ensures(p as int, i as int);
                    src = old_src.insert(p as int, i as int);
                    assert forall|j: int| p <= j < old_out.len() implies next_of(#[trigger] old_out[j]@) > n by {
                        assert(next_of(old_out[p as int]@) <= next_of(old_out[j]@));
                    }
                }
                out.insert(p, c);
                proof {
                    let ip = p as int;
                    let ii = i as int;
                    assert forall|j: int| 0 <= j < out@.len() implies 0 <= #[trigger] src[j] < ii + 1
                        && out@[j]@ == rows@[src[j]]@ && is_due(out@[j]@, now@) by {
                        if j < ip {
                            assert(out@[j] == old_out[j] && src[j] == old_src[j]);
                        } else if j > ip {
                            assert(out@[j] == old_out[j - 1] && src[j] == old_src[j - 1]);
                        }
                    }
                    assert forall|j: int, l: int| 0 <= j < l < out@.len() implies src[j] != src[l] by {
                        if j < ip {
                            assert(src[j] == old_src[j]);
                        } else if j > ip {
                            assert(src[j] == old_src[j - 1]);
                        }
                        if l < ip {
                            assert(src[l] == old_src[l]);
                        } else if l > ip {
                            assert(src[l] == old_src[l - 1]);
                        }
                    }
                    assert forall|k: int| 0 <= k < ii + 1 && is_due(#[trigger] rows@[k]@, now@) implies exists|
                        j: int,
                    | 0 <= j < out@.len() && src[j] == k by {
                        if k == ii {
                            assert(src[ip] == k);
                        } else {
                            let j0 = choose|j: int| 0 <= j < old_src.len() && old_src[j] == k;
                            if j0 < ip {
                                assert(src[j0] == k);
                            } else {
                                assert(src[j0 + 1] == k);
                            }
                        }
                    }
                    assert forall|j: int, l: int| 0 <= j <= l < out@.len() implies next_of(out@[j]@)
                        <= next_of(out@[l]@) by {
                        if j < ip {
                            assert(out@[j] == old_out[j]);
                        } else if j > ip {
                            assert(out@[j] == old_out[j - 1]);
                        }
                        if l < ip {
                            assert(out@[l] == old_out[l]);
                        } else if l > ip {
                            assert(out@[l] == old_out[l - 1]);
                        }
                    }
                }
            }
            i = i + 1;
        }
        proof {
            assert forall|k: int| 0 <= k < out@.len() implies self.tasks().contains_key(#[trigger] out@[k].id)
                && self.tasks()[out@[k].id] == out@[k]@ && is_due(out@[k]@, now@) by {
                lemma_lookup(rows@, src[k]);
            }
            assert forall|id: i64| #[trigger] self.tasks().contains_key(id) && is_due(self.tasks()[id], now@)
                implies exists|k: int| 0 <= k < out@.len() && #[trigger] out@[k].id == id by {
                let k0 = choose|k: int| 0 <= k < rows@.len() && #[trigger] rows@[k].id == id;
                lemma_lookup(rows@, k0);
                assert(is_due(rows@[k0]@, now@));
                let j = choose|j: int| 0 <= j < out@.len() && src[j] == k0;
                assert(out@[j]@ == rows@[k0]@);
                assert(out@[j].id == id);
            }
            assert forall|j: int, k: int| 0 <= j < k < out@.len() implies out@[j].id != out@[k].id by {
                assert(out@[j]@ == rows@[src[j]]@);
                assert(out@[k]@ == rows@[src[k]]@);
                if src[j] < src[k] {
                    assert(rows@[src[j]].id < rows@[src[k]].id);
                } else {
                    assert(rows@[src[k]].id < rows@[src[j]].id);
                }
            }
        }
        Ok(out)
    }

    fn list_tasks(&self) -> (r: Result<Vec<TaskRow>, StoreError>) {
        proof {
            use_type_invariant(self);
        }
        let rows = &self.rows;
        let mut out: Vec<TaskRow> = Vec::new();
        let mut i: usize = 0;
        while i < rows.len()
            invariant
                i <= rows@.len(),
                out@.len() == i,
                forall|j: int| 0 <= j < i ==> #[trigger] out@[j]@ == rows@[j]@,
            decreases rows@.len() - i,
        {
            out.push(rows[i].copy());
            i = i + 1;
        }
        proof {
            assert forall|k: int| 0 <= k < out@.len() implies self.tasks().contains_key(#[trigger] out@[k].id)
                && self.tasks()[out@[k].id] == out@[k]@ by {
                assert(out@[k]@ == rows@[k]@);
                lemma_lookup(rows@, k);
            }
            assert forall|id: i64| #[trigger] self.tasks().contains_key(id) implies exists|k: int|
                0 <= k < out@.len() && #[trigger] out@[k].id == id by {
                let k0 = choose|k: int| 0 <= k < rows@.len() && #[trigger] rows@[k].id == id;
                assert(out@[k0]@ == rows@[k0]@);
            }
            assert forall|j: int, k: int| 0 <= j < k < out@.len() implies out@[j].id < out@[k].id by {
                assert(out@[j]@ == rows@[j]@);
                assert(out@[k]@ == rows@[k]@);
            }
        }
        Ok(out)
    }

    fn delete_task(&mut self, id: i64) -> (r: Result<(), StoreError>)
        ensures
            final(self).can_insert() == old(self).can_insert(),
    {
        proof {
            use_type_invariant(&*self);
        }
        match position_of(&self.rows, id) {
            None => Err(StoreError::TaskNotFound(id)),
            Some(k) => {
                let mut rows: Vec<TaskRow> = Vec::new();
                std::mem::swap(&mut rows, &mut self.rows);
                proof {
                    lemma_remove(rows@, k as int);
                }
                let _gone = rows.remove(k);
                self.rows = rows;
                Ok(())
            },
        }
    }

    fn set_task_status(&mut self, id: i64, status: TaskStatus) -> (r: Result<(), StoreError>)
        ensures
            final(self).can_insert() == old(self).can_insert(),
    {
        proof {
            use_type_invariant(&*self);
        }
        match position_of(&self.rows, id) {
            None => Err(StoreError::TaskNotFound(id)),
            Some(k) => {
                let mut row = self.rows[k].copy();
                row.status = status;
                let mut rows: Vec<TaskRow> = Vec::new();
                std::mem::swap(&mut rows, &mut self.rows);
                proof {
                    lemma_update(rows@, k as int, row);
                }
                rows.set(k, row);
                self.rows = rows;
                Ok(())
            },
        }
    }

    fn set_next_occurrence_unix(&mut self, id: i64, next_occurrence_unix: Option<u64>) -> (r:
        Result<(), StoreError>)
        ensures
            final(self).can_insert() == old(self).can_insert(),
    {
        proof {
            use_type_invariant(&*self);
        }
        match position_of(&self.rows, id) {
            None => Err(StoreError::TaskNotFound(id)),
            Some(k) => {
                let mut row = self.rows[k].copy();
                row.next_occurrence_unix = next_occurrence_unix;
                let mut rows: Vec<TaskRow> = Vec::new();
                std::mem::swap(&mut rows, &mut self.rows);
                proof {
                    lemma_update(rows@, k as int, row);
                }
                rows.set(k, row);
                self.rows = rows;
                Ok(())
            },
        }
    }
}

} // verus!
