//! The next time a calendar fires.
//!
//! The search reads `from` as wall-clock time in the calendar's zone and looks for the
//! earliest wall-clock second, not before it, that every field of the calendar admits, that
//! is a real date on a listed weekday, and that exists in the zone (a second that a
//! daylight-saving change skips does not fire; one that occurs twice fires at its first
//! instant).

use vstd::prelude::*;

use crate::calendar::{
    calendar_wf, component_contains, component_iter, component_steps, component_wf,
    iter_floor, stepped_values, Calendar, CalendarView, ComponentView, TimeComponent, Weekday,
};
use crate::days::lemma_days_strict;
use crate::model::Timestamp;
use crate::zone::{
    days_in_month, days_in_month_spec, local_fields, local_to_unix, spec_local_fields,
    spec_local_to_unix, spec_parse_tz, unix_of, utc_zone, valid_date, weekday_index, weekday_of_date,
    days_from_civil, MAX_UNIX, MIN_UNIX,
};

verus! {

/// A wall-clock second: the fields of a date and a time of day.
pub struct WallTime {
    pub year: int,
    pub month: int,
    pub day: int,
    pub hour: int,
    pub minute: int,
    pub second: int,
}

/// `a` is not later than `b`: an earlier year, or the same year and an earlier month, and so
/// on down to the second.
pub open spec fn wall_le(a: WallTime, b: WallTime) -> bool {
    ||| a.year < b.year
    ||| a.year == b.year && a.month < b.month
    ||| a.year == b.year && a.month == b.month && a.day < b.day
    ||| a.year == b.year && a.month == b.month && a.day == b.day && a.hour < b.hour
    ||| a.year == b.year && a.month == b.month && a.day == b.day && a.hour == b.hour && a.minute
        < b.minute
    ||| a.year == b.year && a.month == b.month && a.day == b.day && a.hour == b.hour && a.minute
        == b.minute && a.second <= b.second
}

/// Whether a field admits `v`: `*` admits every value up to the field's maximum, a list or a
/// range the values it holds.
pub open spec fn admits(c: ComponentView, max: int, v: int) -> bool {
    &&& 0 <= v <= u32::MAX
    &&& match c {
        ComponentView::Any => v <= max,
        _ => component_contains(c, v as u32),
    }
}

/// The day's weekday is listed, when the calendar lists weekdays.
pub open spec fn weekday_ok(ws: Option<Seq<Weekday>>, y: int, m: int, d: int) -> bool {
    match ws {
        None => true,
        Some(l) => listed(l, weekday_index(y, m, d)),
    }
}

/// Some day of `l` has position `w` in the week.
pub open spec fn listed(l: Seq<Weekday>, w: int) -> bool {
    exists|k: int| 0 <= k < l.len() && (#[trigger] l[k]).index_spec() == w
}

/// The Unix time of a wall-clock second in zone `tz`, where it exists (in UTC, always, by the
/// day count of the calendar).
pub open spec fn wall_unix(tz: chrono_tz::Tz, t: WallTime) -> Option<int> {
    if spec_parse_tz("UTC"@) == Some(tz) {
        Some(unix_of(t.year, t.month, t.day, t.hour, t.minute, t.second))
    } else {
        spec_local_to_unix(tz, t.year, t.month, t.day, t.hour, t.minute, t.second)
    }
}

/// The calendar fires at wall-clock second `t` in zone `tz`.
pub open spec fn fires_at(cal: CalendarView, tz: chrono_tz::Tz, t: WallTime) -> bool {
    &&& admits(cal.year, 2099, t.year)
    &&& admits(cal.month, 12, t.month)
    &&& admits(cal.day, 31, t.day)
    &&& admits(cal.hour, 23, t.hour)
    &&& admits(cal.minute, 59, t.minute)
    &&& admits(cal.second, 59, t.second)
    &&& 1 <= t.month
    &&& 1 <= t.day <= days_in_month_spec(t.year, t.month)
    &&& weekday_ok(cal.weekdays, t.year, t.month, t.day)
    &&& wall_unix(tz, t) is Some
}

/// `t` is the earliest second, not before `from`, at which the calendar fires.
pub open spec fn is_next_firing(cal: CalendarView, tz: chrono_tz::Tz, from: WallTime, t: WallTime) -> bool {
    &&& fires_at(cal, tz, t)
    &&& wall_le(from, t)
    &&& forall|u: WallTime| fires_at(cal, tz, u) && wall_le(from, u) ==> wall_le(t, u)
}

/// The wall-clock reading of Unix time `secs` in zone `tz`, its year taken as `u32`.
pub open spec fn wall_of(tz: chrono_tz::Tz, secs: int) -> WallTime {
    let f = spec_local_fields(tz, secs);
    WallTime {
        year: (f.0 as u32) as int,
        month: f.1,
        day: f.2,
        hour: f.3,
        minute: f.4,
        second: f.5,
    }
}

/// The Unix time at which the calendar next fires at or after the wall-clock reading of
/// `secs`, as `u64`; none when it never does (years end at 2099).
pub open spec fn next_firing(cal: CalendarView, tz: chrono_tz::Tz, secs: int) -> Option<u64> {
    let from = wall_of(tz, secs);
    if exists|t: WallTime| is_next_firing(cal, tz, from, t) {
        let t = choose|t: WallTime| is_next_firing(cal, tz, from, t);
        Some(wall_unix(tz, t).unwrap() as u64)
    } else {
        None
    }
}

/// The zone that the name "UTC" looks up.
pub open spec fn utc_spec() -> chrono_tz::Tz {
    spec_parse_tz("UTC"@).unwrap()
}

/// The zone a calendar reads: its own, else `default`.
pub open spec fn zone_or(tz: Option<chrono_tz::Tz>, default: chrono_tz::Tz) -> chrono_tz::Tz {
    match tz {
        Some(z) => z,
        None => default,
    }
}

/// A `u64` timestamp that `chrono::DateTime::from_timestamp` accepts once cast to `i64`.
pub open spec fn in_chrono_range(from: u64) -> bool {
    MIN_UNIX <= (from as i64) <= MAX_UNIX
}

/// Where a firing second's fields fall, as the search lists them (`*` from the field's
/// minimum, the year from `from`'s year).
pub open spec fn admits_iter(c: ComponentView, max: int, v: u32) -> bool {
    match c {
        ComponentView::Any => v <= max,
        _ => component_contains(c, v),
    }
}

pub open spec fn nondecreasing(s: Seq<u32>) -> bool {
    forall|i: int, j: int| 0 <= i <= j < s.len() ==> s[i] <= s[j]
}

proof fn lemma_filter_ge(s: Seq<u32>, lo: int, p: spec_fn(u32) -> bool)
    requires
        p == (|x: u32| x >= lo),
    ensures
        forall|i: int|
            0 <= i < s.filter(p).len() ==> s.contains(#[trigger] s.filter(p)[i]) && s.filter(p)[i]
                >= lo,
        forall|j: int| 0 <= j < s.len() && s[j] >= lo ==> s.filter(p).contains(#[trigger] s[j]),
        nondecreasing(s) ==> nondecreasing(s.filter(p)),
    decreases s.len(),
{
    let f = s.filter(p);
    if s.len() > 0 {
        let r = s.drop_last();
        lemma_filter_ge(r, lo, p);
        let g = r.filter(p);
        reveal_with_fuel(Seq::filter, 1);
        assert(f == if p(s.last()) {
            g.push(s.last())
        } else {
            g
        });
        assert forall|i: int| 0 <= i < f.len() implies s.contains(#[trigger] f[i]) && f[i] >= lo by {
            if i < g.len() {
                assert(r.contains(g[i]));
                let k = choose|k: int| 0 <= k < r.len() && r[k] == g[i];
                assert(s[k] == g[i]);
            } else {
                assert(s[s.len() - 1] == f[i]);
            }
        }
        assert forall|j: int| 0 <= j < s.len() && s[j] >= lo implies f.contains(#[trigger] s[j]) by {
            if j < r.len() {
                assert(r[j] == s[j]);
                assert(g.contains(r[j]));
                let k = choose|k: int| 0 <= k < g.len() && g[k] == r[j];
                assert(f[k] == s[j]);
            } else {
                assert(f[f.len() - 1] == s[j]);
            }
        }
        if nondecreasing(s) {
            assert(nondecreasing(r));
            assert forall|i: int, j: int| 0 <= i <= j < f.len() implies f[i] <= f[j] by {
                if j < g.len() {
                } else if i < g.len() {
                    assert(r.contains(g[i]));
                    let k = choose|k: int| 0 <= k < r.len() && r[k] == g[i];
                    assert(s[k] <= s[s.len() - 1]);
                }
            }
        }
    }
}

/// What `TimeComponent::iter` lists for a field: every value it holds is admitted by the
/// field and not below the floor (`from`, or the field's minimum), every admitted value from
/// the floor on is listed, and the values come in ascending order.
pub proof fn lemma_iter(c: ComponentView, from: Option<u32>, min: u32, max: u32)
    requires
        component_wf(c, min, max),
        component_steps(c),
    ensures
        forall|i: int|
            0 <= i < component_iter(c, from, min, max).len() ==> admits_iter(
                c,
                max as int,
                #[trigger] component_iter(c, from, min, max)[i],
            ) && component_iter(c, from, min, max)[i] >= iter_floor(from, min),
        forall|v: u32|
            admits_iter(c, max as int, v) && v >= iter_floor(from, min) ==> #[trigger] component_iter(
                c,
                from,
                min,
                max,
            ).contains(v),
        nondecreasing(component_iter(c, from, min, max)),
{
    let lo = iter_floor(from, min);
    let it = component_iter(c, from, min, max);
    match c {
        ComponentView::Any => {
            assert forall|v: u32| admits_iter(c, max as int, v) && v >= lo implies it.contains(v) by {
                assert(it[v - lo] == v);
            }
        },
        ComponentView::Values(vs) => {
            lemma_filter_ge(vs, lo, |x: u32| x >= lo);
            assert forall|i: int| 0 <= i < it.len() implies admits_iter(c, max as int, #[trigger] it[i])
                && it[i] >= lo by {
                assert(vs.contains(it[i]));
            }
            assert forall|v: u32| admits_iter(c, max as int, v) && v >= lo implies it.contains(v) by {
                let k = choose|k: int| 0 <= k < vs.len() && vs[k] == v;
                assert(vs[k] >= lo);
            }
        },
        ComponentView::Range { start, end, step } => {
            let st: u32 = match step {
                Some(x) => x,
                None => 1,
            };
            assert(st > 0);
            let all = stepped_values(start, end, st);
            lemma_filter_ge(all, lo, |x: u32| x >= lo);
            assert(it == all.filter(|x: u32| x >= lo));
            assert forall|k: int| 0 <= k < all.len() implies component_contains(c, #[trigger] all[k]) by {
                assert(k * st <= end - start) by (nonlinear_arith)
                    requires
                        0 <= k < all.len(),
                        all.len() == (end - start) / (st as int) + 1,
                        st > 0,
                        start <= end,
                ;
                assert(all[k] == start + k * st);
                vstd::arithmetic::div_mod::lemma_mod_multiples_basic(k, st as int);
                assert((k * st) % (st as int) == 0);
            }
            assert forall|i: int| 0 <= i < it.len() implies admits_iter(c, max as int, #[trigger] it[i])
                && it[i] >= lo by {
                assert(all.contains(it[i]));
                let k = choose|k: int| 0 <= k < all.len() && all[k] == it[i];
                assert(component_contains(c, all[k]));
            }
            assert forall|v: u32| admits_iter(c, max as int, v) && v >= lo implies it.contains(v) by {
                let q = (v - start) / (st as int);
                vstd::arithmetic::div_mod::lemma_fundamental_div_mod(v - start, st as int);
                assert(v - start == st * q);
                assert(q >= 0) by (nonlinear_arith)
                    requires
                        v - start >= 0,
                        st > 0,
                        q == (v - start) / (st as int),
                ;
                vstd::arithmetic::div_mod::lemma_div_is_ordered(v - start, end - start, st as int);
                assert(q < all.len());
                assert(q * st == v - start) by (nonlinear_arith)
                    requires
                        v - start == st * q,
                ;
                assert(all[q] == v);
                assert(all[q] >= lo);
            }
            assert forall|i: int, j: int| 0 <= i <= j < all.len() implies all[i] <= all[j] by {
                assert(i * st <= j * st <= end - start) by (nonlinear_arith)
                    requires
                        0 <= i <= j < all.len(),
                        all.len() == (end - start) / (st as int) + 1,
                        st > 0,
                        start <= end,
                ;
                assert(all[i] == start + i * st);
                assert(all[j] == start + j * st);
            }
        },
    }
}

/// The first `n` fields of `t` and `p` agree.
pub open spec fn same_prefix(t: WallTime, p: WallTime, n: int) -> bool {
    &&& n >= 1 ==> t.year == p.year
    &&& n >= 2 ==> t.month == p.month
    &&& n >= 3 ==> t.day == p.day
    &&& n >= 4 ==> t.hour == p.hour
    &&& n >= 5 ==> t.minute == p.minute
}

/// The first `n` fields of `p` come after those of `from`.
pub open spec fn prefix_after(from: WallTime, p: WallTime, n: int) -> bool {
    ||| n >= 1 && p.year > from.year
    ||| n >= 2 && p.year == from.year && p.month > from.month
    ||| n >= 3 && p.year == from.year && p.month == from.month && p.day > from.day
    ||| n >= 4 && p.year == from.year && p.month == from.month && p.day == from.day && p.hour
        > from.hour
    ||| n >= 5 && p.year == from.year && p.month == from.month && p.day == from.day && p.hour
        == from.hour && p.minute > from.minute
}


/// Field `n` of a wall-clock time, the year as field 0 and the second as field 5.
pub open spec fn field(t: WallTime, n: int) -> int {
    if n == 0 {
        t.year
    } else if n == 1 {
        t.month
    } else if n == 2 {
        t.day
    } else if n == 3 {
        t.hour
    } else if n == 4 {
        t.minute
    } else {
        t.second
    }
}

/// The calendar's component for field `n`.
pub open spec fn comp(c: CalendarView, n: int) -> ComponentView {
    if n == 0 {
        c.year
    } else if n == 1 {
        c.month
    } else if n == 2 {
        c.day
    } else if n == 3 {
        c.hour
    } else if n == 4 {
        c.minute
    } else {
        c.second
    }
}

pub open spec fn field_min(n: int) -> u32 {
    if n == 0 {
        1970
    } else if n == 1 || n == 2 {
        1
    } else {
        0
    }
}

pub open spec fn field_max(n: int) -> u32 {
    if n == 0 {
        2099
    } else if n == 1 {
        12
    } else if n == 2 {
        31
    } else if n == 3 {
        23
    } else {
        59
    }
}

proof fn lemma_prefix_step(a: WallTime, b: WallTime, n: int)
    requires
        0 <= n <= 4,
        same_prefix(a, b, n),
        field(a, n) < field(b, n),
    ensures
        wall_le(a, b),
{
}

/// The fields of `p` before field `n`, as the search lists them: each admitted, and from the
/// day on a date that exists and has a listed weekday.
pub open spec fn prefix_admitted(cal: CalendarView, p: WallTime, n: int) -> bool {
    &&& n >= 1 ==> admits(cal.year, 2099, p.year)
    &&& n >= 2 ==> admits(cal.month, 12, p.month) && 1 <= p.month
    &&& n >= 3 ==> admits(cal.day, 31, p.day) && 1 <= p.day <= days_in_month_spec(p.year, p.month)
        && weekday_ok(cal.weekdays, p.year, p.month, p.day)
    &&& n >= 4 ==> admits(cal.hour, 23, p.hour)
    &&& n >= 5 ==> admits(cal.minute, 59, p.minute)
}

/// The search for the first firing not before `from` lists the values of field `n` under the
/// fields of `p` before it: those are admitted, not before `from`'s, and no firing comes
/// before them.
pub open spec fn search_lists(
    cal: CalendarView,
    tz: chrono_tz::Tz,
    from: WallTime,
    p: WallTime,
    n: int,
) -> bool {
    &&& prefix_admitted(cal, p, n)
    &&& same_prefix(p, from, n) || prefix_after(from, p, n)
    &&& forall|u: WallTime| fires_at(cal, tz, u) && wall_le(from, u) ==> !prefix_after(u, p, n)
}

/// The search never lists a field whose range steps by 0 (listing such a field is where the
/// search cannot go on).
pub open spec fn search_steps(cal: CalendarView, tz: chrono_tz::Tz, from: WallTime) -> bool {
    forall|p: WallTime, n: int|
        0 <= n <= 5 && #[trigger] search_lists(cal, tz, from, p, n) ==> component_steps(
            comp(cal, n),
        )
}

/// A time before `w`'s first `n + 1` fields is before `p`'s first `n` (which `w` shares), or
/// shares them and comes before `w` in field `n`.
proof fn lemma_before_extended(u: WallTime, p: WallTime, w: WallTime, n: int)
    requires
        0 <= n <= 4,
        same_prefix(w, p, n),
        prefix_after(u, w, n + 1),
    ensures
        prefix_after(u, p, n) || (same_prefix(u, p, n) && field(u, n) < field(w, n)),
{
}

/// The wall-clock fields as machine integers.
struct Wall {
    year: u32,
    month: u32,
    day: u32,
    hour: u32,
    minute: u32,
    second: u32,
}

impl Wall {
    spec fn view(&self) -> WallTime {
        WallTime {
            year: self.year as int,
            month: self.month as int,
            day: self.day as int,
            hour: self.hour as int,
            minute: self.minute as int,
            second: self.second as int,
        }
    }
}

/// The state of one search: the calendar, its zone, and the wall-clock time to start from.
struct Search<'a> {
    cal: &'a Calendar,
    tz: chrono_tz::Tz,
    from: Wall,
}

impl<'a> Search<'a> {
    spec fn inv(&self) -> bool {
        &&& calendar_wf(self.cal@)
        &&& 1 <= self.from.month <= 12
        &&& 1 <= self.from.day <= 31
        &&& self.from.hour <= 23
        &&& self.from.minute <= 59
        &&& self.from.second <= 59
    }

    /// The calendar fires at `u`, and `u` is not before the start.
    spec fn hit(&self, u: WallTime) -> bool {
        fires_at(self.cal@, self.tz, u) && wall_le(self.from.view(), u)
    }

    /// `p`'s first `n` fields may begin a hit: each is admitted, and from the day on the date
    /// exists and has a listed weekday.
    spec fn prefix_ok(&self, p: WallTime, n: int) -> bool {
        prefix_admitted(self.cal@, p, n)
    }

    /// No firing comes before the first `n` fields of `p`.
    spec fn first(&self, p: WallTime, n: int) -> bool {
        forall|u: WallTime| self.hit(u) ==> !prefix_after(u, p, n)
    }

    /// The search lists a field whose range steps by 0.
    spec fn stuck(&self) -> bool {
        !search_steps(self.cal@, self.tz, self.from.view())
    }

    /// Every field that the search lists under the first `n` fields of `p` steps by more
    /// than 0.
    spec fn covered(&self, p: WallTime, n: int) -> bool {
        forall|q: WallTime, m: int|
            n <= m <= 5 && same_prefix(q, p, n) && #[trigger] search_lists(
                self.cal@,
                self.tz,
                self.from.view(),
                q,
                m,
            ) ==> component_steps(comp(self.cal@, m))
    }

    /// As `covered`, for the prefixes whose field `n` is among the first `i` values listed.
    spec fn covered_upto(&self, p: WallTime, n: int, vals: Seq<u32>, i: int) -> bool {
        forall|q: WallTime, m: int|
            n < m <= 5 && same_prefix(q, p, n) && #[trigger] search_lists(
                self.cal@,
                self.tz,
                self.from.view(),
                q,
                m,
            ) && vals.take(i).contains(field(q, n) as u32) ==> component_steps(comp(self.cal@, m))
    }

    /// Where the first `n` fields of `p` stand against the start: equal when `cur`, after
    /// otherwise.
    spec fn placed(&self, p: WallTime, n: int, cur: bool) -> bool {
        &&& cur ==> same_prefix(p, self.from.view(), n)
        &&& !cur ==> prefix_after(self.from.view(), p, n)
    }

    /// What a search below prefix `p` of length `n` returns: the earliest hit with that
    /// prefix, or none when there is none.
    spec fn found(&self, p: WallTime, n: int, r: Option<(Wall, i64)>) -> bool {
        match r {
            None => forall|u: WallTime| self.hit(u) && same_prefix(u, p, n) ==> false,
            Some((w, ts)) => {
                &&& same_prefix(w.view(), p, n)
                &&& self.hit(w.view())
                &&& wall_unix(self.tz, w.view()) == Some(ts as int)
                &&& forall|u: WallTime| self.hit(u) && same_prefix(u, p, n) ==> wall_le(w.view(), u)
            },
        }
    }

    fn seconds(&self, p: Wall, cur: bool) -> (r: Result<Option<(Wall, i64)>, ()>)
        requires
            self.inv(),
            self.prefix_ok(p.view(), 5),
            self.placed(p.view(), 5, cur),
            self.first(p.view(), 5),
        ensures
            match r {
                Ok(x) => self.found(p.view(), 5, x),
                Err(_) => self.stuck(),
            },
            r is Ok ==> self.covered(p.view(), 5),
    {
        let lo: Option<u32> = if cur {
            Some(self.from.second)
        } else {
            None
        };
        if !self.cal.second.step_nonzero() {
            proof {
                assert forall|u: WallTime|
                    fires_at(self.cal@, self.tz, u) && wall_le(self.from.view(), u) implies !prefix_after(
                    u,
                    p.view(),
                    5,
                ) by {
                    assert(self.hit(u));
                }
                assert(search_lists(self.cal@, self.tz, self.from.view(), p.view(), 5));
            }
            return Err(());
        }
        let vals = self.cal.second.iter(lo);
        proof {
            lemma_iter(self.cal@.second, lo, 0, 59);
        }
        proof {
            assert forall|q: WallTime, m: int|
                5 <= m <= 5 && same_prefix(q, p.view(), 5) && #[trigger] search_lists(
                self.cal@,
                self.tz,
                self.from.view(),
                q,
                m,
            ) implies component_steps(comp(self.cal@, m)) by {}
        }
        let mut i: usize = 0;
        while i < vals.len()
            invariant
                self.inv(),
                component_steps(self.cal@.second),
                self.first(p.view(), 5),
                self.covered(p.view(), 5),
                self.prefix_ok(p.view(), 5),
                self.placed(p.view(), 5, cur),
                lo == (if cur {
                    Some(self.from.second)
                } else {
                    None::<u32>
                }),
                vals@ == component_iter(self.cal@.second, lo, 0, 59),
                i <= vals@.len(),
                forall|u: WallTime|
                    self.hit(u) && same_prefix(u, p.view(), 5) ==> !vals@.take(i as int).contains(
                        u.second as u32,
                    ),
            decreases vals@.len() - i,
        {
            let v = vals[i];
            let w = Wall {
                year: p.year,
                month: p.month,
                day: p.day,
                hour: p.hour,
                minute: p.minute,
                second: v,
            };
            proof {
                lemma_iter(self.cal@.second, lo, 0, 59);
                assert(admits_iter(self.cal@.second, 59, vals@[i as int]));
                assert(vals@[i as int] >= iter_floor(lo, 0));
            }
            match local_to_unix(self.tz, p.year as i32, p.month, p.day, p.hour, p.minute, v) {
                Some(ts) => {
                    proof {
                        assert(fires_at(self.cal@, self.tz, w.view()));
                        assert(wall_le(self.from.view(), w.view()));
                        assert forall|u: WallTime| self.hit(u) && same_prefix(u, p.view(), 5) implies wall_le(
                            w.view(),
                            u,
                        ) by {
                            assert(admits_iter(self.cal@.second, 59, u.second as u32));
                            assert(u.second >= iter_floor(lo, 0));
                            assert(vals@.contains(u.second as u32));
                            let j = choose|j: int| 0 <= j < vals@.len() && vals@[j] == u.second as u32;
                            if j < i {
                                assert(vals@.take(i as int)[j] == vals@[j]);
                                assert(vals@.take(i as int).contains(u.second as u32));
                            }
                        }
                    }
                    return Ok(Some((w, ts)));
                },
                None => {
                    proof {
                        assert forall|u: WallTime| self.hit(u) && same_prefix(u, p.view(), 5) implies !vals@.take(
                            i + 1,
                        ).contains(u.second as u32) by {
                            if vals@.take(i + 1).contains(u.second as u32) {
                                let j = choose|j: int| 0 <= j < i + 1 && #[trigger] vals@.take(i + 1)[j] == u.second as u32;
                                if j < i {
                                    assert(vals@.take(i as int)[j] == u.second as u32);
                                    assert(vals@.take(i as int).contains(u.second as u32));
                                } else {
                                    assert(u == w.view());
                                }
                            }
                        }
                    }
                },
            }
            i = i + 1;
        }
        proof {
            lemma_iter(self.cal@.second, lo, 0, 59);
            assert forall|u: WallTime| self.hit(u) && same_prefix(u, p.view(), 5) implies false by {
                assert(admits_iter(self.cal@.second, 59, u.second as u32));
                assert(u.second >= iter_floor(lo, 0));
                assert(vals@.contains(u.second as u32));
                assert(vals@.take(vals@.len() as int) =~= vals@);
            }
        }
        Ok(None)
    }


    proof fn lemma_complete(&self, p: WallTime, n: int, cur: bool, lo: Option<u32>, vals: Seq<u32>)
        requires
            0 <= n <= 4,
            self.inv(),
            self.placed(p, n, cur),
            n == 0 ==> cur,
            lo == (if cur {
                Some(field(self.from.view(), n) as u32)
            } else {
                None::<u32>
            }),
            vals == component_iter(comp(self.cal@, n), lo, field_min(n), field_max(n)),
            component_steps(comp(self.cal@, n)),
        ensures
            forall|u: WallTime|
                self.hit(u) && same_prefix(u, p, n) ==> #[trigger] vals.contains(field(u, n) as u32),
    {
        assert(component_wf(comp(self.cal@, n), field_min(n), field_max(n)));
        lemma_iter(comp(self.cal@, n), lo, field_min(n), field_max(n));
        assert forall|u: WallTime| self.hit(u) && same_prefix(u, p, n) implies #[trigger] vals.contains(
            field(u, n) as u32,
        ) by {
            assert(admits(comp(self.cal@, n), field_max(n) as int, field(u, n)));
            assert(admits_iter(comp(self.cal@, n), field_max(n) as int, field(u, n) as u32));
            if cur {
                assert(same_prefix(u, self.from.view(), n));
                if field(u, n) < field(self.from.view(), n) {
                    lemma_prefix_step(u, self.from.view(), n);
                }
            }
            assert(field(u, n) >= iter_floor(lo, field_min(n)));
        }
    }

    proof fn lemma_none_extends(&self, p: WallTime, n: int, w: WallTime, vals: Seq<u32>, i: int)
        requires
            0 <= n <= 4,
            0 <= i < vals.len(),
            same_prefix(w, p, n),
            field(w, n) == vals[i] as int,
            forall|u: WallTime| self.hit(u) && same_prefix(u, w, n + 1) ==> false,
            forall|u: WallTime|
                self.hit(u) && same_prefix(u, p, n) ==> !vals.take(i).contains(field(u, n) as u32),
        ensures
            forall|u: WallTime|
                self.hit(u) && same_prefix(u, p, n) ==> !vals.take(i + 1).contains(field(u, n) as u32),
    {
        assert forall|u: WallTime| self.hit(u) && same_prefix(u, p, n) implies !vals.take(i + 1).contains(
            field(u, n) as u32,
        ) by {
            if vals.take(i + 1).contains(field(u, n) as u32) {
                let j = choose|j: int| 0 <= j < i + 1 && #[trigger] vals.take(i + 1)[j] == field(u, n) as u32;
                if j < i {
                    assert(vals.take(i)[j] == field(u, n) as u32);
                    assert(vals.take(i).contains(field(u, n) as u32));
                } else {
                    assert(admits(comp(self.cal@, n), field_max(n) as int, field(u, n)));
                    assert(field(u, n) == vals[i] as int);
                    assert(same_prefix(u, w, n + 1));
                }
            }
        }
    }

    proof fn lemma_found_extends(
        &self,
        p: WallTime,
        n: int,
        w: WallTime,
        vals: Seq<u32>,
        i: int,
        found_w: WallTime,
    )
        requires
            0 <= n <= 4,
            0 <= i < vals.len(),
            nondecreasing(vals),
            same_prefix(w, p, n),
            field(w, n) == vals[i] as int,
            same_prefix(found_w, w, n + 1),
            forall|u: WallTime| self.hit(u) && same_prefix(u, w, n + 1) ==> wall_le(found_w, u),
            forall|u: WallTime|
                self.hit(u) && same_prefix(u, p, n) ==> #[trigger] vals.contains(field(u, n) as u32),
            forall|u: WallTime|
                self.hit(u) && same_prefix(u, p, n) ==> !vals.take(i).contains(field(u, n) as u32),
        ensures
            same_prefix(found_w, p, n),
            forall|u: WallTime| self.hit(u) && same_prefix(u, p, n) ==> wall_le(found_w, u),
    {
        assert forall|u: WallTime| self.hit(u) && same_prefix(u, p, n) implies wall_le(found_w, u) by {
            assert(vals.contains(field(u, n) as u32));
            let j = choose|j: int| 0 <= j < vals.len() && vals[j] == field(u, n) as u32;
            if j < i {
                assert(vals.take(i)[j] == vals[j]);
                assert(vals.take(i).contains(field(u, n) as u32));
            }
            assert(vals[j] >= vals[i]);
            assert(admits(comp(self.cal@, n), field_max(n) as int, field(u, n)));
            if field(u, n) == field(w, n) {
                assert(same_prefix(u, w, n + 1));
            } else {
                assert(field(found_w, n) < field(u, n));
                assert(same_prefix(found_w, u, n));
                lemma_prefix_step(found_w, u, n);
            }
        }
    }

    /// Going on to value `vals[i]` of field `n` keeps no firing before the prefix: earlier
    /// values held none.
    proof fn lemma_first_extends(&self, p: WallTime, n: int, w: WallTime, vals: Seq<u32>, i: int)
        requires
            0 <= n <= 4,
            0 <= i < vals.len(),
            nondecreasing(vals),
            same_prefix(w, p, n),
            field(w, n) == vals[i] as int,
            self.first(p, n),
            forall|u: WallTime|
                self.hit(u) && same_prefix(u, p, n) ==> #[trigger] vals.contains(field(u, n) as u32),
            forall|u: WallTime|
                self.hit(u) && same_prefix(u, p, n) ==> !vals.take(i).contains(field(u, n) as u32),
        ensures
            self.first(w, n + 1),
    {
        assert forall|u: WallTime| self.hit(u) implies !prefix_after(u, w, n + 1) by {
            if prefix_after(u, w, n + 1) {
                lemma_before_extended(u, p, w, n);
                if !prefix_after(u, p, n) {
                    assert(vals.contains(field(u, n) as u32));
                    let j = choose|j: int| 0 <= j < vals.len() && vals[j] == field(u, n) as u32;
                    if j >= i {
                        assert(vals[i] <= vals[j]);
                    }
                    assert(vals.take(i)[j] == vals[j]);
                    assert(vals.take(i).contains(field(u, n) as u32));
                }
            }
        }
    }

    /// A prefix that the search lists below `p` holds, in field `n`, a value listed there.
    proof fn lemma_listed_in_vals(
        &self,
        p: WallTime,
        n: int,
        cur: bool,
        lo: Option<u32>,
        vals: Seq<u32>,
        q: WallTime,
        m: int,
    )
        requires
            0 <= n < m <= 5,
            self.inv(),
            self.placed(p, n, cur),
            n == 0 ==> cur,
            lo == (if cur {
                Some(field(self.from.view(), n) as u32)
            } else {
                None::<u32>
            }),
            vals == component_iter(comp(self.cal@, n), lo, field_min(n), field_max(n)),
            component_steps(comp(self.cal@, n)),
            same_prefix(q, p, n),
            search_lists(self.cal@, self.tz, self.from.view(), q, m),
        ensures
            vals.contains(field(q, n) as u32),
    {
        assert(component_wf(comp(self.cal@, n), field_min(n), field_max(n)));
        lemma_iter(comp(self.cal@, n), lo, field_min(n), field_max(n));
        assert(prefix_admitted(self.cal@, q, m));
        assert(admits(comp(self.cal@, n), field_max(n) as int, field(q, n)));
        assert(admits_iter(comp(self.cal@, n), field_max(n) as int, field(q, n) as u32));
        if cur {
            assert(same_prefix(q, self.from.view(), n));
            if field(q, n) < field(self.from.view(), n) {
                assert(prefix_after(q, self.from.view(), m));
            }
        }
        assert(field(q, n) >= iter_floor(lo, field_min(n)));
    }

    /// The prefixes below the value `vals[i]` are covered once the search below it is.
    proof fn lemma_covered_step(&self, p: WallTime, n: int, w: WallTime, vals: Seq<u32>, i: int)
        requires
            0 <= n <= 4,
            0 <= i < vals.len(),
            same_prefix(w, p, n),
            field(w, n) == vals[i] as int,
            self.covered_upto(p, n, vals, i),
            self.covered(w, n + 1),
        ensures
            self.covered_upto(p, n, vals, i + 1),
    {
        assert forall|q: WallTime, m: int|
            n < m <= 5 && same_prefix(q, p, n) && #[trigger] search_lists(
                self.cal@,
                self.tz,
                self.from.view(),
                q,
                m,
            ) && vals.take(i + 1).contains(field(q, n) as u32) implies component_steps(
            comp(self.cal@, m),
        ) by {
            let j = choose|j: int| 0 <= j < i + 1 && #[trigger] vals.take(i + 1)[j] == field(q, n) as u32;
            if j < i {
                assert(vals.take(i)[j] == field(q, n) as u32);
                assert(vals.take(i).contains(field(q, n) as u32));
            } else {
                assert(same_prefix(q, w, n + 1));
            }
        }
    }

    /// A search that went through every value of field `n` covered the prefix.
    proof fn lemma_covered_all(
        &self,
        p: WallTime,
        n: int,
        cur: bool,
        lo: Option<u32>,
        vals: Seq<u32>,
    )
        requires
            0 <= n <= 4,
            self.inv(),
            self.placed(p, n, cur),
            n == 0 ==> cur,
            lo == (if cur {
                Some(field(self.from.view(), n) as u32)
            } else {
                None::<u32>
            }),
            vals == component_iter(comp(self.cal@, n), lo, field_min(n), field_max(n)),
            component_steps(comp(self.cal@, n)),
            self.covered_upto(p, n, vals, vals.len() as int),
        ensures
            self.covered(p, n),
    {
        assert(vals.take(vals.len() as int) =~= vals);
        assert forall|q: WallTime, m: int|
            n <= m <= 5 && same_prefix(q, p, n) && #[trigger] search_lists(
                self.cal@,
                self.tz,
                self.from.view(),
                q,
                m,
            ) implies component_steps(comp(self.cal@, m)) by {
            if m > n {
                self.lemma_listed_in_vals(p, n, cur, lo, vals, q, m);
            }
        }
    }

    /// A search that found its first firing below the value `vals[i]` covered the prefix:
    /// any later value comes after that firing.
    proof fn lemma_covered_found(
        &self,
        p: WallTime,
        n: int,
        cur: bool,
        lo: Option<u32>,
        vals: Seq<u32>,
        i: int,
        w: WallTime,
        fw: WallTime,
    )
        requires
            0 <= n <= 4,
            0 <= i < vals.len(),
            self.inv(),
            self.placed(p, n, cur),
            n == 0 ==> cur,
            lo == (if cur {
                Some(field(self.from.view(), n) as u32)
            } else {
                None::<u32>
            }),
            vals == component_iter(comp(self.cal@, n), lo, field_min(n), field_max(n)),
            component_steps(comp(self.cal@, n)),
            nondecreasing(vals),
            same_prefix(w, p, n),
            field(w, n) == vals[i] as int,
            self.covered_upto(p, n, vals, i),
            self.covered(w, n + 1),
            same_prefix(fw, w, n + 1),
            self.hit(fw),
        ensures
            self.covered(p, n),
    {
        assert forall|q: WallTime, m: int|
            n <= m <= 5 && same_prefix(q, p, n) && #[trigger] search_lists(
                self.cal@,
                self.tz,
                self.from.view(),
                q,
                m,
            ) implies component_steps(comp(self.cal@, m)) by {
            if m > n {
                self.lemma_listed_in_vals(p, n, cur, lo, vals, q, m);
                let j = choose|j: int| 0 <= j < vals.len() && vals[j] == field(q, n) as u32;
                if field(q, n) == field(w, n) {
                    assert(same_prefix(q, w, n + 1));
                } else if field(q, n) < field(w, n) {
                    if j >= i {
                        assert(vals[i] <= vals[j]);
                    }
                    assert(vals.take(i)[j] == vals[j]);
                    assert(vals.take(i).contains(field(q, n) as u32));
                } else {
                    assert(same_prefix(fw, q, n));
                    assert(field(fw, n) < field(q, n));
                    assert(prefix_after(fw, q, m));
                }
            }
        }
    }

    fn weekday_listed(&self, y: u32, m: u32, d: u32) -> (r: bool)
        requires
            y <= 2099,
            1 <= m <= 12,
            1 <= d <= days_in_month_spec(y as int, m as int),
        ensures
            r == weekday_ok(self.cal@.weekdays, y as int, m as int, d as int),
    {
        match &self.cal.weekdays {
            None => true,
            Some(list) => {
                let wd = weekday_of_date(y as i32, m, d);
                let mut k: usize = 0;
                while k < list.len()
                    invariant
                        k <= list@.len(),
                        self.cal@.weekdays == Some(list@),
                        wd == weekday_index(y as int, m as int, d as int),
                        forall|j: int| 0 <= j < k ==> (#[trigger] list@[j]).index_spec() != wd,
                    decreases list@.len() - k,
                {
                    if list[k].index() as u32 == wd {
                        let ghost l = list@;
                        assert(l[k as int].index_spec() == weekday_index(y as int, m as int, d as int));
                        return true;
                    }
                    k = k + 1;
                }
                false
            },
        }
    }

    fn minutes(&self, p: Wall, cur: bool) -> (r: Result<Option<(Wall, i64)>, ()>)
        requires
            self.inv(),
            self.prefix_ok(p.view(), 4),
            self.placed(p.view(), 4, cur),
            self.first(p.view(), 4),
            4 == 0 ==> cur,
        ensures
            match r {
                Ok(x) => self.found(p.view(), 4, x),
                Err(_) => self.stuck(),
            },
            r is Ok ==> self.covered(p.view(), 4),
    {
        let lo: Option<u32> = if cur {
            Some(self.from.minute)
        } else {
            None
        };
        if !self.cal.minute.step_nonzero() {
            proof {
                assert forall|u: WallTime|
                    fires_at(self.cal@, self.tz, u) && wall_le(self.from.view(), u) implies !prefix_after(
                    u,
                    p.view(),
                    4,
                ) by {
                    assert(self.hit(u));
                }
                assert(search_lists(self.cal@, self.tz, self.from.view(), p.view(), 4));
            }
            return Err(());
        }
        let vals = self.cal.minute.iter(lo);
        proof {
            self.lemma_complete(p.view(), 4, cur, lo, vals@);
            lemma_iter(self.cal@.minute, lo, 0, 59);
        }
        proof {
            assert(vals@.take(0) =~= Seq::<u32>::empty());
        }
        let mut i: usize = 0;
        while i < vals.len()
            invariant
                self.inv(),
                component_steps(self.cal@.minute),
                self.first(p.view(), 4),
                self.covered_upto(p.view(), 4, vals@, i as int),
                self.prefix_ok(p.view(), 4),
                self.placed(p.view(), 4, cur),
                4 == 0 ==> cur,
                lo == (if cur {
                    Some(field(self.from.view(), 4) as u32)
                } else {
                    None::<u32>
                }),
                vals@ == component_iter(self.cal@.minute, lo, 0, 59),
                nondecreasing(vals@),
                i <= vals@.len(),
                forall|u: WallTime|
                    self.hit(u) && same_prefix(u, p.view(), 4) ==> #[trigger] vals@.contains(
                        field(u, 4) as u32,
                    ),
                forall|u: WallTime|
                    self.hit(u) && same_prefix(u, p.view(), 4) ==> !vals@.take(i as int).contains(
                        field(u, 4) as u32,
                    ),
            decreases vals@.len() - i,
        {
            let v = vals[i];
            let w = Wall { year: p.year, month: p.month, day: p.day, hour: p.hour, minute: v, second: 0 };
            proof {
                lemma_iter(self.cal@.minute, lo, 0, 59);
                assert(admits_iter(self.cal@.minute, 59, vals@[i as int]));
                assert(vals@[i as int] >= iter_floor(lo, 0));
            }
            {
                proof {
                    self.lemma_first_extends(p.view(), 4, w.view(), vals@, i as int);
                }
                let sub = self.seconds(w, cur && v == self.from.minute);
                match sub {
                    Err(e) => {
                        return Err(e);
                    },
                    Ok(Some((fw, ts))) => {
                        proof {
                            self.lemma_found_extends(p.view(), 4, w.view(), vals@, i as int, fw.view());
                            self.lemma_covered_found(
                                p.view(),
                                4,
                                cur,
                                lo,
                                vals@,
                                i as int,
                                w.view(),
                                fw.view(),
                            );
                        }
                        return Ok(Some((fw, ts)));
                    },
                    Ok(None) => {
                        proof {
                            self.lemma_none_extends(p.view(), 4, w.view(), vals@, i as int);
                            self.lemma_covered_step(p.view(), 4, w.view(), vals@, i as int);
                        }
                    },
                }
            }
            i = i + 1;
        }
        proof {
            assert forall|u: WallTime| self.hit(u) && same_prefix(u, p.view(), 4) implies false by {
                assert(vals@.contains(field(u, 4) as u32));
                assert(vals@.take(vals@.len() as int) =~= vals@);
            }
        }
        proof {
            self.lemma_covered_all(p.view(), 4, cur, lo, vals@);
        }
        Ok(None)
    }

    fn hours(&self, p: Wall, cur: bool) -> (r: Result<Option<(Wall, i64)>, ()>)
        requires
            self.inv(),
            self.prefix_ok(p.view(), 3),
            self.placed(p.view(), 3, cur),
            self.first(p.view(), 3),
            3 == 0 ==> cur,
        ensures
            match r {
                Ok(x) => self.found(p.view(), 3, x),
                Err(_) => self.stuck(),
            },
            r is Ok ==> self.covered(p.view(), 3),
    {
        let lo: Option<u32> = if cur {
            Some(self.from.hour)
        } else {
            None
        };
        if !self.cal.hour.step_nonzero() {
            proof {
                assert forall|u: WallTime|
                    fires_at(self.cal@, self.tz, u) && wall_le(self.from.view(), u) implies !prefix_after(
                    u,
                    p.view(),
                    3,
                ) by {
                    assert(self.hit(u));
                }
                assert(search_lists(self.cal@, self.tz, self.from.view(), p.view(), 3));
            }
            return Err(());
        }
        let vals = self.cal.hour.iter(lo);
        proof {
            self.lemma_complete(p.view(), 3, cur, lo, vals@);
            lemma_iter(self.cal@.hour, lo, 0, 23);
        }
        proof {
            assert(vals@.take(0) =~= Seq::<u32>::empty());
        }
        let mut i: usize = 0;
        while i < vals.len()
            invariant
                self.inv(),
                component_steps(self.cal@.hour),
                self.first(p.view(), 3),
                self.covered_upto(p.view(), 3, vals@, i as int),
                self.prefix_ok(p.view(), 3),
                self.placed(p.view(), 3, cur),
                3 == 0 ==> cur,
                lo == (if cur {
                    Some(field(self.from.view(), 3) as u32)
                } else {
                    None::<u32>
                }),
                vals@ == component_iter(self.cal@.hour, lo, 0, 23),
                nondecreasing(vals@),
                i <= vals@.len(),
                forall|u: WallTime|
                    self.hit(u) && same_prefix(u, p.view(), 3) ==> #[trigger] vals@.contains(
                        field(u, 3) as u32,
                    ),
                forall|u: WallTime|
                    self.hit(u) && same_prefix(u, p.view(), 3) ==> !vals@.take(i as int).contains(
                        field(u, 3) as u32,
                    ),
            decreases vals@.len() - i,
        {
            let v = vals[i];
            let w = Wall { year: p.year, month: p.month, day: p.day, hour: v, minute: 0, second: 0 };
            proof {
                lemma_iter(self.cal@.hour, lo, 0, 23);
                assert(admits_iter(self.cal@.hour, 23, vals@[i as int]));
                assert(vals@[i as int] >= iter_floor(lo, 0));
            }
            {
                proof {
                    self.lemma_first_extends(p.view(), 3, w.view(), vals@, i as int);
                }
                let sub = self.minutes(w, cur && v == self.from.hour);
                match sub {
                    Err(e) => {
                        return Err(e);
                    },
                    Ok(Some((fw, ts))) => {
                        proof {
                            self.lemma_found_extends(p.view(), 3, w.view(), vals@, i as int, fw.view());
                            self.lemma_covered_found(
                                p.view(),
                                3,
                                cur,
                                lo,
                                vals@,
                                i as int,
                                w.view(),
                                fw.view(),
                            );
                        }
                        return Ok(Some((fw, ts)));
                    },
                    Ok(None) => {
                        proof {
                            self.lemma_none_extends(p.view(), 3, w.view(), vals@, i as int);
                            self.lemma_covered_step(p.view(), 3, w.view(), vals@, i as int);
                        }
                    },
                }
            }
            i = i + 1;
        }
        proof {
            assert forall|u: WallTime| self.hit(u) && same_prefix(u, p.view(), 3) implies false by {
                assert(vals@.contains(field(u, 3) as u32));
                assert(vals@.take(vals@.len() as int) =~= vals@);
            }
        }
        proof {
            self.lemma_covered_all(p.view(), 3, cur, lo, vals@);
        }
        Ok(None)
    }

    fn days(&self, p: Wall, cur: bool) -> (r: Result<Option<(Wall, i64)>, ()>)
        requires
            self.inv(),
            self.prefix_ok(p.view(), 2),
            self.placed(p.view(), 2, cur),
            self.first(p.view(), 2),
            2 == 0 ==> cur,
        ensures
            match r {
                Ok(x) => self.found(p.view(), 2, x),
                Err(_) => self.stuck(),
            },
            r is Ok ==> self.covered(p.view(), 2),
    {
        let lo: Option<u32> = if cur {
            Some(self.from.day)
        } else {
            None
        };
        if !self.cal.day.step_nonzero() {
            proof {
                assert forall|u: WallTime|
                    fires_at(self.cal@, self.tz, u) && wall_le(self.from.view(), u) implies !prefix_after(
                    u,
                    p.view(),
                    2,
                ) by {
                    assert(self.hit(u));
                }
                assert(search_lists(self.cal@, self.tz, self.from.view(), p.view(), 2));
            }
            return Err(());
        }
        let vals = self.cal.day.iter(lo);
        proof {
            self.lemma_complete(p.view(), 2, cur, lo, vals@);
            lemma_iter(self.cal@.day, lo, 1, 31);
        }
        proof {
            assert(vals@.take(0) =~= Seq::<u32>::empty());
        }
        let mut i: usize = 0;
        while i < vals.len()
            invariant
                self.inv(),
                component_steps(self.cal@.day),
                self.first(p.view(), 2),
                self.covered_upto(p.view(), 2, vals@, i as int),
                self.prefix_ok(p.view(), 2),
                self.placed(p.view(), 2, cur),
                2 == 0 ==> cur,
                lo == (if cur {
                    Some(field(self.from.view(), 2) as u32)
                } else {
                    None::<u32>
                }),
                vals@ == component_iter(self.cal@.day, lo, 1, 31),
                nondecreasing(vals@),
                i <= vals@.len(),
                forall|u: WallTime|
                    self.hit(u) && same_prefix(u, p.view(), 2) ==> #[trigger] vals@.contains(
                        field(u, 2) as u32,
                    ),
                forall|u: WallTime|
                    self.hit(u) && same_prefix(u, p.view(), 2) ==> !vals@.take(i as int).contains(
                        field(u, 2) as u32,
                    ),
            decreases vals@.len() - i,
        {
            let v = vals[i];
            let w = Wall { year: p.year, month: p.month, day: v, hour: 0, minute: 0, second: 0 };
            proof {
                lemma_iter(self.cal@.day, lo, 1, 31);
                assert(admits_iter(self.cal@.day, 31, vals@[i as int]));
                assert(vals@[i as int] >= iter_floor(lo, 1));
            }
            let dim = days_in_month(p.year, p.month);
            let ok = v <= dim && self.weekday_listed(p.year, p.month, v);
            if ok {
                proof {
                    self.lemma_first_extends(p.view(), 2, w.view(), vals@, i as int);
                }
                let sub = self.hours(w, cur && v == self.from.day);
                match sub {
                    Err(e) => {
                        return Err(e);
                    },
                    Ok(Some((fw, ts))) => {
                        proof {
                            self.lemma_found_extends(p.view(), 2, w.view(), vals@, i as int, fw.view());
                            self.lemma_covered_found(
                                p.view(),
                                2,
                                cur,
                                lo,
                                vals@,
                                i as int,
                                w.view(),
                                fw.view(),
                            );
                        }
                        return Ok(Some((fw, ts)));
                    },
                    Ok(None) => {
                        proof {
                            self.lemma_none_extends(p.view(), 2, w.view(), vals@, i as int);
                            self.lemma_covered_step(p.view(), 2, w.view(), vals@, i as int);
                        }
                    },
                }
            } else {
                proof {
                    assert forall|u: WallTime| self.hit(u) && same_prefix(u, w.view(), 3) implies false by {
                        assert(u.day == v);
                    }
                    self.lemma_none_extends(p.view(), 2, w.view(), vals@, i as int);
                    assert forall|q: WallTime, m: int|
                        3 <= m <= 5 && same_prefix(q, w.view(), 3) && #[trigger] search_lists(
                        self.cal@,
                        self.tz,
                        self.from.view(),
                        q,
                        m,
                    ) implies component_steps(comp(self.cal@, m)) by {
                        assert(prefix_admitted(self.cal@, q, m));
                        assert(q.day == v);
                    }
                    self.lemma_covered_step(p.view(), 2, w.view(), vals@, i as int);
                }
            }
            i = i + 1;
        }
        proof {
            assert forall|u: WallTime| self.hit(u) && same_prefix(u, p.view(), 2) implies false by {
                assert(vals@.contains(field(u, 2) as u32));
                assert(vals@.take(vals@.len() as int) =~= vals@);
            }
        }
        proof {
            self.lemma_covered_all(p.view(), 2, cur, lo, vals@);
        }
        Ok(None)
    }

    fn months(&self, p: Wall, cur: bool) -> (r: Result<Option<(Wall, i64)>, ()>)
        requires
            self.inv(),
            self.prefix_ok(p.view(), 1),
            self.placed(p.view(), 1, cur),
            self.first(p.view(), 1),
            1 == 0 ==> cur,
        ensures
            match r {
                Ok(x) => self.found(p.view(), 1, x),
                Err(_) => self.stuck(),
            },
            r is Ok ==> self.covered(p.view(), 1),
    {
        let lo: Option<u32> = if cur {
            Some(self.from.month)
        } else {
            None
        };
        if !self.cal.month.step_nonzero() {
            proof {
                assert forall|u: WallTime|
                    fires_at(self.cal@, self.tz, u) && wall_le(self.from.view(), u) implies !prefix_after(
                    u,
                    p.view(),
                    1,
                ) by {
                    assert(self.hit(u));
                }
                assert(search_lists(self.cal@, self.tz, self.from.view(), p.view(), 1));
            }
            return Err(());
        }
        let vals = self.cal.month.iter(lo);
        proof {
            self.lemma_complete(p.view(), 1, cur, lo, vals@);
            lemma_iter(self.cal@.month, lo, 1, 12);
        }
        proof {
            assert(vals@.take(0) =~= Seq::<u32>::empty());
        }
        let mut i: usize = 0;
        while i < vals.len()
            invariant
                self.inv(),
                component_steps(self.cal@.month),
                self.first(p.view(), 1),
                self.covered_upto(p.view(), 1, vals@, i as int),
                self.prefix_ok(p.view(), 1),
                self.placed(p.view(), 1, cur),
                1 == 0 ==> cur,
                lo == (if cur {
                    Some(field(self.from.view(), 1) as u32)
                } else {
                    None::<u32>
                }),
                vals@ == component_iter(self.cal@.month, lo, 1, 12),
                nondecreasing(vals@),
                i <= vals@.len(),
                forall|u: WallTime|
                    self.hit(u) && same_prefix(u, p.view(), 1) ==> #[trigger] vals@.contains(
                        field(u, 1) as u32,
                    ),
                forall|u: WallTime|
                    self.hit(u) && same_prefix(u, p.view(), 1) ==> !vals@.take(i as int).contains(
                        field(u, 1) as u32,
                    ),
            decreases vals@.len() - i,
        {
            let v = vals[i];
            let w = Wall { year: p.year, month: v, day: 0, hour: 0, minute: 0, second: 0 };
            proof {
                lemma_iter(self.cal@.month, lo, 1, 12);
                assert(admits_iter(self.cal@.month, 12, vals@[i as int]));
                assert(vals@[i as int] >= iter_floor(lo, 1));
            }
            {
                proof {
                    self.lemma_first_extends(p.view(), 1, w.view(), vals@, i as int);
                }
                let sub = self.days(w, cur && v == self.from.month);
                match sub {
                    Err(e) => {
                        return Err(e);
                    },
                    Ok(Some((fw, ts))) => {
                        proof {
                            self.lemma_found_extends(p.view(), 1, w.view(), vals@, i as int, fw.view());
                            self.lemma_covered_found(
                                p.view(),
                                1,
                                cur,
                                lo,
                                vals@,
                                i as int,
                                w.view(),
                                fw.view(),
                            );
                        }
                        return Ok(Some((fw, ts)));
                    },
                    Ok(None) => {
                        proof {
                            self.lemma_none_extends(p.view(), 1, w.view(), vals@, i as int);
                            self.lemma_covered_step(p.view(), 1, w.view(), vals@, i as int);
                        }
                    },
                }
            }
            i = i + 1;
        }
        proof {
            assert forall|u: WallTime| self.hit(u) && same_prefix(u, p.view(), 1) implies false by {
                assert(vals@.contains(field(u, 1) as u32));
                assert(vals@.take(vals@.len() as int) =~= vals@);
            }
        }
        proof {
            self.lemma_covered_all(p.view(), 1, cur, lo, vals@);
        }
        Ok(None)
    }

    fn years(&self, p: Wall, cur: bool) -> (r: Result<Option<(Wall, i64)>, ()>)
        requires
            self.inv(),
            self.prefix_ok(p.view(), 0),
            self.placed(p.view(), 0, cur),
            self.first(p.view(), 0),
            0 == 0 ==> cur,
        ensures
            match r {
                Ok(x) => self.found(p.view(), 0, x),
                Err(_) => self.stuck(),
            },
            r is Ok ==> self.covered(p.view(), 0),
    {
        let lo: Option<u32> = Some(self.from.year);
        if !self.cal.year.step_nonzero() {
            proof {
                assert forall|u: WallTime|
                    fires_at(self.cal@, self.tz, u) && wall_le(self.from.view(), u) implies !prefix_after(
                    u,
                    p.view(),
                    0,
                ) by {
                    assert(self.hit(u));
                }
                assert(search_lists(self.cal@, self.tz, self.from.view(), p.view(), 0));
            }
            return Err(());
        }
        let vals = self.cal.year.iter(lo);
        proof {
            self.lemma_complete(p.view(), 0, cur, lo, vals@);
            lemma_iter(self.cal@.year, lo, 1970, 2099);
        }
        proof {
            assert(vals@.take(0) =~= Seq::<u32>::empty());
        }
        let mut i: usize = 0;
        while i < vals.len()
            invariant
                self.inv(),
                component_steps(self.cal@.year),
                self.first(p.view(), 0),
                self.covered_upto(p.view(), 0, vals@, i as int),
                self.prefix_ok(p.view(), 0),
                self.placed(p.view(), 0, cur),
                0 == 0 ==> cur,
                lo == (if cur {
                    Some(field(self.from.view(), 0) as u32)
                } else {
                    None::<u32>
                }),
                vals@ == component_iter(self.cal@.year, lo, 1970, 2099),
                nondecreasing(vals@),
                i <= vals@.len(),
                forall|u: WallTime|
                    self.hit(u) && same_prefix(u, p.view(), 0) ==> #[trigger] vals@.contains(
                        field(u, 0) as u32,
                    ),
                forall|u: WallTime|
                    self.hit(u) && same_prefix(u, p.view(), 0) ==> !vals@.take(i as int).contains(
                        field(u, 0) as u32,
                    ),
            decreases vals@.len() - i,
        {
            let v = vals[i];
            let w = Wall { year: v, month: 0, day: 0, hour: 0, minute: 0, second: 0 };
            proof {
                lemma_iter(self.cal@.year, lo, 1970, 2099);
                assert(admits_iter(self.cal@.year, 2099, vals@[i as int]));
                assert(vals@[i as int] >= iter_floor(lo, 1970));
            }
            {
                proof {
                    self.lemma_first_extends(p.view(), 0, w.view(), vals@, i as int);
                }
                let sub = self.months(w, v == self.from.year);
                match sub {
                    Err(e) => {
                        return Err(e);
                    },
                    Ok(Some((fw, ts))) => {
                        proof {
                            self.lemma_found_extends(p.view(), 0, w.view(), vals@, i as int, fw.view());
                            self.lemma_covered_found(
                                p.view(),
                                0,
                                cur,
                                lo,
                                vals@,
                                i as int,
                                w.view(),
                                fw.view(),
                            );
                        }
                        return Ok(Some((fw, ts)));
                    },
                    Ok(None) => {
                        proof {
                            self.lemma_none_extends(p.view(), 0, w.view(), vals@, i as int);
                            self.lemma_covered_step(p.view(), 0, w.view(), vals@, i as int);
                        }
                    },
                }
            }
            i = i + 1;
        }
        proof {
            assert forall|u: WallTime| self.hit(u) && same_prefix(u, p.view(), 0) implies false by {
                assert(vals@.contains(field(u, 0) as u32));
                assert(vals@.take(vals@.len() as int) =~= vals@);
            }
        }
        proof {
            self.lemma_covered_all(p.view(), 0, cur, lo, vals@);
        }
        Ok(None)
    }
}

/// The zone is the one that the name "UTC" looks up.
pub open spec fn is_utc(tz: chrono_tz::Tz) -> bool {
    spec_parse_tz("UTC"@) == Some(tz)
}

/// A wall-clock reading that is a real date and time of day.
pub open spec fn valid_wall(w: WallTime) -> bool {
    &&& valid_date(w.year, w.month, w.day)
    &&& 0 <= w.hour <= 23
    &&& 0 <= w.minute <= 59
    &&& 0 <= w.second <= 59
}

/// The Unix time of a wall-clock reading at UTC.
pub open spec fn wall_secs(w: WallTime) -> int {
    unix_of(w.year, w.month, w.day, w.hour, w.minute, w.second)
}

/// The calendar, read at UTC, fires at Unix second `u`.
pub open spec fn fires_at_unix(cal: CalendarView, u: int) -> bool {
    exists|w: WallTime| valid_wall(w) && wall_secs(w) == u && #[trigger] fires_at(cal, utc_spec(), w)
}

/// The Unix time of an instant, if any.
pub open spec fn opt_secs(t: Option<Timestamp>) -> Option<u64> {
    match t {
        Some(x) => Some(x@),
        None => None,
    }
}

/// `r` is the first Unix second at or after `from` at which the calendar, read at UTC, fires,
/// and none when it never does.
pub open spec fn earliest_unix_firing(cal: CalendarView, from: int, r: Option<u64>) -> bool {
    match r {
        Some(t) => {
            &&& from <= t
            &&& fires_at_unix(cal, t as int)
            &&& forall|u: int| from <= u < t ==> !#[trigger] fires_at_unix(cal, u)
        },
        None => forall|u: int| from <= u ==> !#[trigger] fires_at_unix(cal, u),
    }
}

/// Wall-clock order is the order of Unix time at UTC.
proof fn lemma_secs_order(a: WallTime, b: WallTime)
    requires
        valid_wall(a),
        valid_wall(b),
    ensures
        wall_le(a, b) ==> wall_secs(a) <= wall_secs(b),
        !wall_le(a, b) ==> wall_secs(b) < wall_secs(a),
{
    if a.year == b.year && a.month == b.month && a.day == b.day {
    } else if a.year < b.year || (a.year == b.year && a.month < b.month) || (a.year == b.year
        && a.month == b.month && a.day < b.day) {
        lemma_days_strict(a.year, a.month, a.day, b.year, b.month, b.day);
    } else {
        lemma_days_strict(b.year, b.month, b.day, a.year, a.month, a.day);
    }
}

/// A second at which a well-formed calendar fires is a real date and time of day.
proof fn lemma_firing_valid(cal: CalendarView, tz: chrono_tz::Tz, w: WallTime)
    requires
        calendar_wf(cal),
        fires_at(cal, tz, w),
    ensures
        valid_wall(w),
        w.year <= 2099,
{
    assert(0 <= w.year <= 2099) by {
        if !(cal.year is Any) {
            assert(component_contains(cal.year, w.year as u32));
            if let ComponentView::Values(vs) = cal.year {
                let k = choose|k: int| 0 <= k < vs.len() && vs[k] == w.year as u32;
                assert(vs[k] <= 2099);
            }
        }
    }
    assert(w.hour <= 23) by {
        if !(cal.hour is Any) {
            assert(component_contains(cal.hour, w.hour as u32));
            if let ComponentView::Values(vs) = cal.hour {
                let k = choose|k: int| 0 <= k < vs.len() && vs[k] == w.hour as u32;
                assert(vs[k] <= 23);
            }
        }
    }
    assert(w.minute <= 59) by {
        if !(cal.minute is Any) {
            assert(component_contains(cal.minute, w.minute as u32));
            if let ComponentView::Values(vs) = cal.minute {
                let k = choose|k: int| 0 <= k < vs.len() && vs[k] == w.minute as u32;
                assert(vs[k] <= 59);
            }
        }
    }
    assert(w.second <= 59) by {
        if !(cal.second is Any) {
            assert(component_contains(cal.second, w.second as u32));
            if let ComponentView::Values(vs) = cal.second {
                let k = choose|k: int| 0 <= k < vs.len() && vs[k] == w.second as u32;
                assert(vs[k] <= 59);
            }
        }
    }
    assert(w.month <= 12) by {
        if !(cal.month is Any) {
            assert(component_contains(cal.month, w.month as u32));
            if let ComponentView::Values(vs) = cal.month {
                let k = choose|k: int| 0 <= k < vs.len() && vs[k] == w.month as u32;
                assert(vs[k] <= 12);
            }
        }
    }
}

/// The first day of 1970 is day 0.
proof fn lemma_epoch()
    ensures
        days_from_civil(1970, 1, 1) == 0,
{
}

/// What the search finds, read at UTC: the earliest firing from a Unix time is the earliest
/// firing from its wall-clock reading.
proof fn lemma_unix_firing(cal: CalendarView, tz: chrono_tz::Tz, fw: WallTime, secs: int, r: Option<(WallTime, int)>)
    requires
        calendar_wf(cal),
        is_utc(tz),
        valid_wall(fw),
        wall_secs(fw) == secs,
        match r {
            Some((w, ts)) => is_next_firing(cal, tz, fw, w) && wall_unix(tz, w) == Some(ts),
            None => forall|u: WallTime| fires_at(cal, tz, u) && wall_le(fw, u) ==> false,
        },
    ensures
        match r {
            Some((w, ts)) => secs <= ts && fires_at_unix(cal, ts) && forall|u: int|
                secs <= u < ts ==> !#[trigger] fires_at_unix(cal, u),
            None => forall|u: int| secs <= u ==> !#[trigger] fires_at_unix(cal, u),
        },
{
    assert(utc_spec() == tz);
    match r {
        Some((w, ts)) => {
            lemma_firing_valid(cal, tz, w);
            lemma_secs_order(fw, w);
            assert(fires_at_unix(cal, ts));
            assert forall|u: int| secs <= u < ts implies !#[trigger] fires_at_unix(cal, u) by {
                if fires_at_unix(cal, u) {
                    let v = choose|v: WallTime|
                        valid_wall(v) && wall_secs(v) == u && #[trigger] fires_at(cal, utc_spec(), v);
                    lemma_secs_order(fw, v);
                    lemma_secs_order(w, v);
                }
            }
        },
        None => {
            assert forall|u: int| secs <= u implies !#[trigger] fires_at_unix(cal, u) by {
                if fires_at_unix(cal, u) {
                    let v = choose|v: WallTime|
                        valid_wall(v) && wall_secs(v) == u && #[trigger] fires_at(cal, utc_spec(), v);
                    lemma_secs_order(fw, v);
                }
            }
        },
    }
}

/// A calendar fires, read at UTC, only before 2100, so well within chrono's range: searching
/// again from one of its firings is allowed (`Calendar::next_occurrence` takes the time, and
/// states the earliest firing from it).
pub proof fn lemma_firing_in_range(cal: CalendarView, t: u64)
    requires
        calendar_wf(cal),
        fires_at_unix(cal, t as int),
    ensures
        t < 4102444800,
        in_chrono_range(t),
        t <= MAX_UNIX,
{
    let w = choose|w: WallTime| valid_wall(w) && wall_secs(w) == t as int && #[trigger] fires_at(cal, utc_spec(), w);
    lemma_firing_valid(cal, utc_spec(), w);
    assert(valid_date(2100, 1, 1));
    lemma_days_strict(w.year, w.month, w.day, 2100, 1, 1);
    assert(days_from_civil(2100, 1, 1) == 47482);
    assert(t as i64 == t);
}

/// Searching again from a calendar's next firing finds that same firing: a firing second is
/// its own next occurrence. (`lemma_firing_in_range` shows that the second search can be made
/// and that `Calendar::next_occurrence` states its earliest firing.)
pub proof fn lemma_next_firing_is_fixed(cal: CalendarView, from: int, t: u64, r: Option<u64>)
    requires
        earliest_unix_firing(cal, from, Some(t)),
        earliest_unix_firing(cal, t as int, r),
    ensures
        r == Some(t),
{
    assert(fires_at_unix(cal, t as int));
    match r {
        Some(t2) => {
            if t2 > t {
                assert(t <= t < t2);
            }
        },
        None => {
            assert(t as int <= t as int);
        },
    }
}

proof fn lemma_wall_le_antisym(a: WallTime, b: WallTime)
    requires
        wall_le(a, b),
        wall_le(b, a),
    ensures
        a == b,
{
}

impl Calendar {
    /// The search in zone `tz`; `Err` when it would list a field whose range steps by 0.
    fn next_in_zone(&self, from: Timestamp, tz: chrono_tz::Tz) -> (r: Result<Option<Timestamp>, ()>)
        requires
            calendar_wf(self@),
            in_chrono_range(from@),
        ensures
            match r {
                Ok(Some(t)) => next_firing(self@, tz, (from@ as i64) as int) == Some(t@),
                Ok(None) => next_firing(self@, tz, (from@ as i64) as int) is None,
                Err(_) => !search_steps(self@, tz, wall_of(tz, (from@ as i64) as int)),
            },
            r is Ok ==> search_steps(self@, tz, wall_of(tz, (from@ as i64) as int)),
            is_utc(tz) && from@ <= MAX_UNIX ==> match r {
                Ok(x) => earliest_unix_firing(self@, from@ as int, opt_secs(x)),
                Err(_) => true,
            },
    {
        let secs = from.as_u64() as i64;
        let (y, mo, d, h, mi, s) = local_fields(tz, secs);
        proof {
            if is_utc(tz) && from@ <= MAX_UNIX {
                assert(secs as int == from@ as int);
                if (y as int) < 1970 {
                    assert(valid_date(1970, 1, 1));
                    lemma_days_strict(y as int, mo as int, d as int, 1970, 1, 1);
                    lemma_epoch();
                }
            }
        }
        let search = Search {
            cal: self,
            tz,
            from: Wall { year: y as u32, month: mo, day: d, hour: h, minute: mi, second: s },
        };
        let start = Wall { year: 0, month: 0, day: 0, hour: 0, minute: 0, second: 0 };
        let ghost fw = wall_of(tz, secs as int);
        assert(search.from.view() == fw);
        let found = search.years(start, true);
        proof {
            if found is Ok {
                assert forall|q: WallTime, m: int|
                    0 <= m <= 5 && #[trigger] search_lists(self@, tz, fw, q, m) implies component_steps(
                    comp(self@, m),
                ) by {
                    assert(same_prefix(q, start.view(), 0));
                }
            }
        }
        match found {
            Err(e) => Err(e),
            Ok(Some((w, ts))) => {
                proof {
                    assert forall|u: WallTime| fires_at(self@, tz, u) && wall_le(fw, u) implies wall_le(
                        w.view(),
                        u,
                    ) by {
                        assert(search.hit(u));
                        assert(same_prefix(u, start.view(), 0));
                    }
                    assert(is_next_firing(self@, tz, fw, w.view()));
                    let t = choose|t: WallTime| is_next_firing(self@, tz, fw, t);
                    lemma_wall_le_antisym(t, w.view());
                    if is_utc(tz) && from@ <= MAX_UNIX {
                        lemma_unix_firing(self@, tz, fw, secs as int, Some((w.view(), ts as int)));
                        assert(ts >= 0);
                        assert((ts as u64) as int == ts as int);
                    }
                }
                Ok(Some(Timestamp::new(#[verifier::truncate] (ts as u64))))
            },
            Ok(None) => {
                proof {
                    assert forall|t: WallTime| !is_next_firing(self@, tz, fw, t) by {
                        if is_next_firing(self@, tz, fw, t) {
                            assert(search.hit(t));
                            assert(same_prefix(t, start.view(), 0));
                        }
                    }
                    if is_utc(tz) && from@ <= MAX_UNIX {
                        assert forall|u: WallTime| fires_at(self@, tz, u) && wall_le(fw, u) implies false by {
                            assert(search.hit(u));
                            assert(same_prefix(u, start.view(), 0));
                        }
                        lemma_unix_firing(self@, tz, fw, secs as int, None);
                    }
                }
                Ok(None)
            },
        }
    }

    /// The first time, at or after `from`'s wall-clock reading in the calendar's zone (UTC when
    /// it names none), at which the calendar fires.
    pub fn next_occurrence(&self, from: Timestamp) -> (r: Option<Timestamp>)
        requires
            calendar_wf(self@),
            in_chrono_range(from@),
            search_steps(
                self@,
                zone_or(self@.timezone, utc_spec()),
                wall_of(zone_or(self@.timezone, utc_spec()), (from@ as i64) as int),
            ),
        ensures
            match r {
                Some(t) => next_firing(self@, zone_or(self@.timezone, utc_spec()), (from@ as i64) as int)
                    == Some(t@),
                None => next_firing(self@, zone_or(self@.timezone, utc_spec()), (from@ as i64) as int) is None,
            },
            from@ <= MAX_UNIX && (self@.timezone is None || is_utc(zone_or(self@.timezone, utc_spec())))
                ==> earliest_unix_firing(self@, from@ as int, opt_secs(r)),
    {
        let tz = match self.timezone {
            Some(z) => z,
            None => utc_zone(),
        };
        match self.next_in_zone(from, tz) {
            Ok(r) => r,
            Err(_) => None,
        }
    }

    /// As `next_occurrence`, reading the calendar in `default_tz` when it names no zone.
    pub fn next_occurrence_with_default_tz(&self, from: Timestamp, default_tz: chrono_tz::Tz) -> (r:
        Option<Timestamp>)
        requires
            calendar_wf(self@),
            in_chrono_range(from@),
            search_steps(
                self@,
                zone_or(self@.timezone, default_tz),
                wall_of(zone_or(self@.timezone, default_tz), (from@ as i64) as int),
            ),
        ensures
            match r {
                Some(t) => next_firing(self@, zone_or(self@.timezone, default_tz), (from@ as i64) as int)
                    == Some(t@),
                None => next_firing(self@, zone_or(self@.timezone, default_tz), (from@ as i64) as int) is None,
            },
            from@ <= MAX_UNIX && is_utc(zone_or(self@.timezone, default_tz)) ==> earliest_unix_firing(
                self@,
                from@ as int,
                opt_secs(r),
            ),
    {
        let tz = match self.timezone {
            Some(z) => z,
            None => default_tz,
        };
        match self.next_in_zone(from, tz) {
            Ok(r) => r,
            Err(_) => None,
        }
    }

    /// As `next_occurrence_with_default_tz`, for any time: `None` when `from` lies outside the
    /// times that chrono represents or the search would list a field whose range steps by 0,
    /// where it cannot go on.
    pub fn checked_next_occurrence_with_default_tz(
        &self,
        from: Timestamp,
        default_tz: chrono_tz::Tz,
    ) -> (r: Option<Option<Timestamp>>)
        requires
            calendar_wf(self@),
        ensures
            r is None <==> !(in_chrono_range(from@) && search_steps(
                self@,
                zone_or(self@.timezone, default_tz),
                wall_of(zone_or(self@.timezone, default_tz), (from@ as i64) as int),
            )),
            r matches Some(x) ==> match x {
                Some(t) => next_firing(self@, zone_or(self@.timezone, default_tz), (from@ as i64) as int)
                    == Some(t@),
                None => next_firing(self@, zone_or(self@.timezone, default_tz), (from@ as i64) as int) is None,
            },
            r matches Some(x) ==> (from@ <= MAX_UNIX && is_utc(zone_or(self@.timezone, default_tz))
                ==> earliest_unix_firing(self@, from@ as int, opt_secs(x))),
    {
        let secs = from.as_u64() as i64;
        if secs < MIN_UNIX || secs > MAX_UNIX {
            return None;
        }
        let tz = match self.timezone {
            Some(z) => z,
            None => default_tz,
        };
        match self.next_in_zone(from, tz) {
            Ok(r) => Some(r),
            Err(_) => None,
        }
    }

    /// As `next_occurrence`, for any time: `None` when `from` lies outside the times that
    /// chrono represents or the search would list a field whose range steps by 0, where it
    /// cannot go on.
    pub fn checked_next_occurrence(&self, from: Timestamp) -> (r: Option<Option<Timestamp>>)
        requires
            calendar_wf(self@),
        ensures
            r is None <==> !(in_chrono_range(from@) && search_steps(
                self@,
                zone_or(self@.timezone, utc_spec()),
                wall_of(zone_or(self@.timezone, utc_spec()), (from@ as i64) as int),
            )),
            r matches Some(x) ==> match x {
                Some(t) => next_firing(self@, zone_or(self@.timezone, utc_spec()), (from@ as i64) as int)
                    == Some(t@),
                None => next_firing(self@, zone_or(self@.timezone, utc_spec()), (from@ as i64) as int) is None,
            },
            r matches Some(x) ==> (from@ <= MAX_UNIX && (self@.timezone is None || is_utc(
                zone_or(self@.timezone, utc_spec()),
            )) ==> earliest_unix_firing(self@, from@ as int, opt_secs(x))),
    {
        let tz = match self.timezone {
            Some(z) => z,
            None => utc_zone(),
        };
        self.checked_next_occurrence_with_default_tz(from, tz)
    }
}

} // verus!
