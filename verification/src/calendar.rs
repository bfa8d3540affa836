//! Calendar expressions: which wall-clock seconds a recurring task fires at.
//!
//! A calendar restricts each field of a date and time (year, month, day, hour, minute,
//! second) to a set of values, optionally restricts the day of the week, and names the time
//! zone whose wall clock it reads (none means UTC).

use std::sync::Arc;
use vstd::prelude::*;

use crate::text::{chars_eq, chars_of, push_str, lowercase, string_from_chars, to_lowercase};

verus! {

/// A day of the week.
#[derive(Debug, Clone, Copy, PartialEq, Eq, Structural)]
pub enum Weekday {
    Mon,
    Tue,
    Wed,
    Thu,
    Fri,
    Sat,
    Sun,
}

impl Weekday {
    /// The day's position in the week, Monday as 0 to Sunday as 6.
    pub open spec fn index_spec(self) -> int {
        match self {
            Weekday::Mon => 0,
            Weekday::Tue => 1,
            Weekday::Wed => 2,
            Weekday::Thu => 3,
            Weekday::Fri => 4,
            Weekday::Sat => 5,
            Weekday::Sun => 6,
        }
    }

    /// The day at position `i` of the week, Monday as 0.
    pub open spec fn from_index_spec(i: int) -> Weekday {
        if i == 0 {
            Weekday::Mon
        } else if i == 1 {
            Weekday::Tue
        } else if i == 2 {
            Weekday::Wed
        } else if i == 3 {
            Weekday::Thu
        } else if i == 4 {
            Weekday::Fri
        } else if i == 5 {
            Weekday::Sat
        } else {
            Weekday::Sun
        }
    }

    /// The day's three-letter name.
    pub open spec fn name_spec(self) -> Seq<char> {
        match self {
            Weekday::Mon => "Mon"@,
            Weekday::Tue => "Tue"@,
            Weekday::Wed => "Wed"@,
            Weekday::Thu => "Thu"@,
            Weekday::Fri => "Fri"@,
            Weekday::Sat => "Sat"@,
            Weekday::Sun => "Sun"@,
        }
    }

    /// The day that a lower-case name denotes: its three-letter or its full English name.
    pub open spec fn from_lower_spec(lower: Seq<char>) -> Option<Weekday> {
        if lower == "mon"@ || lower == "monday"@ {
            Some(Weekday::Mon)
        } else if lower == "tue"@ || lower == "tuesday"@ {
            Some(Weekday::Tue)
        } else if lower == "wed"@ || lower == "wednesday"@ {
            Some(Weekday::Wed)
        } else if lower == "thu"@ || lower == "thursday"@ {
            Some(Weekday::Thu)
        } else if lower == "fri"@ || lower == "friday"@ {
            Some(Weekday::Fri)
        } else if lower == "sat"@ || lower == "saturday"@ {
            Some(Weekday::Sat)
        } else if lower == "sun"@ || lower == "sunday"@ {
            Some(Weekday::Sun)
        } else {
            None
        }
    }

    /// The day's position in the week, Monday as 0 to Sunday as 6.
    pub fn index(&self) -> (r: u8)
        ensures
            r == self.index_spec(),
    {
        match self {
            Weekday::Mon => 0,
            Weekday::Tue => 1,
            Weekday::Wed => 2,
            Weekday::Thu => 3,
            Weekday::Fri => 4,
            Weekday::Sat => 5,
            Weekday::Sun => 6,
        }
    }

    /// The day at position `i` of the week, Monday as 0.
    pub fn from_index(i: u8) -> (r: Weekday)
        requires
            i < 7,
        ensures
            r == Weekday::from_index_spec(i as int),
            r.index_spec() == i,
    {
        if i == 0 {
            Weekday::Mon
        } else if i == 1 {
            Weekday::Tue
        } else if i == 2 {
            Weekday::Wed
        } else if i == 3 {
            Weekday::Thu
        } else if i == 4 {
            Weekday::Fri
        } else if i == 5 {
            Weekday::Sat
        } else {
            Weekday::Sun
        }
    }

    /// The day's three-letter name ("Mon" to "Sun").
    pub fn as_str(&self) -> (r: &'static str)
        ensures
            r@ == self.name_spec(),
    {
        match self {
            Weekday::Mon => "Mon",
            Weekday::Tue => "Tue",
            Weekday::Wed => "Wed",
            Weekday::Thu => "Thu",
            Weekday::Fri => "Fri",
            Weekday::Sat => "Sat",
            Weekday::Sun => "Sun",
        }
    }

    /// The day's three-letter name as an owned string.
    pub fn to_display_string(&self) -> (r: String)
        ensures
            r@ == self.name_spec(),
    {
        let mut out: Vec<char> = Vec::new();
        push_str(&mut out, self.as_str());
        string_from_chars(&out)
    }

    /// Reads an already lower-cased day name.
    pub fn from_lowercase(lower: &str) -> (r: Result<Weekday, CalendarError>)
        ensures
            match Weekday::from_lower_spec(lower@) {
                Some(w) => r == Ok::<Weekday, CalendarError>(w),
                None => r matches Err(e) && e@ == CalendarErrorView::InvalidWeekday(lower@),
            },
    {
        let l = chars_of(lower);
        if chars_eq(&l, &chars_of("mon")) || chars_eq(&l, &chars_of("monday")) {
            Ok(Weekday::Mon)
        } else if chars_eq(&l, &chars_of("tue")) || chars_eq(&l, &chars_of("tuesday")) {
            Ok(Weekday::Tue)
        } else if chars_eq(&l, &chars_of("wed")) || chars_eq(&l, &chars_of("wednesday")) {
            Ok(Weekday::Wed)
        } else if chars_eq(&l, &chars_of("thu")) || chars_eq(&l, &chars_of("thursday")) {
            Ok(Weekday::Thu)
        } else if chars_eq(&l, &chars_of("fri")) || chars_eq(&l, &chars_of("friday")) {
            Ok(Weekday::Fri)
        } else if chars_eq(&l, &chars_of("sat")) || chars_eq(&l, &chars_of("saturday")) {
            Ok(Weekday::Sat)
        } else if chars_eq(&l, &chars_of("sun")) || chars_eq(&l, &chars_of("sunday")) {
            Ok(Weekday::Sun)
        } else {
            Err(CalendarError::InvalidWeekday(string_from_chars(&l)))
        }
    }

    /// Reads a day name in any letter case ("Mon", "monday", "FRI", ...).
    pub fn parse(s: &str) -> (r: Result<Weekday, CalendarError>)
        ensures
            match Weekday::from_lower_spec(lowercase(s@)) {
                Some(w) => r == Ok::<Weekday, CalendarError>(w),
                None => r matches Err(e) && e@ == CalendarErrorView::InvalidWeekday(
                    lowercase(s@),
                ),
            },
    {
        let lower = to_lowercase(s);
        Weekday::from_lowercase(lower.as_str())
    }
}

/// The errors of reading a calendar expression.
#[derive(Debug)]
pub enum CalendarError {
    InvalidFormat,
    InvalidWeekday(String),
    InvalidTimeComponent(String),
    InvalidRange { start: u32, end: u32 },
    InvalidTimezone(String),
}

/// A calendar error, its texts as character sequences.
pub enum CalendarErrorView {
    InvalidFormat,
    InvalidWeekday(Seq<char>),
    InvalidTimeComponent(Seq<char>),
    InvalidRange { start: u32, end: u32 },
    InvalidTimezone(Seq<char>),
}

impl View for CalendarError {
    type V = CalendarErrorView;

    open spec fn view(&self) -> CalendarErrorView {
        match self {
            CalendarError::InvalidFormat => CalendarErrorView::InvalidFormat,
            CalendarError::InvalidWeekday(s) => CalendarErrorView::InvalidWeekday(s@),
            CalendarError::InvalidTimeComponent(s) => CalendarErrorView::InvalidTimeComponent(s@),
            CalendarError::InvalidRange { start, end } => CalendarErrorView::InvalidRange {
                start: *start,
                end: *end,
            },
            CalendarError::InvalidTimezone(s) => CalendarErrorView::InvalidTimezone(s@),
        }
    }
}

/// The values that one field of a date or time may take, between `MIN` and `MAX`.
#[derive(Debug, Clone, PartialEq, Eq)]
pub enum TimeComponent<const MIN: u32, const MAX: u32> {
    /// Any value (`*`).
    Any,
    /// The listed values.
    Values(Vec<u32>),
    /// `start`, `start + step`, ... up to `end` (a step of 1 when none is given).
    Range { start: u32, end: u32, step: Option<u32> },
}

/// A time component as mathematical values.
#[verifier::ext_equal]
pub enum ComponentView {
    Any,
    Values(Seq<u32>),
    Range { start: u32, end: u32, step: Option<u32> },
}

impl<const MIN: u32, const MAX: u32> View for TimeComponent<MIN, MAX> {
    type V = ComponentView;

    open spec fn view(&self) -> ComponentView {
        match self {
            TimeComponent::Any => ComponentView::Any,
            TimeComponent::Values(v) => ComponentView::Values(v@),
            TimeComponent::Range { start, end, step } => ComponentView::Range {
                start: *start,
                end: *end,
                step: *step,
            },
        }
    }
}

/// Whether the component admits `v` (a range admits the values from `start` to `end` that
/// lie a whole number of steps past `start`; a step of 0 admits `start` alone).
pub open spec fn component_contains(c: ComponentView, v: u32) -> bool {
    match c {
        ComponentView::Any => true,
        ComponentView::Values(vs) => vs.contains(v),
        ComponentView::Range { start, end, step } => {
            let st = match step {
                Some(x) => x as int,
                None => 1,
            };
            if v < start || v > end {
                false
            } else if st == 0 {
                v == start
            } else {
                (v - start) % st == 0
            }
        },
    }
}

/// A range field without a step admits exactly the values from its start to its end, both
/// included.
pub proof fn lemma_range_admits(start: u32, end: u32, v: u32)
    ensures
        component_contains(ComponentView::Range { start, end, step: None }, v) <==> (start <= v
            && v <= end),
{
}

/// A range field with a step `s > 0` admits exactly the values `start + k * s` (`k >= 0`) up
/// to its end, both ends included: its end whenever the end lies a whole number of steps past
/// its start.
pub proof fn lemma_stepped_range_admits(start: u32, end: u32, s: u32, v: u32)
    requires
        s > 0,
    ensures
        component_contains(ComponentView::Range { start, end, step: Some(s) }, v) <==> (start <= v
            && v <= end && exists|k: int| 0 <= k && #[trigger] (k * s) == v - start),
        forall|k: int|
            0 <= k && start + #[trigger] (k * s) <= end ==> component_contains(
                ComponentView::Range { start, end, step: Some(s) },
                (start + k * s) as u32,
            ),
{
    let si = s as int;
    if start <= v && v <= end {
        let q = (v - start) / si;
        vstd::arithmetic::div_mod::lemma_fundamental_div_mod(v - start, si);
        if (v - start) % si == 0 {
            assert(q * si == v - start) by (nonlinear_arith)
                requires
                    v - start == si * q + (v - start) % si,
                    (v - start) % si == 0,
            ;
            assert(0 <= q) by (nonlinear_arith)
                requires
                    v - start >= 0,
                    si > 0,
                    q == (v - start) / si,
            ;
            assert(q * s == v - start);
        }
        assert forall|k: int| 0 <= k && #[trigger] (k * s) == v - start implies (v - start) % si == 0 by {
            vstd::arithmetic::div_mod::lemma_mod_multiples_basic(k, si);
        }
    }
    assert forall|k: int| 0 <= k && start + #[trigger] (k * s) <= end implies component_contains(
        ComponentView::Range { start, end, step: Some(s) },
        (start + k * s) as u32,
    ) by {
        assert(k * si >= 0) by (nonlinear_arith)
            requires
                k >= 0,
                si > 0,
        ;
        vstd::arithmetic::div_mod::lemma_mod_multiples_basic(k, si);
    }
}

/// The lower bound that `iter` starts from.
pub open spec fn iter_floor(from: Option<u32>, min: u32) -> int {
    match from {
        Some(f) => f as int,
        None => min as int,
    }
}

/// The values `start`, `start + step`, ... that do not pass `end`.
pub open spec fn stepped_values(start: u32, end: u32, step: u32) -> Seq<u32> {
    let count: int = if start <= end && step > 0 {
        (end - start) / (step as int) + 1
    } else {
        0
    };
    Seq::new(count as nat, |k: int| (start + k * step) as u32)
}

/// What `iter` lists for a component: its values from `from` (or `MIN`) on, in order;
/// `Any` stands for every value up to `MAX`.
pub open spec fn component_iter(c: ComponentView, from: Option<u32>, min: u32, max: u32) -> Seq<
    u32,
> {
    let lo = iter_floor(from, min);
    match c {
        ComponentView::Any => {
            let count: int = if lo <= max {
                max - lo + 1
            } else {
                0
            };
            Seq::new(count as nat, |k: int| (lo + k) as u32)
        },
        ComponentView::Values(vs) => vs.filter(|v: u32| v >= lo),
        ComponentView::Range { start, end, step } => {
            let st: u32 = match step {
                Some(x) => x,
                None => 1,
            };
            stepped_values(start, end, st).filter(|v: u32| v >= lo)
        },
    }
}

/// A component as the parser builds it: listed values sorted and between `min` and `max`,
/// a range inside `min` to `max` with its start not past its end.
pub open spec fn component_wf(c: ComponentView, min: u32, max: u32) -> bool {
    match c {
        ComponentView::Any => true,
        ComponentView::Values(vs) => {
            &&& forall|i: int, j: int| 0 <= i <= j < vs.len() ==> vs[i] <= vs[j]
            &&& forall|i: int| 0 <= i < vs.len() ==> min <= #[trigger] vs[i] <= max
        },
        ComponentView::Range { start, end, step } => min <= start <= end <= max,
    }
}

/// A component that never names a step of 0 (stepping by 0 cannot list values).
pub open spec fn component_steps(c: ComponentView) -> bool {
    match c {
        ComponentView::Range { step, .. } => step != Some(0u32),
        _ => true,
    }
}

impl<const MIN: u32, const MAX: u32> TimeComponent<MIN, MAX> {
    /// Whether the component names no step of 0.
    pub fn step_nonzero(&self) -> (r: bool)
        ensures
            r == component_steps(self@),
    {
        match self {
            TimeComponent::Range { step: Some(0), .. } => false,
            _ => true,
        }
    }

    /// Whether the component admits `v`.
    pub fn contains(&self, v: u32) -> (r: bool)
        ensures
            r == component_contains(self@, v),
    {
        match self {
            TimeComponent::Any => true,
            TimeComponent::Values(values) => {
                let mut i: usize = 0;
                while i < values.len()
                    invariant
                        i <= values@.len(),
                        self@ == ComponentView::Values(values@),
                        forall|j: int| 0 <= j < i ==> values@[j] != v,
                    decreases values@.len() - i,
                {
                    if values[i] == v {
                        assert(values@[i as int] == v);
                        assert(values@.contains(v));
                        return true;
                    }
                    i = i + 1;
                }
                false
            },
            TimeComponent::Range { start, end, step } => {
                let st: u32 = match step {
                    Some(x) => *x,
                    None => 1,
                };
                if v < *start || v > *end {
                    false
                } else if st == 0 {
                    v == *start
                } else {
                    (v - *start) % st == 0
                }
            },
        }
    }

    /// The component's values from `from` on (from `MIN` when `from` is `None`), in the order
    /// in which they are listed; `Any` lists every value up to `MAX`.
    pub fn iter(&self, from: Option<u32>) -> (r: Vec<u32>)
        requires
            component_steps(self@),
        ensures
            r@ == component_iter(self@, from, MIN, MAX),
    {
        let lo: u32 = match from {
            Some(f) => f,
            None => MIN,
        };
        let mut out: Vec<u32> = Vec::new();
        match self {
            TimeComponent::Any => {
                let ghost want = component_iter(self@, from, MIN, MAX);
                let mut v: u64 = lo as u64;
                assert(want.take(0) =~= Seq::<u32>::empty());
                while v <= MAX as u64
                    invariant
                        lo <= v <= MAX as u64 + 1 || (v == lo && lo > MAX),
                        lo <= MAX ==> want.len() == MAX - lo + 1,
                        lo > MAX ==> want.len() == 0,
                        forall|k: int| 0 <= k < want.len() ==> #[trigger] want[k] == lo + k,
                        v <= MAX as u64 + 1 ==> out@ == want.take(v - lo),
                        lo > MAX ==> out@.len() == 0,
                    decreases MAX as u64 + 1 - v,
                {
                    out.push(v as u32);
                    assert(out@ =~= want.take(v - lo + 1));
                    v = v + 1;
                }
                assert(out@ =~= want);
                out
            },
            TimeComponent::Values(values) => {
                let ghost pred = |x: u32| x >= lo;
                let mut i: usize = 0;
                assert(values@.take(0).filter(pred) =~= Seq::<u32>::empty()) by {
                    reveal_with_fuel(Seq::filter, 1);
                }
                while i < values.len()
                    invariant
                        i <= values@.len(),
                        pred == (|x: u32| x >= lo),
                        out@ == values@.take(i as int).filter(pred),
                    decreases values@.len() - i,
                {
                    proof {
                        assert(values@.take(i + 1).drop_last() =~= values@.take(i as int));
                        reveal_with_fuel(Seq::filter, 1);
                    }
                    if values[i] >= lo {
                        out.push(values[i]);
                    }
                    i = i + 1;
                }
                assert(values@.take(values@.len() as int) =~= values@);
                out
            },
            TimeComponent::Range { start, end, step } => {
                let st: u32 = match step {
                    Some(x) => *x,
                    None => 1,
                };
                let ghost all = stepped_values(*start, *end, st);
                let ghost pred = |x: u32| x >= lo;
                assert(all.take(0).filter(pred) =~= Seq::<u32>::empty()) by {
                    reveal_with_fuel(Seq::filter, 1);
                }
                if *start <= *end && st > 0 {
                    let count: u64 = ((*end - *start) / st) as u64 + 1;
                    let mut k: u64 = 0;
                    while k < count
                        invariant
                            st > 0,
                            *start <= *end,
                            count == (*end - *start) / (st as int) + 1,
                            all == stepped_values(*start, *end, st),
                            all.len() == count,
                            k <= count,
                            pred == (|x: u32| x >= lo),
                            out@ == all.take(k as int).filter(pred),
                        decreases count - k,
                    {
                        proof {
                            assert(k * st <= *end - *start) by (nonlinear_arith)
                                requires
                                    k < count,
                                    count == (*end - *start) / (st as int) + 1,
                                    st > 0,
                                    *start <= *end,
                            ;
                        }
                        let v: u32 = (*start as u64 + k * (st as u64)) as u32;
                        proof {
                            assert(all.take(k + 1).drop_last() =~= all.take(k as int));
                            assert(all[k as int] == v);
                            reveal_with_fuel(Seq::filter, 1);
                        }
                        if v >= lo {
                            out.push(v);
                        }
                        k = k + 1;
                    }
                    assert(all.take(count as int) =~= all);
                } else {
                    assert(step != Some(0u32));
                    assert(all =~= Seq::<u32>::empty());
                    assert(all.filter(pred) =~= Seq::<u32>::empty()) by {
                        reveal_with_fuel(Seq::filter, 1);
                    }
                }
                out
            },
        }
    }
}

/// A calendar expression.
#[derive(Debug, Clone, PartialEq, Eq)]
pub struct Calendar {
    /// The days of the week it fires on (`None`: any day).
    pub weekdays: Option<Vec<Weekday>>,
    pub year: TimeComponent<1970, 2099>,
    pub month: TimeComponent<1, 12>,
    pub day: TimeComponent<1, 31>,
    pub hour: TimeComponent<0, 23>,
    pub minute: TimeComponent<0, 59>,
    pub second: TimeComponent<0, 59>,
    /// The zone whose wall clock the fields read (`None`: UTC).
    pub timezone: Option<chrono_tz::Tz>,
}

/// A calendar as mathematical values.
#[verifier::ext_equal]
pub struct CalendarView {
    pub weekdays: Option<Seq<Weekday>>,
    pub year: ComponentView,
    pub month: ComponentView,
    pub day: ComponentView,
    pub hour: ComponentView,
    pub minute: ComponentView,
    pub second: ComponentView,
    pub timezone: Option<chrono_tz::Tz>,
}

impl View for Calendar {
    type V = CalendarView;

    open spec fn view(&self) -> CalendarView {
        CalendarView {
            weekdays: match self.weekdays {
                Some(w) => Some(w@),
                None => None,
            },
            year: self.year@,
            month: self.month@,
            day: self.day@,
            hour: self.hour@,
            minute: self.minute@,
            second: self.second@,
            timezone: self.timezone,
        }
    }
}

/// A calendar as the parser builds it (see `component_wf`).
pub open spec fn calendar_wf(c: CalendarView) -> bool {
    &&& component_wf(c.year, 1970, 2099)
    &&& component_wf(c.month, 1, 12)
    &&& component_wf(c.day, 1, 31)
    &&& component_wf(c.hour, 0, 23)
    &&& component_wf(c.minute, 0, 59)
    &&& component_wf(c.second, 0, 59)
}

/// The component that lists the one value `v`.
pub open spec fn single(v: u32) -> ComponentView {
    ComponentView::Values(seq![v])
}

/// A calendar whose date fields are all `*`, firing at the given time fields.
pub open spec fn every_day_view(
    weekdays: Option<Seq<Weekday>>,
    month: ComponentView,
    day: ComponentView,
    hour: ComponentView,
    minute: ComponentView,
    tz: Option<chrono_tz::Tz>,
) -> CalendarView {
    CalendarView {
        weekdays,
        year: ComponentView::Any,
        month,
        day,
        hour,
        minute,
        second: single(0),
        timezone: tz,
    }
}

/// Every minute, at second 0.
pub open spec fn minutely_view(tz: Option<chrono_tz::Tz>) -> CalendarView {
    every_day_view(None, ComponentView::Any, ComponentView::Any, ComponentView::Any, ComponentView::Any, tz)
}

/// Every hour, at minute 0.
pub open spec fn hourly_view(tz: Option<chrono_tz::Tz>) -> CalendarView {
    every_day_view(None, ComponentView::Any, ComponentView::Any, ComponentView::Any, single(0), tz)
}

/// Every day at midnight.
pub open spec fn daily_view(tz: Option<chrono_tz::Tz>) -> CalendarView {
    every_day_view(None, ComponentView::Any, ComponentView::Any, single(0), single(0), tz)
}

/// Every Monday at midnight.
pub open spec fn weekly_view(tz: Option<chrono_tz::Tz>) -> CalendarView {
    every_day_view(
        Some(seq![Weekday::Mon]),
        ComponentView::Any,
        ComponentView::Any,
        single(0),
        single(0),
        tz,
    )
}

/// The first of every month at midnight.
pub open spec fn monthly_view(tz: Option<chrono_tz::Tz>) -> CalendarView {
    every_day_view(None, ComponentView::Any, single(1), single(0), single(0), tz)
}

/// 1 January of every year at midnight.
pub open spec fn yearly_view(tz: Option<chrono_tz::Tz>) -> CalendarView {
    every_day_view(None, single(1), single(1), single(0), single(0), tz)
}

/// The first day of January, April, July and October at midnight.
pub open spec fn quarterly_view(tz: Option<chrono_tz::Tz>) -> CalendarView {
    every_day_view(None, ComponentView::Values(seq![1u32, 4, 7, 10]), single(1), single(0), single(0), tz)
}

/// The first day of January and July at midnight.
pub open spec fn semiannually_view(tz: Option<chrono_tz::Tz>) -> CalendarView {
    every_day_view(None, ComponentView::Values(seq![1u32, 7]), single(1), single(0), single(0), tz)
}

/// The component that lists the given values.
fn values_of<const MIN: u32, const MAX: u32>(vs: &[u32]) -> (r: TimeComponent<MIN, MAX>)
    ensures
        r@ == ComponentView::Values(vs@),
{
    let mut out: Vec<u32> = Vec::new();
    let mut i: usize = 0;
    while i < vs.len()
        invariant
            i <= vs@.len(),
            out@ == vs@.take(i as int),
        decreases vs@.len() - i,
    {
        out.push(vs[i]);
        i = i + 1;
        assert(out@ =~= vs@.take(i as int));
    }
    assert(out@ =~= vs@);
    TimeComponent::Values(out)
}

impl Calendar {
    /// Every minute, at second 0.
    pub fn minutely(timezone: Option<chrono_tz::Tz>) -> (r: Calendar)
        ensures
            r@ == minutely_view(timezone),
    {
        Calendar {
            weekdays: None,
            year: TimeComponent::Any,
            month: TimeComponent::Any,
            day: TimeComponent::Any,
            hour: TimeComponent::Any,
            minute: TimeComponent::Any,
            second: values_of(&[0]),
            timezone,
        }
    }

    /// Every hour, at minute 0.
    pub fn hourly(timezone: Option<chrono_tz::Tz>) -> (r: Calendar)
        ensures
            r@ == hourly_view(timezone),
    {
        Calendar {
            weekdays: None,
            year: TimeComponent::Any,
            month: TimeComponent::Any,
            day: TimeComponent::Any,
            hour: TimeComponent::Any,
            minute: values_of(&[0]),
            second: values_of(&[0]),
            timezone,
        }
    }

    /// Every day at midnight.
    pub fn daily(timezone: Option<chrono_tz::Tz>) -> (r: Calendar)
        ensures
            r@ == daily_view(timezone),
    {
        Calendar {
            weekdays: None,
            year: TimeComponent::Any,
            month: TimeComponent::Any,
            day: TimeComponent::Any,
            hour: values_of(&[0]),
            minute: values_of(&[0]),
            second: values_of(&[0]),
            timezone,
        }
    }

    /// Every Monday at midnight.
    pub fn weekly(timezone: Option<chrono_tz::Tz>) -> (r: Calendar)
        ensures
            r@ == weekly_view(timezone),
    {
        Calendar {
            weekdays: Some(vec![Weekday::Mon]),
            year: TimeComponent::Any,
            month: TimeComponent::Any,
            day: TimeComponent::Any,
            hour: values_of(&[0]),
            minute: values_of(&[0]),
            second: values_of(&[0]),
            timezone,
        }
    }

    /// The first of every month at midnight.
    pub fn monthly(timezone: Option<chrono_tz::Tz>) -> (r: Calendar)
        ensures
            r@ == monthly_view(timezone),
    {
        Calendar {
            weekdays: None,
            year: TimeComponent::Any,
            month: TimeComponent::Any,
            day: values_of(&[1]),
            hour: values_of(&[0]),
            minute: values_of(&[0]),
            second: values_of(&[0]),
            timezone,
        }
    }

    /// 1 January of every year at midnight.
    pub fn yearly(timezone: Option<chrono_tz::Tz>) -> (r: Calendar)
        ensures
            r@ == yearly_view(timezone),
    {
        Calendar {
            weekdays: None,
            year: TimeComponent::Any,
            month: values_of(&[1]),
            day: values_of(&[1]),
            hour: values_of(&[0]),
            minute: values_of(&[0]),
            second: values_of(&[0]),
            timezone,
        }
    }

    /// The first day of January, April, July and October at midnight.
    pub fn quarterly(timezone: Option<chrono_tz::Tz>) -> (r: Calendar)
        ensures
            r@ == quarterly_view(timezone),
    {
        Calendar {
            weekdays: None,
            year: TimeComponent::Any,
            month: values_of(&[1, 4, 7, 10]),
            day: values_of(&[1]),
            hour: values_of(&[0]),
            minute: values_of(&[0]),
            second: values_of(&[0]),
            timezone,
        }
    }

    /// The first day of January and July at midnight.
    pub fn semiannually(timezone: Option<chrono_tz::Tz>) -> (r: Calendar)
        ensures
            r@ == semiannually_view(timezone),
    {
        Calendar {
            weekdays: None,
            year: TimeComponent::Any,
            month: values_of(&[1, 7]),
            day: values_of(&[1]),
            hour: values_of(&[0]),
            minute: values_of(&[0]),
            second: values_of(&[0]),
            timezone,
        }
    }
}


/// A calendar shared behind a reference count.
#[derive(Debug, Clone, PartialEq, Eq)]
pub struct CalendarWrapper {
    inner: Arc<Calendar>,
}

impl CalendarWrapper {
    pub closed spec fn calendar(&self) -> Calendar {
        *self.inner
    }

    pub fn new(calendar: Calendar) -> (r: CalendarWrapper)
        ensures
            r.calendar() == calendar,
    {
        CalendarWrapper { inner: Arc::new(calendar) }
    }

    pub fn get_calendar(&self) -> (r: &Calendar)
        ensures
            *r == self.calendar(),
    {
        &self.inner
    }
}

} // verus!
