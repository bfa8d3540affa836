//! Reading calendar expressions such as `Mon..Fri *-*-* 08:30:00 Europe/Rome`.
//!
//! An expression is a keyword (`daily`, `weekly`, ...) or whitespace-separated words: an
//! optional first word of weekdays, a date `year-month-day`, a time `hour:minute:second`, and
//! after the time a time-zone name. Each field is `*`, a value, a list `a,b,c`, or a range
//! `a..b` with an optional step `a..b/s`.

use std::str::FromStr;
use vstd::prelude::*;
use vstd::relations::{sorted_by, total_ordering};

use crate::calendar::{
    component_wf, daily_view, hourly_view, minutely_view, monthly_view, quarterly_view,
    semiannually_view, weekly_view, yearly_view, Calendar, CalendarError, CalendarErrorView,
    CalendarView, ComponentView, TimeComponent, Weekday, calendar_wf,
};
use crate::text::{
    chars_eq, chars_of, contains_char, contains_chars, contains_seq, decimal, parse_u32,
    parse_u32_chars, push_chars, push_decimal, push_str, lowercase, split_chars,
    split_on, split_whitespace, split_ws, string_from_chars, to_lowercase, views,
    lemma_split_on_nonempty,
};
use crate::zone::{parse_timezone, spec_parse_tz};

verus! {

pub open spec fn leq_u32() -> spec_fn(u32, u32) -> bool {
    |a: u32, b: u32| a <= b
}

pub open spec fn dots() -> Seq<char> {
    seq!['.', '.']
}

pub open spec fn invalid_component(msg: Seq<char>) -> CalendarErrorView {
    CalendarErrorView::InvalidTimeComponent(msg)
}

/// One listed value: a number between `min` and `max`.
pub open spec fn value_parse(p: Seq<char>, min: u32, max: u32) -> Result<u32, CalendarErrorView> {
    match parse_u32(p) {
        None => Err(invalid_component("Invalid value: "@ + p)),
        Some(v) => if v < min || v > max {
            Err(invalid_component("Value "@ + decimal(v as nat) + " is out of range"@))
        } else {
            Ok(v)
        },
    }
}

/// The listed values in order, or the error of the first piece that is not one.
pub open spec fn values_parse(pieces: Seq<Seq<char>>, min: u32, max: u32) -> Result<
    Seq<u32>,
    CalendarErrorView,
>
    decreases pieces.len(),
{
    if pieces.len() == 0 {
        Ok(seq![])
    } else {
        match values_parse(pieces.drop_last(), min, max) {
            Err(e) => Err(e),
            Ok(vs) => match value_parse(pieces.last(), min, max) {
                Err(e) => Err(e),
                Ok(v) => Ok(vs.push(v)),
            },
        }
    }
}

/// The end and optional step of a range, read from the text after `..`.
pub open spec fn range_end_parse(s: Seq<char>, tail: Seq<char>) -> Result<
    (u32, Option<u32>),
    CalendarErrorView,
> {
    if tail.contains('/') {
        let sp = split_on(tail, seq!['/']);
        if sp.len() != 2 {
            Err(invalid_component(s))
        } else {
            match parse_u32(sp[0]) {
                None => Err(invalid_component("Invalid end value: "@ + sp[0])),
                Some(end) => match parse_u32(sp[1]) {
                    None => Err(invalid_component("Invalid step value: "@ + sp[1])),
                    Some(step) => Ok((end, Some(step))),
                },
            }
        }
    } else {
        match parse_u32(tail) {
            None => Err(invalid_component("Invalid end value: "@ + tail)),
            Some(end) => Ok((end, None)),
        }
    }
}

/// A range `start..end` or `start..end/step` between `min` and `max`.
pub open spec fn range_parse(s: Seq<char>, min: u32, max: u32) -> Result<
    ComponentView,
    CalendarErrorView,
> {
    let parts = split_on(s, dots());
    if parts.len() != 2 {
        Err(invalid_component(s))
    } else {
        match parse_u32(parts[0]) {
            None => Err(invalid_component("Invalid start value: "@ + parts[0])),
            Some(start) => match range_end_parse(s, parts[1]) {
                Err(e) => Err(e),
                Ok((end, step)) => if start > end {
                    Err(CalendarErrorView::InvalidRange { start, end })
                } else if start < min || end > max {
                    Err(
                        invalid_component(
                            "Range "@ + decimal(start as nat) + "-"@ + decimal(end as nat)
                                + " is out of range"@,
                        ),
                    )
                } else {
                    Ok(ComponentView::Range { start, end, step })
                },
            },
        }
    }
}

/// What reading a field gives: `*`, a range, a list (sorted), or a single value.
pub open spec fn component_parse(s: Seq<char>, min: u32, max: u32) -> Result<
    ComponentView,
    CalendarErrorView,
> {
    if s == seq!['*'] {
        Ok(ComponentView::Any)
    } else if contains_seq(s, dots()) {
        range_parse(s, min, max)
    } else if s.contains(',') {
        match values_parse(split_on(s, seq![',']), min, max) {
            Ok(vs) => Ok(ComponentView::Values(vs.sort_by(leq_u32()))),
            Err(e) => Err(e),
        }
    } else {
        match value_parse(s, min, max) {
            Ok(v) => Ok(ComponentView::Values(seq![v])),
            Err(e) => Err(e),
        }
    }
}

pub open spec fn component_result<const MIN: u32, const MAX: u32>(
    r: Result<TimeComponent<MIN, MAX>, CalendarError>,
) -> Result<ComponentView, CalendarErrorView> {
    match r {
        Ok(c) => Ok(c@),
        Err(e) => Err(e@),
    }
}

/// The day that a name in any letter case denotes.
pub open spec fn weekday_named(s: Seq<char>) -> Option<Weekday> {
    Weekday::from_lower_spec(lowercase(s))
}

/// The listed days in order, or the error of the first name that is not one.
pub open spec fn weekday_list(pieces: Seq<Seq<char>>) -> Result<Seq<Weekday>, CalendarErrorView>
    decreases pieces.len(),
{
    if pieces.len() == 0 {
        Ok(seq![])
    } else {
        match weekday_list(pieces.drop_last()) {
            Err(e) => Err(e),
            Ok(ws) => match weekday_named(pieces.last()) {
                Some(w) => Ok(ws.push(w)),
                None => Err(CalendarErrorView::InvalidWeekday(lowercase(pieces.last()))),
            },
        }
    }
}

/// The days from `a` to `b` in week order (none when `b` comes before `a`).
pub open spec fn weekday_span(a: Weekday, b: Weekday) -> Seq<Weekday> {
    let n: int = if b.index_spec() >= a.index_spec() {
        b.index_spec() - a.index_spec() + 1
    } else {
        0
    };
    Seq::new(n as nat, |k: int| Weekday::from_index_spec(a.index_spec() + k))
}

/// The weekday word: a span `a..b`, or a list `a,b,c`. A span with a malformed end, and any
/// word holding a `/`, are not in the format.
pub open spec fn weekday_token(part: Seq<char>) -> Result<Seq<Weekday>, CalendarErrorView> {
    if part.contains('/') {
        Err(CalendarErrorView::InvalidFormat)
    } else if contains_seq(part, dots()) {
        let r = split_on(part, dots());
        if r.len() != 2 {
            Err(CalendarErrorView::InvalidFormat)
        } else {
            match (weekday_named(r[0]), weekday_named(r[1])) {
                (Some(a), Some(b)) => Ok(weekday_span(a, b)),
                _ => Err(CalendarErrorView::InvalidFormat),
            }
        }
    } else {
        weekday_list(split_on(part, seq![',']))
    }
}

/// What the words of an expression have set so far.
pub struct ScanState {
    pub weekdays: Option<Seq<Weekday>>,
    pub date: Option<Seq<Seq<char>>>,
    pub time: Option<Seq<Seq<char>>>,
    pub timezone: Option<chrono_tz::Tz>,
}

/// One word: a time holds `:`; a date holds `-` or is `*` and may not follow the time; the
/// first word may be weekdays; a word after the time names the zone.
pub open spec fn scan_step(st: ScanState, part: Seq<char>, first: bool) -> Result<
    ScanState,
    CalendarErrorView,
> {
    if part.contains(':') {
        Ok(
            ScanState {
                weekdays: st.weekdays,
                date: st.date,
                time: Some(split_on(part, seq![':'])),
                timezone: st.timezone,
            },
        )
    } else if part.contains('-') || part == seq!['*'] {
        if st.time is Some {
            Err(CalendarErrorView::InvalidFormat)
        } else {
            Ok(
                ScanState {
                    weekdays: st.weekdays,
                    date: Some(split_on(part, seq!['-'])),
                    time: st.time,
                    timezone: st.timezone,
                },
            )
        }
    } else if first {
        match weekday_token(part) {
            Ok(ws) => Ok(
                ScanState { weekdays: Some(ws), date: st.date, time: st.time, timezone: st.timezone },
            ),
            Err(e) => Err(e),
        }
    } else if st.time is Some {
        match spec_parse_tz(part) {
            Some(tz) => Ok(
                ScanState { weekdays: st.weekdays, date: st.date, time: st.time, timezone: Some(tz) },
            ),
            None => Err(CalendarErrorView::InvalidTimezone(part)),
        }
    } else {
        Err(CalendarErrorView::InvalidFormat)
    }
}

/// The words read in order, stopping at the first error.
pub open spec fn scan_words(parts: Seq<Seq<char>>) -> Result<ScanState, CalendarErrorView>
    decreases parts.len(),
{
    if parts.len() == 0 {
        Ok(ScanState { weekdays: None, date: None, time: None, timezone: None })
    } else {
        match scan_words(parts.drop_last()) {
            Err(e) => Err(e),
            Ok(st) => scan_step(st, parts.last(), parts.len() == 1),
        }
    }
}

/// Piece `i` of a date or time, or `default` when there are fewer pieces.
pub open spec fn field_text(p: Option<Seq<Seq<char>>>, i: int, default: Seq<char>) -> Seq<char> {
    match p {
        Some(q) => if i < q.len() {
            q[i]
        } else {
            default
        },
        None => default,
    }
}

/// A range whose start and end read but whose step does not (`1..10/x`).
pub open spec fn step_unreadable(s: Seq<char>) -> bool {
    let parts = split_on(s, dots());
    let sp = split_on(parts[1], seq!['/']);
    &&& parts.len() == 2
    &&& parse_u32(parts[0]) is Some
    &&& parts[1].contains('/')
    &&& sp.len() == 2
    &&& parse_u32(sp[0]) is Some
    &&& parse_u32(sp[1]) is None
}

/// A field of an expression: as `component_parse`, except that a range whose start passes
/// its end, or whose step does not read, is not in the format.
pub open spec fn field_parse(text: Seq<char>, min: u32, max: u32) -> Result<
    ComponentView,
    CalendarErrorView,
> {
    if contains_seq(text, dots()) {
        match component_parse(text, min, max) {
            Ok(c) => Ok(c),
            Err(CalendarErrorView::InvalidRange { .. }) => Err(CalendarErrorView::InvalidFormat),
            Err(e) => if step_unreadable(text) {
                Err(CalendarErrorView::InvalidFormat)
            } else {
                Err(e)
            },
        }
    } else {
        component_parse(text, min, max)
    }
}

/// The calendar from what the words set: missing date fields are `*`, missing hour and minute
/// `*`, a missing second 0; fields are read year first, second last.
pub open spec fn assemble(st: ScanState) -> Result<CalendarView, CalendarErrorView> {
    match field_parse(field_text(st.date, 0, seq!['*']), 1970, 2099) {
        Err(e) => Err(e),
        Ok(year) => match field_parse(field_text(st.date, 1, seq!['*']), 1, 12) {
            Err(e) => Err(e),
            Ok(month) => match field_parse(field_text(st.date, 2, seq!['*']), 1, 31) {
                Err(e) => Err(e),
                Ok(day) => match field_parse(field_text(st.time, 0, seq!['*']), 0, 23) {
                    Err(e) => Err(e),
                    Ok(hour) => match field_parse(field_text(st.time, 1, seq!['*']), 0, 59) {
                        Err(e) => Err(e),
                        Ok(minute) => match field_parse(field_text(st.time, 2, seq!['0']), 0, 59) {
                            Err(e) => Err(e),
                            Ok(second) => Ok(
                                CalendarView {
                                    weekdays: st.weekdays,
                                    year,
                                    month,
                                    day,
                                    hour,
                                    minute,
                                    second,
                                    timezone: st.timezone,
                                },
                            ),
                        },
                    },
                },
            },
        },
    }
}

/// An expression of words (no keyword).
pub open spec fn expression_parse(s: Seq<char>) -> Result<CalendarView, CalendarErrorView> {
    let parts = split_ws(s);
    if parts.len() == 0 {
        Err(CalendarErrorView::InvalidFormat)
    } else {
        match scan_words(parts) {
            Err(e) => Err(e),
            Ok(st) => assemble(st),
        }
    }
}

/// The calendar that a lower-case keyword names.
pub open spec fn keyword_calendar(lower: Seq<char>) -> Option<CalendarView> {
    if lower == "minutely"@ {
        Some(minutely_view(None))
    } else if lower == "hourly"@ {
        Some(hourly_view(None))
    } else if lower == "daily"@ {
        Some(daily_view(None))
    } else if lower == "monthly"@ {
        Some(monthly_view(None))
    } else if lower == "weekly"@ {
        Some(weekly_view(None))
    } else if lower == "yearly"@ || lower == "annually"@ {
        Some(yearly_view(None))
    } else if lower == "quarterly"@ {
        Some(quarterly_view(None))
    } else if lower == "semiannually"@ {
        Some(semiannually_view(None))
    } else {
        None
    }
}

/// What reading a calendar expression gives: a keyword in any letter case, else the words.
pub open spec fn calendar_parse(s: Seq<char>) -> Result<CalendarView, CalendarErrorView> {
    match keyword_calendar(lowercase(s)) {
        Some(c) => Ok(c),
        None => expression_parse(s),
    }
}

pub open spec fn calendar_result(r: Result<Calendar, CalendarError>) -> Result<
    CalendarView,
    CalendarErrorView,
> {
    match r {
        Ok(c) => Ok(c@),
        Err(e) => Err(e@),
    }
}

proof fn lemma_leq_total()
    ensures
        total_ordering(leq_u32()),
{
}

/// Sorts values in ascending order.
fn sort_values(v: &Vec<u32>) -> (r: Vec<u32>)
    ensures
        r@ == v@.sort_by(leq_u32()),
        forall|k: int| 0 <= k < r@.len() ==> v@.contains(#[trigger] r@[k]),
{
    let mut out: Vec<u32> = Vec::new();
    let mut i: usize = 0;
    assert(v@.take(0) =~= Seq::<u32>::empty());
    while i < v.len()
        invariant
            i <= v@.len(),
            sorted_by(out@, leq_u32()),
            out@.to_multiset() == v@.take(i as int).to_multiset(),
            forall|k: int| 0 <= k < out@.len() ==> v@.contains(#[trigger] out@[k]),
        decreases v@.len() - i,
    {
        let x = v[i];
        let mut pos: usize = 0;
        while pos < out.len() && out[pos] <= x
            invariant
                pos <= out@.len(),
                forall|k: int| 0 <= k < pos ==> #[trigger] out@[k] <= x,
            decreases out@.len() - pos,
        {
            pos = pos + 1;
        }
        let ghost before = out@;
        out.insert(pos, x);
        proof {
            assert(v@.take(i + 1) =~= v@.take(i as int).push(x));
            vstd::seq_lib::to_multiset_insert(before, pos as int, x);
            vstd::seq_lib::to_multiset_build(v@.take(i as int), x);
            assert(out@ == before.insert(pos as int, x));
            assert forall|a: int, b: int| 0 <= a < b < out@.len() implies #[trigger] leq_u32()(
                out@[a],
                out@[b],
            ) by {
                if b < pos {
                    assert(leq_u32()(before[a], before[b]));
                } else if b == pos {
                    assert(before[a] <= x);
                } else if a == pos {
                    if b - 1 < before.len() {
                        assert(!(before[pos as int] <= x) || pos as int >= before.len());
                        if pos < before.len() {
                            assert(leq_u32()(before[pos as int], before[b - 1]));
                        }
                    }
                } else if a < pos {
                    assert(leq_u32()(before[a], before[b - 1]));
                } else {
                    assert(leq_u32()(before[a - 1], before[b - 1]));
                }
            }
            assert forall|k: int| 0 <= k < out@.len() implies v@.contains(#[trigger] out@[k]) by {
                if k < pos {
                    assert(out@[k] == before[k]);
                } else if k == pos {
                    assert(v@[i as int] == x);
                } else {
                    assert(out@[k] == before[k - 1]);
                }
            }
        }
        i = i + 1;
    }
    proof {
        assert(v@.take(v@.len() as int) =~= v@);
        lemma_leq_total();
        v@.lemma_sort_by_ensures(leq_u32());
        vstd::seq_lib::lemma_sorted_unique(out@, v@.sort_by(leq_u32()), leq_u32());
    }
    out
}

/// Text `prefix` followed by `tail`.
fn message(prefix: &str, tail: &Vec<char>) -> (r: String)
    ensures
        r@ == prefix@ + tail@,
{
    let mut out: Vec<char> = Vec::new();
    push_str(&mut out, prefix);
    push_chars(&mut out, tail);
    string_from_chars(&out)
}

fn value_from_chars<const MIN: u32, const MAX: u32>(p: &Vec<char>) -> (r: Result<u32, CalendarError>)
    ensures
        match r {
            Ok(v) => value_parse(p@, MIN, MAX) == Ok::<u32, CalendarErrorView>(v),
            Err(e) => value_parse(p@, MIN, MAX) == Err::<u32, CalendarErrorView>(e@),
        },
{
    match parse_u32_chars(p) {
        None => Err(CalendarError::InvalidTimeComponent(message("Invalid value: ", p))),
        Some(v) => {
            if v < MIN || v > MAX {
                let mut out: Vec<char> = Vec::new();
                push_str(&mut out, "Value ");
                push_decimal(&mut out, v);
                push_str(&mut out, " is out of range");
                Err(CalendarError::InvalidTimeComponent(string_from_chars(&out)))
            } else {
                Ok(v)
            }
        },
    }
}

fn range_from_chars<const MIN: u32, const MAX: u32>(s: &Vec<char>) -> (r: Result<
    TimeComponent<MIN, MAX>,
    CalendarError,
>)
    ensures
        component_result(r) == range_parse(s@, MIN, MAX),
        r matches Ok(c) ==> component_wf(c@, MIN, MAX),
{
    let parts = split_chars(s, &['.', '.']);
    assert(['.', '.']@ =~= dots());
    if parts.len() != 2 {
        return Err(CalendarError::InvalidTimeComponent(string_from_chars(s)));
    }
    assert(parts@[0]@ == views(parts@)[0]);
    assert(parts@[1]@ == views(parts@)[1]);
    let start = match parse_u32_chars(&parts[0]) {
        None => {
            return Err(CalendarError::InvalidTimeComponent(message("Invalid start value: ", &parts[0])));
        },
        Some(x) => x,
    };
    let tail = &parts[1];
    let (end, step): (u32, Option<u32>) = if contains_char(tail, '/') {
        let sp = split_chars(tail, &['/']);
        assert(['/']@ =~= seq!['/']);
        if sp.len() != 2 {
            return Err(CalendarError::InvalidTimeComponent(string_from_chars(s)));
        }
        assert(sp@[0]@ == views(sp@)[0]);
        assert(sp@[1]@ == views(sp@)[1]);
        let end = match parse_u32_chars(&sp[0]) {
            None => {
                return Err(CalendarError::InvalidTimeComponent(message("Invalid end value: ", &sp[0])));
            },
            Some(x) => x,
        };
        let step = match parse_u32_chars(&sp[1]) {
            None => {
                return Err(
                    CalendarError::InvalidTimeComponent(message("Invalid step value: ", &sp[1])),
                );
            },
            Some(x) => x,
        };
        (end, Some(step))
    } else {
        let end = match parse_u32_chars(tail) {
            None => {
                return Err(CalendarError::InvalidTimeComponent(message("Invalid end value: ", tail)));
            },
            Some(x) => x,
        };
        (end, None)
    };
    if start > end {
        return Err(CalendarError::InvalidRange { start, end });
    }
    if start < MIN || end > MAX {
        let mut out: Vec<char> = Vec::new();
        push_str(&mut out, "Range ");
        push_decimal(&mut out, start);
        push_str(&mut out, "-");
        push_decimal(&mut out, end);
        push_str(&mut out, " is out of range");
        return Err(CalendarError::InvalidTimeComponent(string_from_chars(&out)));
    }
    Ok(TimeComponent::Range { start, end, step })
}

fn component_from_chars<const MIN: u32, const MAX: u32>(s: &Vec<char>) -> (r: Result<
    TimeComponent<MIN, MAX>,
    CalendarError,
>)
    ensures
        component_result(r) == component_parse(s@, MIN, MAX),
        r matches Ok(c) ==> component_wf(c@, MIN, MAX),
{
    if chars_eq(s, &['*']) {
        assert(['*']@ =~= seq!['*']);
        return Ok(TimeComponent::Any);
    }
    assert(['*']@ =~= seq!['*']);
    if contains_chars(s, &['.', '.']) {
        assert(['.', '.']@ =~= dots());
        return range_from_chars(s);
    }
    assert(['.', '.']@ =~= dots());
    if contains_char(s, ',') {
        let pieces = split_chars(s, &[',']);
        assert([',']@ =~= seq![',']);
        let ghost ps = views(pieces@);
        let mut values: Vec<u32> = Vec::new();
        let mut i: usize = 0;
        assert(ps.take(0) =~= Seq::<Seq<char>>::empty());
        while i < pieces.len()
            invariant
                i <= pieces@.len(),
                ps == views(pieces@),
                ps == split_on(s@, seq![',']),
                !contains_seq(s@, dots()),
                s@.contains(','),
                s@ != seq!['*'],
                values_parse(ps.take(i as int), MIN, MAX) == Ok::<Seq<u32>, CalendarErrorView>(
                    values@,
                ),
                forall|k: int| 0 <= k < values@.len() ==> MIN <= #[trigger] values@[k] <= MAX,
            decreases pieces@.len() - i,
        {
            assert(ps.take(i + 1).drop_last() =~= ps.take(i as int));
            assert(ps.take(i + 1).last() == pieces@[i as int]@);
            match value_from_chars::<MIN, MAX>(&pieces[i]) {
                Err(e) => {
                    proof {
                        assert(ps == split_on(s@, seq![',']));
                        assert(value_parse(ps.take(i + 1).last(), MIN, MAX) == Err::<u32, CalendarErrorView>(e@));
                        assert(values_parse(ps.take(i + 1), MIN, MAX) == Err::<
                            Seq<u32>,
                            CalendarErrorView,
                        >(e@));
                        lemma_values_parse_err_prefix(ps, i + 1, MIN, MAX);
                        assert(ps.take(ps.len() as int) =~= ps);
                        assert(values_parse(ps, MIN, MAX) == Err::<Seq<u32>, CalendarErrorView>(e@));
                        assert(!contains_seq(s@, dots()));
                        assert(s@.contains(','));
                        assert(s@ != seq!['*']);
                    }
                    return Err(e);
                },
                Ok(v) => {
                    values.push(v);
                },
            }
            i = i + 1;
        }
        assert(ps.take(ps.len() as int) =~= ps);
        let sorted = sort_values(&values);
        proof {
            assert forall|i: int, j: int| 0 <= i <= j < sorted@.len() implies sorted@[i]
                <= sorted@[j] by {
                lemma_leq_total();
                values@.lemma_sort_by_ensures(leq_u32());
                if i < j {
                    assert(leq_u32()(sorted@[i], sorted@[j]));
                }
            }
            assert forall|k: int| 0 <= k < sorted@.len() implies MIN <= #[trigger] sorted@[k]
                <= MAX by {
                assert(values@.contains(sorted@[k]));
            }
        }
        return Ok(TimeComponent::Values(sorted));
    }
    match value_from_chars::<MIN, MAX>(s) {
        Err(e) => Err(e),
        Ok(v) => {
            let mut vs: Vec<u32> = Vec::new();
            vs.push(v);
            assert(vs@ =~= seq![v]);
            Ok(TimeComponent::Values(vs))
        },
    }
}

/// Once the listed values of a prefix fail to read, so do those of every longer prefix.
proof fn lemma_values_parse_err_prefix(ps: Seq<Seq<char>>, i: int, min: u32, max: u32)
    requires
        0 <= i <= ps.len(),
        values_parse(ps.take(i), min, max) is Err,
    ensures
        values_parse(ps, min, max) == values_parse(ps.take(i), min, max),
    decreases ps.len() - i,
{
    if i < ps.len() {
        assert(ps.take(i + 1).drop_last() =~= ps.take(i));
        lemma_values_parse_err_prefix(ps, i + 1, min, max);
    } else {
        assert(ps.take(i) =~= ps);
    }
}

impl<const MIN: u32, const MAX: u32> TimeComponent<MIN, MAX> {
    /// Reads a field: `*`, `a..b`, `a..b/s`, `a,b,c` or a single value, between `MIN` and
    /// `MAX`.
    pub fn parse(s: &str) -> (r: Result<TimeComponent<MIN, MAX>, CalendarError>)
        ensures
            component_result(r) == component_parse(s@, MIN, MAX),
            r matches Ok(c) ==> component_wf(c@, MIN, MAX),
    {
        let cs = chars_of(s);
        component_from_chars(&cs)
    }
}

impl<const MIN: u32, const MAX: u32> FromStr for TimeComponent<MIN, MAX> {
    type Err = CalendarError;

    fn from_str(s: &str) -> (r: Result<TimeComponent<MIN, MAX>, CalendarError>)
        ensures
            component_result(r) == component_parse(s@, MIN, MAX),
            r matches Ok(c) ==> component_wf(c@, MIN, MAX),
    {
        TimeComponent::parse(s)
    }
}

impl FromStr for Weekday {
    type Err = CalendarError;

    fn from_str(s: &str) -> (r: Result<Weekday, CalendarError>)
        ensures
            match Weekday::from_lower_spec(lowercase(s@)) {
                Some(w) => r == Ok::<Weekday, CalendarError>(w),
                None => r matches Err(e) && e@ == CalendarErrorView::InvalidWeekday(lowercase(s@)),
            },
    {
        Weekday::parse(s)
    }
}

pub open spec fn weekdays_result(r: Result<Vec<Weekday>, CalendarError>) -> Result<
    Seq<Weekday>,
    CalendarErrorView,
> {
    match r {
        Ok(v) => Ok(v@),
        Err(e) => Err(e@),
    }
}

fn weekday_from_chars(p: &Vec<char>) -> (r: Result<Weekday, CalendarError>)
    ensures
        match weekday_named(p@) {
            Some(w) => r == Ok::<Weekday, CalendarError>(w),
            None => r matches Err(e) && e@ == CalendarErrorView::InvalidWeekday(
                lowercase(p@),
            ),
        },
{
    let s = string_from_chars(p);
    Weekday::parse(s.as_str())
}

fn weekday_span_exec(a: Weekday, b: Weekday) -> (r: Vec<Weekday>)
    ensures
        r@ == weekday_span(a, b),
{
    let ai = a.index();
    let bi = b.index();
    let mut out: Vec<Weekday> = Vec::new();
    let ghost want = weekday_span(a, b);
    if ai <= bi {
        let mut k: u8 = ai;
        while k <= bi
            invariant
                ai <= k <= bi + 1,
                bi < 7,
                ai == a.index_spec(),
                bi == b.index_spec(),
                want == weekday_span(a, b),
                out@ == want.take(k - ai),
            decreases bi + 1 - k,
        {
            let w = Weekday::from_index(k);
            out.push(w);
            assert(out@ =~= want.take(k - ai + 1));
            k = k + 1;
        }
        assert(out@ =~= want);
    } else {
        assert(want =~= Seq::<Weekday>::empty());
    }
    out
}

proof fn lemma_weekday_list_err_prefix(ps: Seq<Seq<char>>, i: int)
    requires
        0 <= i <= ps.len(),
        weekday_list(ps.take(i)) is Err,
    ensures
        weekday_list(ps) == weekday_list(ps.take(i)),
    decreases ps.len() - i,
{
    if i < ps.len() {
        assert(ps.take(i + 1).drop_last() =~= ps.take(i));
        lemma_weekday_list_err_prefix(ps, i + 1);
    } else {
        assert(ps.take(i) =~= ps);
    }
}

fn weekday_token_from_chars(part: &Vec<char>) -> (r: Result<Vec<Weekday>, CalendarError>)
    ensures
        weekdays_result(r) == weekday_token(part@),
{
    if contains_char(part, '/') {
        return Err(CalendarError::InvalidFormat);
    }
    if contains_chars(part, &['.', '.']) {
        assert(['.', '.']@ =~= dots());
        let r = split_chars(part, &['.', '.']);
        if r.len() != 2 {
            return Err(CalendarError::InvalidFormat);
        }
        assert(r@[0]@ == views(r@)[0]);
        assert(r@[1]@ == views(r@)[1]);
        let a = match weekday_from_chars(&r[0]) {
            Ok(w) => w,
            Err(_) => {
                return Err(CalendarError::InvalidFormat);
            },
        };
        let b = match weekday_from_chars(&r[1]) {
            Ok(w) => w,
            Err(_) => {
                return Err(CalendarError::InvalidFormat);
            },
        };
        return Ok(weekday_span_exec(a, b));
    }
    assert(['.', '.']@ =~= dots());
    let pieces = split_chars(part, &[',']);
    assert([',']@ =~= seq![',']);
    let ghost ps = views(pieces@);
    let mut out: Vec<Weekday> = Vec::new();
    let mut i: usize = 0;
    assert(ps.take(0) =~= Seq::<Seq<char>>::empty());
    while i < pieces.len()
        invariant
            i <= pieces@.len(),
            ps == views(pieces@),
            ps == split_on(part@, seq![',']),
            !part@.contains('/'),
            !contains_seq(part@, dots()),
            weekday_list(ps.take(i as int)) == Ok::<Seq<Weekday>, CalendarErrorView>(out@),
        decreases pieces@.len() - i,
    {
        assert(ps.take(i + 1).drop_last() =~= ps.take(i as int));
        assert(ps.take(i + 1).last() == pieces@[i as int]@);
        match weekday_from_chars(&pieces[i]) {
            Ok(w) => {
                out.push(w);
            },
            Err(e) => {
                proof {
                    lemma_weekday_list_err_prefix(ps, i + 1);
                    assert(ps.take(ps.len() as int) =~= ps);
                }
                return Err(e);
            },
        }
        i = i + 1;
    }
    assert(ps.take(ps.len() as int) =~= ps);
    Ok(out)
}

pub open spec fn opt_weekdays(w: Option<Vec<Weekday>>) -> Option<Seq<Weekday>> {
    match w {
        Some(v) => Some(v@),
        None => None,
    }
}

pub open spec fn opt_pieces(p: Option<Vec<Vec<char>>>) -> Option<Seq<Seq<char>>> {
    match p {
        Some(v) => Some(views(v@)),
        None => None,
    }
}

pub open spec fn scan_view(
    w: Option<Vec<Weekday>>,
    d: Option<Vec<Vec<char>>>,
    t: Option<Vec<Vec<char>>>,
    tz: Option<chrono_tz::Tz>,
) -> ScanState {
    ScanState { weekdays: opt_weekdays(w), date: opt_pieces(d), time: opt_pieces(t), timezone: tz }
}

proof fn lemma_scan_err_prefix(ps: Seq<Seq<char>>, i: int)
    requires
        0 <= i <= ps.len(),
        scan_words(ps.take(i)) is Err,
    ensures
        scan_words(ps) == scan_words(ps.take(i)),
    decreases ps.len() - i,
{
    if i < ps.len() {
        assert(ps.take(i + 1).drop_last() =~= ps.take(i));
        lemma_scan_err_prefix(ps, i + 1);
    } else {
        assert(ps.take(i) =~= ps);
    }
}

fn field_chars(p: &Option<Vec<Vec<char>>>, i: usize, default: &[char]) -> (r: Vec<char>)
    ensures
        r@ == field_text(opt_pieces(*p), i as int, default@),
{
    match p {
        Some(q) => {
            if i < q.len() {
                assert(q@[i as int]@ == views(q@)[i as int]);
                let mut out: Vec<char> = Vec::new();
                push_chars(&mut out, &q[i]);
                assert(out@ =~= q@[i as int]@);
                out
            } else {
                let mut out: Vec<char> = Vec::new();
                let mut k: usize = 0;
                while k < default.len()
                    invariant
                        k <= default@.len(),
                        out@ == default@.take(k as int),
                    decreases default@.len() - k,
                {
                    out.push(default[k]);
                    k = k + 1;
                    assert(out@ =~= default@.take(k as int));
                }
                assert(out@ =~= default@);
                out
            }
        },
        None => {
            let mut out: Vec<char> = Vec::new();
            let mut k: usize = 0;
            while k < default.len()
                invariant
                    k <= default@.len(),
                    out@ == default@.take(k as int),
                decreases default@.len() - k,
            {
                out.push(default[k]);
                k = k + 1;
                assert(out@ =~= default@.take(k as int));
            }
            assert(out@ =~= default@);
            out
        },
    }
}

/// Whether a range's start and end read but its step does not.
fn step_unreadable_exec(s: &Vec<char>) -> (r: bool)
    ensures
        r == step_unreadable(s@),
{
    let parts = split_chars(s, &['.', '.']);
    assert(['.', '.']@ =~= dots());
    if parts.len() != 2 {
        return false;
    }
    assert(parts@[0]@ == views(parts@)[0]);
    assert(parts@[1]@ == views(parts@)[1]);
    if parse_u32_chars(&parts[0]).is_none() || !contains_char(&parts[1], '/') {
        return false;
    }
    let sp = split_chars(&parts[1], &['/']);
    assert(['/']@ =~= seq!['/']);
    if sp.len() != 2 {
        return false;
    }
    assert(sp@[0]@ == views(sp@)[0]);
    assert(sp@[1]@ == views(sp@)[1]);
    parse_u32_chars(&sp[0]).is_some() && parse_u32_chars(&sp[1]).is_none()
}

fn field_from_chars<const MIN: u32, const MAX: u32>(text: &Vec<char>) -> (r: Result<
    TimeComponent<MIN, MAX>,
    CalendarError,
>)
    ensures
        component_result(r) == field_parse(text@, MIN, MAX),
        r matches Ok(c) ==> component_wf(c@, MIN, MAX),
{
    let ranged = contains_chars(text, &['.', '.']);
    assert(['.', '.']@ =~= dots());
    match component_from_chars::<MIN, MAX>(text) {
        Ok(c) => Ok(c),
        Err(CalendarError::InvalidRange { start, end }) => {
            if ranged {
                Err(CalendarError::InvalidFormat)
            } else {
                Err(CalendarError::InvalidRange { start, end })
            }
        },
        Err(e) => {
            if ranged && step_unreadable_exec(text) {
                Err(CalendarError::InvalidFormat)
            } else {
                Err(e)
            }
        },
    }
}

impl Calendar {
    /// The calendar that a lower-case keyword names (`minutely`, `hourly`, `daily`, `weekly`,
    /// `monthly`, `yearly` or `annually`, `quarterly`, `semiannually`), with no time zone.
    pub fn from_keyword(lower: &str) -> (r: Option<Calendar>)
        ensures
            match keyword_calendar(lower@) {
                Some(v) => r matches Some(c) && c@ == v,
                None => r is None,
            },
            r matches Some(c) ==> calendar_wf(c@),
    {
        let l = chars_of(lower);
        if chars_eq(&l, &chars_of("minutely")) {
            Some(Calendar::minutely(None))
        } else if chars_eq(&l, &chars_of("hourly")) {
            Some(Calendar::hourly(None))
        } else if chars_eq(&l, &chars_of("daily")) {
            Some(Calendar::daily(None))
        } else if chars_eq(&l, &chars_of("monthly")) {
            Some(Calendar::monthly(None))
        } else if chars_eq(&l, &chars_of("weekly")) {
            Some(Calendar::weekly(None))
        } else if chars_eq(&l, &chars_of("yearly")) || chars_eq(&l, &chars_of("annually")) {
            Some(Calendar::yearly(None))
        } else if chars_eq(&l, &chars_of("quarterly")) {
            Some(Calendar::quarterly(None))
        } else if chars_eq(&l, &chars_of("semiannually")) {
            Some(Calendar::semiannually(None))
        } else {
            None
        }
    }

    /// Reads an expression of words: optional weekdays, a date, a time, and after the time a
    /// zone name.
    pub fn parse_expression(s: &str) -> (r: Result<Calendar, CalendarError>)
        ensures
            calendar_result(r) == expression_parse(s@),
            r matches Ok(c) ==> calendar_wf(c@),
    {
        let cs = chars_of(s);
        let words = split_whitespace(&cs);
        if words.len() == 0 {
            return Err(CalendarError::InvalidFormat);
        }
        let ghost ps = views(words@);
        let mut weekdays: Option<Vec<Weekday>> = None;
        let mut date: Option<Vec<Vec<char>>> = None;
        let mut time: Option<Vec<Vec<char>>> = None;
        let mut timezone: Option<chrono_tz::Tz> = None;
        let mut i: usize = 0;
        assert(ps.take(0) =~= Seq::<Seq<char>>::empty());
        while i < words.len()
            invariant
                i <= words@.len(),
                ps == views(words@),
                ps == split_ws(s@),
                scan_words(ps.take(i as int)) == Ok::<ScanState, CalendarErrorView>(
                    scan_view(weekdays, date, time, timezone),
                ),
            decreases words@.len() - i,
        {
            let part = &words[i];
            proof {
                assert(ps.take(i + 1).drop_last() =~= ps.take(i as int));
                assert(ps.take(i + 1).last() == part@);
                assert((ps.take(i + 1).len() == 1) == (i == 0));
            }
            if contains_char(part, ':') {
                let pieces = split_chars(part, &[':']);
                assert([':']@ =~= seq![':']);
                time = Some(pieces);
            } else if contains_char(part, '-') || chars_eq(part, &['*']) {
                assert(['*']@ =~= seq!['*']);
                if time.is_some() {
                    proof {
                        lemma_scan_err_prefix(ps, i + 1);
                        assert(ps.take(ps.len() as int) =~= ps);
                    }
                    return Err(CalendarError::InvalidFormat);
                }
                let pieces = split_chars(part, &['-']);
                assert(['-']@ =~= seq!['-']);
                date = Some(pieces);
            } else if i == 0 {
                assert(['*']@ =~= seq!['*']);
                match weekday_token_from_chars(part) {
                    Ok(ws) => {
                        weekdays = Some(ws);
                    },
                    Err(e) => {
                        proof {
                            lemma_scan_err_prefix(ps, i + 1);
                            assert(ps.take(ps.len() as int) =~= ps);
                        }
                        return Err(e);
                    },
                }
            } else if time.is_some() {
                assert(['*']@ =~= seq!['*']);
                let name = string_from_chars(part);
                match parse_timezone(name.as_str()) {
                    Some(tz) => {
                        timezone = Some(tz);
                    },
                    None => {
                        proof {
                            lemma_scan_err_prefix(ps, i + 1);
                            assert(ps.take(ps.len() as int) =~= ps);
                        }
                        return Err(CalendarError::InvalidTimezone(name));
                    },
                }
            } else {
                assert(['*']@ =~= seq!['*']);
                proof {
                    lemma_scan_err_prefix(ps, i + 1);
                    assert(ps.take(ps.len() as int) =~= ps);
                }
                return Err(CalendarError::InvalidFormat);
            }
            i = i + 1;
        }
        assert(ps.take(ps.len() as int) =~= ps);
        let year = match field_from_chars::<1970, 2099>(&field_chars(&date, 0, &['*'])) {
            Ok(c) => c,
            Err(e) => {
                assert(['*']@ =~= seq!['*']);
                return Err(e);
            },
        };
        let month = match field_from_chars::<1, 12>(&field_chars(&date, 1, &['*'])) {
            Ok(c) => c,
            Err(e) => {
                assert(['*']@ =~= seq!['*']);
                return Err(e);
            },
        };
        let day = match field_from_chars::<1, 31>(&field_chars(&date, 2, &['*'])) {
            Ok(c) => c,
            Err(e) => {
                assert(['*']@ =~= seq!['*']);
                return Err(e);
            },
        };
        let hour = match field_from_chars::<0, 23>(&field_chars(&time, 0, &['*'])) {
            Ok(c) => c,
            Err(e) => {
                assert(['*']@ =~= seq!['*']);
                return Err(e);
            },
        };
        let minute = match field_from_chars::<0, 59>(&field_chars(&time, 1, &['*'])) {
            Ok(c) => c,
            Err(e) => {
                assert(['*']@ =~= seq!['*']);
                return Err(e);
            },
        };
        let second = match field_from_chars::<0, 59>(&field_chars(&time, 2, &['0'])) {
            Ok(c) => c,
            Err(e) => {
                assert(['*']@ =~= seq!['*']);
                assert(['0']@ =~= seq!['0']);
                return Err(e);
            },
        };
        assert(['*']@ =~= seq!['*']);
        assert(['0']@ =~= seq!['0']);
        Ok(Calendar { weekdays, year, month, day, hour, minute, second, timezone })
    }

    /// Reads a calendar expression: a keyword in any letter case, or an expression of words.
    pub fn parse(s: &str) -> (r: Result<Calendar, CalendarError>)
        ensures
            calendar_result(r) == calendar_parse(s@),
            r matches Ok(c) ==> calendar_wf(c@),
    {
        let lower = to_lowercase(s);
        match Calendar::from_keyword(lower.as_str()) {
            Some(c) => Ok(c),
            None => Calendar::parse_expression(s),
        }
    }
}

impl FromStr for Calendar {
    type Err = CalendarError;

    fn from_str(s: &str) -> (r: Result<Calendar, CalendarError>)
        ensures
            calendar_result(r) == calendar_parse(s@),
            r matches Ok(c) ==> calendar_wf(c@),
    {
        Calendar::parse(s)
    }
}

} // verus!
