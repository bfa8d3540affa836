//! Writing calendars out: as expressions, and as sentences for people.

use vstd::prelude::*;

use crate::calendar::{
    daily_view, every_day_view, hourly_view, minutely_view, monthly_view, quarterly_view,
    semiannually_view, weekly_view, yearly_view, Calendar, CalendarView, ComponentView,
    TimeComponent, Weekday,
};
use crate::grammar::{dots, opt_weekdays};
use crate::text::{decimal, pad2, push_chars, push_decimal, push_pad2, push_str, string_from_chars};
use crate::zone::{spec_tz_name, timezone_name};

verus! {

/// Numbers written in decimal, separated by commas.
pub open spec fn join_decimals(vs: Seq<u32>) -> Seq<char>
    decreases vs.len(),
{
    if vs.len() == 0 {
        seq![]
    } else if vs.len() == 1 {
        decimal(vs[0] as nat)
    } else {
        join_decimals(vs.drop_last()) + seq![','] + decimal(vs.last() as nat)
    }
}

/// How a field is written: `*`, the values separated by commas, or a range with its ends
/// zero-padded to two places and its step, if any, after a `/`.
pub open spec fn component_text(c: ComponentView) -> Seq<char> {
    match c {
        ComponentView::Any => seq!['*'],
        ComponentView::Values(vs) => join_decimals(vs),
        ComponentView::Range { start, end, step } => pad2(start as nat) + dots() + pad2(end as nat)
            + match step {
            Some(st) => seq!['/'] + decimal(st as nat),
            None => seq![],
        },
    }
}

/// Day names separated by `sep`.
pub open spec fn join_names(ws: Seq<Weekday>, sep: Seq<char>) -> Seq<char>
    decreases ws.len(),
{
    if ws.len() == 0 {
        seq![]
    } else if ws.len() == 1 {
        ws[0].name_spec()
    } else {
        join_names(ws.drop_last(), sep) + sep + ws.last().name_spec()
    }
}

/// How a calendar is written: its days, if any, then `year-month-day hour:minute:second`.
/// The time zone is not written.
pub open spec fn calendar_text(c: CalendarView) -> Seq<char> {
    (match c.weekdays {
        Some(ws) => join_names(ws, seq![',']) + seq![' '],
        None => seq![],
    }) + component_text(c.year) + seq!['-'] + component_text(c.month) + seq!['-']
        + component_text(c.day) + seq![' '] + component_text(c.hour) + seq![':']
        + component_text(c.minute) + seq![':'] + component_text(c.second)
}

/// The name of the keyword schedule that a calendar is, whatever its zone.
pub open spec fn named_pattern(c: CalendarView) -> Option<Seq<char>> {
    if c == minutely_view(c.timezone) {
        Some("Every minute"@)
    } else if c == hourly_view(c.timezone) {
        Some("Every hour"@)
    } else if c == daily_view(c.timezone) {
        Some("Daily"@)
    } else if c == weekly_view(c.timezone) {
        Some("Weekly"@)
    } else if c == monthly_view(c.timezone) {
        Some("Monthly"@)
    } else if c == yearly_view(c.timezone) {
        Some("Yearly"@)
    } else if c == quarterly_view(c.timezone) {
        Some("Quarterly"@)
    } else if c == semiannually_view(c.timezone) {
        Some("Semi-annually"@)
    } else {
        None
    }
}

/// The English ordinal suffix of a number ("st", "nd", "rd", "th").
pub open spec fn ordinal_suffix(n: nat) -> Seq<char> {
    let a = n % 10;
    let b = n % 100;
    if (a == 1 && b == 11) || (a == 2 && b == 12) || (a == 3 && b == 13) {
        "th"@
    } else if a == 1 {
        "st"@
    } else if a == 2 {
        "nd"@
    } else if a == 3 {
        "rd"@
    } else {
        "th"@
    }
}

/// English ordinal suffixes: a number whose last two digits are 11, 12 or 13 takes "th"
/// (11th, 12th, 113th); otherwise a last digit 1, 2 or 3 takes "st", "nd" or "rd" (1st, 22nd,
/// 103rd); every other number takes "th".
pub proof fn lemma_ordinal_suffix(n: nat)
    ensures
        n % 100 == 11 || n % 100 == 12 || n % 100 == 13 ==> ordinal_suffix(n) == "th"@,
        n % 10 == 1 && n % 100 != 11 ==> ordinal_suffix(n) == "st"@,
        n % 10 == 2 && n % 100 != 12 ==> ordinal_suffix(n) == "nd"@,
        n % 10 == 3 && n % 100 != 13 ==> ordinal_suffix(n) == "rd"@,
        n % 10 == 0 || n % 10 >= 4 ==> ordinal_suffix(n) == "th"@,
{
    assert((n % 100) % 10 == n % 10) by {
        vstd::arithmetic::div_mod::lemma_mod_mod(n as int, 10, 10);
    }
}

/// A number as an English ordinal ("1st", "2nd", "11th", "21st", ...).
pub open spec fn ordinal(n: nat) -> Seq<char> {
    decimal(n) + ordinal_suffix(n)
}

pub open spec fn range_step(c: ComponentView) -> Option<u32> {
    match c {
        ComponentView::Range { step, .. } => step,
        _ => None,
    }
}

/// How often a calendar fires, judged from which fields are `*`.
pub open spec fn frequency_text(c: CalendarView) -> Seq<char> {
    if c.year is Any && c.month is Any && c.day is Any && c.hour is Any && range_step(c.minute) is Some {
        "Every "@ + decimal(range_step(c.minute)->0 as nat) + " minutes"@
    } else if c.year is Any && c.month is Any && c.day is Any && range_step(c.hour) is Some {
        "Every "@ + decimal(range_step(c.hour)->0 as nat) + " hours"@
    } else if c.year is Any && c.month is Any && range_step(c.day) is Some {
        "Every "@ + decimal(range_step(c.day)->0 as nat) + " days"@
    } else if c.day is Any && c.month is Any && c.year is Any {
        "Every day"@
    } else {
        match c.day {
            ComponentView::Values(ds) => if ds.len() == 1 {
                "On the "@ + ordinal(ds[0] as nat) + " day of each month"@
            } else {
                "On a custom schedule"@
            },
            _ => "On a custom schedule"@,
        }
    }
}

/// The time of day of a calendar that fires at a single hour, minute and second: "noon",
/// "midnight", or the 12-hour time with AM or PM.
pub open spec fn time_text(c: CalendarView) -> Option<Seq<char>> {
    match (c.hour, c.minute, c.second) {
        (ComponentView::Values(hs), ComponentView::Values(ms), ComponentView::Values(ss)) => {
            if hs.len() == 1 && ms.len() == 1 && ss.len() == 1 {
                let h = hs[0];
                let m = ms[0];
                if h == 12 && m == 0 {
                    Some("noon"@)
                } else if h == 0 && m == 0 {
                    Some("midnight"@)
                } else {
                    let period = if h >= 12 {
                        "PM"@
                    } else {
                        "AM"@
                    };
                    let h12: u32 = if h == 0 {
                        12
                    } else if h > 12 {
                        (h - 12) as u32
                    } else {
                        h
                    };
                    Some(pad2(h12 as nat) + seq![':'] + pad2(m as nat) + seq![' '] + period)
                }
            } else {
                None
            }
        },
        _ => None,
    }
}

/// The days of a calendar: "on Mon" or "on Mon, Wed, Fri".
pub open spec fn weekday_text(c: CalendarView) -> Option<Seq<char>> {
    match c.weekdays {
        Some(ws) => if ws.len() == 1 {
            Some("on "@ + ws[0].name_spec())
        } else {
            Some("on "@ + join_names(ws, ", "@))
        },
        None => None,
    }
}

pub open spec fn then_part(p: Option<Seq<char>>) -> Seq<char> {
    match p {
        Some(x) => seq![' '] + x,
        None => seq![],
    }
}

/// A calendar described for people: its keyword name, or its frequency followed by its days,
/// its time ("at ...") and, when asked for and present, its zone in parentheses.
pub open spec fn human_text(c: CalendarView, show_timezone: bool) -> Seq<char> {
    match named_pattern(c) {
        Some(k) => k,
        None => frequency_text(c) + then_part(weekday_text(c)) + then_part(
            match time_text(c) {
                Some(t) => Some("at "@ + t),
                None => None,
            },
        ) + then_part(
            match c.timezone {
                Some(tz) => if show_timezone {
                    Some(seq!['('] + spec_tz_name(tz) + seq![')'])
                } else {
                    None
                },
                None => None,
            },
        ),
    }
}

fn push_component<const MIN: u32, const MAX: u32>(out: &mut Vec<char>, c: &TimeComponent<MIN, MAX>)
    ensures
        final(out)@ == old(out)@ + component_text(c@),
{
    match c {
        TimeComponent::Any => {
            out.push('*');
        },
        TimeComponent::Values(values) => {
            let mut i: usize = 0;
            assert(join_decimals(values@.take(0)) =~= Seq::<char>::empty());
            while i < values.len()
                invariant
                    i <= values@.len(),
                    out@ == old(out)@ + join_decimals(values@.take(i as int)),
                decreases values@.len() - i,
            {
                let ghost before = out@;
                if i > 0 {
                    out.push(',');
                }
                push_decimal(out, values[i]);
                proof {
                    let t = values@.take(i + 1);
                    assert(t.drop_last() =~= values@.take(i as int));
                    assert(t.last() == values@[i as int]);
                    if i == 0 {
                        assert(t.len() == 1);
                    }
                }
                i = i + 1;
            }
            assert(values@.take(values@.len() as int) =~= values@);
        },
        TimeComponent::Range { start, end, step } => {
            push_pad2(out, *start);
            out.push('.');
            out.push('.');
            push_pad2(out, *end);
            match step {
                Some(st) => {
                    out.push('/');
                    push_decimal(out, *st);
                },
                None => {},
            }
        },
    }
}

fn push_names(out: &mut Vec<char>, ws: &Vec<Weekday>, sep: &str)
    ensures
        final(out)@ == old(out)@ + join_names(ws@, sep@),
{
    let mut i: usize = 0;
    assert(join_names(ws@.take(0), sep@) =~= Seq::<char>::empty());
    while i < ws.len()
        invariant
            i <= ws@.len(),
            out@ == old(out)@ + join_names(ws@.take(i as int), sep@),
        decreases ws@.len() - i,
    {
        if i > 0 {
            push_str(out, sep);
        }
        push_str(out, ws[i].as_str());
        proof {
            let t = ws@.take(i + 1);
            assert(t.drop_last() =~= ws@.take(i as int));
            assert(t.last() == ws@[i as int]);
        }
        i = i + 1;
    }
    assert(ws@.take(ws@.len() as int) =~= ws@);
}

impl<const MIN: u32, const MAX: u32> TimeComponent<MIN, MAX> {
    /// The field as it is written in an expression.
    pub fn to_component_string(&self) -> (r: String)
        ensures
            r@ == component_text(self@),
    {
        let mut out: Vec<char> = Vec::new();
        push_component(&mut out, self);
        string_from_chars(&out)
    }
}

pub open spec fn want_view(w: Option<&[u32]>) -> ComponentView {
    match w {
        Some(vs) => ComponentView::Values(vs@),
        None => ComponentView::Any,
    }
}

fn component_is<const MIN: u32, const MAX: u32>(c: &TimeComponent<MIN, MAX>, want: Option<&[u32]>) -> (r:
    bool)
    ensures
        r == (c@ == want_view(want)),
{
    match (c, want) {
        (TimeComponent::Any, None) => true,
        (TimeComponent::Values(vs), Some(w)) => {
            if vs.len() != w.len() {
                return false;
            }
            let mut i: usize = 0;
            while i < vs.len()
                invariant
                    vs@.len() == w@.len(),
                    c@ == ComponentView::Values(vs@),
                    want_view(want) == ComponentView::Values(w@),
                    i <= vs@.len(),
                    forall|j: int| 0 <= j < i ==> vs@[j] == w@[j],
                decreases vs@.len() - i,
            {
                if vs[i] != w[i] {
                    assert(vs@[i as int] != w@[i as int]);
                    return false;
                }
                i = i + 1;
            }
            assert(vs@ =~= w@);
            true
        },
        _ => false,
    }
}

/// Whether the calendar is the keyword schedule with the given fields (in its own zone).
fn same_schedule(
    c: &Calendar,
    monday: bool,
    month: Option<&[u32]>,
    day: Option<&[u32]>,
    hour: Option<&[u32]>,
    minute: Option<&[u32]>,
) -> (r: bool)
    ensures
        r == (c@ == every_day_view(
            if monday {
                Some(seq![Weekday::Mon])
            } else {
                None
            },
            want_view(month),
            want_view(day),
            want_view(hour),
            want_view(minute),
            c.timezone,
        )),
{
    let days_ok = match &c.weekdays {
        None => !monday,
        Some(ws) => monday && ws.len() == 1 && ws[0] == Weekday::Mon,
    };
    proof {
        if let Some(ws) = &c.weekdays {
            if monday && ws@.len() == 1 && ws@[0] == Weekday::Mon {
                assert(ws@ =~= seq![Weekday::Mon]);
            }
        }
    }
    let zero: [u32; 1] = [0];
    let second_ok = component_is(&c.second, Some(&zero));
    assert(zero@ =~= seq![0u32]);
    days_ok && component_is(&c.year, None) && component_is(&c.month, month) && component_is(
        &c.day,
        day,
    ) && component_is(&c.hour, hour) && component_is(&c.minute, minute) && second_ok
}

impl Calendar {
    fn named_pattern_exec(&self) -> (r: Option<&'static str>)
        ensures
            match named_pattern(self@) {
                Some(k) => r matches Some(x) && x@ == k,
                None => r is None,
            },
    {
        let zero: [u32; 1] = [0];
        let one: [u32; 1] = [1];
        let quarters: [u32; 4] = [1, 4, 7, 10];
        let halves: [u32; 2] = [1, 7];
        assert(zero@ =~= seq![0u32]);
        assert(one@ =~= seq![1u32]);
        assert(quarters@ =~= seq![1u32, 4, 7, 10]);
        assert(halves@ =~= seq![1u32, 7]);
        if same_schedule(self, false, None, None, None, None) {
            return Some("Every minute");
        }
        if same_schedule(self, false, None, None, None, Some(&zero)) {
            return Some("Every hour");
        }
        if same_schedule(self, false, None, None, Some(&zero), Some(&zero)) {
            return Some("Daily");
        }
        if same_schedule(self, true, None, None, Some(&zero), Some(&zero)) {
            return Some("Weekly");
        }
        if same_schedule(self, false, None, Some(&one), Some(&zero), Some(&zero)) {
            return Some("Monthly");
        }
        if same_schedule(self, false, Some(&one), Some(&one), Some(&zero), Some(&zero)) {
            return Some("Yearly");
        }
        if same_schedule(self, false, Some(&quarters), Some(&one), Some(&zero), Some(&zero)) {
            return Some("Quarterly");
        }
        if same_schedule(self, false, Some(&halves), Some(&one), Some(&zero), Some(&zero)) {
            return Some("Semi-annually");
        }
        None
    }

    fn push_frequency(&self, out: &mut Vec<char>)
        ensures
            final(out)@ == old(out)@ + frequency_text(self@),
    {
        let year_any = matches!(self.year, TimeComponent::Any);
        let month_any = matches!(self.month, TimeComponent::Any);
        let day_any = matches!(self.day, TimeComponent::Any);
        let hour_any = matches!(self.hour, TimeComponent::Any);
        if year_any && month_any && day_any && hour_any {
            if let TimeComponent::Range { step: Some(st), .. } = &self.minute {
                push_str(out, "Every ");
                push_decimal(out, *st);
                push_str(out, " minutes");
                return;
            }
        }
        if year_any && month_any && day_any {
            if let TimeComponent::Range { step: Some(st), .. } = &self.hour {
                push_str(out, "Every ");
                push_decimal(out, *st);
                push_str(out, " hours");
                return;
            }
        }
        if year_any && month_any {
            if let TimeComponent::Range { step: Some(st), .. } = &self.day {
                push_str(out, "Every ");
                push_decimal(out, *st);
                push_str(out, " days");
                return;
            }
        }
        if day_any && month_any && year_any {
            push_str(out, "Every day");
            return;
        }
        if let TimeComponent::Values(days) = &self.day {
            if days.len() == 1 {
                let n = days[0];
                push_str(out, "On the ");
                push_decimal(out, n);
                let a = n % 10;
                let b = n % 100;
                if (a == 1 && b == 11) || (a == 2 && b == 12) || (a == 3 && b == 13) {
                    push_str(out, "th");
                } else if a == 1 {
                    push_str(out, "st");
                } else if a == 2 {
                    push_str(out, "nd");
                } else if a == 3 {
                    push_str(out, "rd");
                } else {
                    push_str(out, "th");
                }
                push_str(out, " day of each month");
                return;
            }
        }
        push_str(out, "On a custom schedule");
    }

    fn time_text_exec(&self) -> (r: Option<Vec<char>>)
        ensures
            match time_text(self@) {
                Some(t) => r matches Some(x) && x@ == t,
                None => r is None,
            },
    {
        if let (TimeComponent::Values(hours), TimeComponent::Values(mins), TimeComponent::Values(secs)) =
            (&self.hour, &self.minute, &self.second) {
            if hours.len() == 1 && mins.len() == 1 && secs.len() == 1 {
                let h = hours[0];
                let m = mins[0];
                let mut out: Vec<char> = Vec::new();
                if h == 12 && m == 0 {
                    push_str(&mut out, "noon");
                    return Some(out);
                }
                if h == 0 && m == 0 {
                    push_str(&mut out, "midnight");
                    return Some(out);
                }
                let h12: u32 = if h == 0 {
                    12
                } else if h > 12 {
                    h - 12
                } else {
                    h
                };
                push_pad2(&mut out, h12);
                out.push(':');
                push_pad2(&mut out, m);
                out.push(' ');
                if h >= 12 {
                    push_str(&mut out, "PM");
                } else {
                    push_str(&mut out, "AM");
                }
                return Some(out);
            }
        }
        None
    }

    /// Appends " on ..." when the calendar names its days.
    fn push_weekday_part(&self, out: &mut Vec<char>)
        ensures
            final(out)@ == old(out)@ + then_part(weekday_text(self@)),
    {
        let ghost start = out@;
        if let Some(weekdays) = &self.weekdays {
            out.push(' ');
            push_str(out, "on ");
            if weekdays.len() == 1 {
                push_str(out, weekdays[0].as_str());
            } else {
                push_names(out, weekdays, ", ");
            }
        }
        proof {
            assert(out@ =~= start + then_part(weekday_text(self@)));
        }
    }

    /// Appends " at ..." when the calendar fires at one time of day.
    fn push_time_part(&self, out: &mut Vec<char>)
        ensures
            final(out)@ == old(out)@ + then_part(
                match time_text(self@) {
                    Some(t) => Some("at "@ + t),
                    None => None,
                },
            ),
    {
        let ghost start = out@;
        if let Some(t) = self.time_text_exec() {
            out.push(' ');
            push_str(out, "at ");
            push_chars(out, &t);
        }
        proof {
            assert(out@ =~= start + then_part(
                match time_text(self@) {
                    Some(t) => Some("at "@ + t),
                    None => None,
                },
            ));
        }
    }

    /// Appends " (zone)" when asked for and the calendar has a zone.
    fn push_zone_part(&self, out: &mut Vec<char>, show_timezone: bool)
        ensures
            final(out)@ == old(out)@ + then_part(
                match self@.timezone {
                    Some(tz) => if show_timezone {
                        Some(seq!['('] + spec_tz_name(tz) + seq![')'])
                    } else {
                        None
                    },
                    None => None,
                },
            ),
    {
        let ghost start = out@;
        if show_timezone {
            if let Some(tz) = self.timezone {
                let name = timezone_name(tz);
                out.push(' ');
                out.push('(');
                push_str(out, name.as_str());
                out.push(')');
            }
        }
        proof {
            assert(out@ =~= start + then_part(
                match self@.timezone {
                    Some(tz) => if show_timezone {
                        Some(seq!['('] + spec_tz_name(tz) + seq![')'])
                    } else {
                        None
                    },
                    None => None,
                },
            ));
        }
    }

    /// The calendar described for people, e.g. "Every day on Mon, Wed, Fri at 05:00 PM" or
    /// "Weekly"; `show_timezone` adds the zone's name in parentheses.
    pub fn to_human_readable(&self, show_timezone: bool) -> (r: String)
        ensures
            r@ == human_text(self@, show_timezone),
    {
        let mut out: Vec<char> = Vec::new();
        if let Some(keyword) = self.named_pattern_exec() {
            push_str(&mut out, keyword);
            return string_from_chars(&out);
        }
        self.push_frequency(&mut out);
        self.push_weekday_part(&mut out);
        self.push_time_part(&mut out);
        self.push_zone_part(&mut out, show_timezone);
        proof {
            assert(out@ =~= human_text(self@, show_timezone));
        }
        string_from_chars(&out)
    }

    /// The calendar written as an expression (without its zone), e.g.
    /// "Mon,Wed,Fri *-*-* 0:0:0".
    pub fn to_calendar_string(&self) -> (r: String)
        ensures
            r@ == calendar_text(self@),
    {
        let mut out: Vec<char> = Vec::new();
        if let Some(weekdays) = &self.weekdays {
            push_names(&mut out, weekdays, ",");
            out.push(' ');
        }
        let ghost head = out@;
        push_component(&mut out, &self.year);
        out.push('-');
        push_component(&mut out, &self.month);
        out.push('-');
        push_component(&mut out, &self.day);
        out.push(' ');
        push_component(&mut out, &self.hour);
        out.push(':');
        push_component(&mut out, &self.minute);
        out.push(':');
        push_component(&mut out, &self.second);
        proof {
            assert(",".view() == seq![',']) by {
                reveal_strlit(",");
            }
            assert(out@ =~= calendar_text(self@));
        }
        string_from_chars(&out)
    }
}

/// The keyword calendars are described by their names ("Every minute", "Every hour",
/// "Daily", "Weekly", "Monthly", "Yearly", "Quarterly", "Semi-annually"), whatever their zone
/// and whether the zone is asked for.
pub proof fn lemma_keyword_descriptions(tz: Option<chrono_tz::Tz>, show_timezone: bool)
    ensures
        human_text(minutely_view(tz), show_timezone) == "Every minute"@,
        human_text(hourly_view(tz), show_timezone) == "Every hour"@,
        human_text(daily_view(tz), show_timezone) == "Daily"@,
        human_text(weekly_view(tz), show_timezone) == "Weekly"@,
        human_text(monthly_view(tz), show_timezone) == "Monthly"@,
        human_text(yearly_view(tz), show_timezone) == "Yearly"@,
        human_text(quarterly_view(tz), show_timezone) == "Quarterly"@,
        human_text(semiannually_view(tz), show_timezone) == "Semi-annually"@,
{
    assert(seq![1u32, 4, 7, 10] != seq![1u32, 7]) by {
        assert(seq![1u32, 4, 7, 10].len() != seq![1u32, 7].len());
    }
    assert(seq![1u32, 4, 7, 10] != seq![1u32]) by {
        assert(seq![1u32, 4, 7, 10].len() != seq![1u32].len());
    }
    assert(seq![1u32, 7] != seq![1u32]) by {
        assert(seq![1u32, 7].len() != seq![1u32].len());
    }
}

/// A calendar that fires at one hour `h`, one minute `m` and one second reads its time of day
/// as "noon" at 12:00, "midnight" at 0:00, and otherwise as the 12-hour time, both parts
/// padded to two digits, followed by AM or PM ("12:30 AM", "12:30 PM", "01:05 PM").
pub proof fn lemma_time_of_day(c: CalendarView, h: u32, m: u32, s: u32)
    requires
        c.hour == ComponentView::Values(seq![h]),
        c.minute == ComponentView::Values(seq![m]),
        c.second == ComponentView::Values(seq![s]),
        h <= 23,
        m <= 59,
    ensures
        time_text(c) == Some(
            if h == 12 && m == 0 {
                "noon"@
            } else if h == 0 && m == 0 {
                "midnight"@
            } else {
                pad2(
                    (if h == 0 {
                        12
                    } else if h > 12 {
                        h - 12
                    } else {
                        h as int
                    }) as nat,
                ) + seq![':'] + pad2(m as nat) + seq![' '] + if h >= 12 {
                    "PM"@
                } else {
                    "AM"@
                }
            },
        ),
{
}

} // verus!
