//! Reading back what is written: a calendar written as an expression reads as the same
//! calendar (without its zone, which the expression does not carry).

use vstd::prelude::*;
use vstd::seq_lib::lemma_sorted_unique;

use vstd::relations::{sorted_by, total_ordering};

use crate::calendar::{calendar_wf, component_wf, CalendarView, ComponentView, Weekday};
use crate::grammar::{
    component_parse, dots, field_parse, leq_u32, range_end_parse, range_parse, value_parse,
    values_parse, weekday_list, weekday_named, weekday_token, assemble, calendar_parse,
    expression_parse, keyword_calendar, scan_step, scan_words, ScanState,
};
use crate::render::{calendar_text, component_text, join_decimals, join_names};
use crate::text::{
    all_ascii, all_digits, ascii_lower, decimal, decimal_value, digit_char, is_digit, lowercase,
    contains_seq, digit_value, occurs_at, pad2, parse_u32, split_on, split_ws, no_ws, is_ws,
    is_ascii_char, lemma_split_ws_word,
};

verus! {

/// `s` holds no `c`.
pub open spec fn lacks(s: Seq<char>, c: char) -> bool {
    forall|i: int| 0 <= i < s.len() ==> #[trigger] s[i] != c
}

proof fn lemma_digit_char(d: nat)
    requires
        d < 10,
    ensures
        is_digit(digit_char(d)),
        digit_char(d) as u32 == '0' as u32 + d,
{
    assert(('0' as u32 + d) as char as u32 == '0' as u32 + d);
}

/// The digits of `n` are one or more decimal digits that denote `n`.
proof fn lemma_decimal(n: nat)
    ensures
        decimal(n).len() > 0,
        all_digits(decimal(n)),
        decimal_value(decimal(n)) == n,
    decreases n,
{
    let s = decimal(n);
    if n < 10 {
        lemma_digit_char(n);
        assert(s.drop_last() =~= Seq::<char>::empty());
        assert(decimal_value(s.drop_last()) == 0);
        assert(s.last() == digit_char(n));
    } else {
        lemma_decimal(n / 10);
        lemma_digit_char(n % 10);
        assert(s.drop_last() =~= decimal(n / 10));
        assert(s.last() == digit_char(n % 10));
        assert((n / 10) * 10 + n % 10 == n);
    }
    assert(decimal_value(s) == decimal_value(s.drop_last()) * 10 + digit_value(s.last()));
}

proof fn lemma_pad2(n: nat)
    ensures
        pad2(n).len() > 0,
        all_digits(pad2(n)),
        decimal_value(pad2(n)) == n,
{
    lemma_decimal(n);
    if n < 10 {
        let s = pad2(n);
        lemma_digit_char(0);
        lemma_digit_char(n);
        assert(s.drop_last() =~= seq!['0']);
        assert(seq!['0'].drop_last() =~= Seq::<char>::empty());
        assert(decimal_value(seq!['0'].drop_last()) == 0);
        assert(decimal_value(seq!['0']) == 0);
        assert(s.last() == digit_char(n));
        assert(decimal_value(s) == decimal_value(s.drop_last()) * 10 + digit_value(s.last()));
    }
}

/// A run of digits holds none of the characters that separate the parts of an expression.
proof fn lemma_digits_lack(s: Seq<char>, c: char)
    requires
        all_digits(s),
        !is_digit(c),
    ensures
        lacks(s, c),
{
}

/// A number written in decimal, zero-padded or not, reads back as itself.
proof fn lemma_parse_written(n: u32)
    ensures
        parse_u32(decimal(n as nat)) == Some(n),
        parse_u32(pad2(n as nat)) == Some(n),
{
    lemma_decimal(n as nat);
    lemma_pad2(n as nat);
    assert(is_digit(decimal(n as nat)[0]));
    assert(is_digit(pad2(n as nat)[0]));
}

/// Text without the first character of `sep` is one piece.
proof fn lemma_split_whole(a: Seq<char>, sep: Seq<char>)
    requires
        sep.len() > 0,
        lacks(a, sep[0]),
    ensures
        split_on(a, sep) == seq![a],
    decreases a.len(),
{
    if a.len() == 0 {
        assert(a =~= Seq::<char>::empty());
    } else {
        assert(!occurs_at(a, sep, 0)) by {
            if occurs_at(a, sep, 0) {
                assert(a.subrange(0, sep.len() as int)[0] == a[0]);
            }
        }
        lemma_split_whole(a.drop_first(), sep);
        assert(split_on(a, sep) == split_on(a.drop_first(), sep).update(
            0,
            seq![a[0]] + split_on(a.drop_first(), sep)[0],
        ));
        assert(seq![a[0]] + a.drop_first() =~= a);
        assert(seq![a.drop_first()].update(0, seq![a[0]] + a.drop_first()) =~= seq![a]);
    }
}

/// A piece without the first character of `sep`, then `sep`, splits off as the first piece.
proof fn lemma_split_joined(a: Seq<char>, sep: Seq<char>, b: Seq<char>)
    requires
        sep.len() > 0,
        lacks(a, sep[0]),
    ensures
        split_on(a + sep + b, sep) == seq![a] + split_on(b, sep),
    decreases a.len(),
{
    let s = a + sep + b;
    if a.len() == 0 {
        assert(s =~= sep + b);
        assert(s.subrange(0, sep.len() as int) =~= sep);
        assert(occurs_at(s, sep, 0));
        assert(s.skip(sep.len() as int) =~= b);
        assert(a =~= Seq::<char>::empty());
        assert(split_on(s, sep) == seq![Seq::<char>::empty()] + split_on(s.skip(sep.len() as int), sep));
    } else {
        assert(!occurs_at(s, sep, 0)) by {
            if occurs_at(s, sep, 0) {
                assert(s.subrange(0, sep.len() as int)[0] == s[0]);
            }
        }
        assert(s.drop_first() =~= a.drop_first() + sep + b);
        lemma_split_joined(a.drop_first(), sep, b);
        assert(split_on(s, sep) == split_on(s.drop_first(), sep).update(
            0,
            seq![s[0]] + split_on(s.drop_first(), sep)[0],
        ));
        assert(seq![a[0]] + a.drop_first() =~= a);
        assert((seq![a.drop_first()] + split_on(b, sep)).update(0, seq![s[0]] + a.drop_first())
            =~= seq![a] + split_on(b, sep));
    }
}

/// A single-character separator splits a joined text into the pieces of each side.
proof fn lemma_split_concat(a: Seq<char>, c: char, b: Seq<char>)
    ensures
        split_on(a + seq![c] + b, seq![c]) == split_on(a, seq![c]) + split_on(b, seq![c]),
    decreases a.len(),
{
    let sep = seq![c];
    let s = a + sep + b;
    if a.len() == 0 {
        assert(a =~= Seq::<char>::empty());
        assert(s =~= sep + b);
        assert(s.subrange(0, 1) =~= sep);
        assert(occurs_at(s, sep, 0));
        assert(s.skip(1) =~= b);
        assert(split_on(s, sep) == seq![Seq::<char>::empty()] + split_on(s.skip(1), sep));
    } else if a[0] == c {
        assert(a.subrange(0, 1) =~= sep);
        assert(s.subrange(0, 1) =~= sep);
        assert(s.skip(1) =~= a.skip(1) + sep + b);
        lemma_split_concat(a.skip(1), c, b);
        assert(split_on(s, sep) == seq![Seq::<char>::empty()] + split_on(s.skip(1), sep));
        assert(split_on(a, sep) == seq![Seq::<char>::empty()] + split_on(a.skip(1), sep));
        assert(split_on(s, sep) =~= split_on(a, sep) + split_on(b, sep));
    } else {
        assert(!occurs_at(s, sep, 0)) by {
            if occurs_at(s, sep, 0) {
                assert(s.subrange(0, 1)[0] == s[0]);
            }
        }
        assert(!occurs_at(a, sep, 0)) by {
            if occurs_at(a, sep, 0) {
                assert(a.subrange(0, 1)[0] == a[0]);
            }
        }
        assert(s.drop_first() =~= a.drop_first() + sep + b);
        lemma_split_concat(a.drop_first(), c, b);
        crate::text::lemma_split_on_nonempty(a.drop_first(), sep);
        let ra = split_on(a.drop_first(), sep);
        let rb = split_on(b, sep);
        assert(split_on(s, sep) == (ra + rb).update(0, seq![s[0]] + (ra + rb)[0]));
        assert(split_on(a, sep) == ra.update(0, seq![a[0]] + ra[0]));
        assert((ra + rb).update(0, seq![s[0]] + (ra + rb)[0]) =~= ra.update(0, seq![a[0]] + ra[0])
            + rb);
    }
}

/// Text without the first character of `sep` does not hold `sep`.
proof fn lemma_lacks_seq(s: Seq<char>, sep: Seq<char>)
    requires
        sep.len() > 0,
        lacks(s, sep[0]),
    ensures
        !contains_seq(s, sep),
{
    assert forall|i: int| !occurs_at(s, sep, i) by {
        if occurs_at(s, sep, i) {
            assert(s.subrange(i, i + sep.len())[0] == s[i]);
        }
    }
}

/// `sep` written between two texts is found.
proof fn lemma_holds_seq(a: Seq<char>, sep: Seq<char>, b: Seq<char>)
    ensures
        contains_seq(a + sep + b, sep),
{
    let s = a + sep + b;
    assert(s.subrange(a.len() as int, (a.len() + sep.len()) as int) =~= sep);
    assert(occurs_at(s, sep, a.len() as int));
}

/// The numbers written in decimal, one piece each.
pub open spec fn decimals(vs: Seq<u32>) -> Seq<Seq<char>> {
    Seq::new(vs.len(), |i: int| decimal(vs[i] as nat))
}

/// A character that may stand in a written field: a digit, `,`, `.`, `/` or `*`.
pub open spec fn field_char(c: char) -> bool {
    is_digit(c) || c == ',' || c == '.' || c == '/' || c == '*'
}

pub open spec fn all_field_chars(s: Seq<char>) -> bool {
    forall|i: int| 0 <= i < s.len() ==> field_char(#[trigger] s[i])
}

proof fn lemma_join_decimals(vs: Seq<u32>)
    requires
        vs.len() >= 1,
    ensures
        join_decimals(vs).len() > 0,
        all_field_chars(join_decimals(vs)),
        lacks(join_decimals(vs), '.'),
        split_on(join_decimals(vs), seq![',']) == decimals(vs),
        vs.len() == 1 ==> lacks(join_decimals(vs), ','),
        vs.len() > 1 ==> join_decimals(vs).contains(','),
    decreases vs.len(),
{
    let last = decimal(vs.last() as nat);
    lemma_decimal(vs.last() as nat);
    lemma_digits_lack(last, ',');
    lemma_digits_lack(last, '.');
    lemma_split_whole(last, seq![',']);
    if vs.len() == 1 {
        assert(decimals(vs) =~= seq![last]);
    } else {
        let init = join_decimals(vs.drop_last());
        lemma_join_decimals(vs.drop_last());
        lemma_split_concat(init, ',', last);
        assert(decimals(vs) =~= decimals(vs.drop_last()) + seq![last]);
        let j = join_decimals(vs);
        assert(j == init + seq![','] + last);
        assert(j[init.len() as int] == ',');
    }
}

/// Listed numbers, each between `min` and `max`, read back as themselves.
proof fn lemma_values_parse(vs: Seq<u32>, min: u32, max: u32)
    requires
        forall|i: int| 0 <= i < vs.len() ==> min <= #[trigger] vs[i] <= max,
    ensures
        values_parse(decimals(vs), min, max) == Ok::<Seq<u32>, crate::calendar::CalendarErrorView>(vs),
    decreases vs.len(),
{
    if vs.len() > 0 {
        lemma_values_parse(vs.drop_last(), min, max);
        assert(decimals(vs).drop_last() =~= decimals(vs.drop_last()));
        lemma_parse_written(vs.last());
        assert(vs.drop_last().push(vs.last()) =~= vs);
    } else {
        assert(vs =~= Seq::<u32>::empty());
    }
}

/// A field that lists at least one value, written out, reads back as itself.
pub open spec fn field_listed(c: ComponentView) -> bool {
    c matches ComponentView::Values(vs) ==> vs.len() > 0
}

proof fn lemma_field_chars_concat(x: Seq<char>, y: Seq<char>)
    requires
        all_field_chars(x),
        all_field_chars(y),
    ensures
        all_field_chars(x + y),
{
    assert forall|i: int| 0 <= i < (x + y).len() implies field_char(#[trigger] (x + y)[i]) by {
        if i < x.len() {
            assert((x + y)[i] == x[i]);
        } else {
            assert((x + y)[i] == y[i - x.len()]);
        }
    }
}

/// The text after `..` of a written range: its end, then `/` and the step if there is one.
pub open spec fn range_tail(end: u32, step: Option<u32>) -> Seq<char> {
    pad2(end as nat) + match step {
        Some(st) => seq!['/'] + decimal(st as nat),
        None => seq![],
    }
}

proof fn lemma_range_tail(s: Seq<char>, end: u32, step: Option<u32>)
    ensures
        range_end_parse(s, range_tail(end, step)) == Ok::<
            (u32, Option<u32>),
            crate::calendar::CalendarErrorView,
        >((end, step)),
        lacks(range_tail(end, step), '.'),
        all_field_chars(range_tail(end, step)),
{
    let b = pad2(end as nat);
    let t = range_tail(end, step);
    lemma_pad2(end as nat);
    lemma_parse_written(end);
    lemma_digits_lack(b, '.');
    lemma_digits_lack(b, '/');
    match step {
        Some(st) => {
            let d = decimal(st as nat);
            lemma_decimal(st as nat);
            lemma_parse_written(st);
            lemma_digits_lack(d, '.');
            lemma_digits_lack(d, '/');
            assert(t =~= b + seq!['/'] + d);
            lemma_split_joined(b, seq!['/'], d);
            lemma_split_whole(d, seq!['/']);
            assert(t[b.len() as int] == '/');
            assert(split_on(t, seq!['/']) =~= seq![b, d]);
            lemma_field_chars_concat(b, seq!['/']);
            lemma_field_chars_concat(b + seq!['/'], d);
        },
        None => {
            assert(t =~= b);
        },
    }
}

proof fn lemma_range_text(start: u32, end: u32, step: Option<u32>)
    ensures
        component_text(ComponentView::Range { start, end, step }) == pad2(start as nat) + dots()
            + range_tail(end, step),
{
    let s = component_text(ComponentView::Range { start, end, step });
    assert(s =~= pad2(start as nat) + dots() + range_tail(end, step));
}

proof fn lemma_written_range(start: u32, end: u32, step: Option<u32>, min: u32, max: u32)
    requires
        min <= start <= end <= max,
    ensures
        range_parse(component_text(ComponentView::Range { start, end, step }), min, max) == Ok::<
            ComponentView,
            crate::calendar::CalendarErrorView,
        >(ComponentView::Range { start, end, step }),
{
    let s = component_text(ComponentView::Range { start, end, step });
    let a = pad2(start as nat);
    let t = range_tail(end, step);
    lemma_range_text(start, end, step);
    assert(split_on(s, dots()) == seq![a, t]) by {
        lemma_pad2(start as nat);
        lemma_digits_lack(a, '.');
        lemma_range_tail(s, end, step);
        lemma_split_joined(a, dots(), t);
        lemma_split_whole(t, dots());
        assert(seq![a] + seq![t] =~= seq![a, t]);
    }
    assert(parse_u32(a) == Some(start)) by {
        lemma_parse_written(start);
    }
    assert(range_end_parse(s, t) == Ok::<(u32, Option<u32>), crate::calendar::CalendarErrorView>(
        (end, step),
    )) by {
        lemma_range_tail(s, end, step);
    }
    let parts = split_on(s, dots());
    assert(parts.len() == 2 && parts[0] == a && parts[1] == t);
    assert(range_parse(s, min, max) == Ok::<ComponentView, crate::calendar::CalendarErrorView>(
        ComponentView::Range { start, end, step },
    ));
}

proof fn lemma_dotted_chars(a: Seq<char>, t: Seq<char>)
    requires
        all_digits(a),
        all_field_chars(t),
    ensures
        all_field_chars(a + dots() + t),
{
    let x = a + dots() + t;
    assert forall|i: int| 0 <= i < x.len() implies field_char(#[trigger] x[i]) by {
        if i < a.len() {
            assert(x[i] == a[i]);
            assert(is_digit(a[i]));
        } else if i < a.len() + 2 {
            assert(x[i] == '.');
        } else {
            assert(x[i] == t[i - a.len() - 2]);
        }
    }
}

proof fn lemma_range_chars(start: u32, end: u32, step: Option<u32>)
    ensures
        contains_seq(component_text(ComponentView::Range { start, end, step }), dots()),
        all_field_chars(component_text(ComponentView::Range { start, end, step })),
{
    let s = component_text(ComponentView::Range { start, end, step });
    let a = pad2(start as nat);
    let t = range_tail(end, step);
    lemma_range_text(start, end, step);
    assert(contains_seq(s, dots())) by {
        lemma_holds_seq(a, dots(), t);
    }
    lemma_pad2(start as nat);
    lemma_range_tail(s, end, step);
    lemma_dotted_chars(a, t);
}

/// A well-formed field that lists at least one value, written out, reads back as itself.
pub proof fn lemma_written_field_reads_back(c: ComponentView, min: u32, max: u32)
    requires
        component_wf(c, min, max),
        field_listed(c),
    ensures
        component_parse(component_text(c), min, max) == Ok::<
            ComponentView,
            crate::calendar::CalendarErrorView,
        >(c),
        field_parse(component_text(c), min, max) == Ok::<
            ComponentView,
            crate::calendar::CalendarErrorView,
        >(c),
        component_text(c).len() > 0,
        all_field_chars(component_text(c)),
{
    let s = component_text(c);
    match c {
        ComponentView::Any => {
            assert(s == seq!['*']);
        },
        ComponentView::Values(vs) => {
            lemma_join_decimals(vs);
            lemma_lacks_seq(s, dots());
            assert(s != seq!['*']) by {
                if s == seq!['*'] {
                    assert(s[0] == '*');
                    lemma_decimal(vs[0] as nat);
                }
            }
            if vs.len() == 1 {
                lemma_parse_written(vs[0]);
                assert(!s.contains(','));
                assert(seq![vs[0]] =~= vs);
            } else {
                lemma_values_parse(vs, min, max);
                assert(total_ordering(leq_u32()));
                vs.lemma_sort_by_ensures(leq_u32());
                assert(sorted_by(vs, leq_u32()));
                lemma_sorted_unique(vs, vs.sort_by(leq_u32()), leq_u32());
            }
        },
        ComponentView::Range { start, end, step } => {
            lemma_written_range(start, end, step, min, max);
            lemma_range_chars(start, end, step);
        },
    }
}

/// A character of a day name, or the comma between names.
pub open spec fn name_char(c: char) -> bool {
    ||| 'A' as u32 <= c as u32 <= 'Z' as u32
    ||| 'a' as u32 <= c as u32 <= 'z' as u32
    ||| c == ','
}

pub open spec fn all_name_chars(s: Seq<char>) -> bool {
    forall|i: int| 0 <= i < s.len() ==> name_char(#[trigger] s[i])
}

/// The names of the days, one piece each.
pub open spec fn names(ws: Seq<Weekday>) -> Seq<Seq<char>> {
    Seq::new(ws.len(), |i: int| ws[i].name_spec())
}

proof fn lemma_name_chars(w: Weekday)
    ensures
        w.name_spec().len() == 3,
        all_name_chars(w.name_spec()),
        lacks(w.name_spec(), ','),
{
    reveal_strlit("Mon");
    reveal_strlit("Tue");
    reveal_strlit("Wed");
    reveal_strlit("Thu");
    reveal_strlit("Fri");
    reveal_strlit("Sat");
    reveal_strlit("Sun");
}

proof fn lemma_name_chars_concat(x: Seq<char>, y: Seq<char>)
    requires
        all_name_chars(x),
        all_name_chars(y),
    ensures
        all_name_chars(x + y),
{
    assert forall|i: int| 0 <= i < (x + y).len() implies name_char(#[trigger] (x + y)[i]) by {
        if i < x.len() {
            assert((x + y)[i] == x[i]);
        } else {
            assert((x + y)[i] == y[i - x.len()]);
        }
    }
}

proof fn lemma_join_names(ws: Seq<Weekday>)
    requires
        ws.len() >= 1,
    ensures
        join_names(ws, seq![',']).len() > 0,
        all_name_chars(join_names(ws, seq![','])),
        split_on(join_names(ws, seq![',']), seq![',']) == names(ws),
    decreases ws.len(),
{
    let last = ws.last().name_spec();
    lemma_name_chars(ws.last());
    lemma_split_whole(last, seq![',']);
    if ws.len() == 1 {
        assert(names(ws) =~= seq![last]);
    } else {
        let init = join_names(ws.drop_last(), seq![',']);
        lemma_join_names(ws.drop_last());
        lemma_split_concat(init, ',', last);
        assert(names(ws) =~= names(ws.drop_last()) + seq![last]);
        lemma_name_chars_concat(init, seq![',']);
        lemma_name_chars_concat(init + seq![','], last);
    }
}

proof fn lemma_names_read(ws: Seq<Weekday>)
    ensures
        weekday_list(names(ws)) == Ok::<Seq<Weekday>, crate::calendar::CalendarErrorView>(ws),
    decreases ws.len(),
{
    if ws.len() == 0 {
        assert(ws =~= Seq::<Weekday>::empty());
    } else {
        lemma_names_read(ws.drop_last());
        assert(names(ws).drop_last() =~= names(ws.drop_last()));
        lemma_weekday_name_reads_back(ws.last());
        assert(ws.drop_last().push(ws.last()) =~= ws);
    }
}

/// The days written as a comma-separated list read back as the same days.
pub proof fn lemma_written_days_read_back(ws: Seq<Weekday>)
    requires
        ws.len() >= 1,
    ensures
        weekday_token(join_names(ws, seq![','])) == Ok::<
            Seq<Weekday>,
            crate::calendar::CalendarErrorView,
        >(ws),
{
    let j = join_names(ws, seq![',']);
    lemma_join_names(ws);
    lemma_names_read(ws);
    assert(!j.contains('/'));
    assert(lacks(j, '.'));
    lemma_lacks_seq(j, dots());
}

/// Every field lists at least one value, and a list of days names at least one day.
pub open spec fn calendar_listed(c: CalendarView) -> bool {
    &&& field_listed(c.year)
    &&& field_listed(c.month)
    &&& field_listed(c.day)
    &&& field_listed(c.hour)
    &&& field_listed(c.minute)
    &&& field_listed(c.second)
    &&& (c.weekdays matches Some(ws) ==> ws.len() > 0)
}

/// The calendar with no zone of its own.
pub open spec fn without_zone(c: CalendarView) -> CalendarView {
    CalendarView { timezone: None, ..c }
}

/// The written date `year-month-day`.
pub open spec fn date_word(c: CalendarView) -> Seq<char> {
    component_text(c.year) + seq!['-'] + component_text(c.month) + seq!['-'] + component_text(
        c.day,
    )
}

/// The written time `hour:minute:second`.
pub open spec fn time_word(c: CalendarView) -> Seq<char> {
    component_text(c.hour) + seq![':'] + component_text(c.minute) + seq![':'] + component_text(
        c.second,
    )
}

/// The written days followed by a space, or nothing.
pub open spec fn days_prefix(c: CalendarView) -> Seq<char> {
    match c.weekdays {
        Some(ws) => join_names(ws, seq![',']) + seq![' '],
        None => seq![],
    }
}

proof fn lemma_text_parts(c: CalendarView)
    ensures
        calendar_text(c) == days_prefix(c) + date_word(c) + seq![' '] + time_word(c),
{
    assert(calendar_text(c) =~= days_prefix(c) + date_word(c) + seq![' '] + time_word(c));
}

proof fn lemma_three_fields(a: Seq<char>, b: Seq<char>, d: Seq<char>, x: char)
    requires
        all_field_chars(a),
        all_field_chars(b),
        all_field_chars(d),
        a.len() > 0,
        !field_char(x),
        !is_ws(x),
        is_ascii_char(x),
    ensures
        split_on(a + seq![x] + b + seq![x] + d, seq![x]) == seq![a, b, d],
        (a + seq![x] + b + seq![x] + d).contains(x),
        no_ws(a + seq![x] + b + seq![x] + d),
        all_ascii(a + seq![x] + b + seq![x] + d),
        (a + seq![x] + b + seq![x] + d).len() > 0,
        forall|i: int|
            0 <= i < (a + seq![x] + b + seq![x] + d).len() ==> #[trigger] (a + seq![x] + b + seq![
                x
            ] + d)[i] == x || field_char((a + seq![x] + b + seq![x] + d)[i]),
{
    let w = a + seq![x] + b + seq![x] + d;
    assert(lacks(a, x));
    assert(lacks(b, x));
    assert(lacks(d, x));
    assert(w =~= a + seq![x] + (b + seq![x] + d));
    lemma_split_joined(a, seq![x], b + seq![x] + d);
    lemma_split_joined(b, seq![x], d);
    lemma_split_whole(d, seq![x]);
    assert(split_on(w, seq![x]) =~= seq![a, b, d]);
    assert(w[a.len() as int] == x);
    assert forall|i: int| 0 <= i < w.len() implies #[trigger] w[i] == x || field_char(w[i]) by {
        if i < a.len() {
            assert(w[i] == a[i]);
        } else if i == a.len() {
        } else if i < a.len() + 1 + b.len() {
            assert(w[i] == b[i - a.len() - 1]);
        } else if i == a.len() + 1 + b.len() {
        } else {
            assert(w[i] == d[i - a.len() - 2 - b.len()]);
        }
    }
    assert forall|i: int| 0 <= i < w.len() implies !is_ws(#[trigger] w[i]) by {
        assert(w[i] == x || field_char(w[i]));
    }
    assert forall|i: int| 0 <= i < w.len() implies is_ascii_char(#[trigger] w[i]) by {
        assert(w[i] == x || field_char(w[i]));
    }
}

proof fn lemma_days_word(ws: Seq<Weekday>)
    requires
        ws.len() >= 1,
    ensures
        join_names(ws, seq![',']).len() > 0,
        no_ws(join_names(ws, seq![','])),
        all_ascii(join_names(ws, seq![','])),
        !join_names(ws, seq![',']).contains(':'),
        !join_names(ws, seq![',']).contains('-'),
        join_names(ws, seq![',']) != seq!['*'],
{
    let w = join_names(ws, seq![',']);
    lemma_join_names(ws);
    assert forall|i: int| 0 <= i < w.len() implies !is_ws(#[trigger] w[i]) by {
        assert(name_char(w[i]));
    }
    assert forall|i: int| 0 <= i < w.len() implies is_ascii_char(#[trigger] w[i]) by {
        assert(name_char(w[i]));
    }
    assert(!w.contains(':')) by {
        if w.contains(':') {
            let i = choose|i: int| 0 <= i < w.len() && w[i] == ':';
            assert(name_char(w[i]));
        }
    }
    assert(!w.contains('-')) by {
        if w.contains('-') {
            let i = choose|i: int| 0 <= i < w.len() && w[i] == '-';
            assert(name_char(w[i]));
        }
    }
    assert(w != seq!['*']) by {
        if w == seq!['*'] {
            assert(name_char(w[0]));
        }
    }
}

/// The words of a written calendar: its days if it names any, its date and its time.
pub open spec fn written_words(c: CalendarView) -> Seq<Seq<char>> {
    match c.weekdays {
        Some(ws) => seq![join_names(ws, seq![',']), date_word(c), time_word(c)],
        None => seq![date_word(c), time_word(c)],
    }
}

proof fn lemma_space_then(t: Seq<char>)
    ensures
        split_ws(seq![' '] + t) == split_ws(t),
{
    let s = seq![' '] + t;
    assert(s.drop_first() =~= t);
    assert(is_ws(s[0]));
}

/// Facts on the date and time words of a well-formed calendar whose fields list values.
proof fn lemma_date_time_words(c: CalendarView)
    requires
        calendar_wf(c),
        calendar_listed(c),
    ensures
        split_on(date_word(c), seq!['-']) == seq![
            component_text(c.year),
            component_text(c.month),
            component_text(c.day),
        ],
        split_on(time_word(c), seq![':']) == seq![
            component_text(c.hour),
            component_text(c.minute),
            component_text(c.second),
        ],
        date_word(c).contains('-'),
        !date_word(c).contains(':'),
        time_word(c).contains(':'),
        no_ws(date_word(c)),
        no_ws(time_word(c)),
        all_ascii(date_word(c)),
        all_ascii(time_word(c)),
        date_word(c).len() > 0,
        time_word(c).len() > 0,
{
    lemma_written_field_reads_back(c.year, 1970, 2099);
    lemma_written_field_reads_back(c.month, 1, 12);
    lemma_written_field_reads_back(c.day, 1, 31);
    lemma_written_field_reads_back(c.hour, 0, 23);
    lemma_written_field_reads_back(c.minute, 0, 59);
    lemma_written_field_reads_back(c.second, 0, 59);
    lemma_three_fields(component_text(c.year), component_text(c.month), component_text(c.day), '-');
    lemma_three_fields(
        component_text(c.hour),
        component_text(c.minute),
        component_text(c.second),
        ':',
    );
    let d = date_word(c);
    assert(!d.contains(':')) by {
        if d.contains(':') {
            let i = choose|i: int| 0 <= i < d.len() && d[i] == ':';
            assert(d[i] == '-' || field_char(d[i]));
        }
    }
}

/// A well-formed field that lists at least one value, written out, reads back as itself in
/// an expression.
proof fn lemma_field_reads(c: ComponentView, min: u32, max: u32)
    requires
        component_wf(c, min, max),
        field_listed(c),
    ensures
        field_parse(component_text(c), min, max) == Ok::<
            ComponentView,
            crate::calendar::CalendarErrorView,
        >(c),
{
    lemma_written_field_reads_back(c, min, max);
}

/// A written calendar splits into its words.
#[verifier::rlimit(30)]
proof fn lemma_written_words(c: CalendarView)
    requires
        calendar_wf(c),
        calendar_listed(c),
    ensures
        split_ws(calendar_text(c)) == written_words(c),
{
    let d = date_word(c);
    let t = time_word(c);
    lemma_text_parts(c);
    assert(no_ws(d) && no_ws(t) && d.len() > 0 && t.len() > 0) by {
        lemma_date_time_words(c);
    }
    assert(split_ws(d + (seq![' '] + t)) == seq![d, t]) by {
        lemma_split_ws_word(t, Seq::<char>::empty());
        assert(t + Seq::<char>::empty() =~= t);
        assert(split_ws(Seq::<char>::empty()) == Seq::<Seq<char>>::empty());
        lemma_space_then(t);
        lemma_split_ws_word(d, seq![' '] + t);
        assert(seq![d] + seq![t] =~= seq![d, t]);
    }
    match c.weekdays {
        Some(ws) => {
            let w = join_names(ws, seq![',']);
            let rest = seq![' '] + (d + (seq![' '] + t));
            assert(split_ws(w + rest) == seq![w, d, t]) by {
                lemma_days_word(ws);
                lemma_space_then(d + (seq![' '] + t));
                lemma_split_ws_word(w, rest);
                assert(seq![w] + seq![d, t] =~= seq![w, d, t]);
            }
            assert(calendar_text(c) =~= w + rest);
        },
        None => {
            assert(calendar_text(c) =~= d + (seq![' '] + t));
        },
    }
}

/// What scanning the words of a written calendar sets.
pub open spec fn written_scan(c: CalendarView) -> ScanState {
    ScanState {
        weekdays: c.weekdays,
        date: Some(seq![component_text(c.year), component_text(c.month), component_text(c.day)]),
        time: Some(
            seq![component_text(c.hour), component_text(c.minute), component_text(c.second)],
        ),
        timezone: None,
    }
}

proof fn lemma_written_scan(c: CalendarView)
    requires
        calendar_wf(c),
        calendar_listed(c),
    ensures
        scan_words(written_words(c)) == Ok::<ScanState, crate::calendar::CalendarErrorView>(
            written_scan(c),
        ),
{
    let d = date_word(c);
    let t = time_word(c);
    lemma_date_time_words(c);
    let ws_words = written_words(c);
    let empty = ScanState { weekdays: None, date: None, time: None, timezone: None };
    match c.weekdays {
        Some(ws) => {
            let w = join_names(ws, seq![',']);
            lemma_days_word(ws);
            lemma_written_days_read_back(ws);
            let st1 = ScanState { weekdays: Some(ws), date: None, time: None, timezone: None };
            let st2 = ScanState { date: Some(split_on(d, seq!['-'])), ..st1 };
            assert(seq![w, d, t].drop_last() =~= seq![w, d]);
            assert(seq![w, d].drop_last() =~= seq![w]);
            assert(seq![w].drop_last() =~= Seq::<Seq<char>>::empty());
            assert(scan_words(Seq::<Seq<char>>::empty()) == Ok::<
                ScanState,
                crate::calendar::CalendarErrorView,
            >(empty));
            assert(scan_step(empty, w, true) == Ok::<ScanState, crate::calendar::CalendarErrorView>(
                st1,
            ));
            assert(scan_words(seq![w]) == Ok::<ScanState, crate::calendar::CalendarErrorView>(st1));
            assert(scan_words(seq![w, d]) == Ok::<ScanState, crate::calendar::CalendarErrorView>(
                st2,
            ));
        },
        None => {
            let st2 = ScanState { date: Some(split_on(d, seq!['-'])), ..empty };
            assert(seq![d, t].drop_last() =~= seq![d]);
            assert(seq![d].drop_last() =~= Seq::<Seq<char>>::empty());
            assert(scan_words(Seq::<Seq<char>>::empty()) == Ok::<
                ScanState,
                crate::calendar::CalendarErrorView,
            >(empty));
            assert(scan_words(seq![d]) == Ok::<ScanState, crate::calendar::CalendarErrorView>(st2));
        },
    }
}

proof fn lemma_written_assemble(c: CalendarView)
    requires
        calendar_wf(c),
        calendar_listed(c),
    ensures
        assemble(written_scan(c)) == Ok::<CalendarView, crate::calendar::CalendarErrorView>(
            without_zone(c),
        ),
{
    let st = written_scan(c);
    assert(crate::grammar::field_text(st.date, 0, seq!['*']) == component_text(c.year));
    assert(crate::grammar::field_text(st.date, 1, seq!['*']) == component_text(c.month));
    assert(crate::grammar::field_text(st.date, 2, seq!['*']) == component_text(c.day));
    assert(crate::grammar::field_text(st.time, 0, seq!['*']) == component_text(c.hour));
    assert(crate::grammar::field_text(st.time, 1, seq!['*']) == component_text(c.minute));
    assert(crate::grammar::field_text(st.time, 2, seq!['0']) == component_text(c.second));
    lemma_field_reads(c.year, 1970, 2099);
    lemma_field_reads(c.month, 1, 12);
    lemma_field_reads(c.day, 1, 31);
    lemma_field_reads(c.hour, 0, 23);
    lemma_field_reads(c.minute, 0, 59);
    lemma_field_reads(c.second, 0, 59);
}

proof fn lemma_ascii_concat(x: Seq<char>, y: Seq<char>)
    requires
        all_ascii(x),
        all_ascii(y),
    ensures
        all_ascii(x + y),
{
    assert forall|i: int| 0 <= i < (x + y).len() implies is_ascii_char(#[trigger] (x + y)[i]) by {
        if i < x.len() {
            assert((x + y)[i] == x[i]);
        } else {
            assert((x + y)[i] == y[i - x.len()]);
        }
    }
}

/// No keyword holds a space.
proof fn lemma_keywords_lack_space()
    ensures
        lacks("minutely"@, ' '),
        lacks("hourly"@, ' '),
        lacks("daily"@, ' '),
        lacks("monthly"@, ' '),
        lacks("weekly"@, ' '),
        lacks("yearly"@, ' '),
        lacks("annually"@, ' '),
        lacks("quarterly"@, ' '),
        lacks("semiannually"@, ' '),
{
    reveal_strlit("minutely");
    reveal_strlit("hourly");
    reveal_strlit("daily");
    reveal_strlit("monthly");
    reveal_strlit("weekly");
    reveal_strlit("yearly");
    reveal_strlit("annually");
    reveal_strlit("quarterly");
    reveal_strlit("semiannually");
}

/// A written calendar is not a keyword: it holds a space, which no keyword does.
proof fn lemma_written_not_keyword(c: CalendarView)
    requires
        calendar_wf(c),
        calendar_listed(c),
    ensures
        keyword_calendar(lowercase(calendar_text(c))) is None,
{
    let text = calendar_text(c);
    let p = days_prefix(c);
    let d = date_word(c);
    let t = time_word(c);
    lemma_text_parts(c);
    assert(all_ascii(text)) by {
        lemma_date_time_words(c);
        match c.weekdays {
            Some(ws) => {
                lemma_days_word(ws);
                lemma_ascii_concat(join_names(ws, seq![',']), seq![' ']);
            },
            None => {},
        }
        lemma_ascii_concat(p, d);
        lemma_ascii_concat(p + d, seq![' ']);
        lemma_ascii_concat(p + d + seq![' '], t);
    }
    let i = (p.len() + d.len()) as int;
    let l = lowercase(text);
    assert(l.len() > i && l[i] == ' ') by {
        assert(text[i] == ' ');
        assert(l == text.map_values(|ch: char| ascii_lower(ch)));
    }
    lemma_keywords_lack_space();
}

/// The law of reading back: a well-formed calendar whose fields each list at least one value
/// (and whose list of days, if any, names at least one day), written as an expression, reads
/// as the same calendar without a zone of its own.
pub proof fn lemma_written_calendar_reads_back(c: CalendarView)
    requires
        calendar_wf(c),
        calendar_listed(c),
    ensures
        calendar_parse(calendar_text(c)) == Ok::<CalendarView, crate::calendar::CalendarErrorView>(
            without_zone(c),
        ),
{
    lemma_written_not_keyword(c);
    lemma_written_words(c);
    lemma_written_scan(c);
    lemma_written_assemble(c);
    assert(written_words(c).len() > 0);
    assert(expression_parse(calendar_text(c)) == Ok::<
        CalendarView,
        crate::calendar::CalendarErrorView,
    >(without_zone(c)));
}

proof fn lemma_lower_three(a: char, b: char, c: char, x: char, y: char, z: char)
    requires
        ascii_lower(a) == x,
        ascii_lower(b) == y,
        ascii_lower(c) == z,
        (a as u32) < 128,
        (b as u32) < 128,
        (c as u32) < 128,
    ensures
        lowercase(seq![a, b, c]) == seq![x, y, z],
{
    let s = seq![a, b, c];
    assert(all_ascii(s));
    assert(s.map_values(|ch: char| ascii_lower(ch)) =~= seq![x, y, z]);
}

/// A day's three-letter name reads back as that day.
pub proof fn lemma_weekday_name_reads_back(w: Weekday)
    ensures
        weekday_named(w.name_spec()) == Some(w),
{
    reveal_strlit("Mon");
    reveal_strlit("mon");
    reveal_strlit("monday");
    reveal_strlit("Tue");
    reveal_strlit("tue");
    reveal_strlit("tuesday");
    reveal_strlit("Wed");
    reveal_strlit("wed");
    reveal_strlit("wednesday");
    reveal_strlit("Thu");
    reveal_strlit("thu");
    reveal_strlit("thursday");
    reveal_strlit("Fri");
    reveal_strlit("fri");
    reveal_strlit("friday");
    reveal_strlit("Sat");
    reveal_strlit("sat");
    reveal_strlit("saturday");
    reveal_strlit("Sun");
    reveal_strlit("sun");
    reveal_strlit("sunday");
    assert("Mon"@ =~= seq!['M', 'o', 'n']);
    assert("mon"@ =~= seq!['m', 'o', 'n']);
    assert("Tue"@ =~= seq!['T', 'u', 'e']);
    assert("tue"@ =~= seq!['t', 'u', 'e']);
    assert("Wed"@ =~= seq!['W', 'e', 'd']);
    assert("wed"@ =~= seq!['w', 'e', 'd']);
    assert("Thu"@ =~= seq!['T', 'h', 'u']);
    assert("thu"@ =~= seq!['t', 'h', 'u']);
    assert("Fri"@ =~= seq!['F', 'r', 'i']);
    assert("fri"@ =~= seq!['f', 'r', 'i']);
    assert("Sat"@ =~= seq!['S', 'a', 't']);
    assert("sat"@ =~= seq!['s', 'a', 't']);
    assert("Sun"@ =~= seq!['S', 'u', 'n']);
    assert("sun"@ =~= seq!['s', 'u', 'n']);
    match w {
        Weekday::Mon => lemma_lower_three('M', 'o', 'n', 'm', 'o', 'n'),
        Weekday::Tue => lemma_lower_three('T', 'u', 'e', 't', 'u', 'e'),
        Weekday::Wed => lemma_lower_three('W', 'e', 'd', 'w', 'e', 'd'),
        Weekday::Thu => lemma_lower_three('T', 'h', 'u', 't', 'h', 'u'),
        Weekday::Fri => lemma_lower_three('F', 'r', 'i', 'f', 'r', 'i'),
        Weekday::Sat => lemma_lower_three('S', 'a', 't', 's', 'a', 't'),
        Weekday::Sun => lemma_lower_three('S', 'u', 'n', 's', 'u', 'n'),
    }
}

/// A lone `0` reads as the field that fires at value 0 only.
proof fn lemma_zero_field(min: u32, max: u32)
    requires
        min == 0,
    ensures
        field_parse(seq!['0'], min, max) == Ok::<ComponentView, crate::calendar::CalendarErrorView>(
            ComponentView::Values(seq![0u32]),
        ),
{
    let z = seq!['0'];
    assert(!contains_seq(z, dots())) by {
        assert forall|i: int| !#[trigger] occurs_at(z, dots(), i) by {}
    }
    assert(z != seq!['*']) by {
        assert(z[0] != '*');
    }
    assert(!z.contains(','));
    assert(z.drop_last() =~= Seq::<char>::empty());
    assert(decimal_value(z) == 0) by {
        reveal_with_fuel(decimal_value, 2);
    }
    assert(all_digits(z));
    assert(parse_u32(z) == Some(0u32));
}

/// An expression of words whose time has fewer than three pieces (`08:30`), or that has no
/// time at all, fires at second 0 only: a missing second is 0, not every second.
pub proof fn lemma_missing_second_is_zero(s: Seq<char>)
    requires
        keyword_calendar(lowercase(s)) is None,
        split_ws(s).len() > 0,
        scan_words(split_ws(s)) matches Ok(st) && match st.time {
            Some(q) => q.len() < 3,
            None => true,
        },
        calendar_parse(s) is Ok,
    ensures
        calendar_parse(s)->Ok_0.second == ComponentView::Values(seq![0u32]),
{
    lemma_zero_field(0, 59);
}

} // verus!
