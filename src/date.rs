use vstd::prelude::*;
use crate::lesson::{parse_number, parse_unsigned};

verus! {

/// The smallest year that chrono's `NaiveDate` represents.
pub const MIN_YEAR: i32 = -262143;

/// The largest year that chrono's `NaiveDate` represents.
pub const MAX_YEAR: i32 = 262142;

/// A date of the proleptic Gregorian calendar, as year, month and day.
#[derive(Debug, Clone, Copy, PartialEq, Eq, Structural)]
pub struct CalendarDate {
    pub year: i32,
    pub month: u32,
    pub day: u32,
}

pub open spec fn is_leap_year(y: int) -> bool {
    y % 4 == 0 && (y % 100 != 0 || y % 400 == 0)
}

pub open spec fn days_in_month(y: int, m: int) -> int {
    if m == 2 {
        if is_leap_year(y) {
            29
        } else {
            28
        }
    } else if m == 4 || m == 6 || m == 9 || m == 11 {
        30
    } else {
        31
    }
}

/// Whether `(y, m, d)` names a day that chrono's `NaiveDate` can hold.
pub open spec fn valid_ymd(y: int, m: int, d: int) -> bool {
    &&& MIN_YEAR <= y <= MAX_YEAR
    &&& 1 <= m <= 12
    &&& 1 <= d <= days_in_month(y, m)
}

/// The weekday of a date, Monday being 1 and Sunday 7.
pub uninterp spec fn weekday_of(date: (int, int, int)) -> int;

/// Whether `d` lies in the Monday-to-Sunday week that holds `anchor`.
pub uninterp spec fn week_contains(anchor: (int, int, int), d: (int, int, int)) -> bool;

impl CalendarDate {
    pub open spec fn ymd(self) -> (int, int, int) {
        (self.year as int, self.month as int, self.day as int)
    }

    pub open spec fn is_valid(self) -> bool {
        valid_ymd(self.year as int, self.month as int, self.day as int)
    }

    /// Valid, and far enough from the ends of chrono's range that its whole
    /// Monday-to-Sunday week can be formed.
    pub open spec fn has_whole_week(self) -> bool {
        self.is_valid() && MIN_YEAR < self.year && self.year < MAX_YEAR
    }
}

/// Relies on chrono's `NaiveDate::from_ymd_opt`: `Some` exactly for a valid
/// month and day of that month in a year within chrono's range.
#[verifier::external_body]
pub(crate) fn is_calendar_date(y: i32, m: u32, d: u32) -> (r: bool)
    ensures
        r == valid_ymd(y as int, m as int, d as int),
{
    chrono::NaiveDate::from_ymd_opt(y, m, d).is_some()
}

/// Relies on chrono's `Datelike::weekday` and `Weekday::number_from_monday`:
/// the weekday of a valid date, numbered 1 for Monday to 7 for Sunday.
#[verifier::external_body]
pub(crate) fn weekday_number(date: &CalendarDate) -> (r: u8)
    requires
        date.is_valid(),
    ensures
        r as int == weekday_of(date.ymd()),
        1 <= r <= 7,
{
    let n = chrono::NaiveDate::from_ymd_opt(date.year, date.month, date.day).unwrap();
    chrono::Datelike::weekday(&n).number_from_monday() as u8
}

/// Relies on chrono's `NaiveDate::week(Weekday::Mon)`, `NaiveWeek::days` and
/// `RangeInclusive::contains`: whether `d` falls in the Monday-to-Sunday week
/// of `anchor`, which always holds `anchor` itself.
#[verifier::external_body]
pub(crate) fn in_week_of(anchor: &CalendarDate, d: &CalendarDate) -> (r: bool)
    requires
        anchor.has_whole_week(),
        d.is_valid(),
    ensures
        r == week_contains(anchor.ymd(), d.ymd()),
        anchor.ymd() == d.ymd() ==> r,
{
    let a = chrono::NaiveDate::from_ymd_opt(anchor.year, anchor.month, anchor.day).unwrap();
    let b = chrono::NaiveDate::from_ymd_opt(d.year, d.month, d.day).unwrap();
    a.week(chrono::Weekday::Mon).days().contains(&b)
}

/// The fields of `s` between the `-` characters that separate them.
pub open spec fn split_dash(s: Seq<char>) -> Seq<Seq<char>>
    decreases s.len(),
{
    if s.len() == 0 {
        seq![Seq::empty()]
    } else {
        let p = split_dash(s.drop_last());
        if s.last() == '-' {
            p.push(Seq::empty())
        } else {
            p.update(p.len() - 1, p.last().push(s.last()))
        }
    }
}

proof fn lemma_split_dash_nonempty(s: Seq<char>)
    ensures
        split_dash(s).len() > 0,
    decreases s.len(),
{
    if s.len() > 0 {
        lemma_split_dash_nonempty(s.drop_last());
    }
}

proof fn lemma_split_dash_append(s: Seq<char>, t: Seq<char>)
    requires
        forall|i: int| 0 <= i < t.len() ==> t[i] != '-',
    ensures
        split_dash(s + t) == split_dash(s).update(
            split_dash(s).len() - 1,
            split_dash(s).last() + t,
        ),
    decreases t.len(),
{
    lemma_split_dash_nonempty(s);
    if t.len() == 0 {
        assert(s + t =~= s);
        assert(split_dash(s).last() + t =~= split_dash(s).last());
        assert(split_dash(s).update(split_dash(s).len() - 1, split_dash(s).last())
            =~= split_dash(s));
    } else {
        let tf = t.drop_last();
        lemma_split_dash_append(s, tf);
        assert((s + t).drop_last() =~= s + tf);
        assert((s + t).last() == t.last());
        let p = split_dash(s);
        let q = split_dash(s + tf);
        assert(t[t.len() - 1] != '-');
        assert(q.len() == p.len());
        assert(q.last() == p.last() + tf);
        assert((p.last() + tf).push(t.last()) =~= p.last() + t);
        assert(split_dash(s + t) =~= p.update(p.len() - 1, p.last() + t));
    }
}

proof fn lemma_split_dash_dash(s: Seq<char>)
    ensures
        split_dash(s.push('-')) == split_dash(s).push(Seq::empty()),
{
    assert(s.push('-').drop_last() =~= s);
}

/// How a date string written with four, two and two characters between its two
/// `-` splits.
pub proof fn lemma_split_iso(s: Seq<char>)
    requires
        s.len() == 10,
        s[4] == '-',
        s[7] == '-',
        crate::lesson::all_digits(s.subrange(0, 4)),
        crate::lesson::all_digits(s.subrange(5, 7)),
        crate::lesson::all_digits(s.subrange(8, 10)),
    ensures
        split_dash(s) == seq![s.subrange(0, 4), s.subrange(5, 7), s.subrange(8, 10)],
        date_of(s) is Some ==> date_of(s) == Some(
            (
                crate::lesson::digits_value(s.subrange(0, 4)),
                crate::lesson::digits_value(s.subrange(5, 7)),
                crate::lesson::digits_value(s.subrange(8, 10)),
            ),
        ),
{
    let (y, m, d) = (s.subrange(0, 4), s.subrange(5, 7), s.subrange(8, 10));
    let e = Seq::<char>::empty();
    assert forall|i: int| 0 <= i < y.len() implies y[i] != '-' by {
        assert(crate::lesson::is_digit(y[i]));
    }
    assert forall|i: int| 0 <= i < m.len() implies m[i] != '-' by {
        assert(crate::lesson::is_digit(m[i]));
    }
    assert forall|i: int| 0 <= i < d.len() implies d[i] != '-' by {
        assert(crate::lesson::is_digit(d[i]));
    }
    assert(split_dash(e) == seq![e]);
    lemma_split_dash_append(e, y);
    assert(e + y =~= y);
    assert(split_dash(y) =~= seq![y]);
    lemma_split_dash_dash(y);
    lemma_split_dash_append(y.push('-'), m);
    lemma_split_dash_dash(y.push('-') + m);
    lemma_split_dash_append((y.push('-') + m).push('-'), d);
    assert(seq![e].update(0, e + y) =~= seq![y]);
    assert(seq![y, e].update(1, e + m) =~= seq![y, m]);
    assert(seq![y, m, e].update(2, e + d) =~= seq![y, m, d]);
    assert(((y.push('-') + m).push('-') + d) =~= s);
    assert(e + m =~= m);
    assert(e + d =~= d);
    assert(split_dash(s) =~= seq![y, m, d]);
    assert(crate::lesson::unsigned_digits(y) == y);
    assert(crate::lesson::unsigned_digits(m) == m);
    assert(crate::lesson::unsigned_digits(d) == d);
}

/// The year, month and day that a date string `Y-M-D` names: three unsigned
/// decimal fields separated by `-`, forming a valid date.
pub open spec fn date_of(s: Seq<char>) -> Option<(int, int, int)> {
    let p = split_dash(s);
    if p.len() == 3 {
        let y = parse_unsigned(p[0], i32::MAX as int);
        let m = parse_unsigned(p[1], u32::MAX as int);
        let d = parse_unsigned(p[2], u32::MAX as int);
        if y is Some && m is Some && d is Some && valid_ymd(y.unwrap(), m.unwrap(), d.unwrap()) {
            Some((y.unwrap(), m.unwrap(), d.unwrap()))
        } else {
            None
        }
    } else {
        None
    }
}

fn split_on_dash(s: &Vec<char>) -> (r: Vec<Vec<char>>)
    ensures
        r@.map_values(|f: Vec<char>| f@) == split_dash(s@),
{
    let mut fields: Vec<Vec<char>> = Vec::new();
    let mut cur: Vec<char> = Vec::new();
    let mut i: usize = 0;
    assert(s@.take(0) =~= Seq::<char>::empty());
    assert(fields@.map_values(|f: Vec<char>| f@).push(cur@) =~= split_dash(s@.take(0)));
    while i < s.len()
        invariant
            i <= s@.len(),
            fields@.map_values(|f: Vec<char>| f@).push(cur@) == split_dash(s@.take(i as int)),
        decreases s@.len() - i,
    {
        let ghost before = fields@.map_values(|f: Vec<char>| f@).push(cur@);
        let c = s[i];
        assert(s@.take(i + 1).drop_last() =~= s@.take(i as int));
        if c == '-' {
            fields.push(cur);
            cur = Vec::new();
            assert(fields@.map_values(|f: Vec<char>| f@).push(cur@) =~= before.push(Seq::empty()));
        } else {
            cur.push(c);
            assert(fields@.map_values(|f: Vec<char>| f@).push(cur@) =~= before.update(
                before.len() - 1,
                before.last().push(c),
            ));
        }
        i = i + 1;
    }
    assert(s@.take(i as int) =~= s@);
    let ghost front = fields@.map_values(|f: Vec<char>| f@);
    fields.push(cur);
    assert(fields@.map_values(|f: Vec<char>| f@) =~= front.push(cur@));
    fields
}

/// Reads a date string `Y-M-D` into a calendar date.
pub fn parse_date(s: &Vec<char>) -> (r: Option<CalendarDate>)
    ensures
        match r {
            Some(d) => date_of(s@) == Some(d.ymd()) && d.is_valid(),
            None => date_of(s@) is None,
        },
{
    let parts = split_on_dash(s);
    proof {
        lemma_split_dash_nonempty(s@);
    }
    if parts.len() != 3 {
        return None;
    }
    assert(parts@[0]@ == split_dash(s@)[0]);
    assert(parts@[1]@ == split_dash(s@)[1]);
    assert(parts@[2]@ == split_dash(s@)[2]);
    let y = match parse_number(&parts[0], 2147483647) {
        Some(v) => v,
        None => return None,
    };
    let m = match parse_number(&parts[1], 4294967295) {
        Some(v) => v,
        None => return None,
    };
    let d = match parse_number(&parts[2], 4294967295) {
        Some(v) => v,
        None => return None,
    };
    if !is_calendar_date(y as i32, m, d) {
        return None;
    }
    Some(CalendarDate { year: y as i32, month: m, day: d })
}

} // verus!
