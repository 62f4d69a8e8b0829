use vstd::prelude::*;
use crate::date::{in_week_of, week_contains, CalendarDate};
use crate::day::Day;
use crate::error::ScheduleError;
use crate::order::ymd_lt;

verus! {

/// Splits days into weeks, scanning in order: a day joins the open week when it
/// lies in the Monday-to-Sunday window of that week's first day, and opens a new
/// week otherwise.
pub open spec fn week_partition(days: Seq<Day>) -> Seq<Seq<Day>>
    decreases days.len(),
{
    if days.len() == 0 {
        Seq::empty()
    } else {
        let p = week_partition(days.drop_last());
        let d = days.last();
        if p.len() > 0 && week_contains(p.last()[0].date.ymd(), d.date.ymd()) {
            p.update(p.len() - 1, p.last().push(d))
        } else {
            p.push(seq![d])
        }
    }
}

/// The days of all weeks, one week after the other.
pub open spec fn concat_weeks(weeks: Seq<Seq<Day>>) -> Seq<Day>
    decreases weeks.len(),
{
    if weeks.len() == 0 {
        Seq::empty()
    } else {
        concat_weeks(weeks.drop_last()) + weeks.last()
    }
}

pub open spec fn weeks_view(weeks: Seq<Vec<Day>>) -> Seq<Seq<Day>> {
    weeks.map_values(|w: Vec<Day>| w@)
}

/// Splitting days into weeks loses, adds and moves no day: the weeks, one after
/// the other, are the days as given. Every week is non-empty, every later day of
/// a week lies in the window of that week's first day, and each week after the
/// first begins with a day outside the window of the week before.
pub proof fn lemma_weeks_concat(days: Seq<Day>)
    ensures
        concat_weeks(week_partition(days)) == days,
        forall|k: int| 0 <= k < week_partition(days).len() ==> #[trigger] week_partition(days)[k].len() > 0,
        forall|k: int, j: int|
            0 <= k < week_partition(days).len() && 0 < j < week_partition(days)[k].len()
                ==> week_contains(
                week_partition(days)[k][0].date.ymd(),
                #[trigger] week_partition(days)[k][j].date.ymd(),
            ),
        forall|k: int|
            0 < k < week_partition(days).len() ==> !week_contains(
                week_partition(days)[k - 1][0].date.ymd(),
                #[trigger] week_partition(days)[k][0].date.ymd(),
            ),
    decreases days.len(),
{
    if days.len() > 0 {
        let p = week_partition(days.drop_last());
        lemma_weeks_concat(days.drop_last());
        let d = days.last();
        let w = week_partition(days);
        if p.len() > 0 && week_contains(p.last()[0].date.ymd(), d.date.ymd()) {
            assert(w.drop_last() =~= p.drop_last());
            assert(p =~= p.drop_last().push(p.last()));
            assert(concat_weeks(p) == concat_weeks(p.drop_last()) + p.last());
            assert(concat_weeks(w) == concat_weeks(p.drop_last()) + p.last().push(d));
            assert(concat_weeks(w) =~= concat_weeks(p).push(d));
            assert(days =~= days.drop_last().push(d));
            assert forall|k: int, j: int|
                0 <= k < w.len() && 0 < j < w[k].len() implies week_contains(
                w[k][0].date.ymd(),
                #[trigger] w[k][j].date.ymd(),
            ) by {
                if k < w.len() - 1 {
                    assert(w[k] == p[k]);
                } else if j < w[k].len() - 1 {
                    assert(w[k][j] == p[k][j]);
                }
            }
            assert forall|k: int| 0 < k < w.len() implies !week_contains(
                w[k - 1][0].date.ymd(),
                #[trigger] w[k][0].date.ymd(),
            ) by {
                assert(w[k - 1][0] == p[k - 1][0]);
                assert(w[k][0] == p[k][0]);
            }
        } else {
            assert(w.drop_last() =~= p);
            assert(concat_weeks(w) =~= concat_weeks(p) + seq![d]);
            assert(days =~= days.drop_last().push(d));
            assert forall|k: int, j: int|
                0 <= k < w.len() && 0 < j < w[k].len() implies week_contains(
                w[k][0].date.ymd(),
                #[trigger] w[k][j].date.ymd(),
            ) by {
                if k < w.len() - 1 {
                    assert(w[k] == p[k]);
                }
            }
        }
    }
}

/// Whether each day comes before every later one in calendar order.
pub open spec fn days_ascending(days: Seq<Day>) -> bool {
    forall|g: int, h: int|
        0 <= g < h < days.len() ==> ymd_lt(
            (#[trigger] days[g]).date.ymd(),
            (#[trigger] days[h]).date.ymd(),
        )
}

/// Whether every day of a week comes before the later days of that week and
/// before every day of a later week.
pub open spec fn weeks_ascending(weeks: Seq<Seq<Day>>) -> bool {
    forall|k1: int, i: int, k2: int, j: int|
        0 <= k1 <= k2 < weeks.len() && 0 <= i < weeks[k1].len() && 0 <= j < weeks[k2].len() && (
        k1 < k2 || i < j) ==> ymd_lt(
            (#[trigger] weeks[k1][i]).date.ymd(),
            (#[trigger] weeks[k2][j]).date.ymd(),
        )
}

/// Days in ascending date order give weeks in ascending order, and every day
/// of a week is one of the days given.
pub proof fn lemma_weeks_ascending(days: Seq<Day>)
    requires
        days_ascending(days),
    ensures
        weeks_ascending(week_partition(days)),
        forall|k: int, i: int|
            0 <= k < week_partition(days).len() && 0 <= i < week_partition(days)[k].len()
                ==> days.contains(#[trigger] week_partition(days)[k][i]),
    decreases days.len(),
{
    if days.len() > 0 {
        let front = days.drop_last();
        let d = days.last();
        assert(days_ascending(front)) by {
            assert forall|g: int, h: int| 0 <= g < h < front.len() implies ymd_lt(
                (#[trigger] front[g]).date.ymd(),
                (#[trigger] front[h]).date.ymd(),
            ) by {
                assert(front[g] == days[g] && front[h] == days[h]);
            }
        }
        lemma_weeks_ascending(front);
        let p = week_partition(front);
        let w = week_partition(days);
        assert forall|k: int, i: int| 0 <= k < p.len() && 0 <= i < p[k].len() implies ymd_lt(
            (#[trigger] p[k][i]).date.ymd(),
            d.date.ymd(),
        ) by {
            assert(front.contains(p[k][i]));
            let g = choose|g: int| 0 <= g < front.len() && front[g] == p[k][i];
            assert(days[g] == front[g]);
            assert(days[days.len() - 1] == d);
        }
        assert(days.contains(d)) by {
            assert(days[days.len() - 1] == d);
        }
        assert forall|k: int, i: int| 0 <= k < p.len() && 0 <= i < p[k].len() implies days.contains(
            #[trigger] p[k][i],
        ) by {
            assert(front.contains(p[k][i]));
            let g = choose|g: int| 0 <= g < front.len() && front[g] == p[k][i];
            assert(days[g] == front[g]);
        }
        if p.len() > 0 && week_contains(p.last()[0].date.ymd(), d.date.ymd()) {
            let n = p.len() - 1;
            assert forall|k: int, i: int| 0 <= k < w.len() && 0 <= i < w[k].len() implies #[trigger] w[k][i]
                == if k == n && i == p[n].len() {
                d
            } else {
                p[k][i]
            } by {}
        } else {
            let n = p.len();
            assert forall|k: int, i: int| 0 <= k < w.len() && 0 <= i < w[k].len() implies #[trigger] w[k][i]
                == if k == n {
                d
            } else {
                p[k][i]
            } by {}
        }
    }
}

/// Splitting into weeks the days of weeks that an earlier split gave yields
/// those same weeks again.
pub proof fn lemma_weeks_idempotent(days: Seq<Day>)
    ensures
        week_partition(concat_weeks(week_partition(days))) == week_partition(days),
{
    lemma_weeks_concat(days);
}

/// Splits days, given in ascending date order, into Monday-to-Sunday weeks.
/// With no days at all there is no first week to open, and the call fails.
pub fn days_to_weeks(days: Vec<Day>) -> (r: Result<Vec<Vec<Day>>, ScheduleError>)
    requires
        forall|i: int| 0 <= i < days@.len() ==> (#[trigger] days@[i]).date.has_whole_week(),
    ensures
        r is Err <==> days@.len() == 0,
        r matches Err(e) ==> e == ScheduleError::EmptyInput,
        r matches Ok(w) ==> weeks_view(w@) == week_partition(days@),
{
    if days.len() == 0 {
        return Err(ScheduleError::EmptyInput);
    }
    let ghost orig = days@;
    let mut days = days;
    let mut weeks: Vec<Vec<Day>> = Vec::new();
    let mut anchor: CalendarDate = days[0].date;
    let mut k: usize = 0;
    while days.len() > 0
        invariant
            k + days@.len() == orig.len(),
            orig.len() <= usize::MAX,
            days@ == orig.skip(k as int),
            forall|i: int| 0 <= i < orig.len() ==> (#[trigger] orig[i]).date.has_whole_week(),
            weeks_view(weeks@) == week_partition(orig.take(k as int)),
            weeks@.len() > 0 ==> anchor == week_partition(orig.take(k as int)).last()[0].date,
            weeks@.len() > 0 ==> weeks@.last()@.len() > 0,
            weeks@.len() > 0 ==> anchor.has_whole_week(),
        decreases days@.len(),
    {
        let ghost before = weeks_view(weeks@);
        let day = days.remove(0);
        assert(day == orig[k as int]);
        assert(orig.take(k + 1).drop_last() =~= orig.take(k as int));
        assert(orig.take(k + 1).last() == day);
        proof {
            lemma_weeks_concat(orig.take(k as int));
        }
        if weeks.len() > 0 && in_week_of(&anchor, &day.date) {
            let mut last = weeks.pop().unwrap();
            last.push(day);
            weeks.push(last);
            assert(weeks_view(weeks@) =~= before.update(before.len() - 1, before.last().push(day)));
        } else {
            anchor = day.date;
            let mut fresh: Vec<Day> = Vec::new();
            fresh.push(day);
            weeks.push(fresh);
            assert(weeks_view(weeks@) =~= before.push(seq![day]));
        }
        k = k + 1;
        assert(days@ =~= orig.skip(k as int));
    }
    assert(orig.take(k as int) =~= orig);
    Ok(weeks)
}

} // verus!
