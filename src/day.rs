use vstd::prelude::*;
use crate::date::{date_of, parse_date, weekday_number, weekday_of, CalendarDate};
use crate::error::ScheduleError;
use crate::lesson::{chars_of, lesson_matches, lesson_ok, raw_to_lesson, Lesson, RawLesson};
use crate::order::{
    is_iso_date_text, lemma_iso_text_order, lemma_lex_irreflexive, lemma_lex_total,
    lemma_lex_transitive, lex_less, lex_lt, ymd_lt,
};

verus! {

/// All lessons of one calendar date, in the order the records came in.
#[derive(Debug)]
pub struct Day {
    pub date: CalendarDate,
    /// 1 for Monday through 7 for Sunday.
    pub day_of_week: u8,
    pub lessons: Vec<Lesson>,
}

/// Whether every string of `s` comes before every later one.
pub open spec fn strictly_sorted(s: Seq<Seq<char>>) -> bool {
    forall|i: int, j: int| 0 <= i < j < s.len() ==> lex_lt(#[trigger] s[i], #[trigger] s[j])
}

/// `ks` with `k` put in its place, unless `ks` holds it already.
pub open spec fn insert_key(ks: Seq<Seq<char>>, k: Seq<char>) -> Seq<Seq<char>>
    decreases ks.len(),
{
    if ks.len() == 0 {
        seq![k]
    } else if ks[0] == k {
        ks
    } else if lex_lt(k, ks[0]) {
        seq![k] + ks
    } else {
        seq![ks[0]] + insert_key(ks.drop_first(), k)
    }
}

/// The distinct date strings of the records, in ascending order.
pub open spec fn date_keys(recs: Seq<RawLesson>) -> Seq<Seq<char>>
    decreases recs.len(),
{
    if recs.len() == 0 {
        Seq::empty()
    } else {
        insert_key(date_keys(recs.drop_last()), recs.last().date_lesson@)
    }
}

/// The records whose date string is `key`, in input order.
pub open spec fn records_on(recs: Seq<RawLesson>, key: Seq<char>) -> Seq<RawLesson> {
    recs.filter(|r: RawLesson| r.date_lesson@ == key)
}

/// Each lesson is the display form of the record at its place.
pub open spec fn lessons_match(ls: Seq<Lesson>, rs: Seq<RawLesson>) -> bool {
    ls.len() == rs.len() && forall|j: int| 0 <= j < ls.len() ==> lesson_matches(#[trigger] ls[j], rs[j])
}

/// `day` is the day that the records with date string `key` make.
pub open spec fn day_matches(day: Day, key: Seq<char>, recs: Seq<RawLesson>) -> bool {
    &&& date_of(key) == Some(day.date.ymd())
    &&& day.date.is_valid()
    &&& day.day_of_week as int == weekday_of(day.date.ymd())
    &&& lessons_match(day.lessons@, records_on(recs, key))
}

pub open spec fn date_ok(r: RawLesson) -> bool {
    date_of(r.date_lesson@) is Some
}

proof fn lemma_insert_at(ks: Seq<Seq<char>>, k: Seq<char>, p: int)
    requires
        0 <= p <= ks.len(),
        forall|i: int| 0 <= i < p ==> lex_lt(#[trigger] ks[i], k),
        p < ks.len() ==> !lex_lt(ks[p], k),
    ensures
        insert_key(ks, k) == if p < ks.len() && ks[p] == k {
            ks
        } else {
            ks.insert(p, k)
        },
    decreases ks.len(),
{
    if ks.len() > 0 {
        if p == 0 {
            if ks[0] != k {
                lemma_lex_total(ks[0], k);
                assert(seq![k] + ks =~= ks.insert(0, k));
            }
        } else {
            lemma_lex_irreflexive(k);
            lemma_lex_total(ks[0], k);
            let rest = ks.drop_first();
            assert forall|i: int| 0 <= i < p - 1 implies lex_lt(#[trigger] rest[i], k) by {
                assert(rest[i] == ks[i + 1]);
            }
            lemma_insert_at(rest, k, p - 1);
            if p < ks.len() && ks[p] == k {
                assert(seq![ks[0]] + rest =~= ks);
            } else {
                assert(seq![ks[0]] + rest.insert(p - 1, k) =~= ks.insert(p, k));
            }
        }
    } else {
        assert(seq![k] =~= ks.insert(0, k));
    }
}

/// Where `k` goes among `ks`: the first place not holding a smaller string.
pub open spec fn first_not_below(ks: Seq<Seq<char>>, k: Seq<char>) -> int
    decreases ks.len(),
{
    if ks.len() == 0 || !lex_lt(ks[0], k) {
        0
    } else {
        1 + first_not_below(ks.drop_first(), k)
    }
}

proof fn lemma_first_not_below(ks: Seq<Seq<char>>, k: Seq<char>)
    ensures
        0 <= first_not_below(ks, k) <= ks.len(),
        forall|i: int| 0 <= i < first_not_below(ks, k) ==> lex_lt(#[trigger] ks[i], k),
        first_not_below(ks, k) < ks.len() ==> !lex_lt(ks[first_not_below(ks, k)], k),
    decreases ks.len(),
{
    if ks.len() > 0 && lex_lt(ks[0], k) {
        lemma_first_not_below(ks.drop_first(), k);
        assert forall|i: int| 0 <= i < first_not_below(ks, k) implies lex_lt(#[trigger] ks[i], k) by {
            if i > 0 {
                assert(ks[i] == ks.drop_first()[i - 1]);
            }
        }
    }
}

proof fn lemma_insert_key(ks: Seq<Seq<char>>, k: Seq<char>)
    requires
        strictly_sorted(ks),
    ensures
        strictly_sorted(insert_key(ks, k)),
        insert_key(ks, k).contains(k),
        forall|x: Seq<char>| ks.contains(x) ==> insert_key(ks, k).contains(x),
        forall|x: Seq<char>| insert_key(ks, k).contains(x) ==> x == k || ks.contains(x),
{
    lemma_first_not_below(ks, k);
    let p = first_not_below(ks, k);
    lemma_insert_at(ks, k, p);
    let r = insert_key(ks, k);
    if p < ks.len() && ks[p] == k {
        assert(r[p] == k);
    } else {
        assert(r[p] == k);
        if p < ks.len() {
            lemma_lex_total(ks[p], k);
        }
        assert forall|i: int, j: int| 0 <= i < j < r.len() implies lex_lt(
            #[trigger] r[i],
            #[trigger] r[j],
        ) by {
            if j < p {
            } else if j == p {
            } else if i < p {
                if j - 1 > p {
                    lemma_lex_transitive(k, ks[p], ks[j - 1]);
                    lemma_lex_transitive(ks[i], k, ks[j - 1]);
                }
            } else if i == p {
                if j - 1 > p {
                    lemma_lex_transitive(k, ks[p], ks[j - 1]);
                }
            } else {
                assert(r[i] == ks[i - 1] && r[j] == ks[j - 1]);
            }
        }
        assert forall|x: Seq<char>| ks.contains(x) implies r.contains(x) by {
            let i = choose|i: int| 0 <= i < ks.len() && ks[i] == x;
            if i < p {
                assert(r[i] == x);
            } else {
                assert(r[i + 1] == x);
            }
        }
        assert forall|x: Seq<char>| r.contains(x) implies x == k || ks.contains(x) by {
            let i = choose|i: int| 0 <= i < r.len() && r[i] == x;
            if i < p {
                assert(ks[i] == x);
            } else if i > p {
                assert(ks[i - 1] == x);
            }
        }
    }
}

/// The date strings of the records are exactly the keys of the days: every
/// record's date string is a key, every key is the date string of a record, and
/// the keys are strictly ascending, so that no date string names two days.
pub proof fn lemma_date_keys(recs: Seq<RawLesson>)
    ensures
        strictly_sorted(date_keys(recs)),
        forall|i: int| 0 <= i < recs.len() ==> date_keys(recs).contains(#[trigger] recs[i].date_lesson@),
        forall|x: Seq<char>|
            date_keys(recs).contains(x) ==> exists|i: int| 0 <= i < recs.len() && #[trigger] recs[i].date_lesson@ == x,
    decreases recs.len(),
{
    if recs.len() > 0 {
        let front = recs.drop_last();
        lemma_date_keys(front);
        lemma_insert_key(date_keys(front), recs.last().date_lesson@);
        assert forall|i: int| 0 <= i < recs.len() implies date_keys(recs).contains(
            #[trigger] recs[i].date_lesson@,
        ) by {
            if i < recs.len() - 1 {
                assert(recs[i] == front[i]);
            }
        }
        assert forall|x: Seq<char>| date_keys(recs).contains(x) implies exists|i: int|
            0 <= i < recs.len() && #[trigger] recs[i].date_lesson@ == x by {
            if x != recs.last().date_lesson@ {
                assert(date_keys(front).contains(x));
                let i = choose|i: int| 0 <= i < front.len() && #[trigger] front[i].date_lesson@ == x;
                assert(recs[i] == front[i]);
            } else {
                assert(recs[recs.len() - 1].date_lesson@ == x);
            }
        }
    }
}

/// Grouping is exact: a record goes to the one day whose key is its date
/// string, and two records share a day exactly when their date strings are
/// equal.
pub proof fn lemma_grouping_exact(recs: Seq<RawLesson>, i: int, j: int)
    requires
        0 <= i < recs.len(),
        0 <= j < recs.len(),
    ensures
        exists|g: int|
            0 <= g < date_keys(recs).len() && #[trigger] date_keys(recs)[g] == recs[i].date_lesson@,
        forall|g: int, h: int|
            0 <= g < date_keys(recs).len() && 0 <= h < date_keys(recs).len()
                && #[trigger] date_keys(recs)[g] == recs[i].date_lesson@
                && #[trigger] date_keys(recs)[h] == recs[j].date_lesson@
                ==> (g == h <==> recs[i].date_lesson@ == recs[j].date_lesson@),
{
    lemma_date_keys(recs);
    let ks = date_keys(recs);
    assert(ks.contains(recs[i].date_lesson@));
    assert forall|g: int, h: int|
        0 <= g < ks.len() && 0 <= h < ks.len() && #[trigger] ks[g] == recs[i].date_lesson@
            && #[trigger] ks[h] == recs[j].date_lesson@ implies (g == h <==> recs[i].date_lesson@
        == recs[j].date_lesson@) by {
        if g < h {
            lemma_lex_irreflexive(ks[g]);
        } else if h < g {
            lemma_lex_irreflexive(ks[h]);
        }
    }
}

pub open spec fn keys_view(keys: Seq<Vec<char>>) -> Seq<Seq<char>> {
    keys.map_values(|k: Vec<char>| k@)
}

proof fn lemma_records_on_step(recs: Seq<RawLesson>, i: int, key: Seq<char>)
    requires
        0 <= i < recs.len(),
    ensures
        records_on(recs.take(i + 1), key) == if recs[i].date_lesson@ == key {
            records_on(recs.take(i), key).push(recs[i])
        } else {
            records_on(recs.take(i), key)
        },
{
    reveal(Seq::filter);
    assert(recs.take(i + 1).drop_last() =~= recs.take(i));
    assert(recs.take(i + 1).last() == recs[i]);
}

proof fn lemma_records_on_none(recs: Seq<RawLesson>, key: Seq<char>)
    requires
        forall|j: int| 0 <= j < recs.len() ==> (#[trigger] recs[j]).date_lesson@ != key,
    ensures
        records_on(recs, key).len() == 0,
    decreases recs.len(),
{
    reveal(Seq::filter);
    if recs.len() > 0 {
        let front = recs.drop_last();
        assert forall|j: int| 0 <= j < front.len() implies (#[trigger] front[j]).date_lesson@
            != key by {
            assert(front[j] == recs[j]);
        }
        lemma_records_on_none(front, key);
    }
}

proof fn lemma_not_in_keys(ks: Seq<Seq<char>>, k: Seq<char>, p: int)
    requires
        0 <= p <= ks.len(),
        strictly_sorted(ks.insert(p, k)),
    ensures
        !ks.contains(k),
{
    let ins = ks.insert(p, k);
    if ks.contains(k) {
        let q = choose|q: int| 0 <= q < ks.len() && ks[q] == k;
        lemma_lex_irreflexive(k);
        if q < p {
            assert(ins[q] == k && ins[p] == k);
        } else {
            assert(ins[q + 1] == k && ins[p] == k);
        }
    }
}

/// Groups records by date string, orders the dates ascending as strings, and
/// makes one day of each date with its lessons in input order. Every record
/// must be readable: a bad lesson number or subgroup fails the whole call with
/// `Parse`, and otherwise a bad date string fails it with `DateParse`.
/// Dates compare as calendar dates when written `YYYY-MM-DD` with zeros in front.
pub fn raw_to_days(raw: Vec<RawLesson>) -> (r: Result<Vec<Day>, ScheduleError>)
    ensures
        r matches Err(ScheduleError::Parse) <==> exists|i: int|
            0 <= i < raw@.len() && !lesson_ok(#[trigger] raw@[i]),
        r matches Err(ScheduleError::DateParse) <==> (forall|i: int|
            0 <= i < raw@.len() ==> lesson_ok(#[trigger] raw@[i])) && exists|i: int|
            0 <= i < raw@.len() && !date_ok(#[trigger] raw@[i]),
        r is Ok <==> forall|i: int|
            0 <= i < raw@.len() ==> lesson_ok(#[trigger] raw@[i]) && date_ok(raw@[i]),
        r matches Ok(days) ==> days@.len() == date_keys(raw@).len() && forall|g: int|
            0 <= g < days@.len() ==> day_matches(#[trigger] days@[g], date_keys(raw@)[g], raw@),
        r matches Ok(days) ==> (forall|i: int|
            0 <= i < raw@.len() ==> is_iso_date_text(#[trigger] raw@[i].date_lesson@)) ==> forall|
            g: int,
            h: int,
        | 0 <= g < h < days@.len() ==> ymd_lt(
            (#[trigger] days@[g]).date.ymd(),
            (#[trigger] days@[h]).date.ymd(),
        ),
{
    let ghost recs = raw@;
    let n = raw.len();
    let mut keys: Vec<Vec<char>> = Vec::new();
    let mut groups: Vec<Vec<Lesson>> = Vec::new();
    let mut i: usize = 0;
    assert(recs.take(0) =~= Seq::<RawLesson>::empty());
    assert(keys_view(keys@) =~= date_keys(recs.take(0)));
    while i < n
        invariant
            n == recs.len(),
            recs == raw@,
            i <= n,
            keys_view(keys@) == date_keys(recs.take(i as int)),
            groups@.len() == keys@.len(),
            forall|g: int|
                0 <= g < groups@.len() ==> lessons_match(
                    #[trigger] groups@[g]@,
                    records_on(recs.take(i as int), keys_view(keys@)[g]),
                ),
            forall|j: int| 0 <= j < i ==> lesson_ok(#[trigger] recs[j]),
        decreases n - i,
    {
        let lesson = match raw_to_lesson(&raw[i]) {
            Ok(l) => l,
            Err(e) => {
                return Err(e);
            },
        };
        let key = chars_of(raw[i].date_lesson.as_str());
        let ghost ks = keys_view(keys@);
        let ghost gs = groups@;
        let ghost k = key@;
        let mut p: usize = 0;
        while p < keys.len()
            invariant
                p <= keys@.len(),
                ks == keys_view(keys@),
                k == key@,
                forall|q: int| 0 <= q < p ==> lex_lt(#[trigger] ks[q], k),
            ensures
                p <= keys@.len(),
                forall|q: int| 0 <= q < p ==> lex_lt(#[trigger] ks[q], k),
                p < keys@.len() ==> !lex_lt(ks[p as int], k),
            decreases keys@.len() - p,
        {
            assert(ks[p as int] == keys@[p as int]@);
            if !lex_less(&keys[p], &key) {
                break;
            }
            p = p + 1;
        }
        if p < keys.len() {
            assert(ks[p as int] == keys@[p as int]@);
        }
        let found = p < keys.len() && !lex_less(&key, &keys[p]);
        proof {
            assert(recs.take(i + 1).drop_last() =~= recs.take(i as int));
            assert(recs.take(i + 1).last() == recs[i as int]);
            lemma_insert_at(ks, k, p as int);
            lemma_date_keys(recs.take(i + 1));
            if p < ks.len() {
                lemma_lex_total(ks[p as int], k);
            }
            lemma_records_on_step(recs, i as int, k);
        }
        let ghost ks2 = date_keys(recs.take(i + 1));
        if found {
            let mut g = groups.remove(p);
            g.push(lesson);
            let ghost grown = g;
            groups.insert(p, g);
            assert(groups@ =~= gs.update(p as int, grown));
            assert(ks[p as int] == k);
            assert(ks2 == ks);
            assert forall|h: int| 0 <= h < groups@.len() implies lessons_match(
                #[trigger] groups@[h]@,
                records_on(recs.take(i + 1), keys_view(keys@)[h]),
            ) by {
                lemma_records_on_step(recs, i as int, ks[h]);
                if h != p {
                    assert(groups@[h] == gs[h]);
                    lemma_lex_irreflexive(ks[h]);
                    assert(ks[h] != k);
                    assert(lessons_match(gs[h]@, records_on(recs.take(i as int), ks[h])));
                    assert(keys_view(keys@)[h] == ks[h]);
                    assert(records_on(recs.take(i + 1), ks[h]) == records_on(recs.take(i as int), ks[h]));
                    assert(lessons_match(groups@[h]@, records_on(recs.take(i + 1), keys_view(keys@)[h])));
                } else {
                    let old_rs = records_on(recs.take(i as int), k);
                    assert(recs[i as int].date_lesson@ == k);
                    assert(lesson_matches(lesson, recs[i as int]));
                    assert(groups@[h]@ == gs[h]@.push(lesson));
                    assert(lessons_match(gs[h]@, old_rs));
                    assert(records_on(recs.take(i + 1), k) == old_rs.push(recs[i as int]));
                    assert forall|j: int| 0 <= j < groups@[h]@.len() implies lesson_matches(
                        #[trigger] groups@[h]@[j],
                        records_on(recs.take(i + 1), k)[j],
                    ) by {
                        if j < gs[h]@.len() {
                            assert(groups@[h]@[j] == gs[h]@[j]);
                        }
                    }
                    assert(keys_view(keys@)[h] == k);
                    assert(lessons_match(groups@[h]@, records_on(recs.take(i + 1), keys_view(keys@)[h])));
                }
            }
        } else {
            keys.insert(p, key);
            let mut fresh: Vec<Lesson> = Vec::new();
            fresh.push(lesson);
            groups.insert(p, fresh);
            let ghost single = fresh;
            assert(keys_view(keys@) =~= ks.insert(p as int, k));
            assert(ks2 == ks.insert(p as int, k));
            assert(groups@ =~= gs.insert(p as int, single));
            proof {
                lemma_not_in_keys(ks, k, p as int);
            }
            assert forall|h: int| 0 <= h < groups@.len() implies lessons_match(
                #[trigger] groups@[h]@,
                records_on(recs.take(i + 1), keys_view(keys@)[h]),
            ) by {
                lemma_records_on_step(recs, i as int, ks2[h]);
                if h < p {
                    assert(groups@[h] == gs[h]);
                    assert(ks2[h] == ks[h]);
                    assert(ks.contains(ks[h]));
                    assert(lessons_match(gs[h]@, records_on(recs.take(i as int), ks[h])));
                } else if h > p {
                    assert(groups@[h] == gs[h - 1]);
                    assert(ks2[h] == ks[h - 1]);
                    assert(ks.contains(ks[h - 1]));
                    assert(lessons_match(gs[h - 1]@, records_on(recs.take(i as int), ks[h - 1])));
                } else {
                    let front = recs.take(i as int);
                    lemma_date_keys(front);
                    assert forall|j: int| 0 <= j < front.len() implies (#[trigger] front[j]).date_lesson@
                        != k by {
                        assert(ks.contains(front[j].date_lesson@));
                    }
                    lemma_records_on_none(front, k);
                    assert(records_on(recs.take(i + 1), k) =~= seq![recs[i as int]]);
                    assert(groups@[h] == single);
                    assert(single@ =~= seq![lesson]);
                    assert(lesson_matches(lesson, recs[i as int]));
                }
            }
        }
        i = i + 1;
    }
    assert(recs.take(n as int) =~= recs);
    let ghost all_keys = keys_view(keys@);
    let ghost all_groups = groups@;
    proof {
        lemma_date_keys(recs);
    }
    let mut days: Vec<Day> = Vec::new();
    let mut g: usize = 0;
    let nk = keys.len();
    assert(all_keys.len() == nk);
    while keys.len() > 0
        invariant
            recs == raw@,
            all_keys == date_keys(recs),
            all_groups.len() == all_keys.len(),
            g + keys@.len() == all_keys.len(),
            all_keys.len() <= usize::MAX,
            keys_view(keys@) == all_keys.skip(g as int),
            groups@ == all_groups.skip(g as int),
            days@.len() == g,
            forall|j: int| 0 <= j < recs.len() ==> lesson_ok(#[trigger] recs[j]),
            forall|h: int|
                0 <= h < all_groups.len() ==> lessons_match(
                    #[trigger] all_groups[h]@,
                    records_on(recs, all_keys[h]),
                ),
            forall|h: int| 0 <= h < g ==> day_matches(#[trigger] days@[h], all_keys[h], recs),
            forall|h: int| 0 <= h < g ==> date_of(#[trigger] all_keys[h]) is Some,
        decreases keys@.len(),
    {
        let ghost kv = keys_view(keys@);
        let ghost gv = groups@;
        let key = keys.remove(0);
        let lessons = groups.remove(0);
        assert(kv[0] == key@);
        assert(key@ == all_keys[g as int]);
        assert(lessons == all_groups[g as int]);
        assert(kv.drop_first() =~= keys_view(keys@));
        let date = match parse_date(&key) {
            Some(d) => d,
            None => {
                proof {
                    lemma_date_keys(recs);
                    assert(all_keys[g as int] == key@);
                    assert(all_keys.contains(key@));
                    let j = choose|j: int| 0 <= j < recs.len() && #[trigger] recs[j].date_lesson@ == key@;
                    assert(!date_ok(recs[j]));
                }
                return Err(ScheduleError::DateParse);
            },
        };
        let day_of_week = weekday_number(&date);
        days.push(Day { date, day_of_week, lessons });
        g = g + 1;
        assert(keys_view(keys@) =~= all_keys.skip(g as int));
        assert(groups@ =~= all_groups.skip(g as int));
    }
    proof {
        lemma_date_keys(recs);
    }
    assert forall|j: int| 0 <= j < recs.len() implies lesson_ok(#[trigger] recs[j]) && date_ok(
        recs[j],
    ) by {
        assert(all_keys.contains(recs[j].date_lesson@));
    }
    proof {
        if forall|i: int| 0 <= i < recs.len() ==> is_iso_date_text(#[trigger] recs[i].date_lesson@) {
            assert forall|a: int, b: int| 0 <= a < b < days@.len() implies ymd_lt(
                (#[trigger] days@[a]).date.ymd(),
                (#[trigger] days@[b]).date.ymd(),
            ) by {
                assert(all_keys.contains(all_keys[a]));
                assert(all_keys.contains(all_keys[b]));
                let ia = choose|i: int| 0 <= i < recs.len() && #[trigger] recs[i].date_lesson@ == all_keys[a];
                let ib = choose|i: int| 0 <= i < recs.len() && #[trigger] recs[i].date_lesson@ == all_keys[b];
                assert(day_matches(days@[a], all_keys[a], recs));
                assert(day_matches(days@[b], all_keys[b], recs));
                lemma_iso_text_order(all_keys[a], all_keys[b]);
            }
        }
    }
    Ok(days)
}

} // verus!
