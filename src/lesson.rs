use vstd::prelude::*;
use vstd::string::*;
use crate::error::ScheduleError;

verus! {

/// One lesson as the timetable service delivers it: every field is text.
#[derive(Debug)]
pub struct RawLesson {
    pub date_lesson: String,
    pub day_number: String,
    pub lesson_number: String,
    pub lesson_type: String,
    pub subject: String,
    pub teacher_name: String,
    pub place: String,
    pub subgroup: String,
}

/// A lesson ready for display.
#[derive(Debug)]
pub struct Lesson {
    pub position: u8,
    pub title: String,
    pub teacher: String,
    pub place: String,
}

pub open spec fn is_digit(c: char) -> bool {
    '0' <= c && c <= '9'
}

pub open spec fn all_digits(s: Seq<char>) -> bool {
    forall|i: int| 0 <= i < s.len() ==> is_digit(#[trigger] s[i])
}

/// The number that a string of decimal digits denotes.
pub open spec fn digits_value(s: Seq<char>) -> int
    decreases s.len(),
{
    if s.len() == 0 {
        0
    } else {
        digits_value(s.drop_last()) * 10 + (s.last() as int - '0' as int)
    }
}

/// The digits of an unsigned number in text, after an optional leading `+`.
pub open spec fn unsigned_digits(s: Seq<char>) -> Seq<char> {
    if s.len() > 0 && s[0] == '+' {
        s.drop_first()
    } else {
        s
    }
}

/// What reading `s` as an unsigned decimal number no larger than `max` gives:
/// an optional `+`, then at least one digit, and nothing else.
pub open spec fn parse_unsigned(s: Seq<char>, max: int) -> Option<int> {
    let d = unsigned_digits(s);
    if d.len() > 0 && all_digits(d) && digits_value(d) <= max {
        Some(digits_value(d))
    } else {
        None
    }
}

proof fn lemma_digits_value_prefix(s: Seq<char>, k: int)
    requires
        all_digits(s),
        0 <= k <= s.len(),
    ensures
        0 <= digits_value(s.take(k)) <= digits_value(s),
    decreases s.len(),
{
    if k == s.len() {
        assert(s.take(k) =~= s);
        if s.len() > 0 {
            lemma_digits_value_prefix(s.drop_last(), k - 1);
            assert(s.drop_last().take(k - 1) =~= s.drop_last());
        }
    } else {
        lemma_digits_value_prefix(s.drop_last(), k);
        assert(s.drop_last().take(k) =~= s.take(k));
    }
}

/// The characters of `s`, one by one.
pub fn chars_of(s: &str) -> (r: Vec<char>)
    ensures
        r@ == s@,
{
    let n = s.unicode_len();
    let mut r: Vec<char> = Vec::new();
    let mut i: usize = 0;
    while i < n
        invariant
            n == s@.len(),
            i <= n,
            r@ == s@.take(i as int),
        decreases n - i,
    {
        r.push(s.get_char(i));
        i = i + 1;
        assert(r@ =~= s@.take(i as int));
    }
    assert(r@ =~= s@);
    r
}

/// Reads an unsigned decimal number no larger than `max`, as `str::parse` does
/// for unsigned integer types.
pub fn parse_number(s: &Vec<char>, max: u32) -> (r: Option<u32>)
    ensures
        match r {
            Some(v) => parse_unsigned(s@, max as int) == Some(v as int),
            None => parse_unsigned(s@, max as int) is None,
        },
{
    let n = s.len();
    let start: usize = if n > 0 && s[0] == '+' { 1 } else { 0 };
    let ghost d = unsigned_digits(s@);
    assert(d =~= s@.subrange(start as int, n as int));
    if start == n {
        return None;
    }
    let mut v: u64 = 0;
    let mut i: usize = start;
    while i < n
        invariant
            start <= i <= n,
            n == s@.len(),
            d == s@.subrange(start as int, n as int),
            d == unsigned_digits(s@),
            v <= max,
            v == digits_value(d.take(i - start)),
            all_digits(d.take(i - start)),
        decreases n - i,
    {
        let c = s[i];
        if !('0' <= c && c <= '9') {
            assert(!all_digits(d)) by {
                assert(d[i - start] == c);
            }
            return None;
        }
        let ghost t = d.take(i - start + 1);
        assert(t.drop_last() =~= d.take(i - start));
        assert(t.last() == c);
        v = v * 10 + (c as u64 - '0' as u64);
        i = i + 1;
        assert(all_digits(d.take(i - start))) by {
            assert forall|j: int| 0 <= j < t.len() implies is_digit(#[trigger] t[j]) by {
                if j < t.len() - 1 {
                    assert(t[j] == d.take(i - start - 1)[j]);
                }
            }
        }
        if v > max as u64 {
            proof {
                if all_digits(d) {
                    lemma_digits_value_prefix(d, (i - start) as int);
                }
            }
            return None;
        }
    }
    assert(d.take(n - start) =~= d);
    Some(v as u32)
}

pub open spec fn subgroup_suffix(subgroup: int) -> Seq<char> {
    if subgroup == 1 {
        ", subgroup 1"@
    } else if subgroup == 2 {
        ", subgroup 2"@
    } else {
        Seq::empty()
    }
}

/// Whether both numeric fields of a record can be read.
pub open spec fn lesson_ok(raw: RawLesson) -> bool {
    parse_unsigned(raw.lesson_number@, 255) is Some && parse_unsigned(raw.subgroup@, 255) is Some
}

/// The title of a record: its type, a space, its subject and the subgroup suffix.
pub open spec fn title_of(raw: RawLesson) -> Seq<char> {
    raw.lesson_type@ + " "@ + raw.subject@ + subgroup_suffix(
        parse_unsigned(raw.subgroup@, 255).unwrap(),
    )
}

/// `l` is the display form of `raw`.
pub open spec fn lesson_matches(l: Lesson, raw: RawLesson) -> bool {
    &&& lesson_ok(raw)
    &&& l.position as int == parse_unsigned(raw.lesson_number@, 255).unwrap()
    &&& l.title@ == title_of(raw)
    &&& l.teacher@ == raw.teacher_name@
    &&& l.place@ == raw.place@
}

/// Turns one record into a lesson for display.
pub fn raw_to_lesson(raw: &RawLesson) -> (r: Result<Lesson, ScheduleError>)
    ensures
        r is Ok <==> lesson_ok(*raw),
        r matches Ok(l) ==> lesson_matches(l, *raw),
        r matches Err(e) ==> e == ScheduleError::Parse,
        r matches Ok(l) ==> {
            let sub = parse_unsigned(raw.subgroup@, 255).unwrap();
            &&& (sub != 1 && sub != 2 ==> l.title@ == raw.lesson_type@ + " "@ + raw.subject@)
            &&& (sub == 1 ==> l.title@ == raw.lesson_type@ + " "@ + raw.subject@
                + ", subgroup 1"@)
            &&& (sub == 2 ==> l.title@ == raw.lesson_type@ + " "@ + raw.subject@
                + ", subgroup 2"@)
        },
{
    let sub_chars = chars_of(raw.subgroup.as_str());
    let sub = match parse_number(&sub_chars, 255) {
        Some(v) => v,
        None => return Err(ScheduleError::Parse),
    };
    let pos_chars = chars_of(raw.lesson_number.as_str());
    let position = match parse_number(&pos_chars, 255) {
        Some(v) => v as u8,
        None => return Err(ScheduleError::Parse),
    };
    let suffix: &str = if sub == 1 {
        ", subgroup 1"
    } else if sub == 2 {
        ", subgroup 2"
    } else {
        ""
    };
    proof {
        reveal_strlit(", subgroup 1");
        reveal_strlit(", subgroup 2");
        reveal_strlit("");
        reveal_strlit(" ");
    }
    let title = raw.lesson_type.clone().concat(" ").concat(raw.subject.as_str()).concat(suffix);
    assert(suffix@ == subgroup_suffix(sub as int));
    Ok(Lesson { position, title, teacher: raw.teacher_name.clone(), place: raw.place.clone() })
}

} // verus!
