use vstd::prelude::*;
use crate::date::{date_of, lemma_split_iso};
use crate::lesson::{all_digits, digits_value, is_digit};

verus! {

/// Lexicographic order of strings, character by character.
pub open spec fn lex_lt(a: Seq<char>, b: Seq<char>) -> bool
    decreases a.len(),
{
    if a.len() == 0 {
        b.len() > 0
    } else if b.len() == 0 {
        false
    } else if a[0] != b[0] {
        (a[0] as int) < (b[0] as int)
    } else {
        lex_lt(a.drop_first(), b.drop_first())
    }
}

pub proof fn lemma_lex_irreflexive(a: Seq<char>)
    ensures
        !lex_lt(a, a),
    decreases a.len(),
{
    if a.len() > 0 {
        lemma_lex_irreflexive(a.drop_first());
    }
}

pub proof fn lemma_lex_total(a: Seq<char>, b: Seq<char>)
    ensures
        a == b || lex_lt(a, b) || lex_lt(b, a),
        !(lex_lt(a, b) && lex_lt(b, a)),
    decreases a.len(),
{
    if a.len() > 0 && b.len() > 0 {
        lemma_lex_total(a.drop_first(), b.drop_first());
        if a[0] == b[0] && a.drop_first() == b.drop_first() {
            assert(a =~= seq![a[0]] + a.drop_first());
            assert(b =~= seq![b[0]] + b.drop_first());
        }
    } else if a.len() == 0 && b.len() == 0 {
        assert(a =~= b);
    }
}

pub proof fn lemma_lex_transitive(a: Seq<char>, b: Seq<char>, c: Seq<char>)
    requires
        lex_lt(a, b),
        lex_lt(b, c),
    ensures
        lex_lt(a, c),
    decreases a.len(),
{
    if a.len() > 0 && a[0] == b[0] && b[0] == c[0] {
        lemma_lex_transitive(a.drop_first(), b.drop_first(), c.drop_first());
    }
}

/// A date string written `YYYY-MM-DD`: four, two and two digits.
pub open spec fn is_iso_date_text(s: Seq<char>) -> bool {
    &&& s.len() == 10
    &&& s[4] == '-'
    &&& s[7] == '-'
    &&& all_digits(s.subrange(0, 4))
    &&& all_digits(s.subrange(5, 7))
    &&& all_digits(s.subrange(8, 10))
}

/// Calendar order of `(year, month, day)` triples.
pub open spec fn ymd_lt(a: (int, int, int), b: (int, int, int)) -> bool {
    a.0 < b.0 || (a.0 == b.0 && (a.1 < b.1 || (a.1 == b.1 && a.2 < b.2)))
}

pub proof fn lemma_lex_concat(p1: Seq<char>, q1: Seq<char>, p2: Seq<char>, q2: Seq<char>)
    requires
        p1.len() == p2.len(),
    ensures
        lex_lt(p1 + q1, p2 + q2) == if p1 == p2 {
            lex_lt(q1, q2)
        } else {
            lex_lt(p1, p2)
        },
    decreases p1.len(),
{
    if p1.len() == 0 {
        assert(p1 + q1 =~= q1);
        assert(p2 + q2 =~= q2);
        assert(p1 =~= p2);
    } else {
        assert((p1 + q1)[0] == p1[0]);
        assert((p2 + q2)[0] == p2[0]);
        assert((p1 + q1).drop_first() =~= p1.drop_first() + q1);
        assert((p2 + q2).drop_first() =~= p2.drop_first() + q2);
        lemma_lex_concat(p1.drop_first(), q1, p2.drop_first(), q2);
        if p1[0] == p2[0] && p1.drop_first() == p2.drop_first() {
            assert(p1 =~= seq![p1[0]] + p1.drop_first());
            assert(p2 =~= seq![p2[0]] + p2.drop_first());
        }
    }
}

pub proof fn lemma_digits_lex(x: Seq<char>, y: Seq<char>)
    requires
        x.len() == y.len(),
        all_digits(x),
        all_digits(y),
        lex_lt(x, y),
    ensures
        digits_value(x) < digits_value(y),
    decreases x.len(),
{
    assert(x.len() > 0);
    let (xf, yf) = (x.drop_last(), y.drop_last());
    assert(digits_value(x) == digits_value(xf) * 10 + (x.last() as int - '0' as int));
    assert(digits_value(y) == digits_value(yf) * 10 + (y.last() as int - '0' as int));
    assert(x =~= xf + seq![x.last()]);
    assert(y =~= yf + seq![y.last()]);
    lemma_lex_concat(xf, seq![x.last()], yf, seq![y.last()]);
    assert(is_digit(x[x.len() - 1]));
    assert(is_digit(y[y.len() - 1]));
    if xf == yf {
        assert(seq![x.last()].drop_first() =~= Seq::<char>::empty());
        assert(seq![y.last()].drop_first() =~= Seq::<char>::empty());
        assert(!lex_lt(Seq::<char>::empty(), Seq::<char>::empty()));
        assert(lex_lt(seq![x.last()], seq![y.last()]));
        assert((x.last() as int) < (y.last() as int));
    } else {
        assert(all_digits(xf)) by {
            assert forall|i: int| 0 <= i < xf.len() implies is_digit(#[trigger] xf[i]) by {
                assert(xf[i] == x[i]);
            }
        }
        assert(all_digits(yf)) by {
            assert forall|i: int| 0 <= i < yf.len() implies is_digit(#[trigger] yf[i]) by {
                assert(yf[i] == y[i]);
            }
        }
        lemma_digits_lex(xf, yf);
    }
}

/// Of two date strings written `YYYY-MM-DD` that both name dates, the one that
/// comes first as a string names the earlier date.
pub proof fn lemma_iso_text_order(a: Seq<char>, b: Seq<char>)
    requires
        is_iso_date_text(a),
        is_iso_date_text(b),
        lex_lt(a, b),
        date_of(a) is Some,
        date_of(b) is Some,
    ensures
        ymd_lt(date_of(a).unwrap(), date_of(b).unwrap()),
{
    lemma_split_iso(a);
    lemma_split_iso(b);
    let (ya, ma, da) = (a.subrange(0, 4), a.subrange(5, 7), a.subrange(8, 10));
    let (yb, mb, db) = (b.subrange(0, 4), b.subrange(5, 7), b.subrange(8, 10));
    let dash = seq!['-'];
    assert(a =~= ya + (dash + (ma + (dash + da))));
    assert(b =~= yb + (dash + (mb + (dash + db))));
    lemma_lex_concat(ya, dash + (ma + (dash + da)), yb, dash + (mb + (dash + db)));
    lemma_lex_concat(dash, ma + (dash + da), dash, mb + (dash + db));
    lemma_lex_concat(ma, dash + da, mb, dash + db);
    lemma_lex_concat(dash, da, dash, db);
    if ya != yb {
        lemma_lex_total(ya, yb);
        lemma_digits_lex(ya, yb);
    } else if ma != mb {
        lemma_lex_total(ma, mb);
        lemma_digits_lex(ma, mb);
    } else {
        lemma_digits_lex(da, db);
    }
}

/// Whether `a` comes before `b` in lexicographic order.
pub fn lex_less(a: &Vec<char>, b: &Vec<char>) -> (r: bool)
    ensures
        r == lex_lt(a@, b@),
{
    let mut i: usize = 0;
    assert(a@.skip(0) =~= a@);
    assert(b@.skip(0) =~= b@);
    while i < a.len() && i < b.len()
        invariant
            i <= a@.len(),
            i <= b@.len(),
            lex_lt(a@, b@) == lex_lt(a@.skip(i as int), b@.skip(i as int)),
        decreases a@.len() - i,
    {
        assert(a@.skip(i as int).drop_first() =~= a@.skip(i + 1));
        assert(b@.skip(i as int).drop_first() =~= b@.skip(i + 1));
        assert(a@.skip(i as int)[0] == a@[i as int]);
        assert(b@.skip(i as int)[0] == b@[i as int]);
        if a[i] != b[i] {
            return a[i] < b[i];
        }
        i = i + 1;
    }
    assert(a@.skip(i as int).len() == a@.len() - i);
    i == a.len() && i < b.len()
}

} // verus!
