//! What holds of dates as text: each date has its own text, and the texts of the
//! years 0 to 9999 sort as the dates do.

use vstd::prelude::*;
use vstd::utf8::{encode_utf8, is_ascii_chars, is_ascii_chars_encode_utf8};
use crate::dates::{
    civil, date_text, day_number, day_numbers_follow_the_calendar, days_before_month,
    days_before_year, earlier, is_date, is_day, lemma_civil, lemma_month_end, text_of,
};
use crate::text::{
    all_digits, decimal, decimal_digits_spell_their_number, digits_value, is_digit, padded,
    text_before,
};

verus! {

/// Lexicographic order on characters.
spec fn chars_before(a: Seq<char>, b: Seq<char>) -> bool
    decreases a.len(),
{
    if b.len() == 0 {
        false
    } else if a.len() == 0 {
        true
    } else if a[0] != b[0] {
        a[0] < b[0]
    } else {
        chars_before(a.drop_first(), b.drop_first())
    }
}

proof fn lemma_ascii_rest(a: Seq<char>)
    requires
        is_ascii_chars(a),
        a.len() > 0,
    ensures
        is_ascii_chars(a.drop_first()),
        encode_utf8(a).len() == a.len(),
        encode_utf8(a).drop_first() == encode_utf8(a.drop_first()),
        encode_utf8(a)[0] == a[0] as u8,
        a[0] as int <= 127,
{
    assert forall|i: int| 0 <= i < a.drop_first().len() implies '\0' <= #[trigger] a.drop_first()[i]
        <= '\u{7f}' by {
        assert(a.drop_first()[i] == a[i + 1]);
    }
    is_ascii_chars_encode_utf8(a);
    is_ascii_chars_encode_utf8(a.drop_first());
    let x = encode_utf8(a).drop_first();
    let y = encode_utf8(a.drop_first());
    assert forall|i: int| 0 <= i < x.len() implies x[i] == y[i] by {
        assert(x[i] == encode_utf8(a)[i + 1]);
        assert(a[i + 1] as u8 == encode_utf8(a)[i + 1]);
        assert(a.drop_first()[i] as u8 == y[i]);
        assert(a.drop_first()[i] == a[i + 1]);
    }
    assert(x =~= y);
    assert('\0' <= a[0] <= '\u{7f}');
}

proof fn lemma_ascii_order(a: Seq<char>, b: Seq<char>)
    requires
        is_ascii_chars(a),
        is_ascii_chars(b),
    ensures
        text_before(a, b) == chars_before(a, b),
    decreases a.len(),
{
    if a.len() > 0 {
        lemma_ascii_rest(a);
    } else {
        assert(encode_utf8(a).len() == 0);
    }
    if b.len() > 0 {
        lemma_ascii_rest(b);
    } else {
        assert(encode_utf8(b).len() == 0);
    }
    if a.len() > 0 && b.len() > 0 {
        lemma_ascii_order(a.drop_first(), b.drop_first());
    }
}

proof fn lemma_concat_order(a: Seq<char>, c: Seq<char>, b: Seq<char>, d: Seq<char>)
    requires
        a.len() == c.len(),
    ensures
        chars_before(a + b, c + d) == (chars_before(a, c) || (a == c && chars_before(b, d))),
    decreases a.len(),
{
    if a.len() == 0 {
        assert(a =~= c);
        assert(a + b =~= b);
        assert(c + d =~= d);
    } else {
        assert((a + b)[0] == a[0]);
        assert((c + d)[0] == c[0]);
        assert((a + b).drop_first() =~= a.drop_first() + b);
        assert((c + d).drop_first() =~= c.drop_first() + d);
        lemma_concat_order(a.drop_first(), c.drop_first(), b, d);
        if a[0] == c[0] && a.drop_first() == c.drop_first() {
            assert(a =~= seq![a[0]] + a.drop_first());
            assert(c =~= seq![c[0]] + c.drop_first());
        }
    }
}

proof fn lemma_digit_order(a: Seq<char>, b: Seq<char>)
    requires
        a.len() == b.len(),
        all_digits(a),
        all_digits(b),
    ensures
        chars_before(a, b) == (digits_value(a) < digits_value(b)),
        (a == b) == (digits_value(a) == digits_value(b)),
    decreases a.len(),
{
    if a.len() == 0 {
        assert(a =~= b);
    } else {
        let p = a.drop_last();
        let q = b.drop_last();
        let x = a.last();
        let y = b.last();
        assert(is_digit(a[a.len() - 1]) && is_digit(b[b.len() - 1]));
        assert forall|i: int| 0 <= i < p.len() implies is_digit(#[trigger] p[i]) by {
            assert(p[i] == a[i]);
        }
        assert forall|i: int| 0 <= i < q.len() implies is_digit(#[trigger] q[i]) by {
            assert(q[i] == b[i]);
        }
        lemma_digit_order(p, q);
        assert(a =~= p + seq![x]);
        assert(b =~= q + seq![y]);
        lemma_concat_order(p, q, seq![x], seq![y]);
        assert(chars_before(seq![x], seq![y]) == (x < y)) by {
            reveal_with_fuel(chars_before, 2);
            assert(seq![x].drop_first() =~= Seq::empty());
            assert(seq![y].drop_first() =~= Seq::empty());
        }
        if digits_value(a) == digits_value(b) {
            assert(digits_value(p) == digits_value(q));
            assert(p == q && x == y);
        }
    }
}

proof fn lemma_short(n: nat)
    ensures
        n < 100 ==> decimal(n).len() <= 2,
        n < 10000 ==> decimal(n).len() <= 4,
{
    reveal_with_fuel(decimal, 5);
    if n < 10000 {
        assert(n / 10 < 1000);
        assert((n / 10) / 10 < 100);
        assert(((n / 10) / 10) / 10 < 10);
    }
}

proof fn lemma_padded(n: nat, width: int)
    requires
        width == 2 && n < 100 || width == 4 && n < 10000,
    ensures
        padded(n, width).len() == width,
        all_digits(padded(n, width)),
        digits_value(padded(n, width)) == n,
{
    lemma_short(n);
    decimal_digits_spell_their_number(n, width);
}

/// The texts of dates of the years 0 to 9999 sort as the dates do.
pub proof fn date_texts_sort_like_dates(a: int, b: int)
    requires
        is_day(a),
        is_day(b),
        0 <= civil(a).0 <= 9999,
        0 <= civil(b).0 <= 9999,
    ensures
        text_before(text_of(a), text_of(b)) == (a < b),
{
    lemma_civil(a);
    lemma_civil(b);
    let x = civil(a);
    let y = civil(b);
    let y1 = padded(x.0 as nat, 4);
    let y2 = padded(y.0 as nat, 4);
    let m1 = padded(x.1 as nat, 2);
    let m2 = padded(y.1 as nat, 2);
    let d1 = padded(x.2 as nat, 2);
    let d2 = padded(y.2 as nat, 2);
    lemma_padded(x.0 as nat, 4);
    lemma_padded(y.0 as nat, 4);
    lemma_padded(x.1 as nat, 2);
    lemma_padded(y.1 as nat, 2);
    lemma_padded(x.2 as nat, 2);
    lemma_padded(y.2 as nat, 2);
    lemma_digit_order(y1, y2);
    lemma_digit_order(m1, m2);
    lemma_digit_order(d1, d2);
    let hyphen = seq!['-'];
    let s1 = text_of(a);
    let s2 = text_of(b);
    assert(s1 =~= y1 + (hyphen + (m1 + (hyphen + d1))));
    assert(s2 =~= y2 + (hyphen + (m2 + (hyphen + d2))));
    lemma_concat_order(y1, y2, hyphen + (m1 + (hyphen + d1)), hyphen + (m2 + (hyphen + d2)));
    lemma_concat_order(hyphen, hyphen, m1 + (hyphen + d1), m2 + (hyphen + d2));
    lemma_concat_order(m1, m2, hyphen + d1, hyphen + d2);
    lemma_concat_order(hyphen, hyphen, d1, d2);
    assert(!chars_before(hyphen, hyphen)) by {
        assert(hyphen.drop_first() =~= Seq::empty());
        reveal_with_fuel(chars_before, 2);
    }
    assert(is_ascii_chars(s1)) by {
        assert forall|i: int| 0 <= i < s1.len() implies '\0' <= #[trigger] s1[i] <= '\u{7f}' by {
            lemma_date_char(y1, m1, d1, i);
        }
    }
    assert(is_ascii_chars(s2)) by {
        assert forall|i: int| 0 <= i < s2.len() implies '\0' <= #[trigger] s2[i] <= '\u{7f}' by {
            lemma_date_char(y2, m2, d2, i);
        }
    }
    lemma_ascii_order(s1, s2);
    assert(chars_before(s1, s2) == earlier(x, y));
    if earlier(x, y) {
        day_numbers_follow_the_calendar(x, y);
    } else if earlier(y, x) {
        day_numbers_follow_the_calendar(y, x);
    } else {
        assert(x == y);
    }
}

proof fn lemma_date_char(y: Seq<char>, m: Seq<char>, d: Seq<char>, i: int)
    requires
        y.len() == 4,
        m.len() == 2,
        d.len() == 2,
        all_digits(y),
        all_digits(m),
        all_digits(d),
        0 <= i < 10,
    ensures
        ({
            let c = (y + (seq!['-'] + (m + (seq!['-'] + d))))[i];
            is_digit(c) || c == '-'
        }),
{
    let all = y + (seq!['-'] + (m + (seq!['-'] + d)));
    if i < 4 {
        assert(all[i] == y[i]);
        assert(is_digit(y[i]));
    } else if i == 4 || i == 7 {
        assert(all[i] == '-');
    } else if i < 7 {
        assert(all[i] == m[i - 5]);
        assert(is_digit(m[i - 5]));
    } else {
        assert(all[i] == d[i - 8]);
        assert(is_digit(d[i - 8]));
    }
}

/// The calendar: the first of January 1970 is day zero, a day is followed by the next
/// of its month or by the first of the next month, the months have the days they have,
/// and four hundred years are 146097 days.
pub proof fn days_are_counted_by_the_calendar(year: int, month: int, day: int)
    requires
        is_date(year, month, day),
    ensures
        day_number(1970, 1, 1) == 0,
        is_date(year, month, day + 1) ==> day_number(year, month, day + 1) == day_number(
            year,
            month,
            day,
        ) + 1,
        !is_date(year, month, day + 1) ==> day_number(year, month, day) + 1 == if month == 12 {
            day_number(year + 1, 1, 1)
        } else {
            day_number(year, month + 1, 1)
        },
        day_number(year + 400, month, day) == day_number(year, month, day) + 146_097,
        is_date(year, month, 28),
        is_date(year, month, 29) <==> month != 2 || (year % 4 == 0 && !(year % 100 == 0 && year % 400
            != 0)),
        is_date(year, month, 30) <==> month != 2,
        is_date(year, month, 31) <==> month == 1 || month == 3 || month == 5 || month == 7 || month
            == 8 || month == 10 || month == 12,
        !is_date(year, month, 32),
        !is_date(year, month, 0),
{
    lemma_month_end(year, month);
    lemma_cycle(year, month);
    reveal_with_fuel(days_before_month, 2);
}

proof fn lemma_cycle(year: int, month: int)
    requires
        1 <= month <= 12,
    ensures
        days_before_month(year + 400, month) == days_before_month(year, month),
        days_before_year(year + 400) == days_before_year(year) + 146_097,
    decreases month,
{
    if month > 1 {
        lemma_cycle(year, month - 1);
    }
    let y = year - 1;
    assert((y + 400) / 4 == y / 4 + 100);
    assert((y + 400) / 100 == y / 100 + 4);
    assert((y + 400) / 400 == y / 400 + 1);
    assert((year + 400) % 4 == year % 4);
    assert((year + 400) % 100 == year % 100);
    assert((year + 400) % 400 == year % 400);
}

/// A date of a year of four digits is written as the year, the month and the day, in
/// four, two and two digits with a hyphen between them.
pub proof fn a_date_is_written_in_ten_characters(year: int, month: int, day: int)
    requires
        0 <= year <= 9999,
        1 <= month <= 12,
        1 <= day <= 31,
    ensures
        ({
            let text = date_text(year, month, day);
            &&& text.len() == 10
            &&& text[4] == '-'
            &&& text[7] == '-'
            &&& all_digits(text.take(4))
            &&& all_digits(text.subrange(5, 7))
            &&& all_digits(text.skip(8))
            &&& digits_value(text.take(4)) == year
            &&& digits_value(text.subrange(5, 7)) == month
            &&& digits_value(text.skip(8)) == day
        }),
{
    let text = date_text(year, month, day);
    let y = padded(year as nat, 4);
    let m = padded(month as nat, 2);
    let d = padded(day as nat, 2);
    reveal_with_fuel(decimal, 5);
    decimal_digits_spell_their_number(year as nat, 4);
    decimal_digits_spell_their_number(month as nat, 2);
    decimal_digits_spell_their_number(day as nat, 2);
    assert(y.len() == 4 && m.len() == 2 && d.len() == 2);
    assert(text.take(4) =~= y);
    assert(text.subrange(5, 7) =~= m);
    assert(text.skip(8) =~= d);
}

} // verus!
