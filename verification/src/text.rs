//! Text: the order strings are kept in, and how messages are put together.

use vstd::prelude::*;
use vstd::utf8::encode_utf8;

verus! {

/// Lexicographic order on byte sequences.
pub open spec fn bytes_before(a: Seq<u8>, b: Seq<u8>) -> bool
    decreases a.len(),
{
    if b.len() == 0 {
        false
    } else if a.len() == 0 {
        true
    } else if a[0] != b[0] {
        a[0] < b[0]
    } else {
        bytes_before(a.drop_first(), b.drop_first())
    }
}

/// The order of two strings: lexicographic on their UTF-8 bytes.
pub open spec fn text_before(a: Seq<char>, b: Seq<char>) -> bool {
    bytes_before(encode_utf8(a), encode_utf8(b))
}

proof fn lemma_bytes_total(a: Seq<u8>, b: Seq<u8>)
    ensures
        a == b || bytes_before(a, b) || bytes_before(b, a),
        bytes_before(a, b) ==> !bytes_before(b, a) && a != b,
    decreases a.len(),
{
    if a.len() == 0 || b.len() == 0 {
        if a.len() == 0 && b.len() == 0 {
            assert(a =~= b);
        }
    } else if a[0] == b[0] {
        lemma_bytes_total(a.drop_first(), b.drop_first());
        if a.drop_first() == b.drop_first() {
            assert(a =~= seq![a[0]] + a.drop_first());
            assert(b =~= seq![b[0]] + b.drop_first());
        }
    }
}

proof fn lemma_bytes_transitive(a: Seq<u8>, b: Seq<u8>, c: Seq<u8>)
    requires
        bytes_before(a, b),
        bytes_before(b, c),
    ensures
        bytes_before(a, c),
    decreases a.len(),
{
    if a.len() > 0 && a[0] == b[0] && b[0] == c[0] {
        lemma_bytes_transitive(a.drop_first(), b.drop_first(), c.drop_first());
    }
}

/// `text_before` is a strict total order: no string stands before itself, two
/// different strings stand one before the other, and the order carries over.
pub proof fn text_order_is_total()
    ensures
        forall|a: Seq<char>, b: Seq<char>|
            #[trigger] text_before(a, b) ==> !text_before(b, a) && a != b,
        forall|a: Seq<char>, b: Seq<char>|
            #![trigger text_before(a, b)]
            a == b || text_before(a, b) || text_before(b, a),
        forall|a: Seq<char>, b: Seq<char>, c: Seq<char>|
            #[trigger] text_before(a, b) && #[trigger] text_before(b, c) ==> text_before(a, c),
{
    assert forall|a: Seq<char>, b: Seq<char>| #[trigger] text_before(a, b) implies !text_before(
        b,
        a,
    ) && a != b by {
        lemma_bytes_total(encode_utf8(a), encode_utf8(b));
    }
    assert forall|a: Seq<char>, b: Seq<char>|
        #![trigger text_before(a, b)]
        a == b || text_before(a, b) || text_before(b, a) by {
        lemma_bytes_total(encode_utf8(a), encode_utf8(b));
        vstd::utf8::encode_utf8_decode_utf8(a);
        vstd::utf8::encode_utf8_decode_utf8(b);
    }
    assert forall|a: Seq<char>, b: Seq<char>, c: Seq<char>| #[trigger]
        text_before(a, b) && #[trigger] text_before(b, c) implies text_before(a, c) by {
        lemma_bytes_transitive(encode_utf8(a), encode_utf8(b), encode_utf8(c));
    }
}

proof fn lemma_bytes_skip(a: Seq<u8>, b: Seq<u8>, n: int)
    requires
        0 <= n <= a.len(),
        n <= b.len(),
        a.take(n) == b.take(n),
    ensures
        bytes_before(a, b) == bytes_before(a.skip(n), b.skip(n)),
    decreases n,
{
    if n == 0 {
        assert(a.skip(0) =~= a);
        assert(b.skip(0) =~= b);
    } else {
        assert(a[0] == a.take(n)[0] && b[0] == b.take(n)[0]);
        assert(a.drop_first().take(n - 1) =~= a.take(n).drop_first());
        assert(b.drop_first().take(n - 1) =~= b.take(n).drop_first());
        lemma_bytes_skip(a.drop_first(), b.drop_first(), n - 1);
        assert(a.drop_first().skip(n - 1) =~= a.skip(n));
        assert(b.drop_first().skip(n - 1) =~= b.skip(n));
    }
}

/// Where one string stands relative to another.
#[derive(Clone, Copy, Debug, PartialEq, Eq, Structural)]
pub enum Rank {
    Before,
    Same,
    After,
}

/// Where `a` stands relative to `b`.
pub fn rank(a: &str, b: &str) -> (r: Rank)
    ensures
        r == Rank::Before <==> text_before(a@, b@),
        r == Rank::Same <==> a@ == b@,
        r == Rank::After <==> text_before(b@, a@),
{
    let x = a.as_bytes();
    let y = b.as_bytes();
    proof {
        text_order_is_total();
    }
    let mut i: usize = 0;
    while i < x.len() && i < y.len() && x[i] == y[i]
        invariant
            i <= x.len(),
            i <= y.len(),
            x@.take(i as int) == y@.take(i as int),
        decreases x.len() - i,
    {
        assert(x@.take(i + 1) =~= x@.take(i as int).push(x[i as int]));
        assert(y@.take(i + 1) =~= y@.take(i as int).push(y[i as int]));
        i = i + 1;
    }
    proof {
        lemma_bytes_skip(x@, y@, i as int);
        lemma_bytes_skip(y@, x@, i as int);
        lemma_bytes_total(x@, y@);
        vstd::utf8::encode_utf8_decode_utf8(a@);
        vstd::utf8::encode_utf8_decode_utf8(b@);
    }
    if i == x.len() && i == y.len() {
        proof {
            assert(x@.take(i as int) =~= x@);
            assert(y@.take(i as int) =~= y@);
        }
        Rank::Same
    } else if i == x.len() {
        Rank::Before
    } else if i == y.len() {
        Rank::After
    } else if x[i] < y[i] {
        Rank::Before
    } else {
        Rank::After
    }
}

/// Whether two strings hold the same text.
pub fn same_text(a: &str, b: &str) -> (r: bool)
    ensures
        r == (a@ == b@),
{
    rank(a, b) == Rank::Same
}

/// `String::push` of std: appends one character.
pub assume_specification[ String::push ](s: &mut String, c: char)
    ensures
        final(s)@ == old(s)@.push(c),
;

/// What `str::to_lowercase` of std makes of a text.
pub uninterp spec fn lower_case(text: Seq<char>) -> Seq<char>;

/// What `str::to_uppercase` of std makes of a text.
pub uninterp spec fn upper_case(text: Seq<char>) -> Seq<char>;

/// What `char::to_uppercase` of std makes of a character.
pub uninterp spec fn upper_case_char(c: char) -> Seq<char>;

/// What `char::is_whitespace` of std says of a character.
pub uninterp spec fn white_space(c: char) -> bool;

/// `str::to_lowercase` of std, a function of the text alone.
#[verifier::external_body]
pub(crate) fn to_lowercase(text: &str) -> (r: String)
    ensures
        r@ == lower_case(text@),
{
    text.to_lowercase()
}

/// `str::to_uppercase` of std, a function of the text alone.
#[verifier::external_body]
pub(crate) fn to_uppercase(text: &str) -> (r: String)
    ensures
        r@ == upper_case(text@),
{
    text.to_uppercase()
}

/// `char::to_uppercase` of std, a function of the character alone.
#[verifier::external_body]
pub(crate) fn char_to_uppercase(c: char) -> (r: String)
    ensures
        r@ == upper_case_char(c),
{
    c.to_uppercase().to_string()
}

/// `char::is_whitespace` of std, a function of the character alone.
#[verifier::external_body]
pub(crate) fn is_whitespace(c: char) -> (r: bool)
    ensures
        r == white_space(c),
{
    c.is_whitespace()
}

/// A text without the white space at its end.
pub open spec fn trimmed_end(text: Seq<char>) -> Seq<char>
    decreases text.len(),
{
    if text.len() > 0 && white_space(text.last()) {
        trimmed_end(text.drop_last())
    } else {
        text
    }
}

/// A text without the white space at its start and end.
pub open spec fn trimmed(text: Seq<char>) -> Seq<char>
    decreases text.len(),
{
    if text.len() > 0 && white_space(text[0]) {
        trimmed(text.drop_first())
    } else {
        trimmed_end(text)
    }
}

proof fn lemma_trimmed_prefix(text: Seq<char>, i: int)
    requires
        0 <= i <= text.len(),
        forall|k: int| 0 <= k < i ==> white_space(#[trigger] text[k]),
    ensures
        trimmed(text) == trimmed(text.skip(i)),
    decreases i,
{
    if i > 0 {
        let rest = text.drop_first();
        assert forall|k: int| 0 <= k < i - 1 implies white_space(#[trigger] rest[k]) by {
            assert(rest[k] == text[k + 1]);
        }
        assert(white_space(text[0]));
        lemma_trimmed_prefix(rest, i - 1);
        assert(rest.skip(i - 1) =~= text.skip(i));
    } else {
        assert(text.skip(0) =~= text);
    }
}

proof fn lemma_trimmed_suffix(text: Seq<char>, j: int)
    requires
        0 <= j <= text.len(),
        forall|k: int| j <= k < text.len() ==> white_space(#[trigger] text[k]),
    ensures
        trimmed_end(text) == trimmed_end(text.take(j)),
    decreases text.len() - j,
{
    if j < text.len() {
        let rest = text.drop_last();
        assert(white_space(text[text.len() - 1]));
        assert forall|k: int| j <= k < rest.len() implies white_space(#[trigger] rest[k]) by {
            assert(rest[k] == text[k]);
        }
        lemma_trimmed_suffix(rest, j);
        assert(rest.take(j) =~= text.take(j));
    } else {
        assert(text.take(j) =~= text);
    }
}

/// A trimmed text has no white space at its start or end, and what was taken away on
/// either side is white space. `before` is how much of it was in front.
pub proof fn trimming_takes_the_white_space_around(text: Seq<char>) -> (before: int)
    ensures
        0 <= before,
        before + trimmed(text).len() <= text.len(),
        trimmed(text) == text.subrange(before, before + trimmed(text).len()),
        forall|i: int| 0 <= i < before ==> white_space(#[trigger] text[i]),
        forall|i: int|
            before + trimmed(text).len() <= i < text.len() ==> white_space(#[trigger] text[i]),
        trimmed(text).len() > 0 ==> !white_space(trimmed(text)[0]) && !white_space(
            trimmed(text).last(),
        ),
    decreases text.len(),
{
    if text.len() > 0 && white_space(text[0]) {
        let rest = text.drop_first();
        let before = trimming_takes_the_white_space_around(rest);
        let n = trimmed(text).len() as int;
        assert(rest.subrange(before, before + n) =~= text.subrange(before + 1, before + 1 + n));
        assert forall|i: int| 0 <= i < before + 1 implies white_space(#[trigger] text[i]) by {
            if i > 0 {
                assert(rest[i - 1] == text[i]);
            }
        }
        assert forall|i: int| before + 1 + n <= i < text.len() implies white_space(
            #[trigger] text[i],
        ) by {
            assert(rest[i - 1] == text[i]);
        }
        before + 1
    } else {
        lemma_trimmed_end(text);
        0
    }
}

/// White space around a text does not matter once it is trimmed.
pub proof fn white_space_around_does_not_matter(
    before: Seq<char>,
    text: Seq<char>,
    after: Seq<char>,
)
    requires
        forall|i: int| 0 <= i < before.len() ==> white_space(#[trigger] before[i]),
        forall|i: int| 0 <= i < after.len() ==> white_space(#[trigger] after[i]),
    ensures
        trimmed(before + text + after) == trimmed(text),
        trimmed(trimmed(text)) == trimmed(text),
{
    let whole = before + text + after;
    let n = before.len() as int;
    assert forall|k: int| 0 <= k < n implies white_space(#[trigger] whole[k]) by {
        assert(whole[k] == before[k]);
    }
    lemma_trimmed_prefix(whole, n);
    assert(whole.skip(n) =~= text + after);
    lemma_white_space_behind(text, after);
    let start = trimming_takes_the_white_space_around(text);
    let kept = trimmed(text);
    if kept.len() > 0 {
        assert(trimmed_end(kept) == kept);
    }
}

proof fn lemma_white_space_behind(text: Seq<char>, after: Seq<char>)
    requires
        forall|i: int| 0 <= i < after.len() ==> white_space(#[trigger] after[i]),
    ensures
        trimmed(text + after) == trimmed(text),
    decreases text.len(),
{
    let whole = text + after;
    if text.len() == 0 {
        assert(whole =~= after);
        lemma_trimmed_prefix(after, after.len() as int);
        assert(after.skip(after.len() as int) =~= text);
    } else if white_space(text[0]) {
        assert(whole[0] == text[0]);
        assert(whole.drop_first() =~= text.drop_first() + after);
        lemma_white_space_behind(text.drop_first(), after);
    } else {
        assert(whole[0] == text[0]);
        assert forall|k: int| text.len() <= k < whole.len() implies white_space(
            #[trigger] whole[k],
        ) by {
            assert(whole[k] == after[k - text.len()]);
        }
        lemma_trimmed_suffix(whole, text.len() as int);
        assert(whole.take(text.len() as int) =~= text);
    }
}

proof fn lemma_trimmed_end(text: Seq<char>)
    ensures
        trimmed_end(text).len() <= text.len(),
        trimmed_end(text) == text.subrange(0, trimmed_end(text).len() as int),
        forall|i: int|
            trimmed_end(text).len() <= i < text.len() ==> white_space(#[trigger] text[i]),
        trimmed_end(text).len() > 0 ==> !white_space(trimmed_end(text).last()),
    decreases text.len(),
{
    if text.len() > 0 && white_space(text.last()) {
        let rest = text.drop_last();
        lemma_trimmed_end(rest);
        let n = trimmed_end(text).len() as int;
        assert(rest.subrange(0, n) =~= text.subrange(0, n));
        assert forall|i: int| n <= i < text.len() implies white_space(#[trigger] text[i]) by {
            if i < text.len() - 1 {
                assert(rest[i] == text[i]);
            }
        }
    } else {
        assert(text.subrange(0, text.len() as int) =~= text);
    }
}

/// A text without the white space at its start and end.
pub fn trim(text: &str) -> (r: String)
    ensures
        r@ == trimmed(text@),
{
    let n: usize = text.unicode_len();
    let ghost all = text@;
    let mut i: usize = 0;
    while i < n && is_whitespace(text.get_char(i))
        invariant
            n == all.len(),
            all == text@,
            i <= n,
            forall|k: int| 0 <= k < i ==> white_space(#[trigger] all[k]),
        decreases n - i,
    {
        i = i + 1;
    }
    let mut j: usize = n;
    while j > i && is_whitespace(text.get_char(j - 1))
        invariant
            n == all.len(),
            all == text@,
            i <= j <= n,
            forall|k: int| j <= k < n ==> white_space(#[trigger] all[k]),
        decreases j,
    {
        j = j - 1;
    }
    proof {
        lemma_trimmed_prefix(all, i as int);
        let rest = all.skip(i as int);
        assert forall|k: int| j - i <= k < rest.len() implies white_space(#[trigger] rest[k]) by {
            assert(rest[k] == all[k + i]);
        }
        lemma_trimmed_suffix(rest, j - i);
        assert(rest.take(j - i) =~= all.subrange(i as int, j as int));
        let kept = all.subrange(i as int, j as int);
        if kept.len() > 0 {
            assert(kept.last() == all[j - 1]);
            assert(rest[0] == all[i as int]);
        }
    }
    text.substring_char(i, j).to_owned()
}

/// A decimal digit.
pub open spec fn digit(d: int) -> char
    recommends
        0 <= d < 10,
{
    (0x30 + d) as char
}

/// A number in decimal digits.
pub open spec fn decimal(n: nat) -> Seq<char>
    decreases n,
{
    if n < 10 {
        seq![digit(n as int)]
    } else {
        decimal(n / 10).push(digit((n % 10) as int))
    }
}

/// A number in decimal digits, with a minus sign where it is negative.
pub open spec fn signed_decimal(n: int) -> Seq<char> {
    if n < 0 {
        seq!['-'] + decimal((-n) as nat)
    } else {
        decimal(n as nat)
    }
}

/// `count` zeros.
pub open spec fn zeros(count: int) -> Seq<char> {
    Seq::new(
        if count > 0 {
            count as nat
        } else {
            0
        },
        |i: int| '0',
    )
}

/// A number in decimal digits, with zeros in front up to a width.
pub open spec fn padded(n: nat, width: int) -> Seq<char> {
    zeros(width - decimal(n).len()) + decimal(n)
}

fn digit_char(d: u8) -> (c: char)
    requires
        d < 10,
    ensures
        c == digit(d as int),
{
    match d {
        0 => '0',
        1 => '1',
        2 => '2',
        3 => '3',
        4 => '4',
        5 => '5',
        6 => '6',
        7 => '7',
        8 => '8',
        _ => '9',
    }
}

/// Append a number in decimal digits.
pub fn push_decimal(out: &mut String, n: u64)
    ensures
        final(out)@ == old(out)@ + decimal(n as nat),
    decreases n,
{
    if n >= 10 {
        push_decimal(out, n / 10);
    }
    let ghost so_far = out@;
    out.push(digit_char((n % 10) as u8));
    proof {
        if n >= 10 {
            assert(out@ =~= old(out)@ + decimal(n as nat));
        } else {
            assert(out@ =~= old(out)@ + seq![digit(n as int)]);
        }
    }
}

/// Append a number in decimal digits, with a minus sign where it is negative.
pub fn push_signed(out: &mut String, n: i64)
    ensures
        final(out)@ == old(out)@ + signed_decimal(n as int),
{
    if n < 0 {
        out.push('-');
        let size: u64 = if n == i64::MIN {
            0x8000_0000_0000_0000
        } else {
            (-n) as u64
        };
        push_decimal(out, size);
        assert(out@ =~= old(out)@ + signed_decimal(n as int));
    } else {
        push_decimal(out, n as u64);
    }
}

/// Append a number in decimal digits, with zeros in front up to a width.
pub fn push_padded(out: &mut String, n: u64, width: usize)
    ensures
        final(out)@ == old(out)@ + padded(n as nat, width as int),
{
    let mut digits = String::new();
    push_decimal(&mut digits, n);
    assert(digits@ =~= decimal(n as nat));
    let len: usize = digits.as_str().unicode_len();
    let missing: usize = if width > len {
        width - len
    } else {
        0
    };
    let mut written: usize = 0;
    while written < missing
        invariant
            written <= missing,
            out@ == old(out)@ + zeros(written as int),
        decreases missing - written,
    {
        out.push('0');
        assert(out@ =~= old(out)@ + zeros(written + 1));
        written = written + 1;
    }
    out.append(digits.as_str());
    assert(zeros(width - decimal(n as nat).len()) =~= zeros(missing as int));
    assert(out@ =~= old(out)@ + padded(n as nat, width as int));
}

/// The characters of a text.
pub fn chars_of(text: &str) -> (r: Vec<char>)
    ensures
        r@ == text@,
{
    let mut chars: Vec<char> = Vec::new();
    for c in it: text.chars()
        invariant
            it.seq() == text@,
            chars@ == text@.take(it.index() as int),
    {
        chars.push(c);
        assert(chars@ =~= text@.take(it.index() + 1));
    }
    assert(text@.take(text@.len() as int) =~= text@);
    chars
}

/// Whether a character is a decimal digit.
pub open spec fn is_digit(c: char) -> bool {
    '0' <= c && c <= '9'
}

/// Whether a text consists of decimal digits.
pub open spec fn all_digits(text: Seq<char>) -> bool {
    forall|i: int| 0 <= i < text.len() ==> is_digit(#[trigger] text[i])
}

/// The number that decimal digits spell.
pub open spec fn digits_value(text: Seq<char>) -> int
    decreases text.len(),
{
    if text.len() == 0 {
        0
    } else {
        10 * digits_value(text.drop_last()) + (text.last() as int - '0' as int)
    }
}

/// The number that a text spells: an optional sign and at least one digit.
pub open spec fn spelled(text: Seq<char>) -> Option<int> {
    let signed = text.len() > 0 && (text[0] == '+' || text[0] == '-');
    let body = if signed {
        text.skip(1)
    } else {
        text
    };
    if body.len() == 0 || !all_digits(body) {
        None
    } else if signed && text[0] == '-' {
        Some(-digits_value(body))
    } else {
        Some(digits_value(body))
    }
}

/// The number that a text spells, if it fits a range. A text with a minus sign
/// spells no unsigned number.
pub open spec fn spelled_within(text: Seq<char>, low: int, high: int) -> Option<int> {
    if low >= 0 && text.len() > 0 && text[0] == '-' {
        None
    } else {
        match spelled(text) {
            Some(n) => if low <= n <= high {
                Some(n)
            } else {
                None
            },
            None => None,
        }
    }
}

proof fn lemma_digits_value_grows(text: Seq<char>, n: int)
    requires
        all_digits(text),
        0 <= n <= text.len(),
    ensures
        0 <= digits_value(text.take(n)) <= digits_value(text),
    decreases text.len(),
{
    if n == text.len() {
        assert(text.take(n) =~= text);
        if n > 0 {
            let front = text.drop_last();
            assert forall|i: int| 0 <= i < front.len() implies is_digit(#[trigger] front[i]) by {
                assert(front[i] == text[i]);
            }
            assert(is_digit(text[text.len() - 1]));
            lemma_digits_value_grows(front, front.len() as int);
            assert(front.take(front.len() as int) =~= front);
        }
    } else {
        let front = text.drop_last();
        assert forall|i: int| 0 <= i < front.len() implies is_digit(#[trigger] front[i]) by {
            assert(front[i] == text[i]);
        }
        lemma_digits_value_grows(front, n);
        assert(front.take(n) =~= text.take(n));
        assert(is_digit(text[text.len() - 1]));
    }
}

/// The number that a text spells, if it fits a range.
fn parse_within(text: &str, low: i64, high: i64) -> (r: Option<i64>)
    requires
        -0x1_0000_0000 <= low <= 0,
        0 <= high <= 0x1_0000_0000,
    ensures
        match r {
            Some(n) => spelled_within(text@, low as int, high as int) == Some(n as int),
            None => spelled_within(text@, low as int, high as int) is None,
        },
{
    let chars = chars_of(text);
    let signed = chars.len() > 0 && (chars[0] == '+' || chars[0] == '-');
    let negative = signed && chars[0] == '-';
    if low >= 0 && negative {
        return None;
    }
    let start: usize = if signed {
        1
    } else {
        0
    };
    let ghost body = if signed {
        text@.skip(1)
    } else {
        text@
    };
    assert(forall|k: int| 0 <= k < body.len() ==> body[k] == chars@[k + start]);
    if start == chars.len() {
        return None;
    }
    let mut value: i64 = 0;
    let mut i: usize = start;
    let mut over = false;
    assert(body.take(0) =~= Seq::empty());
    while i < chars.len()
        invariant
            start <= i <= chars.len(),
            body.len() + start == chars.len(),
            forall|k: int| 0 <= k < body.len() ==> body[k] == chars@[k + start],
            forall|k: int| 0 <= k < i - start ==> is_digit(#[trigger] body[k]),
            0 <= value <= 0x1_0000_0000,
            !over ==> value == digits_value(body.take(i - start)),
            over ==> digits_value(body.take(i - start)) > 0x1_0000_0000,
            text@ == chars@,
            body == if signed {
                text@.skip(1)
            } else {
                text@
            },
            signed == (text@.len() > 0 && (text@[0] == '+' || text@[0] == '-')),
            start == if signed {
                1int
            } else {
                0int
            },
        decreases chars.len() - i,
    {
        let c = chars[i];
        assert(body[i - start] == c);
        if !(('0' <= c) && (c <= '9')) {
            assert(!is_digit(body[i - start]));
            return None;
        }
        let d: i64 = (c as u32 - '0' as u32) as i64;
        proof {
            assert(body.take(i - start + 1).drop_last() =~= body.take(i - start));
            assert(body.take(i - start + 1).last() == c);
        }
        if over {
        } else {
            let next: i64 = 10 * value + d;
            if next > 0x1_0000_0000 {
                over = true;
            } else {
                value = next;
            }
        }
        i = i + 1;
    }
    assert(body.take(i - start) =~= body);
    assert(all_digits(body));
    if over {
        return None;
    }
    let n: i64 = if negative {
        -value
    } else {
        value
    };
    if low <= n && n <= high {
        Some(n)
    } else {
        None
    }
}

/// The number that a text spells, if it is an unsigned word.
pub fn parse_u32(text: &str) -> (r: Option<u32>)
    ensures
        match r {
            Some(n) => spelled_within(text@, 0, u32::MAX as int) == Some(n as int),
            None => spelled_within(text@, 0, u32::MAX as int) is None,
        },
{
    match parse_within(text, 0, 0xffff_ffff) {
        Some(n) => Some(n as u32),
        None => None,
    }
}

/// The number that a text spells, if it is a signed word.
pub fn parse_i32(text: &str) -> (r: Option<i32>)
    ensures
        match r {
            Some(n) => spelled_within(text@, i32::MIN as int, i32::MAX as int) == Some(n as int),
            None => spelled_within(text@, i32::MIN as int, i32::MAX as int) is None,
        },
{
    match parse_within(text, -0x8000_0000, 0x7fff_ffff) {
        Some(n) => Some(n as i32),
        None => None,
    }
}

/// Decimal digits spell the number they were made from, with or without zeros
/// in front.
pub proof fn decimal_digits_spell_their_number(n: nat, width: int)
    ensures
        all_digits(decimal(n)),
        decimal(n).len() >= 1,
        digits_value(decimal(n)) == n,
        all_digits(padded(n, width)),
        digits_value(padded(n, width)) == n,
        spelled(decimal(n)) == Some(n as int),
        spelled(padded(n, width)) == Some(n as int),
{
    lemma_decimal_value(n);
    lemma_zeros_add_nothing(width - decimal(n).len(), decimal(n));
    let shown = padded(n, width);
    assert(is_digit(shown[0]));
    assert(is_digit(decimal(n)[0]));
}

proof fn lemma_decimal_value(n: nat)
    ensures
        all_digits(decimal(n)),
        decimal(n).len() >= 1,
        digits_value(decimal(n)) == n,
    decreases n,
{
    if n < 10 {
        assert(decimal(n).drop_last() =~= Seq::empty());
        assert(digits_value(Seq::<char>::empty()) == 0);
    } else {
        lemma_decimal_value(n / 10);
        let shown = decimal(n);
        assert(shown.drop_last() =~= decimal(n / 10));
        assert forall|i: int| 0 <= i < shown.len() implies is_digit(#[trigger] shown[i]) by {
            if i < shown.len() - 1 {
                assert(shown[i] == decimal(n / 10)[i]);
            }
        }
    }
}

proof fn lemma_zeros_add_nothing(count: int, digits: Seq<char>)
    requires
        all_digits(digits),
    ensures
        all_digits(zeros(count) + digits),
        digits_value(zeros(count) + digits) == digits_value(digits),
    decreases digits.len(),
{
    let all = zeros(count) + digits;
    assert forall|i: int| 0 <= i < all.len() implies is_digit(#[trigger] all[i]) by {
        if i >= zeros(count).len() {
            assert(all[i] == digits[i - zeros(count).len()]);
        }
    }
    if digits.len() == 0 {
        assert(all =~= zeros(count));
        lemma_zeros_value(count);
    } else {
        let front = digits.drop_last();
        assert forall|i: int| 0 <= i < front.len() implies is_digit(#[trigger] front[i]) by {
            assert(front[i] == digits[i]);
        }
        lemma_zeros_add_nothing(count, front);
        assert(all.drop_last() =~= zeros(count) + front);
    }
}

proof fn lemma_zeros_value(count: int)
    ensures
        digits_value(zeros(count)) == 0,
    decreases count,
{
    if count > 0 {
        lemma_zeros_value(count - 1);
        assert(zeros(count).drop_last() =~= zeros(count - 1));
    } else {
        assert(zeros(count) =~= Seq::empty());
    }
}

/// A signed number in decimal digits is spelled as it is read.
pub proof fn signed_digits_spell_their_number(n: int)
    ensures
        spelled(signed_decimal(n)) == Some(n),
{
    if n < 0 {
        decimal_digits_spell_their_number((-n) as nat, 0);
        let shown = signed_decimal(n);
        assert(shown[0] == '-');
        assert(shown.skip(1) =~= decimal((-n) as nat));
    } else {
        decimal_digits_spell_their_number(n as nat, 0);
    }
}

/// What the texts of a list say.
pub open spec fn texts(list: Seq<String>) -> Seq<Seq<char>> {
    Seq::new(list.len(), |i: int| list[i]@)
}

/// Whether texts stand in strictly increasing order, so that none occurs twice.
pub open spec fn texts_increase(list: Seq<Seq<char>>) -> bool {
    forall|i: int, j: int|
        0 <= i < j < list.len() ==> text_before(#[trigger] list[i], #[trigger] list[j])
}

/// Put a text into a sorted list without repetitions, unless it is there.
pub fn insert_text(list: &mut Vec<String>, text: String)
    requires
        texts_increase(texts(old(list)@)),
    ensures
        texts_increase(texts(final(list)@)),
        forall|t: Seq<char>| #[trigger]
            texts(final(list)@).contains(t) <==> texts(old(list)@).contains(t) || t == text@,
{
    let ghost before = texts(list@);
    let mut i: usize = 0;
    proof {
        text_order_is_total();
    }
    while i < list.len()
        invariant
            i <= list.len(),
            before == texts(list@),
            before == texts(old(list)@),
            texts_increase(before),
            forall|k: int| 0 <= k < i ==> text_before(#[trigger] before[k], text@),
        decreases list.len() - i,
    {
        assert(before[i as int] == list@[i as int]@);
        let place = rank(list[i].as_str(), text.as_str());
        if place == Rank::Same {
            return ;
        }
        if place == Rank::After {
            let ghost word = text@;
            list.insert(i, text);
            proof {
                lemma_inserted_text(before, word, i as int);
                assert(texts(list@) =~= before.insert(i as int, word));
            }
            return ;
        }
        i = i + 1;
    }
    let ghost word = text@;
    list.push(text);
    proof {
        lemma_inserted_text(before, word, i as int);
        assert(texts(list@) =~= before.insert(i as int, word));
    }
}

proof fn lemma_inserted_text(list: Seq<Seq<char>>, text: Seq<char>, i: int)
    requires
        texts_increase(list),
        0 <= i <= list.len(),
        forall|k: int| 0 <= k < i ==> text_before(#[trigger] list[k], text),
        i < list.len() ==> text_before(text, list[i]),
    ensures
        texts_increase(list.insert(i, text)),
        forall|t: Seq<char>| #[trigger]
            list.insert(i, text).contains(t) <==> list.contains(t) || t == text,
{
    text_order_is_total();
    let after = list.insert(i, text);
    assert forall|a: int, b: int| 0 <= a < b < after.len() implies text_before(
        #[trigger] after[a],
        #[trigger] after[b],
    ) by {
        if a < i && b > i {
            assert(text_before(list[a], list[b - 1]));
        } else if b < i {
            assert(text_before(list[a], list[b]));
        } else if a > i {
            assert(text_before(list[a - 1], list[b - 1]));
        } else if a == i {
            if b - 1 > i {
                assert(text_before(list[i], list[b - 1]));
            }
            assert(text_before(text, list[b - 1]));
        } else {
            assert(text_before(list[a], text));
        }
    }
    assert forall|t: Seq<char>| #[trigger] after.contains(t) <==> list.contains(t) || t == text by {
        if after.contains(t) {
            let k = choose|k: int| 0 <= k < after.len() && after[k] == t;
            if k < i {
                assert(list[k] == t);
            } else if k > i {
                assert(list[k - 1] == t);
            }
        }
        if list.contains(t) {
            let k = choose|k: int| 0 <= k < list.len() && list[k] == t;
            if k < i {
                assert(after[k] == t);
            } else {
                assert(after[k + 1] == t);
            }
        }
        assert(after[i] == text);
    }
}

} // verus!
