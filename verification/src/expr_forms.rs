//! How the program of a text is made from the programs of its parts.

use vstd::prelude::*;
use vstd::utf8::{encode_utf8, is_ascii_chars, is_ascii_chars_encode_utf8};
use crate::error::ErrorView;
use crate::expr::{
    atom_from, factor_from, followed, in_number, is_blank, lemma_positions, literal, points, product_step, program,
    run_end, sign_token, sum_from, sum_rest, sum_step, term_from, term_rest, tokens_from,
    tokens_of, Parsed, ProgramView, StepView, TokenView,
};

verus! {

/// The bytes of a text are those of its parts.
pub proof fn lemma_encoded(a: Seq<char>, b: Seq<char>)
    ensures
        encode_utf8(a + b) == encode_utf8(a) + encode_utf8(b),
    decreases a.len(),
{
    if a.len() == 0 {
        assert(a + b =~= b);
        assert(encode_utf8(a) + encode_utf8(b) =~= encode_utf8(b));
    } else {
        lemma_encoded(a.drop_first(), b);
        assert((a + b).drop_first() =~= a.drop_first() + b);
        assert((a + b)[0] == a[0]);
        let first = vstd::utf8::encode_scalar(a[0] as u32);
        assert(first + (encode_utf8(a.drop_first()) + encode_utf8(b)) =~= (first + encode_utf8(
            a.drop_first(),
        )) + encode_utf8(b));
    }
}

proof fn lemma_run_end_shifted(a: Seq<u8>, b: Seq<u8>, i: int)
    requires
        0 <= i <= b.len(),
    ensures
        run_end(a + b, a.len() + i) == a.len() + run_end(b, i),
        i <= run_end(b, i) <= b.len(),
    decreases b.len() - i,
{
    if i < b.len() && in_number(b[i]) {
        lemma_run_end_shifted(a, b, i + 1);
        assert((a + b)[a.len() + i] == b[i]);
    } else if i < b.len() {
        assert((a + b)[a.len() + i] == b[i]);
    }
}

proof fn lemma_points_shifted(a: Seq<u8>, b: Seq<u8>, i: int, j: int)
    requires
        0 <= i <= j <= b.len(),
    ensures
        points(a + b, a.len() + i, a.len() + j) == points(b, i, j),
    decreases j - i,
{
    if i < j {
        lemma_points_shifted(a, b, i, j - 1);
        assert((a + b)[a.len() + j - 1] == b[j - 1]);
        assert(a.len() + (j - 1) == a.len() + j - 1);
    }
}

proof fn lemma_tokens_shifted(a: Seq<u8>, b: Seq<u8>, i: int)
    requires
        0 <= i <= b.len(),
    ensures
        tokens_from(a + b, a.len() + i) == tokens_from(b, i),
    decreases b.len() - i,
{
    if i < b.len() {
        assert((a + b)[a.len() + i] == b[i]);
        if in_number(b[i]) && !is_blank(b[i]) {
            let j = run_end(b, i);
            lemma_run_end_shifted(a, b, i);
            lemma_run_end_shifted(a, b, i + 1);
            lemma_points_shifted(a, b, i, j);
            assert(literal(a + b, a.len() + i, a.len() + j) =~= literal(b, i, j));
            lemma_tokens_shifted(a, b, j);
        } else {
            lemma_tokens_shifted(a, b, i + 1);
            assert(a.len() + (i + 1) == a.len() + i + 1);
        }
    }
}

/// Whether no number goes over from one run of bytes to another behind it.
pub open spec fn parted(a: Seq<u8>, b: Seq<u8>) -> bool {
    a.len() == 0 || b.len() == 0 || !in_number(a.last()) || !in_number(b[0])
}

proof fn lemma_run_end_parted(a: Seq<u8>, b: Seq<u8>, i: int)
    requires
        0 <= i < a.len(),
        in_number(a[i]),
        parted(a, b),
    ensures
        run_end(a + b, i) == run_end(a, i),
        i < run_end(a, i) <= a.len(),
    decreases a.len() - i,
{
    assert((a + b)[i] == a[i]);
    if i + 1 < a.len() {
        assert((a + b)[i + 1] == a[i + 1]);
        if in_number(a[i + 1]) {
            lemma_run_end_parted(a, b, i + 1);
        }
    } else {
        assert(a.last() == a[i]);
        if b.len() > 0 {
            assert((a + b)[i + 1] == b[0]);
        }
        assert(run_end(a, i + 1) == i + 1);
        assert(run_end(a + b, i + 1) == i + 1);
    }
}

proof fn lemma_points_parted(a: Seq<u8>, b: Seq<u8>, i: int, j: int)
    requires
        0 <= i <= j <= a.len(),
    ensures
        points(a + b, i, j) == points(a, i, j),
    decreases j - i,
{
    if i < j {
        lemma_points_parted(a, b, i, j - 1);
        assert((a + b)[j - 1] == a[j - 1]);
    }
}

/// The tokens of two parts, where no number goes over from one to the other.
pub open spec fn in_turn(
    first: Result<Seq<TokenView>, ErrorView>,
    second: Result<Seq<TokenView>, ErrorView>,
) -> Result<Seq<TokenView>, ErrorView> {
    match first {
        Ok(tokens) => followed(tokens, second),
        Err(e) => Err(e),
    }
}

proof fn lemma_tokens_parted(a: Seq<u8>, b: Seq<u8>, i: int)
    requires
        0 <= i <= a.len(),
        parted(a, b),
    ensures
        tokens_from(a + b, i) == in_turn(tokens_from(a, i), tokens_from(b, 0)),
    decreases a.len() - i,
{
    let last = tokens_from(b, 0);
    if i == a.len() {
        lemma_tokens_shifted(a, b, 0);
        if let Ok(rest) = last {
            assert(Seq::<TokenView>::empty() + rest =~= rest);
        }
    } else {
        assert((a + b)[i] == a[i]);
        let (next, token): (int, Option<TokenView>) = if is_blank(a[i]) {
            (i + 1, None)
        } else if in_number(a[i]) {
            (run_end(a, i), Some(TokenView::Number(literal(a, i, run_end(a, i)))))
        } else {
            (i + 1, sign_token(a[i]))
        };
        if !is_blank(a[i]) && in_number(a[i]) {
            lemma_run_end_parted(a, b, i);
            lemma_points_parted(a, b, i, next);
            assert(literal(a + b, i, next) =~= literal(a, i, next));
        }
        lemma_tokens_parted(a, b, next);
        if let (Some(token), Ok(rest), Ok(more)) = (token, tokens_from(a, next), last) {
            assert(seq![token] + (rest + more) =~= (seq![token] + rest) + more);
        }
    }
}

/// The tokens of a text are those of its parts.
pub proof fn lemma_tokens_joined(a: Seq<char>, b: Seq<char>)
    requires
        parted(encode_utf8(a), encode_utf8(b)),
    ensures
        tokens_of(a + b) == in_turn(tokens_of(a), tokens_of(b)),
{
    lemma_encoded(a, b);
    lemma_tokens_parted(encode_utf8(a), encode_utf8(b), 0);
}

/// What was parsed, further along in a text.
spec fn moved(parsed: Parsed, by: int) -> Parsed {
    (
        parsed.0,
        match parsed.1 {
            Ok(next) => Ok(next + by),
            Err(e) => Err(e),
        },
    )
}

proof fn lemma_sum_moved(p: Seq<TokenView>, t: Seq<TokenView>, pos: int, steps: Seq<StepView>)
    requires
        0 <= pos <= t.len(),
    ensures
        sum_from(p + t, p.len() + pos, steps) == moved(sum_from(t, pos, steps), p.len() as int),
    decreases t.len() - pos, 5int,
{
    lemma_term_moved(p, t, pos, steps);
    let first = term_from(t, pos, steps);
    if let Ok(next) = first.1 {
        if pos < next <= t.len() {
            lemma_sum_rest_moved(p, t, next, first.0);
        }
    }
}

proof fn lemma_sum_rest_moved(p: Seq<TokenView>, t: Seq<TokenView>, pos: int, steps: Seq<StepView>)
    requires
        0 <= pos <= t.len(),
    ensures
        sum_rest(p + t, p.len() + pos, steps) == moved(sum_rest(t, pos, steps), p.len() as int),
    decreases t.len() - pos, 6int,
{
    if pos < t.len() {
        assert((p + t)[p.len() + pos] == t[pos]);
        if sum_step(t[pos]) is Some {
            lemma_term_moved(p, t, pos + 1, steps);
            assert(p.len() + (pos + 1) == p.len() + pos + 1);
            let term = term_from(t, pos + 1, steps);
            if let Ok(next) = term.1 {
                if pos < next <= t.len() {
                    lemma_sum_rest_moved(p, t, next, term.0.push(sum_step(t[pos])->Some_0));
                }
            }
        }
    }
}

proof fn lemma_term_moved(p: Seq<TokenView>, t: Seq<TokenView>, pos: int, steps: Seq<StepView>)
    requires
        0 <= pos <= t.len(),
    ensures
        term_from(p + t, p.len() + pos, steps) == moved(term_from(t, pos, steps), p.len() as int),
    decreases t.len() - pos, 3int,
{
    lemma_factor_moved(p, t, pos, steps);
    let first = factor_from(t, pos, steps);
    if let Ok(next) = first.1 {
        if pos < next <= t.len() {
            lemma_term_rest_moved(p, t, next, first.0);
        }
    }
}

proof fn lemma_term_rest_moved(p: Seq<TokenView>, t: Seq<TokenView>, pos: int, steps: Seq<StepView>)
    requires
        0 <= pos <= t.len(),
    ensures
        term_rest(p + t, p.len() + pos, steps) == moved(term_rest(t, pos, steps), p.len() as int),
    decreases t.len() - pos, 4int,
{
    if pos < t.len() {
        assert((p + t)[p.len() + pos] == t[pos]);
        if product_step(t[pos]) is Some {
            lemma_factor_moved(p, t, pos + 1, steps);
            assert(p.len() + (pos + 1) == p.len() + pos + 1);
            let factor = factor_from(t, pos + 1, steps);
            if let Ok(next) = factor.1 {
                if pos < next <= t.len() {
                    lemma_term_rest_moved(
                        p,
                        t,
                        next,
                        factor.0.push(product_step(t[pos])->Some_0),
                    );
                }
            }
        }
    }
}

proof fn lemma_factor_moved(p: Seq<TokenView>, t: Seq<TokenView>, pos: int, steps: Seq<StepView>)
    requires
        0 <= pos <= t.len(),
    ensures
        factor_from(p + t, p.len() + pos, steps) == moved(
            factor_from(t, pos, steps),
            p.len() as int,
        ),
    decreases t.len() - pos, 2int,
{
    if pos < t.len() {
        assert((p + t)[p.len() + pos] == t[pos]);
        if t[pos] is Plus || t[pos] is Minus {
            lemma_factor_moved(p, t, pos + 1, steps);
            assert(p.len() + (pos + 1) == p.len() + pos + 1);
        }
    }
    lemma_atom_moved(p, t, pos, steps);
}

proof fn lemma_atom_moved(p: Seq<TokenView>, t: Seq<TokenView>, pos: int, steps: Seq<StepView>)
    requires
        0 <= pos <= t.len(),
    ensures
        atom_from(p + t, p.len() + pos, steps) == moved(atom_from(t, pos, steps), p.len() as int),
    decreases t.len() - pos, 1int,
{
    if pos < t.len() {
        assert((p + t)[p.len() + pos] == t[pos]);
        if t[pos] is LParen {
            lemma_sum_moved(p, t, pos + 1, steps);
            assert(p.len() + (pos + 1) == p.len() + pos + 1);
            lemma_positions(t, pos + 1, steps);
            if let Ok(next) = sum_from(t, pos + 1, steps).1 {
                if next < t.len() {
                    assert((p + t)[p.len() + next] == t[next]);
                }
            }
        }
    }
}

/// Whether a part of a text is behind another, and does not go on with its last
/// term.
spec fn behind(more: Seq<TokenView>) -> bool {
    more.len() > 0 && product_step(more[0]) is None
}

proof fn lemma_sum_extended(t: Seq<TokenView>, more: Seq<TokenView>, pos: int, steps: Seq<StepView>)
    requires
        0 <= pos <= t.len(),
        behind(more),
    ensures
        sum_from(t, pos, steps).1 matches Ok(next) ==> {
            &&& next < t.len() ==> sum_from(t + more, pos, steps) == sum_from(t, pos, steps)
            &&& next == t.len() ==> sum_from(t + more, pos, steps) == sum_rest(
                t + more,
                next,
                sum_from(t, pos, steps).0,
            )
        },
    decreases t.len() - pos, 5int,
{
    lemma_term_extended(t, more, pos, steps);
    lemma_positions(t, pos, steps);
    let first = term_from(t, pos, steps);
    if let Ok(next) = first.1 {
        lemma_sum_rest_extended(t, more, next, first.0);
    }
}

proof fn lemma_sum_rest_extended(
    t: Seq<TokenView>,
    more: Seq<TokenView>,
    pos: int,
    steps: Seq<StepView>,
)
    requires
        0 <= pos <= t.len(),
        behind(more),
    ensures
        sum_rest(t, pos, steps).1 matches Ok(next) ==> {
            &&& next < t.len() ==> sum_rest(t + more, pos, steps) == sum_rest(t, pos, steps)
            &&& next == t.len() ==> sum_rest(t + more, pos, steps) == sum_rest(
                t + more,
                next,
                sum_rest(t, pos, steps).0,
            )
        },
    decreases t.len() - pos, 6int,
{
    if pos < t.len() {
        assert((t + more)[pos] == t[pos]);
        if sum_step(t[pos]) is Some {
            lemma_term_extended(t, more, pos + 1, steps);
            lemma_positions(t, pos + 1, steps);
            let term = term_from(t, pos + 1, steps);
            if let Ok(next) = term.1 {
                lemma_sum_rest_extended(t, more, next, term.0.push(sum_step(t[pos])->Some_0));
            }
        }
    }
}

proof fn lemma_term_extended(t: Seq<TokenView>, more: Seq<TokenView>, pos: int, steps: Seq<StepView>)
    requires
        0 <= pos <= t.len(),
        behind(more),
    ensures
        term_from(t, pos, steps).1 is Ok ==> term_from(t + more, pos, steps) == term_from(
            t,
            pos,
            steps,
        ),
    decreases t.len() - pos, 3int,
{
    lemma_factor_extended(t, more, pos, steps);
    lemma_positions(t, pos, steps);
    let first = factor_from(t, pos, steps);
    if let Ok(next) = first.1 {
        lemma_term_rest_extended(t, more, next, first.0);
    }
}

proof fn lemma_term_rest_extended(
    t: Seq<TokenView>,
    more: Seq<TokenView>,
    pos: int,
    steps: Seq<StepView>,
)
    requires
        0 <= pos <= t.len(),
        behind(more),
    ensures
        term_rest(t, pos, steps).1 is Ok ==> term_rest(t + more, pos, steps) == term_rest(
            t,
            pos,
            steps,
        ),
    decreases t.len() - pos, 4int,
{
    if pos < t.len() {
        assert((t + more)[pos] == t[pos]);
        if product_step(t[pos]) is Some {
            lemma_factor_extended(t, more, pos + 1, steps);
            lemma_positions(t, pos + 1, steps);
            let factor = factor_from(t, pos + 1, steps);
            if let Ok(next) = factor.1 {
                lemma_term_rest_extended(
                    t,
                    more,
                    next,
                    factor.0.push(product_step(t[pos])->Some_0),
                );
            }
        }
    } else {
        assert((t + more)[pos] == more[0]);
    }
}

proof fn lemma_factor_extended(
    t: Seq<TokenView>,
    more: Seq<TokenView>,
    pos: int,
    steps: Seq<StepView>,
)
    requires
        0 <= pos <= t.len(),
        behind(more),
    ensures
        factor_from(t, pos, steps).1 is Ok ==> factor_from(t + more, pos, steps) == factor_from(
            t,
            pos,
            steps,
        ),
    decreases t.len() - pos, 2int,
{
    if pos < t.len() {
        assert((t + more)[pos] == t[pos]);
        if t[pos] is Plus || t[pos] is Minus {
            lemma_factor_extended(t, more, pos + 1, steps);
        }
    }
    lemma_atom_extended(t, more, pos, steps);
}

proof fn lemma_atom_extended(t: Seq<TokenView>, more: Seq<TokenView>, pos: int, steps: Seq<StepView>)
    requires
        0 <= pos <= t.len(),
        behind(more),
    ensures
        atom_from(t, pos, steps).1 is Ok ==> atom_from(t + more, pos, steps) == atom_from(
            t,
            pos,
            steps,
        ),
    decreases t.len() - pos, 1int,
{
    if pos < t.len() {
        assert((t + more)[pos] == t[pos]);
        if t[pos] is LParen {
            lemma_sum_extended(t, more, pos + 1, steps);
            lemma_positions(t, pos + 1, steps);
            if let Ok(next) = sum_from(t, pos + 1, steps).1 {
                if next < t.len() {
                    assert((t + more)[next] == t[next]);
                }
            }
        }
    }
}

/// A bracket before and one behind tokens that nothing is wrong with.
proof fn lemma_bracketed(t: Seq<TokenView>, p: Seq<TokenView>)
    requires
        t.len() > 0,
        sum_from(t, 0, Seq::empty()).1 == Ok::<int, ErrorView>(t.len() as int),
        p.len() > 0,
        p.last() is LParen,
    ensures
        ({
            let all = p + (t + seq![TokenView::RParen]);
            atom_from(all, p.len() - 1, Seq::empty()) == (
                sum_from(t, 0, Seq::empty()).0,
                Ok::<int, ErrorView>(all.len() as int),
            )
        }),
{
    let none = Seq::<StepView>::empty();
    let close = seq![TokenView::RParen];
    let inner = t + close;
    let all = p + inner;
    lemma_sum_extended(t, close, 0, none);
    assert(inner[t.len() as int] is RParen);
    assert(sum_rest(inner, t.len() as int, sum_from(t, 0, none).0) == (
        sum_from(t, 0, none).0,
        Ok::<int, ErrorView>(t.len() as int),
    ));
    lemma_sum_moved(p, inner, 0, none);
    assert(all[p.len() - 1] == p.last());
    assert(p.len() - 1 + 1 == p.len() + 0);
    assert(all[(p.len() + t.len()) as int] == inner[t.len() as int]);
}

/// A number or a sum in brackets that is all there is.
proof fn lemma_whole(all: Seq<TokenView>, parsed: Parsed)
    requires
        all.len() > 0,
        factor_from(all, 0, Seq::empty()) == parsed,
        parsed.1 == Ok::<int, ErrorView>(all.len() as int),
    ensures
        sum_from(all, 0, Seq::empty()) == parsed,
{
    let end = all.len() as int;
    assert(term_rest(all, end, parsed.0) == (parsed.0, Ok::<int, ErrorView>(end)));
    assert(sum_rest(all, end, parsed.0) == (parsed.0, Ok::<int, ErrorView>(end)));
}

proof fn lemma_right_text(text: Seq<char>)
    requires
        program(text).end is Ok,
    ensures
        tokens_of(text) is Ok,
        tokens_of(text)->Ok_0.len() > 0,
        sum_from(tokens_of(text)->Ok_0, 0, Seq::empty()) == (
            program(text).steps,
            Ok::<int, ErrorView>(tokens_of(text)->Ok_0.len() as int),
        ),
{
    if let Ok(t) = tokens_of(text) {
        lemma_positions(t, 0, Seq::empty());
    }
}

/// A text of one sign is one token.
pub proof fn lemma_one_sign(text: Seq<char>, b: u8)
    requires
        text.len() == 1,
        is_ascii_chars(text),
        text[0] as u8 == b,
        sign_token(b) is Some,
    ensures
        encode_utf8(text).len() == 1,
        encode_utf8(text)[0] == b,
        tokens_of(text) == Ok::<Seq<TokenView>, ErrorView>(seq![sign_token(b)->Some_0]),
{
    is_ascii_chars_encode_utf8(text);
    let bytes = encode_utf8(text);
    assert(bytes[0] == b);
    assert(tokens_from(bytes, 1) == Ok::<Seq<TokenView>, ErrorView>(Seq::empty()));
    let token = sign_token(b)->Some_0;
    assert(seq![token] + Seq::<TokenView>::empty() =~= seq![token]);
}

/// A text in brackets has the program of the text.
pub proof fn brackets_change_nothing(text: Seq<char>)
    requires
        program(text).end is Ok,
    ensures
        program("("@ + text + ")"@) == program(text),
{
    reveal_strlit("(");
    reveal_strlit(")");
    lemma_right_text(text);
    lemma_one_sign("("@, 40);
    lemma_one_sign(")"@, 41);
    let t = tokens_of(text)->Ok_0;
    lemma_tokens_joined("("@, text);
    lemma_encoded("("@, text);
    lemma_tokens_joined("("@ + text, ")"@);
    let p = seq![TokenView::LParen];
    let all = p + (t + seq![TokenView::RParen]);
    assert((p + t) + seq![TokenView::RParen] =~= all);
    lemma_bracketed(t, p);
    assert(all[0] is LParen);
    lemma_whole(all, atom_from(all, 0, Seq::empty()));
}

/// A text in brackets behind a minus has the program of the text with one step
/// more, which takes the opposite.
pub proof fn a_minus_takes_the_opposite(text: Seq<char>)
    requires
        program(text).end is Ok,
    ensures
        program("-("@ + text + ")"@) == (ProgramView {
            steps: program(text).steps.push(StepView::Negate),
            end: Ok(()),
        }),
{
    reveal_strlit("-(");
    reveal_strlit(")");
    lemma_right_text(text);
    let minus = "-("@.take(1);
    let open = "-("@.skip(1);
    assert(minus + open =~= "-("@);
    lemma_one_sign(minus, 45);
    lemma_one_sign(open, 40);
    lemma_one_sign(")"@, 41);
    lemma_tokens_joined(minus, open);
    lemma_encoded(minus, open);
    let t = tokens_of(text)->Ok_0;
    lemma_tokens_joined("-("@, text);
    lemma_encoded("-("@, text);
    lemma_tokens_joined("-("@ + text, ")"@);
    let p = seq![TokenView::Minus, TokenView::LParen];
    assert(seq![TokenView::Minus] + seq![TokenView::LParen] =~= p);
    let all = p + (t + seq![TokenView::RParen]);
    assert((p + t) + seq![TokenView::RParen] =~= all);
    lemma_bracketed(t, p);
    assert(all[0] is Minus && all[1] is LParen);
    let inner = atom_from(all, 1, Seq::empty());
    assert(factor_from(all, 1, Seq::empty()) == inner);
    lemma_whole(all, (inner.0.push(StepView::Negate), inner.1));
}

/// A text with a number added behind it, or taken away, has the program of the text,
/// then the number and the sum or difference: what stands on the left is worked out
/// first.
proof fn lemma_goes_on(text: Seq<char>, sign: Seq<char>, b: u8, number: Seq<char>)
    requires
        program(text).end is Ok,
        tokens_of(number) == Ok::<Seq<TokenView>, ErrorView>(seq![TokenView::Number(number)]),
        sign.len() == 3,
        is_ascii_chars(sign),
        sign[0] == ' ',
        sign[2] == ' ',
        sign[1] as u8 == b,
        b == 43 || b == 45,
    ensures
        program(text + sign + number) == (ProgramView {
            steps: program(text).steps.push(StepView::Push(number)).push(
                sum_step(sign_token(b)->Some_0)->Some_0,
            ),
            end: Ok(()),
        }),
{
    let token = sign_token(b)->Some_0;
    lemma_right_text(text);
    is_ascii_chars_encode_utf8(sign);
    let bytes = encode_utf8(sign);
    assert(bytes[0] == 32 && bytes[1] == b && bytes[2] == 32);
    assert(tokens_from(bytes, 3) == Ok::<Seq<TokenView>, ErrorView>(Seq::empty()));
    assert(tokens_from(bytes, 2) == Ok::<Seq<TokenView>, ErrorView>(Seq::empty()));
    assert(seq![token] + Seq::<TokenView>::empty() =~= seq![token]);
    assert(tokens_from(bytes, 1) == Ok::<Seq<TokenView>, ErrorView>(seq![token]));
    assert(tokens_of(sign) == Ok::<Seq<TokenView>, ErrorView>(seq![token]));
    lemma_tokens_joined(text, sign);
    lemma_encoded(text, sign);
    assert(encode_utf8(text + sign).last() == bytes[2]);
    lemma_tokens_joined(text + sign, number);
    let t = tokens_of(text)->Ok_0;
    let value = TokenView::Number(number);
    let more = seq![token, value];
    assert((t + seq![token]) + seq![value] =~= t + more);
    let all = t + more;
    let none = Seq::<StepView>::empty();
    let n = t.len() as int;
    lemma_sum_extended(t, more, 0, none);
    let before = program(text).steps;
    assert(all[n] == token && all[n + 1] == value);
    let pushed = before.push(StepView::Push(number));
    assert(atom_from(all, n + 1, before) == (pushed, Ok::<int, ErrorView>(n + 2)));
    assert(factor_from(all, n + 1, before) == (pushed, Ok::<int, ErrorView>(n + 2)));
    assert(term_rest(all, n + 2, pushed) == (pushed, Ok::<int, ErrorView>(n + 2)));
    assert(term_from(all, n + 1, before) == (pushed, Ok::<int, ErrorView>(n + 2)));
    let step = sum_step(token)->Some_0;
    assert(sum_rest(all, n + 2, pushed.push(step)) == (pushed.push(step), Ok::<int, ErrorView>(
        n + 2,
    )));
    assert(sum_rest(all, n, before) == (pushed.push(step), Ok::<int, ErrorView>(n + 2)));
}

/// A text with a number added behind it has the program of the text, then the number
/// and the sum: what stands on the left is worked out first.
pub proof fn a_number_is_added_last(text: Seq<char>, number: Seq<char>)
    requires
        program(text).end is Ok,
        tokens_of(number) == Ok::<Seq<TokenView>, ErrorView>(seq![TokenView::Number(number)]),
    ensures
        program(text + " + "@ + number) == (ProgramView {
            steps: program(text).steps.push(StepView::Push(number)).push(StepView::Plus),
            end: Ok(()),
        }),
{
    reveal_strlit(" + ");
    lemma_goes_on(text, " + "@, 43, number);
}

/// A text with a number taken away behind it has the program of the text, then the
/// number and the difference: what stands on the left is worked out first.
pub proof fn a_number_is_taken_away_last(text: Seq<char>, number: Seq<char>)
    requires
        program(text).end is Ok,
        tokens_of(number) == Ok::<Seq<TokenView>, ErrorView>(seq![TokenView::Number(number)]),
    ensures
        program(text + " - "@ + number) == (ProgramView {
            steps: program(text).steps.push(StepView::Push(number)).push(StepView::Minus),
            end: Ok(()),
        }),
{
    reveal_strlit(" - ");
    lemma_goes_on(text, " - "@, 45, number);
}

/// Whether a text is made of blanks alone.
pub open spec fn all_blank(text: Seq<char>) -> bool {
    forall|i: int|
        0 <= i < text.len() ==> (#[trigger] text[i]) == ' ' || text[i] == '\t' || text[i] == '\n'
            || text[i] == '\r'
}

proof fn lemma_blanks(bytes: Seq<u8>, i: int)
    requires
        0 <= i <= bytes.len(),
        forall|k: int| 0 <= k < bytes.len() ==> is_blank(#[trigger] bytes[k]),
    ensures
        tokens_from(bytes, i) == Ok::<Seq<TokenView>, ErrorView>(Seq::empty()),
    decreases bytes.len() - i,
{
    if i < bytes.len() {
        lemma_blanks(bytes, i + 1);
    }
}

proof fn lemma_blank_text(text: Seq<char>)
    requires
        all_blank(text),
    ensures
        forall|k: int| 0 <= k < encode_utf8(text).len() ==> is_blank(#[trigger] encode_utf8(text)[k]),
        tokens_of(text) == Ok::<Seq<TokenView>, ErrorView>(Seq::empty()),
{
    assert(is_ascii_chars(text)) by {
        assert forall|i: int| 0 <= i < text.len() implies '\0' <= #[trigger] text[i] <= '\u{7f}' by {}
    }
    is_ascii_chars_encode_utf8(text);
    let bytes = encode_utf8(text);
    assert forall|k: int| 0 <= k < bytes.len() implies is_blank(#[trigger] bytes[k]) by {
        assert(bytes[k] == text[k] as u8);
    }
    lemma_blanks(bytes, 0);
}

/// Blanks around a text change nothing.
pub proof fn blanks_around_a_text_are_skipped(before: Seq<char>, text: Seq<char>, after: Seq<char>)
    requires
        all_blank(before),
        all_blank(after),
    ensures
        program(before + text + after) == program(text),
{
    lemma_blank_text(before);
    lemma_blank_text(after);
    lemma_tokens_joined(before, text);
    lemma_tokens_joined(before + text, after);
    if let Ok(t) = tokens_of(text) {
        let none = Seq::<TokenView>::empty();
        assert(none + t =~= t);
        assert(t + none =~= t);
    }
}

} // verus!
