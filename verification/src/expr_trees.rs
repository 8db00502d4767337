//! The steps of a text are those of the formula it shows: brackets first, signs next,
//! products and quotients before sums and differences, and from the left to the right.

use vstd::prelude::*;
use vstd::utf8::{encode_utf8, is_ascii_chars, is_ascii_chars_encode_utf8};
use crate::error::ErrorView;
use crate::expr::{
    atom_from, factor_from, in_number, number_error, points, product_step, program, program_of,
    run_end, sum_from, sum_rest, sum_step, term_from, term_rest, tokens_from, tokens_of,
    StepView, TokenView,
};
use crate::expr_forms::{lemma_one_sign, lemma_tokens_joined};

verus! {

/// One of the four operations.
pub enum Operation {
    Add,
    Subtract,
    Multiply,
    Divide,
}

/// A formula as a reader takes it apart.
pub enum Formula {
    /// A number, as it is written.
    Number(Seq<char>),
    /// A formula in brackets.
    Bracketed(Box<Formula>),
    /// A formula behind a plus.
    Positive(Box<Formula>),
    /// A formula behind a minus.
    Negative(Box<Formula>),
    /// Two formulas and what is done with them.
    Both(Box<Formula>, Operation, Box<Formula>),
}

/// How closely a formula holds together.
pub open spec fn tightness(formula: Formula) -> int {
    match formula {
        Formula::Number(_) => 3,
        Formula::Bracketed(_) => 3,
        Formula::Positive(_) => 2,
        Formula::Negative(_) => 2,
        Formula::Both(_, Operation::Multiply, _) => 1,
        Formula::Both(_, Operation::Divide, _) => 1,
        Formula::Both(_, _, _) => 0,
    }
}

/// Whether a formula can be written without further brackets: each part holds together
/// more closely than what is around it, or as closely where it stands on the left.
pub open spec fn needs_no_brackets(formula: Formula) -> bool
    decreases formula,
{
    match formula {
        Formula::Number(_) => true,
        Formula::Bracketed(inner) => needs_no_brackets(*inner),
        Formula::Positive(inner) => needs_no_brackets(*inner) && tightness(*inner) >= 2,
        Formula::Negative(inner) => needs_no_brackets(*inner) && tightness(*inner) >= 2,
        Formula::Both(left, _, right) => needs_no_brackets(*left) && needs_no_brackets(*right)
            && tightness(*left) >= tightness(formula) && tightness(*right) > tightness(formula),
    }
}

/// The sign of an operation.
pub open spec fn sign_of(operation: Operation) -> TokenView {
    match operation {
        Operation::Add => TokenView::Plus,
        Operation::Subtract => TokenView::Minus,
        Operation::Multiply => TokenView::Star,
        Operation::Divide => TokenView::Slash,
    }
}

/// The step of an operation.
pub open spec fn step_of(operation: Operation) -> StepView {
    match operation {
        Operation::Add => StepView::Plus,
        Operation::Subtract => StepView::Minus,
        Operation::Multiply => StepView::Times,
        Operation::Divide => StepView::Divide,
    }
}

/// A formula as it is written.
pub open spec fn written(formula: Formula) -> Seq<TokenView>
    decreases formula,
{
    match formula {
        Formula::Number(text) => seq![TokenView::Number(text)],
        Formula::Bracketed(inner) => seq![TokenView::LParen] + written(*inner)
            + seq![TokenView::RParen],
        Formula::Positive(inner) => seq![TokenView::Plus] + written(*inner),
        Formula::Negative(inner) => seq![TokenView::Minus] + written(*inner),
        Formula::Both(left, operation, right) => written(*left) + seq![sign_of(operation)]
            + written(*right),
    }
}

/// A formula as it is worked out: the parts first, then what is done with them.
pub open spec fn worked_out(formula: Formula) -> Seq<StepView>
    decreases formula,
{
    match formula {
        Formula::Number(text) => seq![StepView::Push(text)],
        Formula::Bracketed(inner) => worked_out(*inner),
        Formula::Positive(inner) => worked_out(*inner),
        Formula::Negative(inner) => worked_out(*inner) + seq![StepView::Negate],
        Formula::Both(left, operation, right) => worked_out(*left) + worked_out(*right)
            + seq![step_of(operation)],
    }
}

/// Whether tokens stand at a place of a list.
spec fn stand_at(all: Seq<TokenView>, pos: int, tokens: Seq<TokenView>) -> bool {
    &&& 0 <= pos
    &&& pos + tokens.len() <= all.len()
    &&& forall|i: int| 0 <= i < tokens.len() ==> #[trigger] all[pos + i] == tokens[i]
}

proof fn lemma_part(
    all: Seq<TokenView>,
    pos: int,
    before: Seq<TokenView>,
    part: Seq<TokenView>,
    after: Seq<TokenView>,
)
    requires
        stand_at(all, pos, before + part + after),
    ensures
        stand_at(all, pos, before),
        stand_at(all, pos + before.len(), part),
        stand_at(all, pos + before.len() + part.len(), after),
{
    let whole = before + part + after;
    assert forall|i: int| 0 <= i < before.len() implies #[trigger] all[pos + i] == before[i] by {
        assert(whole[i] == before[i]);
    }
    assert forall|i: int| 0 <= i < part.len() implies #[trigger] all[pos + before.len() + i]
        == part[i] by {
        assert(whole[before.len() + i] == part[i]);
        assert(all[pos + (before.len() + i)] == whole[before.len() + i]);
    }
    assert forall|i: int| 0 <= i < after.len() implies #[trigger] all[pos + before.len()
        + part.len() + i] == after[i] by {
        assert(whole[before.len() + part.len() + i] == after[i]);
        assert(all[pos + (before.len() + part.len() + i)] == whole[before.len() + part.len() + i]);
    }
}

spec fn no_product_at(all: Seq<TokenView>, pos: int) -> bool {
    0 <= pos < all.len() ==> product_step(all[pos]) is None
}

proof fn lemma_written(formula: Formula)
    ensures
        written(formula).len() > 0,
    decreases formula,
{
    match formula {
        Formula::Both(left, _, right) => {
            lemma_written(*left);
        },
        _ => {},
    }
}

proof fn lemma_read(formula: Formula, all: Seq<TokenView>, pos: int, steps: Seq<StepView>)
    requires
        needs_no_brackets(formula),
        stand_at(all, pos, written(formula)),
    ensures
        ({
            let end = pos + written(formula).len();
            let after = steps + worked_out(formula);
            &&& tightness(formula) >= 3 ==> atom_from(all, pos, steps) == (
                after,
                Ok::<int, ErrorView>(end),
            )
            &&& tightness(formula) >= 2 ==> factor_from(all, pos, steps) == (
                after,
                Ok::<int, ErrorView>(end),
            )
            &&& tightness(formula) >= 1 ==> term_from(all, pos, steps) == term_rest(all, end, after)
            &&& no_product_at(all, end) ==> sum_from(all, pos, steps) == sum_rest(all, end, after)
        }),
    decreases formula,
{
    let end = pos + written(formula).len();
    let after = steps + worked_out(formula);
    lemma_written(formula);
    let none = Seq::<TokenView>::empty();
    match formula {
        Formula::Number(text) => {
            assert(all[pos + 0] == TokenView::Number(text));
            assert(steps.push(StepView::Push(text)) =~= after);
        },
        Formula::Bracketed(inner) => {
            let open = seq![TokenView::LParen];
            let close = seq![TokenView::RParen];
            lemma_part(all, pos, open, written(*inner), close);
            lemma_read(*inner, all, pos + 1, steps);
            assert(all[pos + 0] == open[0]);
            let last = pos + 1 + written(*inner).len();
            assert(all[last + 0] == close[0]);
            assert(sum_rest(all, last, after) == (after, Ok::<int, ErrorView>(last)));
        },
        Formula::Positive(inner) => {
            let sign = seq![TokenView::Plus];
            assert(none + sign + written(*inner) =~= written(formula));
            lemma_part(all, pos, none, sign, written(*inner));
            lemma_read(*inner, all, pos + 1, steps);
            assert(all[pos + 0] == sign[0]);
        },
        Formula::Negative(inner) => {
            let sign = seq![TokenView::Minus];
            assert(none + sign + written(*inner) =~= written(formula));
            lemma_part(all, pos, none, sign, written(*inner));
            lemma_read(*inner, all, pos + 1, steps);
            assert(all[pos + 0] == sign[0]);
            assert((steps + worked_out(*inner)).push(StepView::Negate) =~= after);
        },
        Formula::Both(left, operation, right) => {
            let sign = seq![sign_of(operation)];
            lemma_written(*left);
            lemma_written(*right);
            lemma_part(all, pos, written(*left), sign, written(*right));
            let middle = pos + written(*left).len();
            let so_far = steps + worked_out(*left);
            lemma_read(*left, all, pos, steps);
            lemma_read(*right, all, middle + 1, so_far);
            assert(all[middle + 0] == sign[0]);
            assert((so_far + worked_out(*right)).push(step_of(operation)) =~= after);
            if tightness(formula) == 1 {
                assert(product_step(all[middle]) == Some(step_of(operation)));
                assert(term_rest(all, middle, so_far) == term_rest(all, end, after));
            } else {
                assert(sum_step(all[middle]) == Some(step_of(operation)));
                if no_product_at(all, end) {
                    assert(term_rest(all, end, so_far + worked_out(*right)) == (
                        so_far + worked_out(*right),
                        Ok::<int, ErrorView>(end),
                    ));
                    assert(sum_rest(all, middle, so_far) == sum_rest(all, end, after));
                }
            }
        },
    }
    if no_product_at(all, end) && tightness(formula) >= 1 {
        assert(term_rest(all, end, after) == (after, Ok::<int, ErrorView>(end)));
    }
}

/// What a formula is written as works out as the formula does, whatever the formula.
pub proof fn tokens_work_out_as_their_formula(formula: Formula)
    requires
        needs_no_brackets(formula),
    ensures
        program_of(written(formula)).steps == worked_out(formula),
        program_of(written(formula)).end is Ok,
{
    let all = written(formula);
    let none = Seq::<StepView>::empty();
    lemma_written(formula);
    lemma_read(formula, all, 0, none);
    assert(none + worked_out(formula) =~= worked_out(formula));
    let end = all.len() as int;
    assert(sum_rest(all, end, worked_out(formula)) == (
        worked_out(formula),
        Ok::<int, ErrorView>(end),
    ));
}

/// Whether a text is a number: digits, at least one, and a point at most.
pub open spec fn is_decimal(text: Seq<char>) -> bool {
    &&& is_digits_and_points(text)
    &&& exists|i: int| 0 <= i < text.len() && #[trigger] text[i] != '.'
    &&& forall|i: int, j: int|
        0 <= i < j < text.len() ==> #[trigger] text[i] != '.' || #[trigger] text[j] != '.'
}

/// Whether a text is made of digits and points.
pub open spec fn is_digits_and_points(text: Seq<char>) -> bool {
    forall|i: int| 0 <= i < text.len() ==> '0' <= #[trigger] text[i] <= '9' || text[i] == '.'
}

proof fn lemma_points(bytes: Seq<u8>, n: int)
    requires
        0 <= n <= bytes.len(),
    ensures
        0 <= points(bytes, 0, n) <= n,
        (exists|i: int| 0 <= i < n && #[trigger] bytes[i] != 46) <==> points(bytes, 0, n) < n,
        (exists|i: int| 0 <= i < n && #[trigger] bytes[i] == 46) <==> points(bytes, 0, n) >= 1,
        (exists|i: int, j: int|
            0 <= i < j < n && #[trigger] bytes[i] == 46 && #[trigger] bytes[j] == 46) <==> points(
            bytes,
            0,
            n,
        ) >= 2,
    decreases n,
{
    if n > 0 {
        lemma_points(bytes, n - 1);
        let last = bytes[n - 1];
        if exists|i: int| 0 <= i < n - 1 && #[trigger] bytes[i] != 46 {
            let i = choose|i: int| 0 <= i < n - 1 && #[trigger] bytes[i] != 46;
            assert(0 <= i < n && bytes[i] != 46);
        }
        if exists|i: int| 0 <= i < n - 1 && #[trigger] bytes[i] == 46 {
            let i = choose|i: int| 0 <= i < n - 1 && #[trigger] bytes[i] == 46;
            assert(0 <= i < n && bytes[i] == 46);
            if last == 46 {
                assert(0 <= i < n - 1 && bytes[i] == 46 && bytes[n - 1] == 46);
            }
        }
    }
}

proof fn lemma_whole_run(bytes: Seq<u8>, i: int)
    requires
        0 <= i <= bytes.len(),
        forall|k: int| 0 <= k < bytes.len() ==> in_number(#[trigger] bytes[k]),
    ensures
        run_end(bytes, i) == bytes.len(),
    decreases bytes.len() - i,
{
    if i < bytes.len() {
        lemma_whole_run(bytes, i + 1);
    }
}

/// A text of digits and points is one number if it has a digit and one point at most.
/// Any other such text is refused as no number.
pub proof fn a_decimal_is_one_number(text: Seq<char>)
    requires
        is_digits_and_points(text),
        text.len() > 0,
    ensures
        is_decimal(text) ==> tokens_of(text) == Ok::<Seq<TokenView>, ErrorView>(
            seq![TokenView::Number(text)],
        ),
        !is_decimal(text) ==> tokens_of(text) == Err::<Seq<TokenView>, ErrorView>(
            number_error(text),
        ),
{
    assert(is_ascii_chars(text)) by {
        assert forall|i: int| 0 <= i < text.len() implies '\0' <= #[trigger] text[i]
            <= '\u{7f}' by {}
    }
    is_ascii_chars_encode_utf8(text);
    let bytes = encode_utf8(text);
    let n = bytes.len() as int;
    assert forall|k: int| 0 <= k < n implies in_number(#[trigger] bytes[k]) && (bytes[k] == 46
        <==> text[k] == '.') && bytes[k] as char == text[k] by {
        assert(bytes[k] == text[k] as u8);
    }
    lemma_whole_run(bytes, 0);
    lemma_points(bytes, n);
    assert(crate::expr::literal(bytes, 0, n) =~= text);
    assert(is_decimal(text) <==> crate::expr::is_number(bytes, 0, n)) by {
        if is_decimal(text) {
            let i = choose|i: int| 0 <= i < text.len() && #[trigger] text[i] != '.';
            assert(bytes[i] != 46);
        } else if exists|i: int, j: int|
            0 <= i < j < text.len() && #[trigger] text[i] == '.' && #[trigger] text[j] == '.' {
            let (i, j) = choose|i: int, j: int|
                0 <= i < j < text.len() && #[trigger] text[i] == '.' && #[trigger] text[j] == '.';
            assert(bytes[i] == 46 && bytes[j] == 46);
        } else {
            assert forall|i: int| 0 <= i < n implies #[trigger] bytes[i] == 46 by {
                assert(text[i] == '.');
            }
        }
    }
    let rest = tokens_from(bytes, n);
    assert(rest == Ok::<Seq<TokenView>, ErrorView>(Seq::empty()));
    let one = seq![TokenView::Number(text)];
    assert(one + Seq::<TokenView>::empty() =~= one);
}

/// A token as it is written.
pub open spec fn shown(token: TokenView) -> Seq<char> {
    match token {
        TokenView::Number(text) => text,
        TokenView::Plus => "+"@,
        TokenView::Minus => "-"@,
        TokenView::Star => "*"@,
        TokenView::Slash => "/"@,
        TokenView::LParen => "("@,
        TokenView::RParen => ")"@,
    }
}

/// Tokens as they are written, with a blank before each.
pub open spec fn spaced(tokens: Seq<TokenView>) -> Seq<char>
    decreases tokens.len(),
{
    if tokens.len() == 0 {
        Seq::empty()
    } else {
        spaced(tokens.drop_last()) + " "@ + shown(tokens.last())
    }
}

/// Whether the numbers among tokens are numbers.
pub open spec fn numbers_are_decimal(tokens: Seq<TokenView>) -> bool {
    forall|i: int|
        0 <= i < tokens.len() ==> ((#[trigger] tokens[i]) matches TokenView::Number(text)
            ==> is_decimal(text))
}

proof fn lemma_shown(token: TokenView)
    requires
        token matches TokenView::Number(text) ==> is_decimal(text),
    ensures
        tokens_of(shown(token)) == Ok::<Seq<TokenView>, ErrorView>(seq![token]),
{
    reveal_strlit("+");
    reveal_strlit("-");
    reveal_strlit("*");
    reveal_strlit("/");
    reveal_strlit("(");
    reveal_strlit(")");
    match token {
        TokenView::Number(text) => a_decimal_is_one_number(text),
        TokenView::Plus => lemma_one_sign("+"@, 43),
        TokenView::Minus => lemma_one_sign("-"@, 45),
        TokenView::Star => lemma_one_sign("*"@, 42),
        TokenView::Slash => lemma_one_sign("/"@, 47),
        TokenView::LParen => lemma_one_sign("("@, 40),
        TokenView::RParen => lemma_one_sign(")"@, 41),
    }
}

proof fn lemma_spaced(tokens: Seq<TokenView>)
    requires
        numbers_are_decimal(tokens),
    ensures
        tokens_of(spaced(tokens)) == Ok::<Seq<TokenView>, ErrorView>(tokens),
    decreases tokens.len(),
{
    reveal_strlit(" ");
    let none = Seq::<TokenView>::empty();
    is_ascii_chars_encode_utf8(" "@);
    let blank = encode_utf8(" "@);
    assert(blank.len() == 1 && blank[0] == 32);
    assert(tokens_from(blank, 1) == Ok::<Seq<TokenView>, ErrorView>(none));
    assert(tokens_of(" "@) == Ok::<Seq<TokenView>, ErrorView>(none));
    if tokens.len() == 0 {
        is_ascii_chars_encode_utf8(Seq::<char>::empty());
        assert(tokens =~= none);
    } else {
        let rest = tokens.drop_last();
        assert forall|i: int| 0 <= i < rest.len() implies ((#[trigger] rest[i])
            matches TokenView::Number(text) ==> is_decimal(text)) by {
            assert(rest[i] == tokens[i]);
        }
        lemma_spaced(rest);
        let front = spaced(rest);
        lemma_tokens_joined(front, " "@);
        crate::expr_forms::lemma_encoded(front, " "@);
        assert(encode_utf8(front + " "@).last() == 32);
        lemma_shown(tokens.last());
        lemma_tokens_joined(front + " "@, shown(tokens.last()));
        assert(rest + none =~= rest);
        assert(rest + seq![tokens.last()] =~= tokens);
    }
}

/// A formula, written out with blanks between its tokens, works out as the formula
/// does: brackets first, signs next, products and quotients before sums and
/// differences, and what stands on the left before what stands on the right.
pub proof fn a_text_works_out_as_its_formula(formula: Formula)
    requires
        needs_no_brackets(formula),
        numbers_are_decimal(written(formula)),
    ensures
        program(spaced(written(formula))).steps == worked_out(formula),
        program(spaced(written(formula))).end is Ok,
{
    lemma_spaced(written(formula));
    tokens_work_out_as_their_formula(formula);
}

/// Tokens that are those of no formula in front of something else are refused: an
/// empty text, a number or bracket where none can stand, and an operation with nothing
/// behind it.
pub proof fn what_is_no_formula_is_refused(formula: Formula, tokens: Seq<TokenView>)
    requires
        needs_no_brackets(formula),
        tokens.len() > 0,
        tokens[0] is Number || tokens[0] is LParen || tokens[0] is RParen || tokens.len() == 1,
    ensures
        program_of(Seq::empty()).end is Err,
        program_of(written(formula) + tokens).end is Err,
{
    let all = written(formula) + tokens;
    let none = Seq::<StepView>::empty();
    let end = written(formula).len() as int;
    lemma_written(formula);
    assert(stand_at(all, 0, written(formula)));
    assert(all[end] == tokens[0]);
    lemma_read_before(formula, all, 0, none);
}

/// What may stand behind a formula without going on with it: the end, a number or a
/// bracket, or one sign at the end.
spec fn does_not_go_on(all: Seq<TokenView>, end: int) -> bool {
    end == all.len() - 1 || all[end] is Number || all[end] is LParen || all[end] is RParen
}

proof fn lemma_read_before(formula: Formula, all: Seq<TokenView>, pos: int, steps: Seq<StepView>)
    requires
        needs_no_brackets(formula),
        stand_at(all, pos, written(formula)),
        pos + written(formula).len() < all.len(),
        does_not_go_on(all, pos + written(formula).len()),
    ensures
        ({
            let end = pos + written(formula).len();
            sum_from(all, pos, steps).1 matches Ok(next) ==> next == end
        }),
{
    let end = pos + written(formula).len();
    let after = steps + worked_out(formula);
    lemma_read(formula, all, pos, steps);
    lemma_written(formula);
    if no_product_at(all, end) {
        if sum_step(all[end]) is Some {
            assert(atom_from(all, end + 1, after).1 is Err);
            assert(factor_from(all, end + 1, after).1 is Err);
            assert(term_from(all, end + 1, after).1 is Err);
        }
    } else {
        assert(end == all.len() - 1);
        if tightness(formula) >= 1 {
            assert(term_rest(all, end, after).1 is Err);
        } else {
            lemma_read_sum(formula, all, pos, steps);
        }
    }
}

proof fn lemma_read_sum(formula: Formula, all: Seq<TokenView>, pos: int, steps: Seq<StepView>)
    requires
        needs_no_brackets(formula),
        tightness(formula) == 0,
        stand_at(all, pos, written(formula)),
        pos + written(formula).len() == all.len() - 1,
        product_step(all[all.len() - 1]) is Some,
    ensures
        sum_from(all, pos, steps).1 is Err,
{
    if let Formula::Both(left, operation, right) = formula {
        let sign = seq![sign_of(operation)];
        lemma_written(*left);
        lemma_written(*right);
        lemma_part(all, pos, written(*left), sign, written(*right));
        let middle = pos + written(*left).len();
        let so_far = steps + worked_out(*left);
        assert(all[middle + 0] == sign[0]);
        lemma_read(*left, all, pos, steps);
        lemma_read(*right, all, middle + 1, so_far);
        let end = all.len() - 1;
        let done = so_far + worked_out(*right);
        assert(factor_from(all, end + 1, done).1 is Err);
        assert(term_rest(all, end, done).1 is Err);
        assert(term_from(all, middle + 1, so_far).1 is Err);
        assert(sum_rest(all, middle, so_far).1 is Err);
    }
}

} // verus!
