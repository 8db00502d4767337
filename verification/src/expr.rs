//! Small arithmetic in the fields for amounts: `+ - * /`, signs and brackets.
//!
//! A text is turned into the steps that work its value out, in the order in which
//! a reader of the text would take them:
//!
//! ```text
//! expr   := term  (('+' | '-') term)*
//! term   := unary (('*' | '/') unary)*
//! unary  := ('+' | '-') unary | atom
//! atom   := NUMBER | '(' expr ')'
//! ```
//!
//! The numbers stay as they are written. Whoever takes the steps keeps a stack of
//! values: a number goes on top, and an operation replaces what it works on by its
//! result. Dividing by zero is an error, found before anything that is wrong with
//! the text behind it, and so the steps up to an error are kept with the error.

use vstd::prelude::*;
use vstd::utf8::encode_utf8;
use crate::error::{outcome, Error, ErrorView};

verus! {

/// One token of a text.
#[derive(Debug, PartialEq, Eq)]
pub enum Token {
    /// A number, as it is written.
    Number(String),
    Plus,
    Minus,
    Star,
    Slash,
    LParen,
    RParen,
}

/// What a [`Token`] says.
pub enum TokenView {
    Number(Seq<char>),
    Plus,
    Minus,
    Star,
    Slash,
    LParen,
    RParen,
}

impl View for Token {
    type V = TokenView;

    open spec fn view(&self) -> TokenView {
        match self {
            Token::Number(text) => TokenView::Number(text@),
            Token::Plus => TokenView::Plus,
            Token::Minus => TokenView::Minus,
            Token::Star => TokenView::Star,
            Token::Slash => TokenView::Slash,
            Token::LParen => TokenView::LParen,
            Token::RParen => TokenView::RParen,
        }
    }
}

/// What the tokens of a list say.
pub open spec fn token_views(tokens: Seq<Token>) -> Seq<TokenView> {
    Seq::new(tokens.len(), |i: int| tokens[i]@)
}

/// Whether a byte is skipped between tokens.
pub open spec fn is_blank(b: u8) -> bool {
    b == 32 || b == 9 || b == 10 || b == 13
}

/// Whether a byte can be part of a number: a digit or a decimal point.
pub open spec fn in_number(b: u8) -> bool {
    (48 <= b && b <= 57) || b == 46
}

/// Where the run of digits and points that starts at `i` ends.
pub open spec fn run_end(bytes: Seq<u8>, i: int) -> int
    decreases bytes.len() - i,
{
    if 0 <= i < bytes.len() && in_number(bytes[i]) {
        run_end(bytes, i + 1)
    } else {
        i
    }
}

/// A run of bytes as text.
pub open spec fn literal(bytes: Seq<u8>, i: int, j: int) -> Seq<char> {
    Seq::new((j - i) as nat, |k: int| bytes[i + k] as char)
}

/// How many of the bytes from `i` to `j` are points.
pub open spec fn points(bytes: Seq<u8>, i: int, j: int) -> int
    decreases j - i,
{
    if i >= j {
        0
    } else {
        points(bytes, i, j - 1) + if bytes[j - 1] == 46 {
            1int
        } else {
            0int
        }
    }
}

/// Whether a run of digits and points is a number: it has a digit, and one point
/// at most.
pub open spec fn is_number(bytes: Seq<u8>, i: int, j: int) -> bool {
    points(bytes, i, j) <= 1 && points(bytes, i, j) < j - i
}

/// A run of digits and points that is no number.
pub open spec fn number_error(text: Seq<char>) -> ErrorView {
    ErrorView::InvalidArgument("invalid number: "@ + text)
}

/// A byte that starts no token.
pub open spec fn character_error(b: u8) -> ErrorView {
    ErrorView::InvalidArgument("unexpected character: "@.push(b as char))
}

/// The token of one byte, if the byte is one.
pub open spec fn sign_token(b: u8) -> Option<TokenView> {
    if b == 43 {
        Some(TokenView::Plus)
    } else if b == 45 {
        Some(TokenView::Minus)
    } else if b == 42 {
        Some(TokenView::Star)
    } else if b == 47 {
        Some(TokenView::Slash)
    } else if b == 40 {
        Some(TokenView::LParen)
    } else if b == 41 {
        Some(TokenView::RParen)
    } else {
        None
    }
}

/// Tokens with others behind them.
pub open spec fn followed(first: Seq<TokenView>, rest: Result<Seq<TokenView>, ErrorView>) -> Result<
    Seq<TokenView>,
    ErrorView,
> {
    match rest {
        Ok(rest) => Ok(first + rest),
        Err(e) => Err(e),
    }
}

/// The tokens of the bytes from `i` on, or what the first that is wrong is.
pub open spec fn tokens_from(bytes: Seq<u8>, i: int) -> Result<Seq<TokenView>, ErrorView>
    decreases bytes.len() - i,
{
    if !(0 <= i < bytes.len()) {
        Ok(Seq::empty())
    } else if is_blank(bytes[i]) {
        tokens_from(bytes, i + 1)
    } else if in_number(bytes[i]) {
        let j = run_end(bytes, i);
        if !is_number(bytes, i, j) {
            Err(number_error(literal(bytes, i, j)))
        } else if !(i < j <= bytes.len()) {
            Ok(Seq::empty())
        } else {
            followed(seq![TokenView::Number(literal(bytes, i, j))], tokens_from(bytes, j))
        }
    } else {
        match sign_token(bytes[i]) {
            Some(token) => followed(seq![token], tokens_from(bytes, i + 1)),
            None => Err(character_error(bytes[i])),
        }
    }
}

/// The tokens of a text.
pub open spec fn tokens_of(text: Seq<char>) -> Result<Seq<TokenView>, ErrorView> {
    tokens_from(encode_utf8(text), 0)
}

proof fn lemma_run_end(bytes: Seq<u8>, i: int)
    requires
        0 <= i <= bytes.len(),
    ensures
        i <= run_end(bytes, i) <= bytes.len(),
        i < bytes.len() && in_number(bytes[i]) ==> i < run_end(bytes, i),
    decreases bytes.len() - i,
{
    if i < bytes.len() && in_number(bytes[i]) {
        lemma_run_end(bytes, i + 1);
    }
}

fn read_number(bytes: &[u8], start: usize) -> (r: (usize, Result<String, Error>))
    requires
        start < bytes@.len(),
        in_number(bytes@[start as int]),
    ensures
        r.0 == run_end(bytes@, start as int),
        start < r.0 <= bytes@.len(),
        match r.1 {
            Ok(text) => is_number(bytes@, start as int, r.0 as int) && text@ == literal(
                bytes@,
                start as int,
                r.0 as int,
            ),
            Err(e) => !is_number(bytes@, start as int, r.0 as int) && e@ == number_error(
                literal(bytes@, start as int, r.0 as int),
            ),
        },
{
    let mut text = String::new();
    let mut i: usize = start;
    let mut count: usize = 0;
    assert(text@ =~= literal(bytes@, start as int, start as int));
    while i < bytes.len() && ((48 <= bytes[i] && bytes[i] <= 57) || bytes[i] == 46)
        invariant
            start <= i <= bytes@.len(),
            start < bytes@.len(),
            in_number(bytes@[start as int]),
            run_end(bytes@, i as int) == run_end(bytes@, start as int),
            text@ == literal(bytes@, start as int, i as int),
            count == points(bytes@, start as int, i as int),
            count <= i - start,
        decreases bytes@.len() - i,
    {
        text.push(bytes[i] as char);
        if bytes[i] == 46 {
            count = count + 1;
        }
        i = i + 1;
        assert(text@ =~= literal(bytes@, start as int, i as int));
    }
    proof {
        lemma_run_end(bytes@, start as int);
    }
    if count <= 1 && count < i - start {
        (i, Ok(text))
    } else {
        (i, Err(Error::InvalidArgument("invalid number: ".to_owned().concat(text.as_str()))))
    }
}

/// The tokens of a text. Blanks between them are skipped; a number is a run of
/// digits and points, taken as far as it goes.
pub fn tokenize(expr: &str) -> (r: Result<Vec<Token>, Error>)
    ensures
        match r {
            Ok(tokens) => tokens_of(expr@) == Ok::<Seq<TokenView>, ErrorView>(token_views(tokens@)),
            Err(e) => tokens_of(expr@) == Err::<Seq<TokenView>, ErrorView>(e@),
        },
{
    let bytes = expr.as_bytes();
    let mut tokens: Vec<Token> = Vec::new();
    let mut i: usize = 0;
    proof {
        let none = token_views(tokens@);
        assert(none =~= Seq::empty());
        if let Ok(rest) = tokens_from(bytes@, 0) {
            assert(none + rest =~= rest);
        }
    }
    while i < bytes.len()
        invariant
            i <= bytes@.len(),
            bytes@ == encode_utf8(expr@),
            tokens_of(expr@) == followed(token_views(tokens@), tokens_from(bytes@, i as int)),
        decreases bytes@.len() - i,
    {
        let b = bytes[i];
        let ghost before = token_views(tokens@);
        if b == 32 || b == 9 || b == 10 || b == 13 {
            i = i + 1;
        } else if (48 <= b && b <= 57) || b == 46 {
            let (end, number) = read_number(bytes, i);
            match number {
                Ok(text) => {
                    tokens.push(Token::Number(text));
                },
                Err(e) => return Err(e),
            }
            proof {
                lemma_pushed(before, tokens@.last()@, tokens_from(bytes@, end as int));
                assert(token_views(tokens@) =~= before.push(tokens@.last()@));
            }
            i = end;
        } else {
            let token = if b == 43 {
                Token::Plus
            } else if b == 45 {
                Token::Minus
            } else if b == 42 {
                Token::Star
            } else if b == 47 {
                Token::Slash
            } else if b == 40 {
                Token::LParen
            } else if b == 41 {
                Token::RParen
            } else {
                let mut message = "unexpected character: ".to_owned();
                message.push(b as char);
                return Err(Error::InvalidArgument(message));
            };
            tokens.push(token);
            proof {
                lemma_pushed(before, tokens@.last()@, tokens_from(bytes@, i + 1));
                assert(token_views(tokens@) =~= before.push(tokens@.last()@));
            }
            i = i + 1;
        }
    }
    assert(token_views(tokens@) + Seq::<TokenView>::empty() =~= token_views(tokens@));
    Ok(tokens)
}

proof fn lemma_pushed(
    before: Seq<TokenView>,
    token: TokenView,
    rest: Result<Seq<TokenView>, ErrorView>,
)
    ensures
        followed(before, followed(seq![token], rest)) == followed(before.push(token), rest),
{
    if let Ok(rest) = rest {
        assert(before + (seq![token] + rest) =~= before.push(token) + rest);
    }
}

/// One step of working a value out.
#[derive(Debug, PartialEq, Eq)]
pub enum Step {
    /// Put a number, as it is written, on the stack.
    Push(String),
    /// Replace the top by its opposite.
    Negate,
    /// Replace the two values on top by their sum.
    Plus,
    /// Replace the two values on top by the lower less the upper.
    Minus,
    /// Replace the two values on top by their product.
    Times,
    /// Replace the two values on top by the lower divided by the upper; fail if the
    /// upper is zero.
    Divide,
}

/// What a [`Step`] says.
pub enum StepView {
    Push(Seq<char>),
    Negate,
    Plus,
    Minus,
    Times,
    Divide,
}

impl View for Step {
    type V = StepView;

    open spec fn view(&self) -> StepView {
        match self {
            Step::Push(text) => StepView::Push(text@),
            Step::Negate => StepView::Negate,
            Step::Plus => StepView::Plus,
            Step::Minus => StepView::Minus,
            Step::Times => StepView::Times,
            Step::Divide => StepView::Divide,
        }
    }
}

/// What the steps of a list say.
pub open spec fn step_views(steps: Seq<Step>) -> Seq<StepView> {
    Seq::new(steps.len(), |i: int| steps[i]@)
}

/// The steps so far, and where the text goes on or what is wrong with it.
pub type Parsed = (Seq<StepView>, Result<int, ErrorView>);

/// Something is wrong with a text.
pub open spec fn syntax_error(message: Seq<char>) -> ErrorView {
    ErrorView::InvalidArgument(message)
}

/// The step of a sum.
pub open spec fn sum_step(token: TokenView) -> Option<StepView> {
    match token {
        TokenView::Plus => Some(StepView::Plus),
        TokenView::Minus => Some(StepView::Minus),
        _ => None,
    }
}

/// The step of a product.
pub open spec fn product_step(token: TokenView) -> Option<StepView> {
    match token {
        TokenView::Star => Some(StepView::Times),
        TokenView::Slash => Some(StepView::Divide),
        _ => None,
    }
}

/// A sum: a term, and the terms added to it and taken from it.
pub open spec fn sum_from(tokens: Seq<TokenView>, pos: int, steps: Seq<StepView>) -> Parsed
    decreases tokens.len() - pos, 5int,
{
    let first = term_from(tokens, pos, steps);
    match first.1 {
        Err(_) => first,
        Ok(next) => if pos < next <= tokens.len() {
            sum_rest(tokens, next, first.0)
        } else {
            first
        },
    }
}

/// The terms that go on with a sum.
pub open spec fn sum_rest(tokens: Seq<TokenView>, pos: int, steps: Seq<StepView>) -> Parsed
    decreases tokens.len() - pos, 6int,
{
    if 0 <= pos < tokens.len() && sum_step(tokens[pos]) is Some {
        let term = term_from(tokens, pos + 1, steps);
        match term.1 {
            Err(_) => term,
            Ok(next) => if pos < next <= tokens.len() {
                sum_rest(tokens, next, term.0.push(sum_step(tokens[pos])->Some_0))
            } else {
                term
            },
        }
    } else {
        (steps, Ok(pos))
    }
}

/// A term: a factor, and the factors it is multiplied with and divided by.
pub open spec fn term_from(tokens: Seq<TokenView>, pos: int, steps: Seq<StepView>) -> Parsed
    decreases tokens.len() - pos, 3int,
{
    let first = factor_from(tokens, pos, steps);
    match first.1 {
        Err(_) => first,
        Ok(next) => if pos < next <= tokens.len() {
            term_rest(tokens, next, first.0)
        } else {
            first
        },
    }
}

/// The factors that go on with a term.
pub open spec fn term_rest(tokens: Seq<TokenView>, pos: int, steps: Seq<StepView>) -> Parsed
    decreases tokens.len() - pos, 4int,
{
    if 0 <= pos < tokens.len() && product_step(tokens[pos]) is Some {
        let factor = factor_from(tokens, pos + 1, steps);
        match factor.1 {
            Err(_) => factor,
            Ok(next) => if pos < next <= tokens.len() {
                term_rest(tokens, next, factor.0.push(product_step(tokens[pos])->Some_0))
            } else {
                factor
            },
        }
    } else {
        (steps, Ok(pos))
    }
}

/// A factor: signs, and a number or a sum in brackets.
pub open spec fn factor_from(tokens: Seq<TokenView>, pos: int, steps: Seq<StepView>) -> Parsed
    decreases tokens.len() - pos, 2int,
{
    if 0 <= pos < tokens.len() && tokens[pos] is Plus {
        factor_from(tokens, pos + 1, steps)
    } else if 0 <= pos < tokens.len() && tokens[pos] is Minus {
        let inner = factor_from(tokens, pos + 1, steps);
        match inner.1 {
            Err(_) => inner,
            Ok(next) => (inner.0.push(StepView::Negate), Ok(next)),
        }
    } else {
        atom_from(tokens, pos, steps)
    }
}

/// A number, or a sum in brackets.
pub open spec fn atom_from(tokens: Seq<TokenView>, pos: int, steps: Seq<StepView>) -> Parsed
    decreases tokens.len() - pos, 1int,
{
    if !(0 <= pos < tokens.len()) {
        (steps, Err(syntax_error("unexpected end of expression"@)))
    } else {
        match tokens[pos] {
            TokenView::Number(text) => (steps.push(StepView::Push(text)), Ok(pos + 1)),
            TokenView::LParen => {
                let inner = sum_from(tokens, pos + 1, steps);
                match inner.1 {
                    Err(_) => inner,
                    Ok(next) => if 0 <= next < tokens.len() && tokens[next] is RParen {
                        (inner.0, Ok(next + 1))
                    } else {
                        (inner.0, Err(syntax_error("expected ')'"@)))
                    },
                }
            },
            _ => (steps, Err(syntax_error("expected a number or '('"@))),
        }
    }
}

/// What is parsed without an error goes on in the text.
pub proof fn lemma_positions(tokens: Seq<TokenView>, pos: int, steps: Seq<StepView>)
    requires
        0 <= pos <= tokens.len(),
    ensures
        sum_from(tokens, pos, steps).1 matches Ok(next) ==> pos < next <= tokens.len(),
        term_from(tokens, pos, steps).1 matches Ok(next) ==> pos < next <= tokens.len(),
        factor_from(tokens, pos, steps).1 matches Ok(next) ==> pos < next <= tokens.len(),
        atom_from(tokens, pos, steps).1 matches Ok(next) ==> pos < next <= tokens.len(),
    decreases tokens.len() - pos,
{
    if pos < tokens.len() {
        lemma_positions(tokens, pos + 1, steps);
    }
    let factor = factor_from(tokens, pos, steps);
    if let Ok(next) = factor.1 {
        lemma_term_rest_positions(tokens, next, factor.0);
    }
    let term = term_from(tokens, pos, steps);
    if let Ok(next) = term.1 {
        lemma_sum_rest_positions(tokens, next, term.0);
    }
}

proof fn lemma_term_rest_positions(tokens: Seq<TokenView>, pos: int, steps: Seq<StepView>)
    requires
        0 <= pos <= tokens.len(),
    ensures
        term_rest(tokens, pos, steps).1 matches Ok(next) ==> pos <= next <= tokens.len(),
    decreases tokens.len() - pos, 1int,
{
    if pos < tokens.len() && product_step(tokens[pos]) is Some {
        lemma_positions(tokens, pos + 1, steps);
        let factor = factor_from(tokens, pos + 1, steps);
        if let Ok(next) = factor.1 {
            let step = product_step(tokens[pos])->Some_0;
            lemma_term_rest_positions(tokens, next, factor.0.push(step));
        }
    }
}

proof fn lemma_sum_rest_positions(tokens: Seq<TokenView>, pos: int, steps: Seq<StepView>)
    requires
        0 <= pos <= tokens.len(),
    ensures
        sum_rest(tokens, pos, steps).1 matches Ok(next) ==> pos <= next <= tokens.len(),
    decreases tokens.len() - pos, 1int,
{
    if pos < tokens.len() && sum_step(tokens[pos]) is Some {
        lemma_positions(tokens, pos + 1, steps);
        let term = term_from(tokens, pos + 1, steps);
        if let Ok(next) = term.1 {
            let step = sum_step(tokens[pos])->Some_0;
            lemma_sum_rest_positions(tokens, next, term.0.push(step));
        }
    }
}

/// What a text works out to: the steps, and what is wrong behind them, if anything.
pub struct ProgramView {
    pub steps: Seq<StepView>,
    pub end: Result<(), ErrorView>,
}

/// The program of a list of tokens.
pub open spec fn program_of(tokens: Seq<TokenView>) -> ProgramView {
    if tokens.len() == 0 {
        ProgramView {
            steps: Seq::empty(),
            end: Err(syntax_error("empty expression"@)),
        }
    } else {
        let parsed = sum_from(tokens, 0, Seq::empty());
        ProgramView {
            steps: parsed.0,
            end: match parsed.1 {
                Err(e) => Err(e),
                Ok(next) => if next < tokens.len() {
                    Err(syntax_error("unexpected trailing input"@))
                } else {
                    Ok(())
                },
            },
        }
    }
}

/// The program of a text.
pub open spec fn program(text: Seq<char>) -> ProgramView {
    match tokens_of(text) {
        Err(e) => ProgramView { steps: Seq::empty(), end: Err(e) },
        Ok(tokens) => program_of(tokens),
    }
}

/// The steps that work a text out, and what is wrong behind them, if anything.
/// Steps that fail come before what is wrong behind them.
#[derive(Debug, PartialEq, Eq)]
pub struct Program {
    pub steps: Vec<Step>,
    pub end: Result<(), Error>,
}

impl View for Program {
    type V = ProgramView;

    open spec fn view(&self) -> ProgramView {
        ProgramView { steps: step_views(self.steps@), end: outcome(self.end) }
    }
}

/// Whether what was parsed is as described, and goes on further in the text.
spec fn parsed_as(
    expected: Parsed,
    tokens: Seq<TokenView>,
    pos: int,
    steps: Seq<StepView>,
    r: Result<usize, Error>,
) -> bool {
    expected.0 == steps && match r {
        Ok(next) => expected.1 == Ok::<int, ErrorView>(next as int) && pos < next <= tokens.len(),
        Err(e) => expected.1 == Err::<int, ErrorView>(e@),
    }
}

fn push_step(steps: &mut Vec<Step>, step: Step)
    ensures
        step_views(final(steps)@) == step_views(old(steps)@).push(step@),
{
    let ghost before = step_views(steps@);
    steps.push(step);
    assert(step_views(steps@) =~= before.push(steps@.last()@));
}

/// What is still to be done with a value once it is worked out.
#[derive(Clone, Copy)]
enum Frame {
    /// Take its opposite.
    Negate,
    /// Go on with the term that it starts.
    Term,
    /// Multiply with it, and go on with the term.
    Times,
    /// Divide by it, and go on with the term.
    Divide,
    /// Go on with the sum that it starts.
    Sum,
    /// Add it, and go on with the sum.
    Plus,
    /// Take it away, and go on with the sum.
    Minus,
    /// Close the bracket around it.
    Bracket,
}

/// A sum in brackets, up to the closing one.
spec fn closed(tokens: Seq<TokenView>, pos: int, steps: Seq<StepView>) -> Parsed {
    if 0 <= pos < tokens.len() && tokens[pos] is RParen {
        (steps, Ok(pos + 1))
    } else {
        (steps, Err(syntax_error("expected ')'"@)))
    }
}

/// What comes of a value that ends before `pos`.
spec fn resumed(frame: Frame, tokens: Seq<TokenView>, pos: int, steps: Seq<StepView>) -> Parsed {
    match frame {
        Frame::Negate => (steps.push(StepView::Negate), Ok(pos)),
        Frame::Term => term_rest(tokens, pos, steps),
        Frame::Times => term_rest(tokens, pos, steps.push(StepView::Times)),
        Frame::Divide => term_rest(tokens, pos, steps.push(StepView::Divide)),
        Frame::Sum => sum_rest(tokens, pos, steps),
        Frame::Plus => sum_rest(tokens, pos, steps.push(StepView::Plus)),
        Frame::Minus => sum_rest(tokens, pos, steps.push(StepView::Minus)),
        Frame::Bracket => closed(tokens, pos, steps),
    }
}

/// What comes of a value in the end: the last frame is done first.
spec fn unwound(frames: Seq<Frame>, tokens: Seq<TokenView>, value: Parsed) -> Parsed
    decreases frames.len(),
{
    match value.1 {
        Err(_) => value,
        Ok(pos) => if frames.len() == 0 {
            value
        } else {
            unwound(frames.drop_last(), tokens, resumed(frames.last(), tokens, pos, value.0))
        },
    }
}

proof fn lemma_unwound(frames: Seq<Frame>, frame: Frame, tokens: Seq<TokenView>, value: Parsed)
    ensures
        unwound(frames.push(frame), tokens, value) == match value.1 {
            Err(_) => value,
            Ok(pos) => unwound(frames, tokens, resumed(frame, tokens, pos, value.0)),
        },
        value.1 is Err ==> unwound(frames, tokens, value) == value,
{
    assert(frames.push(frame).drop_last() =~= frames);
}

/// A sum is a factor, with the term and the sum that it starts still to be gone on
/// with.
proof fn lemma_sum_unwound(frames: Seq<Frame>, tokens: Seq<TokenView>, pos: int, steps: Seq<StepView>)
    requires
        0 <= pos <= tokens.len(),
    ensures
        unwound(frames.push(Frame::Sum).push(Frame::Term), tokens, factor_from(tokens, pos, steps))
            == unwound(frames, tokens, sum_from(tokens, pos, steps)),
{
    lemma_positions(tokens, pos, steps);
    let factor = factor_from(tokens, pos, steps);
    let term = term_from(tokens, pos, steps);
    lemma_unwound(frames.push(Frame::Sum), Frame::Term, tokens, factor);
    lemma_unwound(frames, Frame::Sum, tokens, term);
    lemma_unwound(frames, Frame::Sum, tokens, factor);
}

/// A factor and a step behind it go on with a term.
proof fn lemma_term_unwound(
    frames: Seq<Frame>,
    frame: Frame,
    tokens: Seq<TokenView>,
    pos: int,
    steps: Seq<StepView>,
)
    requires
        0 <= pos < tokens.len(),
        match frame {
            Frame::Times => tokens[pos] is Star,
            Frame::Divide => tokens[pos] is Slash,
            _ => false,
        },
    ensures
        unwound(frames.push(frame), tokens, factor_from(tokens, pos + 1, steps)) == unwound(
            frames,
            tokens,
            term_rest(tokens, pos, steps),
        ),
{
    lemma_positions(tokens, pos + 1, steps);
    lemma_unwound(frames, frame, tokens, factor_from(tokens, pos + 1, steps));
}

/// A term and a step behind it go on with a sum.
proof fn lemma_terms_unwound(
    frames: Seq<Frame>,
    frame: Frame,
    tokens: Seq<TokenView>,
    pos: int,
    steps: Seq<StepView>,
)
    requires
        0 <= pos < tokens.len(),
        match frame {
            Frame::Plus => tokens[pos] is Plus,
            Frame::Minus => tokens[pos] is Minus,
            _ => false,
        },
    ensures
        unwound(
            frames.push(frame).push(Frame::Term),
            tokens,
            factor_from(tokens, pos + 1, steps),
        ) == unwound(frames, tokens, sum_rest(tokens, pos, steps)),
{
    lemma_positions(tokens, pos + 1, steps);
    let factor = factor_from(tokens, pos + 1, steps);
    let term = term_from(tokens, pos + 1, steps);
    lemma_unwound(frames.push(frame), Frame::Term, tokens, factor);
    lemma_unwound(frames, frame, tokens, term);
    lemma_unwound(frames, frame, tokens, factor);
}

/// Read up to the next number: note the signs and brackets before it.
fn read_operand(
    tokens: &Vec<Token>,
    start: usize,
    steps: &mut Vec<Step>,
    frames: &mut Vec<Frame>,
) -> (r: Result<usize, Error>)
    requires
        start <= tokens@.len(),
    ensures
        ({
            let all = token_views(tokens@);
            let expected = unwound(
                old(frames)@,
                all,
                factor_from(all, start as int, step_views(old(steps)@)),
            );
            match r {
                Ok(next) => start < next <= all.len() && expected == unwound(
                    final(frames)@,
                    all,
                    (step_views(final(steps)@), Ok(next as int)),
                ),
                Err(e) => expected == (step_views(final(steps)@), Err::<int, ErrorView>(e@)),
            }
        }),
{
    let ghost all = token_views(tokens@);
    let ghost expected = unwound(
        frames@,
        all,
        factor_from(all, start as int, step_views(steps@)),
    );
    let mut pos: usize = start;
    while pos < tokens.len()
        invariant
            start <= pos <= tokens@.len(),
            all == token_views(tokens@),
            expected == unwound(
                old(frames)@,
                all,
                factor_from(all, start as int, step_views(old(steps)@)),
            ),
            expected == unwound(
                frames@,
                all,
                factor_from(all, pos as int, step_views(steps@)),
            ),
        decreases tokens@.len() - pos,
    {
        assert(all[pos as int] == tokens@[pos as int]@);
        let ghost held = frames@;
        let ghost now = step_views(steps@);
        match &tokens[pos] {
            Token::Number(text) => {
                push_step(steps, Step::Push(text.clone()));
                assert(factor_from(all, pos as int, now) == atom_from(all, pos as int, now));
                return Ok(pos + 1);
            },
            Token::Plus => {},
            Token::Minus => {
                frames.push(Frame::Negate);
                proof {
                    lemma_unwound(
                        held,
                        Frame::Negate,
                        all,
                        factor_from(all, pos + 1, now),
                    );
                }
            },
            Token::LParen => {
                frames.push(Frame::Bracket);
                frames.push(Frame::Sum);
                frames.push(Frame::Term);
                proof {
                    let inner = sum_from(all, pos + 1, now);
                    lemma_sum_unwound(held.push(Frame::Bracket), all, pos + 1, now);
                    lemma_unwound(held, Frame::Bracket, all, inner);
                    assert(atom_from(all, pos as int, now) == match inner.1 {
                        Err(_) => inner,
                        Ok(next) => closed(all, next, inner.0),
                    });
                    assert(factor_from(all, pos as int, now) == atom_from(all, pos as int, now));
                }
            },
            _ => {
                assert(factor_from(all, pos as int, now) == atom_from(all, pos as int, now));
                return Err(Error::InvalidArgument("expected a number or '('".to_owned()));
            },
        }
        pos = pos + 1;
    }
    proof {
        let now = step_views(steps@);
        assert(factor_from(all, pos as int, now) == atom_from(all, pos as int, now));
    }
    Err(Error::InvalidArgument("unexpected end of expression".to_owned()))
}

/// Read a sum. What waits for a value stands in a list, so that no depth of brackets
/// or run of signs is too much.
fn parse_sum(tokens: &Vec<Token>, start: usize, steps: &mut Vec<Step>) -> (r: Result<usize, Error>)
    requires
        start <= tokens@.len(),
    ensures
        parsed_as(
            sum_from(token_views(tokens@), start as int, step_views(old(steps)@)),
            token_views(tokens@),
            start as int,
            step_views(final(steps)@),
            r,
        ),
{
    let ghost all = token_views(tokens@);
    let ghost expected = sum_from(all, start as int, step_views(steps@));
    let mut frames: Vec<Frame> = Vec::new();
    proof {
        lemma_positions(all, start as int, step_views(steps@));
        lemma_sum_unwound(frames@, all, start as int, step_views(steps@));
    }
    frames.push(Frame::Sum);
    frames.push(Frame::Term);
    let mut pos: usize = match read_operand(tokens, start, steps, &mut frames) {
        Ok(next) => next,
        Err(e) => return Err(e),
    };
    while frames.len() > 0
        invariant
            pos <= tokens@.len(),
            all == token_views(tokens@),
            expected == sum_from(all, start as int, step_views(old(steps)@)),
            expected.1 matches Ok(next) ==> start < next <= all.len(),
            expected == unwound(frames@, all, (step_views(steps@), Ok(pos as int))),
        decreases tokens@.len() - pos, frames@.len(),
    {
        let frame = frames[frames.len() - 1];
        frames.pop();
        let ghost held = frames@;
        match frame {
            Frame::Negate => push_step(steps, Step::Negate),
            Frame::Times => push_step(steps, Step::Times),
            Frame::Divide => push_step(steps, Step::Divide),
            Frame::Plus => push_step(steps, Step::Plus),
            Frame::Minus => push_step(steps, Step::Minus),
            _ => {},
        }
        let ghost now = step_views(steps@);
        let in_term = match frame {
            Frame::Term | Frame::Times | Frame::Divide => true,
            _ => false,
        };
        let in_sum = match frame {
            Frame::Sum | Frame::Plus | Frame::Minus => true,
            _ => false,
        };
        let in_bracket = match frame {
            Frame::Bracket => true,
            _ => false,
        };
        let mut goes_on = false;
        let mut closes = false;
        if pos < tokens.len() {
            assert(all[pos as int] == tokens@[pos as int]@);
            match &tokens[pos] {
                Token::Star if in_term => {
                    frames.push(Frame::Times);
                    proof {
                        lemma_term_unwound(held, Frame::Times, all, pos as int, now);
                    }
                    goes_on = true;
                },
                Token::Slash if in_term => {
                    frames.push(Frame::Divide);
                    proof {
                        lemma_term_unwound(held, Frame::Divide, all, pos as int, now);
                    }
                    goes_on = true;
                },
                Token::Plus if in_sum => {
                    frames.push(Frame::Plus);
                    frames.push(Frame::Term);
                    proof {
                        lemma_terms_unwound(held, Frame::Plus, all, pos as int, now);
                    }
                    goes_on = true;
                },
                Token::Minus if in_sum => {
                    frames.push(Frame::Minus);
                    frames.push(Frame::Term);
                    proof {
                        lemma_terms_unwound(held, Frame::Minus, all, pos as int, now);
                    }
                    goes_on = true;
                },
                Token::RParen => {
                    closes = true;
                },
                _ => {},
            }
        }
        if goes_on {
            pos = match read_operand(tokens, pos + 1, steps, &mut frames) {
                Ok(next) => next,
                Err(e) => return Err(e),
            };
        } else if in_bracket {
            if !closes {
                proof {
                    lemma_unwound(held, frame, all, closed(all, pos as int, now));
                }
                return Err(Error::InvalidArgument("expected ')'".to_owned()));
            }
            pos = pos + 1;
        }
    }
    Ok(pos)
}

/// The program of a text.
pub fn parse(expr: &str) -> (r: Program)
    ensures
        r@ == program(expr@),
{
    let mut steps: Vec<Step> = Vec::new();
    assert(step_views(steps@) =~= Seq::empty());
    let tokens = match tokenize(expr) {
        Ok(tokens) => tokens,
        Err(e) => return Program { steps, end: Err(e) },
    };
    if tokens.len() == 0 {
        return Program {
            steps,
            end: Err(Error::InvalidArgument("empty expression".to_owned())),
        };
    }
    let end = match parse_sum(&tokens, 0, &mut steps) {
        Err(e) => Err(e),
        Ok(next) => if next < tokens.len() {
            Err(Error::InvalidArgument("unexpected trailing input".to_owned()))
        } else {
            Ok(())
        },
    };
    Program { steps, end }
}

} // verus!
