//! What holds of every text that is worked out.

use vstd::prelude::*;
use crate::expr::{
    atom_from, factor_from, lemma_positions, product_step, program, run_end, sum_from, sum_rest, sum_step,
    term_from, term_rest, tokens_from, tokens_of, Parsed, StepView, TokenView,
};

verus! {

/// How many values are on the stack after some steps, or nothing if a step finds
/// too few.
pub open spec fn depth(steps: Seq<StepView>) -> Option<nat>
    decreases steps.len(),
{
    if steps.len() == 0 {
        Some(0)
    } else {
        match depth(steps.drop_last()) {
            None => None,
            Some(d) => match steps.last() {
                StepView::Push(_) => Some(d + 1),
                StepView::Negate => if d >= 1 {
                    Some(d)
                } else {
                    None
                },
                _ => if d >= 2 {
                    Some((d - 1) as nat)
                } else {
                    None
                },
            },
        }
    }
}

proof fn lemma_depth_push(steps: Seq<StepView>, step: StepView)
    ensures
        depth(steps.push(step)) == match depth(steps) {
            None => None,
            Some(d) => match step {
                StepView::Push(_) => Some(d + 1),
                StepView::Negate => if d >= 1 {
                    Some(d)
                } else {
                    None
                },
                _ => if d >= 2 {
                    Some((d - 1) as nat)
                } else {
                    None
                },
            },
        },
{
    assert(steps.push(step).drop_last() =~= steps);
}

/// Whether what was parsed put one more value on the stack, or else took none that
/// was there before and says that the text is wrong.
spec fn adds_one(parsed: Parsed, d: nat) -> bool {
    match depth(parsed.0) {
        None => false,
        Some(after) => after >= d && match parsed.1 {
            Ok(_) => after == d + 1,
            Err(e) => e is InvalidArgument,
        },
    }
}

proof fn lemma_sum(tokens: Seq<TokenView>, pos: int, steps: Seq<StepView>, d: nat)
    requires
        depth(steps) == Some(d),
    ensures
        adds_one(sum_from(tokens, pos, steps), d),
    decreases tokens.len() - pos, 5int,
{
    lemma_term(tokens, pos, steps, d);
    let first = term_from(tokens, pos, steps);
    if let Ok(next) = first.1 {
        if pos < next <= tokens.len() {
            lemma_sum_rest(tokens, next, first.0, d);
        }
    }
}

proof fn lemma_sum_rest(tokens: Seq<TokenView>, pos: int, steps: Seq<StepView>, d: nat)
    requires
        depth(steps) == Some(d + 1),
    ensures
        adds_one(sum_rest(tokens, pos, steps), d),
    decreases tokens.len() - pos, 6int,
{
    if 0 <= pos < tokens.len() && sum_step(tokens[pos]) is Some {
        lemma_term(tokens, pos + 1, steps, d + 1);
        let term = term_from(tokens, pos + 1, steps);
        if let Ok(next) = term.1 {
            if pos < next <= tokens.len() {
                let step = sum_step(tokens[pos])->Some_0;
                lemma_depth_push(term.0, step);
                lemma_sum_rest(tokens, next, term.0.push(step), d);
            } else {
                lemma_positions(tokens, pos + 1, steps);
            }
        }
    }
}

proof fn lemma_term(tokens: Seq<TokenView>, pos: int, steps: Seq<StepView>, d: nat)
    requires
        depth(steps) == Some(d),
    ensures
        adds_one(term_from(tokens, pos, steps), d),
    decreases tokens.len() - pos, 3int,
{
    lemma_factor(tokens, pos, steps, d);
    let first = factor_from(tokens, pos, steps);
    if let Ok(next) = first.1 {
        if pos < next <= tokens.len() {
            lemma_term_rest(tokens, next, first.0, d);
        }
    }
}

proof fn lemma_term_rest(tokens: Seq<TokenView>, pos: int, steps: Seq<StepView>, d: nat)
    requires
        depth(steps) == Some(d + 1),
    ensures
        adds_one(term_rest(tokens, pos, steps), d),
    decreases tokens.len() - pos, 4int,
{
    if 0 <= pos < tokens.len() && product_step(tokens[pos]) is Some {
        lemma_factor(tokens, pos + 1, steps, d + 1);
        let factor = factor_from(tokens, pos + 1, steps);
        if let Ok(next) = factor.1 {
            if pos < next <= tokens.len() {
                let step = product_step(tokens[pos])->Some_0;
                lemma_depth_push(factor.0, step);
                lemma_term_rest(tokens, next, factor.0.push(step), d);
            } else {
                lemma_positions(tokens, pos + 1, steps);
            }
        }
    }
}

proof fn lemma_factor(tokens: Seq<TokenView>, pos: int, steps: Seq<StepView>, d: nat)
    requires
        depth(steps) == Some(d),
    ensures
        adds_one(factor_from(tokens, pos, steps), d),
    decreases tokens.len() - pos, 2int,
{
    if 0 <= pos < tokens.len() && tokens[pos] is Plus {
        lemma_factor(tokens, pos + 1, steps, d);
    } else if 0 <= pos < tokens.len() && tokens[pos] is Minus {
        lemma_factor(tokens, pos + 1, steps, d);
        let inner = factor_from(tokens, pos + 1, steps);
        lemma_depth_push(inner.0, StepView::Negate);
    } else {
        lemma_atom(tokens, pos, steps, d);
    }
}

proof fn lemma_atom(tokens: Seq<TokenView>, pos: int, steps: Seq<StepView>, d: nat)
    requires
        depth(steps) == Some(d),
    ensures
        adds_one(atom_from(tokens, pos, steps), d),
    decreases tokens.len() - pos, 1int,
{
    if 0 <= pos < tokens.len() {
        match tokens[pos] {
            TokenView::Number(text) => {
                lemma_depth_push(steps, StepView::Push(text));
            },
            TokenView::LParen => {
                lemma_sum(tokens, pos + 1, steps, d);
            },
            _ => {},
        }
    }
}

/// The steps of a text never find too few values on the stack, and those of a text
/// that nothing is wrong with leave exactly one.
pub proof fn a_program_leaves_one_value(text: Seq<char>)
    ensures
        depth(program(text).steps) is Some,
        program(text).end is Ok ==> depth(program(text).steps) == Some(1nat),
{
    assert(depth(Seq::<StepView>::empty()) == Some(0nat));
    if let Ok(tokens) = tokens_of(text) {
        lemma_sum(tokens, 0, Seq::empty(), 0);
    }
}

proof fn lemma_token_failures(bytes: Seq<u8>, i: int)
    ensures
        tokens_from(bytes, i) matches Err(e) ==> e is InvalidArgument,
    decreases bytes.len() - i,
{
    if 0 <= i < bytes.len() {
        lemma_token_failures(bytes, i + 1);
        let j = run_end(bytes, i);
        if i < j <= bytes.len() {
            lemma_token_failures(bytes, j);
        }
    }
}

/// Whatever is wrong with a text, it is reported as an invalid argument.
pub proof fn a_wrong_text_is_an_invalid_argument(text: Seq<char>)
    ensures
        program(text).end matches Err(e) ==> e is InvalidArgument,
{
    lemma_token_failures(vstd::utf8::encode_utf8(text), 0);
    assert(depth(Seq::<StepView>::empty()) == Some(0nat));
    if let Ok(tokens) = tokens_of(text) {
        lemma_sum(tokens, 0, Seq::empty(), 0);
    }
}

} // verus!
