//! The parser: the syntax tree, parsing errors, and the functions that turn
//! tokens into expressions.

use vstd::prelude::*;

use crate::integer::{integer_value, parse_integer};
use crate::lexer::{Token, TokenView};
use crate::prepend::{lemma_prepend_nothing, lemma_prepend_twice, prepend};

verus! {

/// A literal value.
#[derive(Debug, PartialEq)]
pub enum ValueType {
    Integer(i32),
    /// A single-precision number, held as its IEEE 754 bit pattern.
    Float(u32),
    String(String),
}

/// A binary operator.
#[derive(Debug, PartialEq, Clone, Copy)]
pub enum Operator {
    Plus,
    Minus,
}

/// A node of the syntax tree. A node owns its children.
#[derive(Debug, PartialEq)]
#[allow(inconsistent_fields)]
pub enum Expression {
    Value { value: ValueType },
    Infix { left: Box<Expression>, operator: Operator, right: Box<Expression> },
    Assignment { identifier: String, value: Box<Expression> },
}

/// Why a sequence of tokens is not a sequence of expressions.
#[derive(Debug, PartialEq, Clone, Copy)]
pub enum ParsingError {
    /// The text of a number token is not a signed 32-bit integer.
    NumberValueInvalid,
    /// No expression starts with this token.
    UnknownError,
}

/// What [`parse`] returns.
pub type ParsingResult = Result<Vec<Expression>, ParsingError>;

/// A cursor into a sequence of tokens, counted from zero.
pub type CurrentToken = usize;

/// What one step of the parser returns: the cursor behind what it read and
/// the expressions read so far.
pub type IntermediateParsingResult<'a> = Result<
    (CurrentToken, &'a mut Vec<Expression>),
    ParsingError,
>;

impl Clone for ValueType {
    fn clone(&self) -> (copy: ValueType)
        ensures
            copy == *self,
    {
        match self {
            ValueType::Integer(n) => ValueType::Integer(*n),
            ValueType::Float(bits) => ValueType::Float(*bits),
            ValueType::String(text) => ValueType::String(text.clone()),
        }
    }
}

impl Clone for Expression {
    fn clone(&self) -> (copy: Expression)
        ensures
            copy == *self,
        decreases self,
    {
        match self {
            Expression::Value { value } => Expression::Value { value: value.clone() },
            Expression::Infix { left, operator, right } => Expression::Infix {
                left: Box::new((**left).clone()),
                operator: *operator,
                right: Box::new((**right).clone()),
            },
            Expression::Assignment { identifier, value } => Expression::Assignment {
                identifier: identifier.clone(),
                value: Box::new((**value).clone()),
            },
        }
    }
}

/// The expression that a number token with the text `text` stands for.
pub open spec fn number_expression(text: Seq<char>) -> Result<Expression, ParsingError> {
    match integer_value(text) {
        Some(n) => Ok(Expression::Value { value: ValueType::Integer(n) }),
        None => Err(ParsingError::NumberValueInvalid),
    }
}

/// The expression that starts with `token`. Only a number token starts one.
pub open spec fn expression_of(token: TokenView) -> Result<Expression, ParsingError> {
    match token {
        TokenView::Number(text) => number_expression(text),
        _ => Err(ParsingError::UnknownError),
    }
}

/// The expressions that the tokens `tokens` stand for, one for each token in
/// the same order, or the error of the first token that stands for none.
pub open spec fn expressions(tokens: Seq<TokenView>) -> Result<Seq<Expression>, ParsingError>
    decreases tokens.len(),
{
    if tokens.len() == 0 {
        Ok(Seq::empty())
    } else {
        match expression_of(tokens[0]) {
            Err(error) => Err(error),
            Ok(expression) => prepend(seq![expression], expressions(tokens.skip(1))),
        }
    }
}

/// The view of what [`parse`] returns.
pub open spec fn parsing_view(result: ParsingResult) -> Result<Seq<Expression>, ParsingError> {
    match result {
        Ok(expressions) => Ok(expressions@),
        Err(error) => Err(error),
    }
}

/// Appends the expression of a number token with the text `value` to
/// `output` and returns the cursor behind the token at `current`, together
/// with `output`. On an error `output` stays as it was.
pub fn parse_number_expr<'a>(
    value: &str,
    current: usize,
    output: &'a mut Vec<Expression>,
) -> (result: IntermediateParsingResult<'a>)
    requires
        current < usize::MAX,
    ensures
        match number_expression(value@) {
            Ok(expression) => {
                &&& result is Ok
                &&& result->Ok_0.0 == current + 1
                &&& (*result->Ok_0.1)@ == old(output)@.push(expression)
                &&& final(output)@ == (*final(result->Ok_0.1))@
            },
            Err(error) => result is Err && result->Err_0 == error && final(output)@ == old(output)@,
        },
{
    match parse_integer(value) {
        None => Err(ParsingError::NumberValueInvalid),
        Some(value) => {
            output.push(Expression::Value { value: ValueType::Integer(value) });
            Ok((current + 1, output))
        },
    }
}

/// Appends the expression that starts at the token at `current` to `output`
/// and returns the cursor behind it, together with `output`. At the end of
/// the tokens nothing changes. On an error `output` stays as it was.
pub fn parse_next_expr<'a>(
    input: &Vec<Token>,
    current: usize,
    output: &'a mut Vec<Expression>,
) -> (result: IntermediateParsingResult<'a>)
    ensures
        current < input.len() ==> match expression_of(input[current as int]@) {
            Ok(expression) => {
                &&& result is Ok
                &&& result->Ok_0.0 == current + 1
                &&& (*result->Ok_0.1)@ == old(output)@.push(expression)
                &&& final(output)@ == (*final(result->Ok_0.1))@
            },
            Err(error) => result is Err && result->Err_0 == error && final(output)@ == old(output)@,
        },
        current >= input.len() ==> {
            &&& result is Ok
            &&& result->Ok_0.0 == current
            &&& (*result->Ok_0.1)@ == old(output)@
            &&& final(output)@ == (*final(result->Ok_0.1))@
        },
{
    if current >= input.len() {
        return Ok((current, output));
    }
    match &input[current] {
        Token::Number(n) => parse_number_expr(n.as_str(), current, output),
        _ => Err(ParsingError::UnknownError),
    }
}

/// Whether `failing` is the first of the tokens that stands for no
/// expression, and `error` the reason.
pub open spec fn first_failure(tokens: Seq<TokenView>, failing: int, error: ParsingError) -> bool {
    &&& 0 <= failing < tokens.len()
    &&& expression_of(tokens[failing]) == Err::<Expression, ParsingError>(error)
    &&& forall|i: int| 0 <= i < failing ==> expression_of(#[trigger] tokens[i]) is Ok
}

/// Each token is read on its own: where [`expressions`] succeeds, its result
/// holds the expression of each token at the token's place; where it fails,
/// its error is that of the first token that stands for no expression.
pub proof fn lemma_expressions_token_by_token(tokens: Seq<TokenView>)
    ensures
        match expressions(tokens) {
            Ok(all) => {
                &&& all.len() == tokens.len()
                &&& forall|i: int|
                    0 <= i < tokens.len() ==> expression_of(#[trigger] tokens[i]) == Ok::<
                        Expression,
                        ParsingError,
                    >(all[i])
            },
            Err(error) => exists|failing: int| first_failure(tokens, failing, error),
        },
    decreases tokens.len(),
{
    if tokens.len() > 0 {
        let rest = tokens.skip(1);
        lemma_expressions_token_by_token(rest);
        if expression_of(tokens[0]) is Ok {
            match expressions(rest) {
                Ok(others) => {
                    let all = expressions(tokens)->Ok_0;
                    assert forall|i: int| 0 <= i < tokens.len() implies expression_of(
                        #[trigger] tokens[i],
                    ) == Ok::<Expression, ParsingError>(all[i]) by {
                        if i > 0 {
                            assert(tokens[i] == rest[i - 1]);
                        }
                    }
                },
                Err(error) => {
                    let failing = choose|failing: int| first_failure(rest, failing, error);
                    assert forall|i: int| 0 <= i < failing + 1 implies expression_of(
                        #[trigger] tokens[i],
                    ) is Ok by {
                        if i > 0 {
                            assert(tokens[i] == rest[i - 1]);
                        }
                    }
                    assert(first_failure(tokens, failing + 1, error));
                },
            }
        } else {
            assert(first_failure(tokens, 0, expression_of(tokens[0])->Err_0));
        }
    }
}

/// Tokens that are all number tokens with the text of a signed 32-bit
/// integer stand for as many expressions, each the integer of its token, in
/// the same order.
pub proof fn lemma_integer_tokens_parse(tokens: Seq<TokenView>)
    requires
        forall|i: int|
            0 <= i < tokens.len() ==> (#[trigger] tokens[i]) is Number && integer_value(
                tokens[i]->Number_0,
            ) is Some,
    ensures
        expressions(tokens) is Ok,
        expressions(tokens)->Ok_0.len() == tokens.len(),
        forall|i: int|
            0 <= i < tokens.len() ==> #[trigger] expressions(tokens)->Ok_0[i] == (
            Expression::Value {
                value: ValueType::Integer(integer_value(tokens[i]->Number_0)->Some_0),
            }),
{
    lemma_expressions_token_by_token(tokens);
    if let Err(error) = expressions(tokens) {
        let failing = choose|failing: int| first_failure(tokens, failing, error);
    }
    assert forall|i: int| 0 <= i < tokens.len() implies #[trigger] expressions(tokens)->Ok_0[i]
        == (Expression::Value {
        value: ValueType::Integer(integer_value(tokens[i]->Number_0)->Some_0),
    }) by {
    }
}

/// Turns the tokens into expressions, one for each token in the same order,
/// or fails with the error of the first token that stands for none: see
/// [`expressions`]. The tokens stay as they are.
///
/// Where every token is a number token with the text of a signed 32-bit
/// integer, the result is the integers of the tokens, in the same order.
pub fn parse(tokens: &mut Vec<Token>) -> (result: ParsingResult)
    ensures
        *final(tokens) == *old(tokens),
        parsing_view(result) == expressions(old(tokens).deep_view()),
        (forall|i: int|
            0 <= i < old(tokens).len() ==> (#[trigger] old(tokens)[i])@ is Number && integer_value(
                old(tokens)[i]@->Number_0,
            ) is Some) ==> {
            &&& result is Ok
            &&& result->Ok_0.len() == old(tokens).len()
            &&& forall|i: int|
                0 <= i < old(tokens).len() ==> #[trigger] result->Ok_0[i] == (Expression::Value {
                    value: ValueType::Integer(integer_value(old(tokens)[i]@->Number_0)->Some_0),
                })
        },
{
    let ghost all = tokens.deep_view();
    let mut output: Vec<Expression> = Vec::new();
    let mut current: usize = 0;
    proof {
        assert(all.skip(0) == all);
        lemma_prepend_nothing(expressions(all));
    }
    while current < tokens.len()
        invariant
            *tokens == *old(tokens),
            all == tokens.deep_view(),
            current <= tokens.len(),
            expressions(all) == prepend(output@, expressions(all.skip(current as int))),
        decreases tokens.len() - current,
    {
        let ghost rest = all.skip(current as int);
        let ghost before = output@;
        match parse_next_expr(tokens, current, &mut output) {
            Err(error) => {
                return Err(error);
            },
            Ok((next, _)) => {
                proof {
                    assert(rest.skip(1) == all.skip(next as int));
                    assert(output@ == before + seq![output@.last()]);
                    lemma_prepend_twice(before, seq![output@.last()], expressions(rest.skip(1)));
                }
                current = next;
            },
        }
    }
    proof {
        assert forall|i: int| 0 <= i < tokens.len() implies (#[trigger] tokens[i])@ == all[i] by {}
        if forall|i: int| 0 <= i < all.len() ==> (#[trigger] all[i]) is Number && integer_value(
            all[i]->Number_0,
        ) is Some {
            lemma_integer_tokens_parse(all);
        }
    }
    Ok(output)
}

} // verus!
