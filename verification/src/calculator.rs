//! The whole way from text to a number.

use vstd::prelude::*;
use crate::ast::{evaluate, Ast, AstView};
use crate::decimal::Decimal;
use crate::lexer::{lex_message, tokenise, tokenise_spec, LexError, LexErrorView};
use crate::parser::{parse, parse_message, parse_spec, ParseError, ParseErrorView};

verus! {

/// Why a text is no expression: a word in it is no token, or its tokens do
/// not follow the grammar.
#[derive(Debug, PartialEq, Eq)]
pub enum CalcError {
    Lex(LexError),
    Parse(ParseError),
}

/// The mathematical content of a [`CalcError`].
pub ghost enum CalcErrorView {
    Lex(LexErrorView),
    Parse(ParseErrorView),
}

impl View for CalcError {
    type V = CalcErrorView;

    open spec fn view(&self) -> CalcErrorView {
        match self {
            CalcError::Lex(e) => CalcErrorView::Lex(e@),
            CalcError::Parse(e) => CalcErrorView::Parse(e@),
        }
    }
}

/// The expression tree that a text stands for, or the first thing wrong
/// with it.
pub open spec fn tree_of(input: Seq<char>) -> Result<AstView, CalcErrorView> {
    match tokenise_spec(input) {
        Err(e) => Err(CalcErrorView::Lex(e)),
        Ok(tokens) => match parse_spec(tokens) {
            Err(e) => Err(CalcErrorView::Parse(e)),
            Ok(tree) => Ok(tree),
        },
    }
}

/// The number that a text stands for, or the first thing wrong with it.
pub open spec fn value_of(input: Seq<char>) -> Result<real, CalcErrorView> {
    match tree_of(input) {
        Err(e) => Err(e),
        Ok(tree) => Ok(tree.value()),
    }
}

/// `r` is what reading `input` gives: its tree, or the first thing wrong
/// with it.
pub open spec fn reads_as(input: Seq<char>, r: Result<Ast, CalcError>) -> bool {
    match r {
        Ok(tree) => tree_of(input) == Ok::<AstView, CalcErrorView>(tree@),
        Err(e) => tree_of(input) == Err::<AstView, CalcErrorView>(e@),
    }
}

/// `r` is what computing `input` gives: the canonical decimal for its
/// number, or the first thing wrong with it.
pub open spec fn amounts_to(input: Seq<char>, r: Result<Decimal, CalcError>) -> bool {
    match r {
        Ok(number) => number@.canonical() && value_of(input) == Ok::<real, CalcErrorView>(
            number@.value(),
        ),
        Err(e) => value_of(input) == Err::<real, CalcErrorView>(e@),
    }
}

/// What a [`CalcError`] says.
pub open spec fn calc_message(e: CalcErrorView) -> Seq<char> {
    match e {
        CalcErrorView::Lex(e) => lex_message(e),
        CalcErrorView::Parse(e) => parse_message(e),
    }
}

impl CalcError {
    /// Says what is wrong and where.
    pub fn message(&self) -> (out: String)
        ensures
            out@ == calc_message(self@),
    {
        match self {
            CalcError::Lex(e) => e.message(),
            CalcError::Parse(e) => e.message(),
        }
    }
}

/// Reads an expression: cuts the text into tokens and builds their tree.
pub fn parse_text(input: &str) -> (r: Result<Ast, CalcError>)
    ensures
        reads_as(input@, r),
{
    let tokens = match tokenise(input) {
        Ok(tokens) => tokens,
        Err(e) => {
            return Err(CalcError::Lex(e));
        },
    };
    match parse(&tokens) {
        Ok(tree) => Ok(tree),
        Err(e) => Err(CalcError::Parse(e)),
    }
}

/// Computes the number that an expression in text stands for.
pub fn calculate(input: &str) -> (r: Result<Decimal, CalcError>)
    ensures
        amounts_to(input@, r),
{
    match parse_text(input) {
        Ok(tree) => Ok(evaluate(&tree)),
        Err(e) => Err(e),
    }
}

} // verus!
