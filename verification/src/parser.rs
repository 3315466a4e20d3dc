//! The parser: from tokens to an expression tree.
//!
//! The grammar has three levels. A sum is a chain of products joined by `+`
//! and `-`; a product is a chain of unary expressions joined by `*`; a unary
//! expression is a number with any count of `-` in front. Chains group from
//! the left. The parser reads the tokens once, from left to right, and stops
//! at the first token that does not fit.

use vstd::prelude::*;
use vstd::string::StringExecFns;
use crate::ast::{Ast, AstView};
use crate::grammar::{flatten, is_sum, lemma_parse_sound};
use crate::numeral::{append_nat, nat_digits};
use crate::token::{display, display_text, same_kind, token_text, token_views, Token, TokenView};

verus! {

/// How many tokens before the offending one an error shows at most.
pub const CONTEXT_WINDOW: usize = 5;

/// What the parser was looking for when it stopped.
#[derive(Clone, Copy, Debug, PartialEq, Eq)]
pub enum Expected {
    Number,
    EndOfInput,
}

/// The token that did not fit, what was wanted in its place, its place in
/// the token sequence, and the few tokens before it.
#[derive(Debug, PartialEq, Eq)]
pub struct ParseError {
    pub expected: Expected,
    pub found: Token,
    pub position: usize,
    pub context: Vec<Token>,
}

/// The mathematical content of a [`ParseError`].
pub ghost struct ParseErrorView {
    pub expected: Expected,
    pub found: TokenView,
    pub position: nat,
    pub context: Seq<TokenView>,
}

impl View for ParseError {
    type V = ParseErrorView;

    open spec fn view(&self) -> ParseErrorView {
        ParseErrorView {
            expected: self.expected,
            found: self.found@,
            position: self.position as nat,
            context: token_views(self.context@),
        }
    }
}

/// The token at place `pos`, or the end mark past the last token.
pub open spec fn token_at(ts: Seq<TokenView>, pos: int) -> TokenView {
    if 0 <= pos < ts.len() {
        ts[pos]
    } else {
        TokenView::EndOfInput
    }
}

/// The tokens in the [`CONTEXT_WINDOW`] places just before place `pos`.
/// Places behind the last token hold none.
pub open spec fn context_before(ts: Seq<TokenView>, pos: int) -> Seq<TokenView> {
    let end = if pos < ts.len() { pos } else { ts.len() as int };
    let first = if pos > CONTEXT_WINDOW { pos - CONTEXT_WINDOW } else { 0 };
    ts.subrange(if first < end { first } else { end }, end)
}

/// The error for a token at place `pos` that stands where `expected` should.
pub open spec fn failure(ts: Seq<TokenView>, pos: int, expected: Expected) -> ParseErrorView {
    ParseErrorView {
        expected,
        found: token_at(ts, pos),
        position: pos as nat,
        context: context_before(ts, pos),
    }
}

/// A number at place `pos`: the literal and the place after it.
pub open spec fn primary_at(ts: Seq<TokenView>, pos: int) -> Result<(AstView, int), ParseErrorView> {
    match token_at(ts, pos) {
        TokenView::Number(d) => Ok((AstView::Literal(d), pos + 1)),
        _ => Err(failure(ts, pos, Expected::Number)),
    }
}

/// A unary expression that starts at place `pos`: the tree and the place
/// after it.
pub open spec fn unary_at(ts: Seq<TokenView>, pos: int) -> Result<(AstView, int), ParseErrorView>
    decreases ts.len() - pos,
{
    if token_at(ts, pos) is Minus {
        match unary_at(ts, pos + 1) {
            Ok((operand, next)) => Ok((AstView::Negate(Box::new(operand)), next)),
            Err(e) => Err(e),
        }
    } else {
        primary_at(ts, pos)
    }
}

/// The rest of a product whose operands so far make up `left`, with the
/// next token at place `pos`.
pub open spec fn product_from(ts: Seq<TokenView>, left: AstView, pos: int) -> Result<
    (AstView, int),
    ParseErrorView,
>
    decreases ts.len() - pos,
{
    if token_at(ts, pos) is Multiply {
        match unary_at(ts, pos + 1) {
            Ok((right, next)) => {
                proof {
                    lemma_unary_advances(ts, pos + 1);
                }
                product_from(ts, AstView::Multiply(Box::new(left), Box::new(right)), next)
            },
            Err(e) => Err(e),
        }
    } else {
        Ok((left, pos))
    }
}

/// A product that starts at place `pos`.
pub open spec fn product_at(ts: Seq<TokenView>, pos: int) -> Result<(AstView, int), ParseErrorView> {
    match unary_at(ts, pos) {
        Ok((left, next)) => product_from(ts, left, next),
        Err(e) => Err(e),
    }
}

/// The rest of a sum whose operands so far make up `left`, with the next
/// token at place `pos`.
pub open spec fn sum_from(ts: Seq<TokenView>, left: AstView, pos: int) -> Result<
    (AstView, int),
    ParseErrorView,
>
    decreases ts.len() - pos,
{
    if token_at(ts, pos) is Plus || token_at(ts, pos) is Minus {
        match product_at(ts, pos + 1) {
            Ok((right, next)) => {
                proof {
                    lemma_product_advances(ts, pos + 1);
                }
                let joined = if token_at(ts, pos) is Plus {
                    AstView::Add(Box::new(left), Box::new(right))
                } else {
                    AstView::Subtract(Box::new(left), Box::new(right))
                };
                sum_from(ts, joined, next)
            },
            Err(e) => Err(e),
        }
    } else {
        Ok((left, pos))
    }
}

/// A sum that starts at place `pos`.
pub open spec fn sum_at(ts: Seq<TokenView>, pos: int) -> Result<(AstView, int), ParseErrorView> {
    match product_at(ts, pos) {
        Ok((left, next)) => sum_from(ts, left, next),
        Err(e) => Err(e),
    }
}

/// A sum that starts at place `pos` and runs to the end of the tokens.
pub open spec fn expression_at(ts: Seq<TokenView>, pos: int) -> Result<AstView, ParseErrorView> {
    match sum_at(ts, pos) {
        Ok((tree, next)) => if next >= ts.len() {
            Ok(tree)
        } else {
            Err(failure(ts, next, Expected::EndOfInput))
        },
        Err(e) => Err(e),
    }
}

/// The tree for a whole token sequence, or the first token that does not
/// fit.
pub open spec fn parse_spec(ts: Seq<TokenView>) -> Result<AstView, ParseErrorView> {
    expression_at(ts, 0)
}

/// `e` says that a number is missing at a place from `pos` on, within the
/// tokens or just behind them.
pub open spec fn is_number_missing(ts: Seq<TokenView>, pos: int, e: ParseErrorView) -> bool {
    &&& pos <= e.position <= ts.len()
    &&& e == failure(ts, e.position as int, Expected::Number)
    &&& !(e.found is Number)
}

/// A unary expression takes at least one token and ends within the tokens.
pub proof fn lemma_unary_advances(ts: Seq<TokenView>, pos: int)
    requires
        0 <= pos <= ts.len(),
    ensures
        unary_at(ts, pos) matches Ok((_, next)) ==> pos < next <= ts.len(),
        unary_at(ts, pos) matches Err(e) ==> is_number_missing(ts, pos, e),
    decreases ts.len() - pos,
{
    if token_at(ts, pos) is Minus {
        lemma_unary_advances(ts, pos + 1);
    }
}

/// The rest of a product never moves back.
pub proof fn lemma_product_from_advances(ts: Seq<TokenView>, left: AstView, pos: int)
    requires
        0 <= pos <= ts.len(),
    ensures
        product_from(ts, left, pos) matches Ok((_, next)) ==> pos <= next <= ts.len(),
        product_from(ts, left, pos) matches Err(e) ==> is_number_missing(ts, pos, e),
    decreases ts.len() - pos,
{
    if token_at(ts, pos) is Multiply {
        lemma_unary_advances(ts, pos + 1);
        if let Ok((right, next)) = unary_at(ts, pos + 1) {
            lemma_product_from_advances(
                ts,
                AstView::Multiply(Box::new(left), Box::new(right)),
                next,
            );
        }
    }
}

/// A product takes at least one token and ends within the tokens.
pub proof fn lemma_product_advances(ts: Seq<TokenView>, pos: int)
    requires
        0 <= pos <= ts.len(),
    ensures
        product_at(ts, pos) matches Ok((_, next)) ==> pos < next <= ts.len(),
        product_at(ts, pos) matches Err(e) ==> is_number_missing(ts, pos, e),
{
    lemma_unary_advances(ts, pos);
    if let Ok((left, next)) = unary_at(ts, pos) {
        lemma_product_from_advances(ts, left, next);
    }
}

/// The rest of a sum never moves back.
pub proof fn lemma_sum_from_advances(ts: Seq<TokenView>, left: AstView, pos: int)
    requires
        0 <= pos <= ts.len(),
    ensures
        sum_from(ts, left, pos) matches Ok((_, next)) ==> pos <= next <= ts.len(),
        sum_from(ts, left, pos) matches Err(e) ==> is_number_missing(ts, pos, e),
    decreases ts.len() - pos,
{
    if token_at(ts, pos) is Plus || token_at(ts, pos) is Minus {
        lemma_product_advances(ts, pos + 1);
        if let Ok((right, next)) = product_at(ts, pos + 1) {
            let joined = if token_at(ts, pos) is Plus {
                AstView::Add(Box::new(left), Box::new(right))
            } else {
                AstView::Subtract(Box::new(left), Box::new(right))
            };
            lemma_sum_from_advances(ts, joined, next);
        }
    }
}

/// A sum takes at least one token and ends within the tokens.
pub proof fn lemma_sum_advances(ts: Seq<TokenView>, pos: int)
    requires
        0 <= pos <= ts.len(),
    ensures
        sum_at(ts, pos) matches Ok((_, next)) ==> pos < next <= ts.len(),
        sum_at(ts, pos) matches Err(e) ==> is_number_missing(ts, pos, e),
{
    lemma_product_advances(ts, pos);
    if let Ok((left, next)) = product_at(ts, pos) {
        lemma_sum_from_advances(ts, left, next);
    }
}

/// An error names a place within the tokens or just behind them, with the
/// token that stands there and the tokens before it. Where a number was
/// wanted, the token there is none; where the end was wanted, tokens are
/// left.
pub proof fn lemma_parse_error_place(ts: Seq<TokenView>)
    ensures
        parse_spec(ts) matches Err(e) ==> {
            &&& e.position <= ts.len()
            &&& e == failure(ts, e.position as int, e.expected)
            &&& e.expected is Number ==> !(e.found is Number)
            &&& e.expected is EndOfInput ==> e.position < ts.len()
        },
{
    lemma_sum_advances(ts, 0);
}

/// What was wanted, in words.
pub open spec fn expected_text(e: Expected) -> Seq<char> {
    match e {
        Expected::Number => "a number"@,
        Expected::EndOfInput => "end of input"@,
    }
}

/// What was found, in words: the end of the input, or the token between
/// backquotes.
pub open spec fn found_text(t: TokenView) -> Seq<char> {
    match t {
        TokenView::EndOfInput => "end of input"@,
        _ => "`"@ + token_text(t) + "`"@,
    }
}

/// What a [`ParseError`] says.
pub open spec fn parse_message(e: ParseErrorView) -> Seq<char> {
    "expected "@ + expected_text(e.expected) + ", found "@ + found_text(e.found)
        + " at position "@ + nat_digits(e.position) + " after: "@ + display_text(e.context)
}

impl ParseError {
    /// Says what was wanted, what was found and where, and shows the tokens
    /// before it.
    pub fn message(&self) -> (out: String)
        ensures
            out@ == parse_message(self@),
    {
        let mut out = String::new();
        out.append("expected ");
        match self.expected {
            Expected::Number => out.append("a number"),
            Expected::EndOfInput => out.append("end of input"),
        }
        out.append(", found ");
        match &self.found {
            Token::EndOfInput => out.append("end of input"),
            other => {
                out.append("`");
                out.append(other.to_string().as_str());
                out.append("`");
            },
        }
        out.append(" at position ");
        append_nat(&mut out, self.position);
        out.append(" after: ");
        out.append(display(self.context.as_slice()).as_str());
        proof {
            assert(out@ =~= parse_message(self@));
        }
        out
    }
}

/// A reader over a token sequence. It holds the tokens and the place of the
/// next token to read; the place only ever moves forward. Behind the last
/// token the reader sees the end mark, at every place.
#[derive(Debug)]
pub struct Parser<'a> {
    tokens: &'a Vec<Token>,
    current_pos: usize,
}

/// The mathematical content of a [`Parser`].
pub ghost struct ParserView {
    pub tokens: Seq<TokenView>,
    pub position: nat,
}

impl<'a> View for Parser<'a> {
    type V = ParserView;

    closed spec fn view(&self) -> ParserView {
        ParserView { tokens: token_views(self.tokens@), position: self.current_pos as nat }
    }
}

/// What a parsing step gave, with the place where it left the reader.
pub open spec fn step(r: Result<Ast, ParseError>, position: nat) -> Result<
    (AstView, int),
    ParseErrorView,
> {
    match r {
        Ok(tree) => Ok((tree@, position as int)),
        Err(e) => Err(e@),
    }
}

/// What a whole parse gave.
pub open spec fn outcome(r: Result<Ast, ParseError>) -> Result<AstView, ParseErrorView> {
    match r {
        Ok(tree) => Ok(tree@),
        Err(e) => Err(e@),
    }
}

impl<'a> Parser<'a> {
    /// A reader at the start of `input`.
    pub fn new(input: &'a Vec<Token>) -> (p: Parser<'a>)
        ensures
            p@ == (ParserView { tokens: token_views(input@), position: 0 }),
    {
        Parser { tokens: input, current_pos: 0 }
    }

    /// The place of the next token to read.
    pub fn position(&self) -> (pos: usize)
        ensures
            pos == self@.position,
    {
        self.current_pos
    }

    /// Reads the next token and moves past it. Behind the last token it
    /// gives the end mark, and moves on by one place all the same.
    pub fn consume_token(&mut self) -> (token: Token)
        requires
            old(self)@.position < usize::MAX,
        ensures
            token@ == token_at(old(self)@.tokens, old(self)@.position as int),
            final(self)@.tokens == old(self)@.tokens,
            final(self)@.position == old(self)@.position + 1,
    {
        let token = if self.current_pos < self.tokens.len() {
            self.tokens[self.current_pos].clone()
        } else {
            Token::EndOfInput
        };
        self.current_pos = self.current_pos + 1;
        token
    }

    /// Tests whether the next token is of the kind of `token`, and moves
    /// past it if and only if it is. Behind the last token the next token is
    /// the end mark. Where the test matches, the place must be one that can
    /// still move on; within the tokens it always is.
    pub fn match_token(&mut self, token: &Token) -> (matched: bool)
        requires
            same_kind(token_at(old(self)@.tokens, old(self)@.position as int), token@)
                ==> old(self)@.position < usize::MAX,
        ensures
            matched == same_kind(
                token_at(old(self)@.tokens, old(self)@.position as int),
                token@,
            ),
            final(self)@.tokens == old(self)@.tokens,
            final(self)@.position == if matched {
                old(self)@.position + 1
            } else {
                old(self)@.position
            },
    {
        let end = Token::EndOfInput;
        let current: &Token = if self.current_pos < self.tokens.len() {
            &self.tokens[self.current_pos]
        } else {
            &end
        };
        let matched = match current {
            Token::Number(_) => match token {
                Token::Number(_) => true,
                _ => false,
            },
            Token::Minus => match token {
                Token::Minus => true,
                _ => false,
            },
            Token::Plus => match token {
                Token::Plus => true,
                _ => false,
            },
            Token::Multiply => match token {
                Token::Multiply => true,
                _ => false,
            },
            Token::EndOfInput => match token {
                Token::EndOfInput => true,
                _ => false,
            },
        };
        if matched {
            self.current_pos = self.current_pos + 1;
        }
        matched
    }

    /// The token that was read last.
    pub fn previous(&self) -> (token: Token)
        requires
            1 <= self@.position <= self@.tokens.len(),
        ensures
            token@ == self@.tokens[self@.position - 1],
    {
        self.tokens[self.current_pos - 1].clone()
    }

    /// The error for the next token, which stands where `expected` should.
    fn failure(&self, expected: Expected) -> (e: ParseError)
        ensures
            e@ == failure(self@.tokens, self@.position as int, expected),
    {
        let pos: usize = self.current_pos;
        let len: usize = self.tokens.len();
        let found = if pos < len {
            self.tokens[pos].clone()
        } else {
            Token::EndOfInput
        };
        let end: usize = if pos < len { pos } else { len };
        let first: usize = if pos > CONTEXT_WINDOW { pos - CONTEXT_WINDOW } else { 0 };
        let start: usize = if first < end { first } else { end };
        let mut context: Vec<Token> = Vec::new();
        let mut i: usize = start;
        while i < end
            invariant
                start <= i <= end <= self.tokens@.len(),
                token_views(context@) == token_views(self.tokens@).subrange(start as int, i as int),
            decreases end - i,
        {
            let token = self.tokens[i].clone();
            proof {
                let all = token_views(self.tokens@);
                assert(token_views(context@.push(token)) =~= token_views(context@).push(token@));
                assert(all.subrange(start as int, i as int).push(token@) =~= all.subrange(
                    start as int,
                    i + 1,
                ));
            }
            context.push(token);
            i = i + 1;
        }
        ParseError { expected, found, position: pos, context }
    }

    /// Reads a number.
    pub fn number(&mut self) -> (r: Result<Ast, ParseError>)
        ensures
            final(self)@.tokens == old(self)@.tokens,
            step(r, final(self)@.position) == primary_at(
                old(self)@.tokens,
                old(self)@.position as int,
            ),
            r matches Err(e) ==> final(self)@.position == e@.position,
            old(self)@.position <= final(self)@.position,
            old(self)@.position <= old(self)@.tokens.len() ==> final(self)@.position
                <= final(self)@.tokens.len(),
    {
        if self.current_pos < self.tokens.len() {
            match &self.tokens[self.current_pos] {
                Token::Number(d) => {
                    let tree = Ast::Literal(d.clone());
                    self.current_pos = self.current_pos + 1;
                    return Ok(tree);
                },
                _ => {},
            }
        }
        Err(self.failure(Expected::Number))
    }

    /// Reads a unary expression: a number with any count of minus signs in
    /// front of it.
    pub fn minus(&mut self) -> (r: Result<Ast, ParseError>)
        ensures
            final(self)@.tokens == old(self)@.tokens,
            step(r, final(self)@.position) == unary_at(
                old(self)@.tokens,
                old(self)@.position as int,
            ),
            r matches Err(e) ==> final(self)@.position == e@.position,
            old(self)@.position <= final(self)@.position,
            old(self)@.position <= old(self)@.tokens.len() ==> final(self)@.position
                <= final(self)@.tokens.len(),
        decreases old(self)@.tokens.len() - old(self)@.position,
    {
        proof {
            assert(self.tokens@.len() == self.tokens.len());
        }
        if self.match_token(&Token::Minus) {
            match self.minus() {
                Ok(operand) => Ok(Ast::Negate(Box::new(operand))),
                Err(e) => Err(e),
            }
        } else {
            self.number()
        }
    }

    /// Reads a product: unary expressions joined by `*`, grouped from the
    /// left.
    pub fn multiply(&mut self) -> (r: Result<Ast, ParseError>)
        ensures
            final(self)@.tokens == old(self)@.tokens,
            step(r, final(self)@.position) == product_at(
                old(self)@.tokens,
                old(self)@.position as int,
            ),
            r matches Err(e) ==> final(self)@.position == e@.position,
            old(self)@.position <= final(self)@.position,
            old(self)@.position <= old(self)@.tokens.len() ==> final(self)@.position
                <= final(self)@.tokens.len(),
    {
        let ghost ts = self@.tokens;
        let ghost goal = product_at(ts, self@.position as int);
        proof {
            if self@.position <= ts.len() {
                lemma_unary_advances(ts, self@.position as int);
            }
        }
        let mut expression = match self.minus() {
            Ok(tree) => tree,
            Err(e) => {
                return Err(e);
            },
        };
        loop
            invariant
                self@.tokens == ts,
                ts == old(self)@.tokens,
                goal == product_at(ts, old(self)@.position as int),
                old(self)@.position <= self@.position <= self@.tokens.len(),
                product_from(ts, expression@, self@.position as int) == goal,
            ensures
                self@.tokens == ts,
                Ok::<(AstView, int), ParseErrorView>((expression@, self@.position as int)) == goal,
            decreases self@.tokens.len() - self@.position,
        {
            proof {
                assert(self.tokens@.len() == self.tokens.len());
            }
            if !self.match_token(&Token::Multiply) {
                break;
            }
            proof {
                lemma_unary_advances(ts, self@.position as int);
            }
            let right = match self.minus() {
                Ok(tree) => tree,
                Err(e) => {
                    return Err(e);
                },
            };
            expression = Ast::Multiply(Box::new(expression), Box::new(right));
        }
        Ok(expression)
    }

    /// Reads a sum: products joined by `+` and `-`, grouped from the left.
    pub fn binary(&mut self) -> (r: Result<Ast, ParseError>)
        ensures
            final(self)@.tokens == old(self)@.tokens,
            step(r, final(self)@.position) == sum_at(old(self)@.tokens, old(self)@.position as int),
            r matches Err(e) ==> final(self)@.position == e@.position,
            old(self)@.position <= final(self)@.position,
            old(self)@.position <= old(self)@.tokens.len() ==> final(self)@.position
                <= final(self)@.tokens.len(),
    {
        let ghost ts = self@.tokens;
        let ghost goal = sum_at(ts, self@.position as int);
        proof {
            if self@.position <= ts.len() {
                lemma_product_advances(ts, self@.position as int);
            }
        }
        let mut expression = match self.multiply() {
            Ok(tree) => tree,
            Err(e) => {
                return Err(e);
            },
        };
        loop
            invariant
                self@.tokens == ts,
                ts == old(self)@.tokens,
                goal == sum_at(ts, old(self)@.position as int),
                old(self)@.position <= self@.position <= self@.tokens.len(),
                sum_from(ts, expression@, self@.position as int) == goal,
            ensures
                self@.tokens == ts,
                Ok::<(AstView, int), ParseErrorView>((expression@, self@.position as int)) == goal,
            decreases self@.tokens.len() - self@.position,
        {
            proof {
                assert(self.tokens@.len() == self.tokens.len());
            }
            let plus: bool = self.match_token(&Token::Plus);
            let minus: bool = !plus && self.match_token(&Token::Minus);
            if !plus && !minus {
                break;
            }
            proof {
                lemma_product_advances(ts, self@.position as int);
            }
            let right = match self.multiply() {
                Ok(tree) => tree,
                Err(e) => {
                    return Err(e);
                },
            };
            expression = if plus {
                Ast::Add(Box::new(expression), Box::new(right))
            } else {
                Ast::Subtract(Box::new(expression), Box::new(right))
            };
        }
        Ok(expression)
    }

    /// Reads a sum that must run to the end of the tokens.
    pub fn parse(&mut self) -> (r: Result<Ast, ParseError>)
        ensures
            final(self)@.tokens == old(self)@.tokens,
            outcome(r) == expression_at(old(self)@.tokens, old(self)@.position as int),
            r is Ok ==> final(self)@.position == final(self)@.tokens.len(),
            r matches Err(e) ==> final(self)@.position == e@.position,
            old(self)@.position <= final(self)@.position,
            old(self)@.position <= old(self)@.tokens.len() ==> final(self)@.position
                <= final(self)@.tokens.len(),
    {
        proof {
            if self@.position <= self@.tokens.len() {
                lemma_sum_advances(self@.tokens, self@.position as int);
            }
        }
        let tree = match self.binary() {
            Ok(tree) => tree,
            Err(e) => {
                return Err(e);
            },
        };
        if self.current_pos < self.tokens.len() {
            Err(self.failure(Expected::EndOfInput))
        } else {
            Ok(tree)
        }
    }
}

/// Builds the expression tree for a token sequence. Every token must be
/// used: the first one that does not fit, the end of the input where a
/// number is missing, and a token left over after a whole expression each
/// give an error.
pub fn parse(tokens: &Vec<Token>) -> (r: Result<Ast, ParseError>)
    ensures
        outcome(r) == parse_spec(token_views(tokens@)),
        r matches Ok(tree) ==> is_sum(tree@) && flatten(tree@) == token_views(tokens@),
{
    proof {
        lemma_parse_sound(token_views(tokens@));
    }
    let mut parser = Parser::new(tokens);
    parser.parse()
}

} // verus!
