//! Where a parse error lies: at the first token with which the tokens read
//! so far stop being the beginning of any expression.
//!
//! Two laws say so. The tokens before the offending one can be completed to
//! an expression ([`lemma_error_is_leftmost`]), and nothing that follows the
//! offending token changes the error ([`lemma_error_is_final`]).

use vstd::prelude::*;
use crate::ast::AstView;
use crate::decimal::DecimalView;
use crate::grammar::{lemma_parse_complete, lemma_sum_sound};
use crate::parser::{
    context_before, failure, lemma_product_advances, lemma_product_from_advances,
    lemma_sum_advances, lemma_sum_from_advances, lemma_unary_advances, parse_spec, product_at,
    product_from, sum_at, sum_from, token_at, unary_at, Expected, ParseErrorView,
};
use crate::token::TokenView;

verus! {

/// The two sequences hold the same first `count` tokens.
pub open spec fn agree(first: Seq<TokenView>, second: Seq<TokenView>, count: int) -> bool {
    &&& 0 <= count <= first.len()
    &&& count <= second.len()
    &&& forall|i: int| 0 <= i < count ==> first[i] == second[i]
}

/// An error within the part where two sequences agree is the same error in
/// both.
proof fn lemma_failure_agrees(
    ts: Seq<TokenView>,
    other: Seq<TokenView>,
    count: int,
    pos: int,
    expected: Expected,
)
    requires
        agree(ts, other, count),
        0 <= pos < count,
    ensures
        failure(other, pos, expected) == failure(ts, pos, expected),
{
    assert(context_before(other, pos) =~= context_before(ts, pos));
}

/// A unary expression, or a missing number, within the part where two
/// sequences agree is the same in both.
proof fn lemma_unary_agrees(ts: Seq<TokenView>, other: Seq<TokenView>, count: int, pos: int)
    requires
        agree(ts, other, count),
        0 <= pos <= count,
    ensures
        unary_at(ts, pos) matches Ok((_, next)) && next <= count ==> unary_at(other, pos)
            == unary_at(ts, pos),
        unary_at(ts, pos) matches Err(e) && e.position < count ==> unary_at(other, pos)
            == unary_at(ts, pos),
    decreases ts.len() - pos,
{
    lemma_unary_advances(ts, pos);
    if pos < count {
        if token_at(ts, pos) is Minus {
            lemma_unary_advances(ts, pos + 1);
            lemma_unary_agrees(ts, other, count, pos + 1);
        } else {
            lemma_failure_agrees(ts, other, count, pos, Expected::Number);
        }
    }
}

/// The rest of a product that ends before the place where two sequences
/// part, or a number missing before it, is the same in both.
proof fn lemma_product_from_agrees(
    ts: Seq<TokenView>,
    other: Seq<TokenView>,
    count: int,
    left: AstView,
    pos: int,
)
    requires
        agree(ts, other, count),
        0 <= pos <= count,
    ensures
        product_from(ts, left, pos) matches Ok((_, next)) && next < count ==> product_from(
            other,
            left,
            pos,
        ) == product_from(ts, left, pos),
        product_from(ts, left, pos) matches Err(e) && e.position < count ==> product_from(
            other,
            left,
            pos,
        ) == product_from(ts, left, pos),
    decreases ts.len() - pos,
{
    lemma_product_from_advances(ts, left, pos);
    if pos < count && token_at(ts, pos) is Multiply {
        lemma_unary_advances(ts, pos + 1);
        lemma_unary_agrees(ts, other, count, pos + 1);
        if let Ok((right, next)) = unary_at(ts, pos + 1) {
            let joined = AstView::Multiply(Box::new(left), Box::new(right));
            lemma_product_from_advances(ts, joined, next);
            if next <= count {
                lemma_product_from_agrees(ts, other, count, joined, next);
            }
        }
    }
}

/// A product that ends before the place where two sequences part, or a
/// number missing before it, is the same in both.
proof fn lemma_product_agrees(ts: Seq<TokenView>, other: Seq<TokenView>, count: int, pos: int)
    requires
        agree(ts, other, count),
        0 <= pos <= count,
    ensures
        product_at(ts, pos) matches Ok((_, next)) && next < count ==> product_at(other, pos)
            == product_at(ts, pos),
        product_at(ts, pos) matches Err(e) && e.position < count ==> product_at(other, pos)
            == product_at(ts, pos),
{
    lemma_unary_advances(ts, pos);
    lemma_unary_agrees(ts, other, count, pos);
    if let Ok((left, next)) = unary_at(ts, pos) {
        lemma_product_from_advances(ts, left, next);
        if next <= count {
            lemma_product_from_agrees(ts, other, count, left, next);
        }
    }
}

/// The rest of a sum that ends before the place where two sequences part,
/// or a number missing before it, is the same in both.
proof fn lemma_sum_from_agrees(
    ts: Seq<TokenView>,
    other: Seq<TokenView>,
    count: int,
    left: AstView,
    pos: int,
)
    requires
        agree(ts, other, count),
        0 <= pos <= count,
    ensures
        sum_from(ts, left, pos) matches Ok((_, next)) && next < count ==> sum_from(
            other,
            left,
            pos,
        ) == sum_from(ts, left, pos),
        sum_from(ts, left, pos) matches Err(e) && e.position < count ==> sum_from(
            other,
            left,
            pos,
        ) == sum_from(ts, left, pos),
    decreases ts.len() - pos,
{
    lemma_sum_from_advances(ts, left, pos);
    if pos < count && (token_at(ts, pos) is Plus || token_at(ts, pos) is Minus) {
        lemma_product_advances(ts, pos + 1);
        lemma_product_agrees(ts, other, count, pos + 1);
        if let Ok((right, next)) = product_at(ts, pos + 1) {
            let joined = if token_at(ts, pos) is Plus {
                AstView::Add(Box::new(left), Box::new(right))
            } else {
                AstView::Subtract(Box::new(left), Box::new(right))
            };
            lemma_sum_from_advances(ts, joined, next);
            if next < count {
                lemma_sum_from_agrees(ts, other, count, joined, next);
            }
        }
    }
}

/// A sum that ends before the place where two sequences part, or a number
/// missing before it, is the same in both.
proof fn lemma_sum_agrees(ts: Seq<TokenView>, other: Seq<TokenView>, count: int, pos: int)
    requires
        agree(ts, other, count),
        0 <= pos <= count,
    ensures
        sum_at(ts, pos) matches Ok((_, next)) && next < count ==> sum_at(other, pos) == sum_at(
            ts,
            pos,
        ),
        sum_at(ts, pos) matches Err(e) && e.position < count ==> sum_at(other, pos) == sum_at(
            ts,
            pos,
        ),
{
    lemma_product_advances(ts, pos);
    lemma_product_agrees(ts, other, count, pos);
    if let Ok((left, next)) = product_at(ts, pos) {
        lemma_sum_from_advances(ts, left, next);
        if next < count {
            lemma_sum_from_agrees(ts, other, count, left, next);
        }
    }
}

/// Nothing behind the offending token changes a parse error: a token
/// sequence that holds the same tokens up to and with the offending one
/// gives the same error.
pub proof fn lemma_error_is_final(ts: Seq<TokenView>, other: Seq<TokenView>)
    requires
        parse_spec(ts) is Err,
        agree(ts, other, (parse_spec(ts)->Err_0.position + 1) as int),
    ensures
        parse_spec(other) == parse_spec(ts),
{
    let e = parse_spec(ts)->Err_0;
    let count = (e.position + 1) as int;
    lemma_sum_advances(ts, 0);
    lemma_sum_agrees(ts, other, count, 0);
    if let Ok((tree, next)) = sum_at(ts, 0) {
        assert(e == failure(ts, next, Expected::EndOfInput));
        lemma_failure_agrees(ts, other, count, next, Expected::EndOfInput);
    }
}

/// The tokens before place `at`, with the number `d` behind them.
pub open spec fn completed(ts: Seq<TokenView>, at: int, d: DecimalView) -> Seq<TokenView> {
    ts.take(at).push(TokenView::Number(d))
}

/// Where a number is missing from a unary expression, the tokens before
/// that place with a number behind them hold the unary expression.
proof fn lemma_unary_completes(ts: Seq<TokenView>, pos: int, at: int, d: DecimalView)
    requires
        0 <= pos <= at <= ts.len(),
        unary_at(ts, pos) matches Err(e) && e.position == at,
    ensures
        unary_at(completed(ts, at, d), pos) matches Ok((_, next)) && next == at + 1,
    decreases ts.len() - pos,
{
    let other = completed(ts, at, d);
    if token_at(ts, pos) is Minus {
        lemma_unary_advances(ts, pos + 1);
        lemma_unary_completes(ts, pos + 1, at, d);
        assert(other[pos] == ts[pos]);
    } else {
        assert(other[at] == TokenView::Number(d));
    }
}

/// Where a number is missing from the rest of a product, the tokens before
/// that place with a number behind them hold the rest of the product.
proof fn lemma_product_from_completes(
    ts: Seq<TokenView>,
    left: AstView,
    pos: int,
    at: int,
    d: DecimalView,
)
    requires
        0 <= pos <= at <= ts.len(),
        product_from(ts, left, pos) matches Err(e) && e.position == at,
    ensures
        product_from(completed(ts, at, d), left, pos) matches Ok((_, next)) && next == at + 1,
    decreases ts.len() - pos,
{
    let other = completed(ts, at, d);
    assert(token_at(ts, pos) is Multiply);
    lemma_unary_advances(ts, pos + 1);
    match unary_at(ts, pos + 1) {
        Ok((right, next)) => {
            let joined = AstView::Multiply(Box::new(left), Box::new(right));
            lemma_product_from_advances(ts, joined, next);
            assert(other[pos] == ts[pos]);
            assert(agree(ts, other, at));
            lemma_unary_agrees(ts, other, at, pos + 1);
            lemma_product_from_completes(ts, joined, next, at, d);
        },
        Err(e) => {
            assert(other[pos] == ts[pos]);
            lemma_unary_completes(ts, pos + 1, at, d);
            let (right, next) = unary_at(other, pos + 1)->Ok_0;
            let joined = AstView::Multiply(Box::new(left), Box::new(right));
            assert(product_from(other, joined, next) == Ok::<(AstView, int), ParseErrorView>(
                (joined, next),
            ));
        },
    }
}

/// Where a number is missing from a product, the tokens before that place
/// with a number behind them hold the product.
proof fn lemma_product_completes(ts: Seq<TokenView>, pos: int, at: int, d: DecimalView)
    requires
        0 <= pos <= at <= ts.len(),
        product_at(ts, pos) matches Err(e) && e.position == at,
    ensures
        product_at(completed(ts, at, d), pos) matches Ok((_, next)) && next == at + 1,
{
    let other = completed(ts, at, d);
    lemma_unary_advances(ts, pos);
    match unary_at(ts, pos) {
        Ok((left, next)) => {
            lemma_product_from_advances(ts, left, next);
            assert(agree(ts, other, at));
            lemma_unary_agrees(ts, other, at, pos);
            lemma_product_from_completes(ts, left, next, at, d);
        },
        Err(e) => {
            lemma_unary_completes(ts, pos, at, d);
            let (left, next) = unary_at(other, pos)->Ok_0;
            assert(product_from(other, left, next) == Ok::<(AstView, int), ParseErrorView>(
                (left, next),
            ));
        },
    }
}

/// Where a number is missing from the rest of a sum, the tokens before that
/// place with a number behind them hold the rest of the sum.
proof fn lemma_sum_from_completes(
    ts: Seq<TokenView>,
    left: AstView,
    pos: int,
    at: int,
    d: DecimalView,
)
    requires
        0 <= pos <= at <= ts.len(),
        sum_from(ts, left, pos) matches Err(e) && e.position == at,
    ensures
        sum_from(completed(ts, at, d), left, pos) matches Ok((_, next)) && next == at + 1,
    decreases ts.len() - pos,
{
    let other = completed(ts, at, d);
    assert(token_at(ts, pos) is Plus || token_at(ts, pos) is Minus);
    lemma_product_advances(ts, pos + 1);
    match product_at(ts, pos + 1) {
        Ok((right, next)) => {
            let joined = if token_at(ts, pos) is Plus {
                AstView::Add(Box::new(left), Box::new(right))
            } else {
                AstView::Subtract(Box::new(left), Box::new(right))
            };
            lemma_sum_from_advances(ts, joined, next);
            assert(other[pos] == ts[pos]);
            assert(agree(ts, other, at));
            lemma_product_agrees(ts, other, at, pos + 1);
            lemma_sum_from_completes(ts, joined, next, at, d);
        },
        Err(e) => {
            assert(other[pos] == ts[pos]);
            lemma_product_completes(ts, pos + 1, at, d);
            let (right, next) = product_at(other, pos + 1)->Ok_0;
            let joined = if token_at(ts, pos) is Plus {
                AstView::Add(Box::new(left), Box::new(right))
            } else {
                AstView::Subtract(Box::new(left), Box::new(right))
            };
            assert(sum_from(other, joined, next) == Ok::<(AstView, int), ParseErrorView>(
                (joined, next),
            ));
        },
    }
}

/// Where a number is missing from a sum, the tokens before that place with
/// a number behind them hold the sum.
proof fn lemma_sum_completes(ts: Seq<TokenView>, pos: int, at: int, d: DecimalView)
    requires
        0 <= pos <= at <= ts.len(),
        sum_at(ts, pos) matches Err(e) && e.position == at,
    ensures
        sum_at(completed(ts, at, d), pos) matches Ok((_, next)) && next == at + 1,
{
    let other = completed(ts, at, d);
    lemma_product_advances(ts, pos);
    match product_at(ts, pos) {
        Ok((left, next)) => {
            lemma_sum_from_advances(ts, left, next);
            assert(agree(ts, other, at));
            lemma_product_agrees(ts, other, at, pos);
            lemma_sum_from_completes(ts, left, next, at, d);
        },
        Err(e) => {
            lemma_product_completes(ts, pos, at, d);
            let (left, next) = product_at(other, pos)->Ok_0;
            assert(sum_from(other, left, next) == Ok::<(AstView, int), ParseErrorView>(
                (left, next),
            ));
        },
    }
}

/// A parse error lies at the leftmost place where it can: the tokens before
/// the offending one begin an expression. Where the end was wanted, they
/// are an expression as they stand; where a number was wanted, they are one
/// with any number behind them.
pub proof fn lemma_error_is_leftmost(ts: Seq<TokenView>, d: DecimalView)
    ensures
        parse_spec(ts) matches Err(e) ==> {
            &&& e.position <= ts.len()
            &&& e.expected is EndOfInput ==> parse_spec(ts.take(e.position as int)) is Ok
            &&& e.expected is Number ==> parse_spec(completed(ts, e.position as int, d)) is Ok
        },
{
    if let Err(e) = parse_spec(ts) {
        lemma_sum_advances(ts, 0);
        match sum_at(ts, 0) {
            Ok((tree, next)) => {
                lemma_sum_sound(ts, 0);
                lemma_parse_complete(tree);
                assert(e == failure(ts, next, Expected::EndOfInput));
                assert(ts.subrange(0, next) =~= ts.take(next));
            },
            Err(missing) => {
                assert(e == missing);
                let at = e.position as int;
                lemma_sum_completes(ts, 0, at, d);
                assert(completed(ts, at, d).len() == at + 1);
            },
        }
    }
}

} // verus!
