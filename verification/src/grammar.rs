//! The grammar, stated without a reader: which trees it builds, which token
//! sequence each tree is written as, and that parsing undoes writing.

use vstd::prelude::*;
use crate::ast::AstView;
use crate::parser::{
    lemma_unary_advances, parse_spec, product_at, product_from, sum_at, sum_from, token_at,
    unary_at, ParseErrorView,
};
use crate::token::TokenView;

verus! {

/// The tokens that a tree is written as, from left to right.
pub open spec fn flatten(tree: AstView) -> Seq<TokenView>
    decreases tree,
{
    match tree {
        AstView::Literal(d) => seq![TokenView::Number(d)],
        AstView::Negate(a) => seq![TokenView::Minus] + flatten(*a),
        AstView::Add(a, b) => flatten(*a) + seq![TokenView::Plus] + flatten(*b),
        AstView::Subtract(a, b) => flatten(*a) + seq![TokenView::Minus] + flatten(*b),
        AstView::Multiply(a, b) => flatten(*a) + seq![TokenView::Multiply] + flatten(*b),
    }
}

/// A number under any count of negations.
pub open spec fn is_unary(tree: AstView) -> bool
    decreases tree,
{
    match tree {
        AstView::Literal(_) => true,
        AstView::Negate(a) => is_unary(*a),
        _ => false,
    }
}

/// A chain of unary expressions joined by `*`, grouped from the left.
pub open spec fn is_product(tree: AstView) -> bool
    decreases tree,
{
    match tree {
        AstView::Multiply(a, b) => is_product(*a) && is_unary(*b),
        _ => is_unary(tree),
    }
}

/// A chain of products joined by `+` and `-`, grouped from the left.
pub open spec fn is_sum(tree: AstView) -> bool
    decreases tree,
{
    match tree {
        AstView::Add(a, b) => is_sum(*a) && is_product(*b),
        AstView::Subtract(a, b) => is_sum(*a) && is_product(*b),
        _ => is_product(tree),
    }
}

/// The tokens `part` stand in `ts` from place `pos` on.
pub open spec fn stands_at(ts: Seq<TokenView>, pos: int, part: Seq<TokenView>) -> bool {
    &&& 0 <= pos
    &&& pos + part.len() <= ts.len()
    &&& ts.subrange(pos, pos + part.len()) == part
}

/// A tree is written with at least one token.
pub proof fn lemma_flatten_nonempty(tree: AstView)
    ensures
        flatten(tree).len() > 0,
    decreases tree,
{
    match tree {
        AstView::Literal(_) => {},
        AstView::Negate(a) => {
            lemma_flatten_nonempty(*a);
        },
        AstView::Add(a, b) => {
            lemma_flatten_nonempty(*a);
        },
        AstView::Subtract(a, b) => {
            lemma_flatten_nonempty(*a);
        },
        AstView::Multiply(a, b) => {
            lemma_flatten_nonempty(*a);
        },
    }
}

/// What a unary expression was read from is what it is written as.
pub proof fn lemma_unary_sound(ts: Seq<TokenView>, pos: int)
    requires
        0 <= pos <= ts.len(),
    ensures
        unary_at(ts, pos) matches Ok((tree, next)) ==> {
            &&& pos < next <= ts.len()
            &&& is_unary(tree)
            &&& flatten(tree) == ts.subrange(pos, next)
        },
    decreases ts.len() - pos,
{
    lemma_unary_advances(ts, pos);
    if token_at(ts, pos) is Minus {
        lemma_unary_sound(ts, pos + 1);
        if let Ok((operand, next)) = unary_at(ts, pos + 1) {
            assert(seq![TokenView::Minus] + ts.subrange(pos + 1, next) =~= ts.subrange(pos, next));
        }
    } else if let TokenView::Number(d) = token_at(ts, pos) {
        assert(seq![TokenView::Number(d)] =~= ts.subrange(pos, pos + 1));
    }
}

/// What the rest of a product was read from is what it is written as.
pub proof fn lemma_product_from_sound(ts: Seq<TokenView>, left: AstView, start: int, pos: int)
    requires
        0 <= start <= pos <= ts.len(),
        is_product(left),
        flatten(left) == ts.subrange(start, pos),
    ensures
        product_from(ts, left, pos) matches Ok((tree, next)) ==> {
            &&& pos <= next <= ts.len()
            &&& is_product(tree)
            &&& flatten(tree) == ts.subrange(start, next)
        },
    decreases ts.len() - pos,
{
    if token_at(ts, pos) is Multiply {
        lemma_unary_sound(ts, pos + 1);
        if let Ok((right, next)) = unary_at(ts, pos + 1) {
            let joined = AstView::Multiply(Box::new(left), Box::new(right));
            assert(ts.subrange(start, pos) + seq![TokenView::Multiply] + ts.subrange(pos + 1, next)
                =~= ts.subrange(start, next));
            lemma_product_from_sound(ts, joined, start, next);
        }
    }
}

/// What a product was read from is what it is written as.
pub proof fn lemma_product_sound(ts: Seq<TokenView>, pos: int)
    requires
        0 <= pos <= ts.len(),
    ensures
        product_at(ts, pos) matches Ok((tree, next)) ==> {
            &&& pos < next <= ts.len()
            &&& is_product(tree)
            &&& flatten(tree) == ts.subrange(pos, next)
        },
{
    lemma_unary_sound(ts, pos);
    if let Ok((left, next)) = unary_at(ts, pos) {
        lemma_unary_is_product(left);
        lemma_product_from_sound(ts, left, pos, next);
    }
}

/// What the rest of a sum was read from is what it is written as.
pub proof fn lemma_sum_from_sound(ts: Seq<TokenView>, left: AstView, start: int, pos: int)
    requires
        0 <= start <= pos <= ts.len(),
        is_sum(left),
        flatten(left) == ts.subrange(start, pos),
    ensures
        sum_from(ts, left, pos) matches Ok((tree, next)) ==> {
            &&& pos <= next <= ts.len()
            &&& is_sum(tree)
            &&& flatten(tree) == ts.subrange(start, next)
        },
    decreases ts.len() - pos,
{
    if token_at(ts, pos) is Plus || token_at(ts, pos) is Minus {
        lemma_product_sound(ts, pos + 1);
        if let Ok((right, next)) = product_at(ts, pos + 1) {
            let joined = if token_at(ts, pos) is Plus {
                AstView::Add(Box::new(left), Box::new(right))
            } else {
                AstView::Subtract(Box::new(left), Box::new(right))
            };
            assert(ts.subrange(start, pos) + seq![ts[pos]] + ts.subrange(pos + 1, next)
                =~= ts.subrange(start, next));
            lemma_sum_from_sound(ts, joined, start, next);
        }
    }
}

/// What a sum was read from is what it is written as.
pub proof fn lemma_sum_sound(ts: Seq<TokenView>, pos: int)
    requires
        0 <= pos <= ts.len(),
    ensures
        sum_at(ts, pos) matches Ok((tree, next)) ==> {
            &&& pos < next <= ts.len()
            &&& is_sum(tree)
            &&& flatten(tree) == ts.subrange(pos, next)
        },
{
    lemma_product_sound(ts, pos);
    if let Ok((left, next)) = product_at(ts, pos) {
        lemma_product_is_sum(left);
        lemma_sum_from_sound(ts, left, pos, next);
    }
}

/// The parser is sound: a tree that it gives is a sum of the grammar, and
/// is written as exactly the tokens that were read, each once and in order.
pub proof fn lemma_parse_sound(ts: Seq<TokenView>)
    ensures
        parse_spec(ts) matches Ok(tree) ==> is_sum(tree) && flatten(tree) == ts,
{
    lemma_sum_sound(ts, 0);
    if let Ok((tree, next)) = sum_at(ts, 0) {
        if next >= ts.len() {
            assert(ts.subrange(0, next) =~= ts);
        }
    }
}

/// A unary expression is a product of one operand.
pub proof fn lemma_unary_is_product(tree: AstView)
    requires
        is_unary(tree),
    ensures
        is_product(tree),
{
}

/// A product is a sum of one operand.
pub proof fn lemma_product_is_sum(tree: AstView)
    requires
        is_product(tree),
    ensures
        is_sum(tree),
{
    if let AstView::Multiply(a, b) = tree {
    } else {
        assert(is_unary(tree));
    }
}

/// A unary expression is read back from where it is written, whatever
/// follows it.
pub proof fn lemma_unary_complete(ts: Seq<TokenView>, pos: int, tree: AstView)
    requires
        is_unary(tree),
        stands_at(ts, pos, flatten(tree)),
    ensures
        unary_at(ts, pos) == Ok::<(AstView, int), ParseErrorView>(
            (tree, pos + flatten(tree).len()),
        ),
    decreases tree,
{
    let part = flatten(tree);
    assert(ts[pos] == ts.subrange(pos, pos + part.len())[0]);
    match tree {
        AstView::Literal(d) => {},
        AstView::Negate(a) => {
            let inner = flatten(*a);
            assert(ts.subrange(pos + 1, pos + 1 + inner.len()) =~= inner) by {
                assert forall|i: int| 0 <= i < inner.len() implies ts[pos + 1 + i] == inner[i] by {
                    assert(ts.subrange(pos, pos + part.len())[i + 1] == part[i + 1]);
                }
            }
            lemma_unary_complete(ts, pos + 1, *a);
        },
        _ => {},
    }
}

/// The two sides of a chain link stand where the whole chain stands.
proof fn lemma_link_stands(
    ts: Seq<TokenView>,
    pos: int,
    left: Seq<TokenView>,
    sign: TokenView,
    right: Seq<TokenView>,
)
    requires
        stands_at(ts, pos, left + seq![sign] + right),
    ensures
        stands_at(ts, pos, left),
        ts[pos + left.len()] == sign,
        pos + left.len() < ts.len(),
        stands_at(ts, pos + left.len() + 1, right),
{
    let whole = left + seq![sign] + right;
    let there = ts.subrange(pos, pos + whole.len());
    assert(ts.subrange(pos, pos + left.len()) =~= left) by {
        assert forall|i: int| 0 <= i < left.len() implies ts[pos + i] == left[i] by {
            assert(there[i] == whole[i]);
        }
    }
    assert(there[left.len() as int] == whole[left.len() as int]);
    assert(ts.subrange(pos + left.len() + 1, pos + left.len() + 1 + right.len()) =~= right) by {
        assert forall|i: int| 0 <= i < right.len() implies ts[pos + left.len() + 1 + i]
            == right[i] by {
            assert(there[left.len() + 1 + i] == whole[left.len() + 1 + i]);
        }
    }
}

/// A product is read back from where it is written; the reader then goes on
/// with what follows it.
pub proof fn lemma_product_complete(ts: Seq<TokenView>, pos: int, tree: AstView)
    requires
        is_product(tree),
        stands_at(ts, pos, flatten(tree)),
    ensures
        product_at(ts, pos) == product_from(ts, tree, pos + flatten(tree).len()),
    decreases tree,
{
    match tree {
        AstView::Multiply(a, b) => {
            let left = flatten(*a);
            let right = flatten(*b);
            lemma_link_stands(ts, pos, left, TokenView::Multiply, right);
            lemma_product_complete(ts, pos, *a);
            lemma_unary_complete(ts, pos + left.len() + 1, *b);
        },
        _ => {
            lemma_unary_complete(ts, pos, tree);
        },
    }
}

/// A sum is read back from where it is written, where no `*` follows it;
/// the reader then goes on with what follows.
pub proof fn lemma_sum_complete(ts: Seq<TokenView>, pos: int, tree: AstView)
    requires
        is_sum(tree),
        stands_at(ts, pos, flatten(tree)),
        !(token_at(ts, pos + flatten(tree).len()) is Multiply),
    ensures
        sum_at(ts, pos) == sum_from(ts, tree, pos + flatten(tree).len()),
    decreases tree,
{
    match tree {
        AstView::Add(a, b) => {
            let left = flatten(*a);
            let right = flatten(*b);
            lemma_link_stands(ts, pos, left, TokenView::Plus, right);
            lemma_sum_complete(ts, pos, *a);
            lemma_product_complete(ts, pos + left.len() + 1, *b);
            lemma_flatten_nonempty(*b);
        },
        AstView::Subtract(a, b) => {
            let left = flatten(*a);
            let right = flatten(*b);
            lemma_link_stands(ts, pos, left, TokenView::Minus, right);
            lemma_sum_complete(ts, pos, *a);
            lemma_product_complete(ts, pos + left.len() + 1, *b);
            lemma_flatten_nonempty(*b);
        },
        _ => {
            lemma_product_complete(ts, pos, tree);
        },
    }
}

/// The parser is complete: every sum of the grammar is read back from the
/// tokens that it is written as.
pub proof fn lemma_parse_complete(tree: AstView)
    requires
        is_sum(tree),
    ensures
        parse_spec(flatten(tree)) == Ok::<AstView, ParseErrorView>(tree),
{
    let ts = flatten(tree);
    assert(ts.subrange(0, ts.len() as int) =~= ts);
    lemma_sum_complete(ts, 0, tree);
}

/// No two sums of the grammar are written alike.
pub proof fn lemma_flatten_unique(first: AstView, second: AstView)
    requires
        is_sum(first),
        is_sum(second),
        flatten(first) == flatten(second),
    ensures
        first == second,
{
    lemma_parse_complete(first);
    lemma_parse_complete(second);
}

} // verus!
