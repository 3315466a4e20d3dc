//! What holds of every expression.

use vstd::prelude::*;
use crate::ast::{Ast, AstView};
use crate::calculator::{amounts_to, reads_as, tree_of, value_of, CalcError, CalcErrorView};
use crate::decimal::{lemma_canonical_unique, Decimal, DecimalView};
use crate::grammar::{flatten, is_sum, lemma_parse_complete};
use crate::lexer::{
    is_written, lemma_numeral_is_word, lemma_sign_words, lemma_tokenise_spaced,
    lemma_tokens_round_trip, word_tokens,
};
use crate::numeral::{is_numeral, lemma_numeral_decimal_value, numeral_decimal, numeral_value};
use crate::parser::{parse_spec, product_at, unary_at, ParseErrorView};
use crate::text::spaced;
use crate::token::{joined, TokenView};

verus! {

/// A literal.
pub open spec fn lit(d: DecimalView) -> AstView {
    AstView::Literal(d)
}

/// Multiplication binds tighter than addition: the tokens `a + b * c` are
/// the sum of `a` and the product of `b` and `c`.
pub proof fn lemma_precedence(a: DecimalView, b: DecimalView, c: DecimalView)
    ensures
        parse_spec(
            seq![
                TokenView::Number(a),
                TokenView::Plus,
                TokenView::Number(b),
                TokenView::Multiply,
                TokenView::Number(c),
            ],
        ) == Ok::<AstView, ParseErrorView>(
            AstView::Add(
                Box::new(lit(a)),
                Box::new(AstView::Multiply(Box::new(lit(b)), Box::new(lit(c)))),
            ),
        ),
        parse_spec(
            seq![
                TokenView::Number(a),
                TokenView::Plus,
                TokenView::Number(b),
                TokenView::Multiply,
                TokenView::Number(c),
            ],
        )->Ok_0.value() == a.value() + b.value() * c.value(),
{
    let ts = seq![
        TokenView::Number(a),
        TokenView::Plus,
        TokenView::Number(b),
        TokenView::Multiply,
        TokenView::Number(c),
    ];
    reveal_with_fuel(crate::parser::unary_at, 2);
    reveal_with_fuel(crate::parser::product_from, 3);
    reveal_with_fuel(crate::parser::sum_from, 3);
    assert(unary_at(ts, 0) == Ok::<(AstView, int), ParseErrorView>((lit(a), 1)));
    assert(product_at(ts, 0) == Ok::<(AstView, int), ParseErrorView>((lit(a), 1)));
    assert(unary_at(ts, 2) == Ok::<(AstView, int), ParseErrorView>((lit(b), 3)));
    assert(unary_at(ts, 4) == Ok::<(AstView, int), ParseErrorView>((lit(c), 5)));
    assert(product_at(ts, 2) == Ok::<(AstView, int), ParseErrorView>(
        (AstView::Multiply(Box::new(lit(b)), Box::new(lit(c))), 5),
    ));
    let product = AstView::Multiply(Box::new(lit(b)), Box::new(lit(c)));
    let tree = AstView::Add(Box::new(lit(a)), Box::new(product));
    reveal_with_fuel(AstView::value, 3);
    assert(product.value() == b.value() * c.value());
    assert(tree.value() == a.value() + product.value());
}

/// Subtraction groups from the left: the tokens `a - b - c` are the
/// difference of `a - b` and `c`.
pub proof fn lemma_left_associative(a: DecimalView, b: DecimalView, c: DecimalView)
    ensures
        parse_spec(
            seq![
                TokenView::Number(a),
                TokenView::Minus,
                TokenView::Number(b),
                TokenView::Minus,
                TokenView::Number(c),
            ],
        ) == Ok::<AstView, ParseErrorView>(
            AstView::Subtract(
                Box::new(AstView::Subtract(Box::new(lit(a)), Box::new(lit(b)))),
                Box::new(lit(c)),
            ),
        ),
        parse_spec(
            seq![
                TokenView::Number(a),
                TokenView::Minus,
                TokenView::Number(b),
                TokenView::Minus,
                TokenView::Number(c),
            ],
        )->Ok_0.value() == (a.value() - b.value()) - c.value(),
{
    let ts = seq![
        TokenView::Number(a),
        TokenView::Minus,
        TokenView::Number(b),
        TokenView::Minus,
        TokenView::Number(c),
    ];
    reveal_with_fuel(crate::parser::unary_at, 2);
    reveal_with_fuel(crate::parser::product_from, 2);
    reveal_with_fuel(crate::parser::sum_from, 4);
    assert(unary_at(ts, 0) == Ok::<(AstView, int), ParseErrorView>((lit(a), 1)));
    assert(product_at(ts, 0) == Ok::<(AstView, int), ParseErrorView>((lit(a), 1)));
    assert(unary_at(ts, 2) == Ok::<(AstView, int), ParseErrorView>((lit(b), 3)));
    assert(product_at(ts, 2) == Ok::<(AstView, int), ParseErrorView>((lit(b), 3)));
    assert(unary_at(ts, 4) == Ok::<(AstView, int), ParseErrorView>((lit(c), 5)));
    assert(product_at(ts, 4) == Ok::<(AstView, int), ParseErrorView>((lit(c), 5)));
    let inner = AstView::Subtract(Box::new(lit(a)), Box::new(lit(b)));
    let tree = AstView::Subtract(Box::new(inner), Box::new(lit(c)));
    reveal_with_fuel(AstView::value, 3);
    assert(inner.value() == a.value() - b.value());
    assert(tree.value() == inner.value() - c.value());
}

/// Multiplication binds tighter than addition in text as well: for any
/// three numerals, the text `a + b * c` stands for the number of `a` plus
/// the product of the numbers of `b` and `c`.
pub proof fn lemma_precedence_text(a: Seq<char>, b: Seq<char>, c: Seq<char>)
    requires
        is_numeral(a),
        is_numeral(b),
        is_numeral(c),
    ensures
        tree_of(spaced(seq![a, seq!['+'], b, seq!['*'], c])) == Ok::<AstView, CalcErrorView>(
            AstView::Add(
                Box::new(lit(numeral_decimal(a))),
                Box::new(
                    AstView::Multiply(
                        Box::new(lit(numeral_decimal(b))),
                        Box::new(lit(numeral_decimal(c))),
                    ),
                ),
            ),
        ),
        value_of(spaced(seq![a, seq!['+'], b, seq!['*'], c])) == Ok::<real, CalcErrorView>(
            numeral_value(a) + numeral_value(b) * numeral_value(c),
        ),
{
    let words = seq![a, seq!['+'], b, seq!['*'], c];
    let da = numeral_decimal(a);
    let db = numeral_decimal(b);
    let dc = numeral_decimal(c);
    lemma_sign_words();
    lemma_numeral_is_word(a);
    lemma_numeral_is_word(b);
    lemma_numeral_is_word(c);
    lemma_tokenise_spaced(words);
    assert(word_tokens(words) =~= seq![
        TokenView::Number(da),
        TokenView::Plus,
        TokenView::Number(db),
        TokenView::Multiply,
        TokenView::Number(dc),
    ]);
    lemma_precedence(da, db, dc);
    lemma_numeral_decimal_value(a);
    lemma_numeral_decimal_value(b);
    lemma_numeral_decimal_value(c);
}

/// Subtraction groups from the left in text as well: for any three
/// numerals, the text `a - b - c` stands for the number of `a` minus that of
/// `b`, minus that of `c`.
pub proof fn lemma_left_associative_text(a: Seq<char>, b: Seq<char>, c: Seq<char>)
    requires
        is_numeral(a),
        is_numeral(b),
        is_numeral(c),
    ensures
        tree_of(spaced(seq![a, seq!['-'], b, seq!['-'], c])) == Ok::<AstView, CalcErrorView>(
            AstView::Subtract(
                Box::new(
                    AstView::Subtract(
                        Box::new(lit(numeral_decimal(a))),
                        Box::new(lit(numeral_decimal(b))),
                    ),
                ),
                Box::new(lit(numeral_decimal(c))),
            ),
        ),
        value_of(spaced(seq![a, seq!['-'], b, seq!['-'], c])) == Ok::<real, CalcErrorView>(
            (numeral_value(a) - numeral_value(b)) - numeral_value(c),
        ),
{
    let words = seq![a, seq!['-'], b, seq!['-'], c];
    let da = numeral_decimal(a);
    let db = numeral_decimal(b);
    let dc = numeral_decimal(c);
    lemma_sign_words();
    lemma_numeral_is_word(a);
    lemma_numeral_is_word(b);
    lemma_numeral_is_word(c);
    lemma_tokenise_spaced(words);
    assert(word_tokens(words) =~= seq![
        TokenView::Number(da),
        TokenView::Minus,
        TokenView::Number(db),
        TokenView::Minus,
        TokenView::Number(dc),
    ]);
    lemma_left_associative(da, db, dc);
    lemma_numeral_decimal_value(a);
    lemma_numeral_decimal_value(b);
    lemma_numeral_decimal_value(c);
}

/// Every number in the tree is in canonical form.
pub open spec fn literals_canonical(tree: AstView) -> bool
    decreases tree,
{
    match tree {
        AstView::Literal(d) => d.canonical(),
        AstView::Negate(a) => literals_canonical(*a),
        AstView::Add(a, b) => literals_canonical(*a) && literals_canonical(*b),
        AstView::Subtract(a, b) => literals_canonical(*a) && literals_canonical(*b),
        AstView::Multiply(a, b) => literals_canonical(*a) && literals_canonical(*b),
    }
}

/// How a tree is written as text: its tokens with one space between
/// neighbours.
pub open spec fn render(tree: AstView) -> Seq<char> {
    joined(flatten(tree))
}

/// Every token of the sequence can be written.
pub open spec fn all_written(tokens: Seq<TokenView>) -> bool {
    forall|i: int| 0 <= i < tokens.len() ==> is_written(#[trigger] tokens[i])
}

/// Two stretches of tokens that can be written, with a sign between them, can
/// be written.
proof fn lemma_link_written(left: Seq<TokenView>, sign: TokenView, right: Seq<TokenView>)
    requires
        all_written(left),
        is_written(sign),
        all_written(right),
    ensures
        all_written(left + seq![sign] + right),
{
    let whole = left + seq![sign] + right;
    assert forall|i: int| 0 <= i < whole.len() implies is_written(#[trigger] whole[i]) by {
        if i < left.len() {
            assert(whole[i] == left[i]);
        } else if i > left.len() {
            assert(whole[i] == right[i - left.len() - 1]);
        }
    }
}

/// The tokens of a tree with canonical numbers can all be written.
pub proof fn lemma_flatten_written(tree: AstView)
    requires
        literals_canonical(tree),
    ensures
        all_written(flatten(tree)),
    decreases tree,
{
    match tree {
        AstView::Literal(d) => {
            assert(flatten(tree)[0] == TokenView::Number(d));
        },
        AstView::Negate(a) => {
            lemma_flatten_written(*a);
            assert(flatten(tree) =~= Seq::<TokenView>::empty() + seq![TokenView::Minus] + flatten(
                *a,
            ));
            lemma_link_written(Seq::empty(), TokenView::Minus, flatten(*a));
        },
        AstView::Add(a, b) => {
            lemma_flatten_written(*a);
            lemma_flatten_written(*b);
            lemma_link_written(flatten(*a), TokenView::Plus, flatten(*b));
        },
        AstView::Subtract(a, b) => {
            lemma_flatten_written(*a);
            lemma_flatten_written(*b);
            lemma_link_written(flatten(*a), TokenView::Minus, flatten(*b));
        },
        AstView::Multiply(a, b) => {
            lemma_flatten_written(*a);
            lemma_flatten_written(*b);
            lemma_link_written(flatten(*a), TokenView::Multiply, flatten(*b));
        },
    }
}

/// Reading undoes writing: a tree of the grammar, written as text and read
/// again, is the same tree.
pub proof fn lemma_render_round_trip(tree: AstView)
    requires
        is_sum(tree),
        literals_canonical(tree),
    ensures
        tree_of(render(tree)) == Ok::<AstView, CalcErrorView>(tree),
{
    lemma_flatten_written(tree);
    lemma_tokens_round_trip(flatten(tree));
    lemma_parse_complete(tree);
}

/// `operand` under `count` negations.
pub open spec fn negated(count: nat, operand: AstView) -> AstView
    decreases count,
{
    if count == 0 {
        operand
    } else {
        AstView::Negate(Box::new(negated((count - 1) as nat, operand)))
    }
}

/// Minus signs in front of a number stack: where `count` of them stand from
/// place `pos` on and a number follows, the unary expression there is the
/// number under `count` negations, and it stands for the number itself
/// where `count` is even and for its opposite where `count` is odd.
pub proof fn lemma_unary_chain(ts: Seq<TokenView>, pos: int, count: nat, d: DecimalView)
    requires
        0 <= pos,
        pos + count < ts.len(),
        forall|i: int| pos <= i < pos + count ==> ts[i] is Minus,
        ts[pos + count] == TokenView::Number(d),
    ensures
        unary_at(ts, pos) == Ok::<(AstView, int), ParseErrorView>(
            (negated(count, lit(d)), pos + count + 1),
        ),
        negated(count, lit(d)).value() == if count % 2 == 0 {
            d.value()
        } else {
            -d.value()
        },
    decreases count,
{
    if count > 0 {
        lemma_unary_chain(ts, pos + 1, (count - 1) as nat, d);
    }
}

/// Reading is a function of the text: two results of reading one text hold
/// the same tree, or the same error.
pub proof fn lemma_reading_deterministic(
    input: Seq<char>,
    first: Result<Ast, CalcError>,
    second: Result<Ast, CalcError>,
)
    requires
        reads_as(input, first),
        reads_as(input, second),
    ensures
        match (first, second) {
            (Ok(a), Ok(b)) => a@ == b@,
            (Err(e), Err(f)) => e@ == f@,
            _ => false,
        },
{
}

/// Computing is a function of the text: two results of computing one text
/// hold the same number, or the same error.
pub proof fn lemma_result_deterministic(
    input: Seq<char>,
    first: Result<Decimal, CalcError>,
    second: Result<Decimal, CalcError>,
)
    requires
        amounts_to(input, first),
        amounts_to(input, second),
    ensures
        match (first, second) {
            (Ok(a), Ok(b)) => a@ == b@,
            (Err(e), Err(f)) => e@ == f@,
            _ => false,
        },
{
    if let (Ok(a), Ok(b)) = (first, second) {
        lemma_canonical_unique(a@, b@);
    }
}

} // verus!
