//! Tokens: the lexical units of an expression.

use vstd::prelude::*;
use vstd::string::StringExecFns;
use crate::decimal::{Decimal, DecimalView};
use crate::numeral::numeral_of;
use crate::text::{lemma_spaced_push, spaced};

verus! {

/// A number, one of the three operator signs, or the mark for the end of the
/// input. The mark never comes from text: the parser sees it where it reads
/// past the last token.
#[derive(Debug, PartialEq, Eq)]
pub enum Token {
    Number(Decimal),
    Plus,
    Minus,
    Multiply,
    EndOfInput,
}

/// The mathematical content of a [`Token`].
pub ghost enum TokenView {
    Number(DecimalView),
    Plus,
    Minus,
    Multiply,
    EndOfInput,
}

impl View for Token {
    type V = TokenView;

    open spec fn view(&self) -> TokenView {
        match self {
            Token::Number(d) => TokenView::Number(d@),
            Token::Plus => TokenView::Plus,
            Token::Minus => TokenView::Minus,
            Token::Multiply => TokenView::Multiply,
            Token::EndOfInput => TokenView::EndOfInput,
        }
    }
}

impl Clone for Token {
    fn clone(&self) -> (r: Self)
        ensures
            r@ == self@,
    {
        match self {
            Token::Number(d) => Token::Number(d.clone()),
            Token::Plus => Token::Plus,
            Token::Minus => Token::Minus,
            Token::Multiply => Token::Multiply,
            Token::EndOfInput => Token::EndOfInput,
        }
    }
}

/// The contents of a sequence of tokens.
pub open spec fn token_views(tokens: Seq<Token>) -> Seq<TokenView> {
    Seq::new(tokens.len(), |i: int| tokens[i]@)
}

/// Two tokens are of one kind: both numbers, or the same sign or mark.
pub open spec fn same_kind(a: TokenView, b: TokenView) -> bool {
    match a {
        TokenView::Number(_) => b is Number,
        TokenView::Plus => b is Plus,
        TokenView::Minus => b is Minus,
        TokenView::Multiply => b is Multiply,
        TokenView::EndOfInput => b is EndOfInput,
    }
}

/// How a token is written: a number by its numeral, a sign by its
/// character, the end mark by nothing.
pub open spec fn token_text(t: TokenView) -> Seq<char> {
    match t {
        TokenView::Number(d) => numeral_of(d),
        TokenView::Plus => seq!['+'],
        TokenView::Minus => seq!['-'],
        TokenView::Multiply => seq!['*'],
        TokenView::EndOfInput => Seq::empty(),
    }
}

/// How each of the tokens is written.
pub open spec fn token_texts(tokens: Seq<TokenView>) -> Seq<Seq<char>> {
    Seq::new(tokens.len(), |i: int| token_text(tokens[i]))
}

/// The tokens as written, with one space between neighbours.
pub open spec fn joined(tokens: Seq<TokenView>) -> Seq<char> {
    spaced(token_texts(tokens))
}

/// A stretch of tokens shown as context: two dots and a space, then the
/// tokens with one space between neighbours.
pub open spec fn display_text(tokens: Seq<TokenView>) -> Seq<char> {
    seq!['.', '.', ' '] + joined(tokens)
}

impl Token {
    /// Writes the token.
    pub fn to_string(&self) -> (out: String)
        ensures
            out@ == token_text(self@),
    {
        match self {
            Token::Number(d) => d.to_string(),
            Token::Plus => {
                let mut out = String::new();
                out.push('+');
                assert(out@ =~= seq!['+']);
                out
            },
            Token::Minus => {
                let mut out = String::new();
                out.push('-');
                assert(out@ =~= seq!['-']);
                out
            },
            Token::Multiply => {
                let mut out = String::new();
                out.push('*');
                assert(out@ =~= seq!['*']);
                out
            },
            Token::EndOfInput => String::new(),
        }
    }
}

/// Shows a stretch of tokens as context for a message.
pub fn display(tokens: &[Token]) -> (out: String)
    ensures
        out@ == display_text(token_views(tokens@)),
{
    let ghost views = token_views(tokens@);
    let ghost head = seq!['.', '.', ' '];
    let mut out = String::new();
    out.push('.');
    out.push('.');
    out.push(' ');
    proof {
        assert(token_texts(views.take(0)) =~= Seq::<Seq<char>>::empty());
        assert(out@ =~= head + joined(views.take(0)));
    }
    let mut i: usize = 0;
    while i < tokens.len()
        invariant
            i <= tokens@.len(),
            views == token_views(tokens@),
            head == seq!['.', '.', ' '],
            out@ == head + joined(views.take(i as int)),
        decreases tokens@.len() - i,
    {
        if i > 0 {
            out.push(' ');
        }
        let text = tokens[i].to_string();
        out.append(text.as_str());
        proof {
            let shown = views.take(i + 1);
            let word = token_text(tokens@[i as int]@);
            assert(token_texts(shown) =~= token_texts(views.take(i as int)).push(word));
            lemma_spaced_push(token_texts(views.take(i as int)), word);
            if i > 0 {
                assert(out@ =~= head + (joined(views.take(i as int)) + seq![' '] + word));
            } else {
                assert(out@ =~= head + word);
            }
        }
        i = i + 1;
    }
    proof {
        assert(views.take(tokens@.len() as int) =~= views);
    }
    out
}

} // verus!
