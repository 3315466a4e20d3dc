//! The tokeniser: from text to tokens.
//!
//! The text is cut at whitespace. Each word between is a number, one of the
//! signs `+`, `-` and `*`, or an error.

use vstd::prelude::*;
use vstd::string::StringExecFns;
use crate::decimal::Decimal;
use crate::numeral::{
    append_nat, fraction_part, integer_part, is_digit, is_numeral, lemma_numeral_chars,
    lemma_numeral_round_trip, nat_digits, numeral_decimal, numeral_of, unsigned_part,
};
use crate::text::{spaced, to_chars, to_text};
use crate::token::{joined, token_text, token_texts, token_views, Token, TokenView};

verus! {

/// `c` is a space, a tab, a line feed, a form feed or a carriage return.
pub open spec fn is_space(c: char) -> bool {
    c == ' ' || c == '\t' || c == '\n' || c == '\x0C' || c == '\r'
}

/// The end of the word that starts at `from`: the place of the next
/// whitespace character, or the end of the text.
pub open spec fn word_end(s: Seq<char>, from: int) -> int
    decreases s.len() - from,
{
    if from >= s.len() || is_space(s[from]) {
        from
    } else {
        word_end(s, from + 1)
    }
}

/// The token that a word stands for, if it stands for one.
pub open spec fn classify(word: Seq<char>) -> Option<TokenView> {
    if is_numeral(word) {
        Some(TokenView::Number(numeral_decimal(word)))
    } else if word == seq!['+'] {
        Some(TokenView::Plus)
    } else if word == seq!['*'] {
        Some(TokenView::Multiply)
    } else if word == seq!['-'] {
        Some(TokenView::Minus)
    } else {
        None
    }
}

/// A word that stands for no token, with the place of its first character
/// in the text, counted in characters from zero.
#[derive(Debug, PartialEq, Eq)]
pub struct LexError {
    pub text: String,
    pub position: usize,
}

/// The mathematical content of a [`LexError`].
pub ghost struct LexErrorView {
    pub text: Seq<char>,
    pub position: nat,
}

impl View for LexError {
    type V = LexErrorView;

    open spec fn view(&self) -> LexErrorView {
        LexErrorView { text: self.text@, position: self.position as nat }
    }
}

/// The tokens of the text from place `from` on, or the first word there that
/// stands for no token.
pub open spec fn tokens_from(s: Seq<char>, from: int) -> Result<Seq<TokenView>, LexErrorView>
    decreases s.len() - from,
{
    if from >= s.len() {
        Ok(Seq::empty())
    } else if is_space(s[from]) {
        tokens_from(s, from + 1)
    } else {
        proof {
            lemma_word_end_bounds(s, from + 1);
        }
        let end = word_end(s, from);
        let word = s.subrange(from, end);
        match classify(word) {
            None => Err(LexErrorView { text: word, position: from as nat }),
            Some(token) => prepend(seq![token], tokens_from(s, end)),
        }
    }
}

/// The tokens `first` followed by those of `rest`, or the error of `rest`.
pub open spec fn prepend(
    first: Seq<TokenView>,
    rest: Result<Seq<TokenView>, LexErrorView>,
) -> Result<Seq<TokenView>, LexErrorView> {
    match rest {
        Ok(tokens) => Ok(first + tokens),
        Err(e) => Err(e),
    }
}

/// The tokens of a text, or its first word that stands for no token.
pub open spec fn tokenise_spec(s: Seq<char>) -> Result<Seq<TokenView>, LexErrorView> {
    tokens_from(s, 0)
}

/// What a [`LexError`] says.
pub open spec fn lex_message(e: LexErrorView) -> Seq<char> {
    "malformed token `"@ + e.text + "` at position "@ + nat_digits(e.position)
}

/// A word ends at or behind its start, and within the text.
pub proof fn lemma_word_end_bounds(s: Seq<char>, from: int)
    ensures
        from <= word_end(s, from),
        from <= s.len() ==> word_end(s, from) <= s.len(),
    decreases s.len() - from,
{
    if !(from >= s.len() || is_space(s[from])) {
        lemma_word_end_bounds(s, from + 1);
    }
}

/// A word ends where the first whitespace after its start stands.
pub proof fn lemma_word_end_is(s: Seq<char>, from: int, end: int)
    requires
        0 <= from <= end <= s.len(),
        forall|k: int| from <= k < end ==> !is_space(s[k]),
        end == s.len() || is_space(s[end]),
    ensures
        word_end(s, from) == end,
    decreases end - from,
{
    if from < end {
        lemma_word_end_is(s, from + 1, end);
    }
}

/// A word: at least one character, and no whitespace.
pub open spec fn is_word(w: Seq<char>) -> bool {
    w.len() > 0 && forall|i: int| 0 <= i < w.len() ==> !is_space(#[trigger] w[i])
}

/// From its start to its end a word holds no whitespace, and it ends at
/// whitespace or at the end of the text.
pub proof fn lemma_word_end_props(s: Seq<char>, from: int)
    requires
        0 <= from <= s.len(),
    ensures
        from <= word_end(s, from) <= s.len(),
        forall|k: int| from <= k < word_end(s, from) ==> !is_space(s[k]),
        word_end(s, from) == s.len() || is_space(s[word_end(s, from)]),
    decreases s.len() - from,
{
    if !(from >= s.len() || is_space(s[from])) {
        lemma_word_end_props(s, from + 1);
    }
}

/// What comes before a stretch of text does not change its tokens, where
/// it has no malformed word.
pub proof fn lemma_tokens_from_shifted(before: Seq<char>, s: Seq<char>, from: int)
    requires
        0 <= from <= s.len(),
        tokens_from(s, from) is Ok,
    ensures
        tokens_from(before + s, before.len() + from) == tokens_from(s, from),
    decreases s.len() - from,
{
    let all = before + s;
    let at = before.len() + from;
    if from < s.len() {
        assert(all[at] == s[from]);
        if is_space(s[from]) {
            lemma_tokens_from_shifted(before, s, from + 1);
        } else {
            let end = word_end(s, from);
            lemma_word_end_props(s, from);
            lemma_word_end_bounds(s, from + 1);
            assert forall|k: int| at <= k < before.len() + end implies !is_space(all[k]) by {
                assert(all[k] == s[k - before.len()]);
            }
            if end < s.len() {
                assert(all[before.len() + end] == s[end]);
            }
            lemma_word_end_is(all, at, before.len() + end);
            assert(all.subrange(at, before.len() + end) =~= s.subrange(from, end));
            lemma_tokens_from_shifted(before, s, end);
        }
    }
}

/// An error names a whole word of the text that stands for no token: the
/// word starts at the named place, after whitespace or at the start of the
/// text, and ends before whitespace or at the end of the text.
pub proof fn lemma_lex_error_place(s: Seq<char>)
    ensures
        tokenise_spec(s) matches Err(e) ==> {
            &&& is_word(e.text)
            &&& classify(e.text) is None
            &&& e.position + e.text.len() <= s.len()
            &&& e.text == s.subrange(e.position as int, (e.position + e.text.len()) as int)
            &&& e.position == 0 || is_space(s[e.position - 1])
            &&& e.position + e.text.len() == s.len() || is_space(
                s[(e.position + e.text.len()) as int],
            )
        },
{
    lemma_lex_error_place_from(s, 0);
}

/// The same for the text from place `from` on.
proof fn lemma_lex_error_place_from(s: Seq<char>, from: int)
    requires
        0 <= from <= s.len(),
    ensures
        tokens_from(s, from) matches Err(e) ==> {
            &&& is_word(e.text)
            &&& classify(e.text) is None
            &&& from <= e.position
            &&& e.position + e.text.len() <= s.len()
            &&& e.text == s.subrange(e.position as int, (e.position + e.text.len()) as int)
            &&& e.position == from || is_space(s[e.position - 1])
            &&& e.position + e.text.len() == s.len() || is_space(
                s[(e.position + e.text.len()) as int],
            )
        },
    decreases s.len() - from,
{
    if from < s.len() {
        if is_space(s[from]) {
            lemma_lex_error_place_from(s, from + 1);
        } else {
            let end = word_end(s, from);
            lemma_word_end_props(s, from);
            lemma_word_end_bounds(s, from + 1);
            let word = s.subrange(from, end);
            if classify(word) is Some {
                lemma_lex_error_place_from(s, end);
                if let Err(e) = tokens_from(s, end) {
                    assert(!is_space(e.text[0]));
                    assert(e.text[0] == s[e.position as int]);
                }
            }
        }
    }
}

/// The tokens that the words stand for, each taken by itself.
pub open spec fn word_tokens(words: Seq<Seq<char>>) -> Seq<TokenView> {
    Seq::new(words.len(), |i: int| classify(words[i])->Some_0)
}

/// Words that each stand for a token, written with one space between
/// neighbours, are cut into exactly those tokens.
pub proof fn lemma_tokenise_spaced(words: Seq<Seq<char>>)
    requires
        forall|i: int| 0 <= i < words.len() ==> is_word(#[trigger] words[i]),
        forall|i: int| 0 <= i < words.len() ==> classify(#[trigger] words[i]) is Some,
    ensures
        tokenise_spec(spaced(words)) == Ok::<Seq<TokenView>, LexErrorView>(word_tokens(words)),
    decreases words.len(),
{
    let s = spaced(words);
    if words.len() == 0 {
        assert(word_tokens(words) =~= Seq::<TokenView>::empty());
    } else {
        let first = words[0];
        let token = classify(first)->Some_0;
        assert(is_word(first));
        assert(classify(first) is Some);
        assert(!is_space(first[0]));
        if words.len() == 1 {
            lemma_word_end_is(s, 0, s.len() as int);
            assert(s.subrange(0, s.len() as int) =~= first);
            assert(seq![token] + Seq::<TokenView>::empty() =~= word_tokens(words));
        } else {
            let others = words.drop_first();
            let rest = spaced(others);
            let head = first + seq![' '];
            assert(s =~= head + rest);
            assert forall|k: int| 0 <= k < first.len() implies !is_space(s[k]) by {
                assert(s[k] == first[k]);
            }
            assert(s[first.len() as int] == ' ');
            lemma_word_end_is(s, 0, first.len() as int);
            assert(s.subrange(0, first.len() as int) =~= first);
            assert forall|i: int| 0 <= i < others.len() implies is_word(#[trigger] others[i]) by {
                assert(others[i] == words[i + 1]);
            }
            assert forall|i: int| 0 <= i < others.len() implies classify(
                #[trigger] others[i],
            ) is Some by {
                assert(others[i] == words[i + 1]);
            }
            lemma_tokenise_spaced(others);
            lemma_tokens_from_shifted(head, rest, 0);
            assert(tokens_from(s, first.len() as int) == tokens_from(s, (first.len() + 1) as int));
            assert(seq![token] + word_tokens(others) =~= word_tokens(words)) by {
                assert forall|i: int| 0 < i < words.len() implies word_tokens(others)[i - 1]
                    == word_tokens(words)[i] by {
                    assert(others[i - 1] == words[i]);
                }
            }
        }
    }
}

/// A numeral is a word.
pub proof fn lemma_numeral_is_word(s: Seq<char>)
    requires
        is_numeral(s),
    ensures
        is_word(s),
{
    lemma_numeral_chars(s);
    assert forall|i: int| 0 <= i < s.len() implies !is_space(#[trigger] s[i]) by {
        assert(is_digit(s[i]) || s[i] == '-' || s[i] == '.');
    }
}

/// Each of the three signs is a word that stands for its token.
pub proof fn lemma_sign_words()
    ensures
        is_word(seq!['+']),
        is_word(seq!['-']),
        is_word(seq!['*']),
        classify(seq!['+']) == Some(TokenView::Plus),
        classify(seq!['-']) == Some(TokenView::Minus),
        classify(seq!['*']) == Some(TokenView::Multiply),
{
    let plus = seq!['+'];
    let minus = seq!['-'];
    let star = seq!['*'];
    assert(plus[0] == '+' && minus[0] == '-' && star[0] == '*');
    assert(!is_numeral(plus)) by {
        lemma_numeral_chars_fail(plus);
    }
    assert(!is_numeral(star)) by {
        lemma_numeral_chars_fail(star);
    }
    assert(!is_numeral(minus)) by {
        assert(unsigned_part(minus) =~= Seq::<char>::empty());
        assert(integer_part(minus).len() == 0);
        assert(fraction_part(minus).len() == 0);
    }
}

/// A word with a character that is no digit, minus sign or point is no
/// numeral.
proof fn lemma_numeral_chars_fail(s: Seq<char>)
    requires
        exists|i: int| 0 <= i < s.len() && !(is_digit(#[trigger] s[i]) || s[i] == '-' || s[i] == '.'),
    ensures
        !is_numeral(s),
{
    if is_numeral(s) {
        lemma_numeral_chars(s);
    }
}

/// A token that can be written: a sign, or a number in canonical form.
pub open spec fn is_written(t: TokenView) -> bool {
    match t {
        TokenView::Number(d) => d.canonical(),
        TokenView::EndOfInput => false,
        _ => true,
    }
}

/// What such a token is written as is a word that stands for the token.
pub proof fn lemma_token_text_read(t: TokenView)
    requires
        is_written(t),
    ensures
        is_word(token_text(t)),
        classify(token_text(t)) == Some(t),
{
    lemma_sign_words();
    if let TokenView::Number(d) = t {
        lemma_numeral_round_trip(d);
        lemma_numeral_is_word(numeral_of(d));
    }
}

/// Writing tokens with spaces between them and cutting the text gives the
/// tokens back.
pub proof fn lemma_tokens_round_trip(tokens: Seq<TokenView>)
    requires
        forall|i: int| 0 <= i < tokens.len() ==> is_written(#[trigger] tokens[i]),
    ensures
        tokenise_spec(joined(tokens)) == Ok::<Seq<TokenView>, LexErrorView>(tokens),
{
    let words = token_texts(tokens);
    assert forall|i: int| 0 <= i < words.len() implies is_word(#[trigger] words[i]) && classify(
        words[i],
    ) == Some(tokens[i]) by {
        lemma_token_text_read(tokens[i]);
    }
    lemma_tokenise_spaced(words);
    assert(word_tokens(words) =~= tokens);
}

impl LexError {
    /// Says what was found and where.
    pub fn message(&self) -> (out: String)
        ensures
            out@ == lex_message(self@),
    {
        let mut out = String::new();
        out.append("malformed token `");
        out.append(self.text.as_str());
        out.append("` at position ");
        append_nat(&mut out, self.position);
        proof {
            assert(out@ =~= lex_message(self@));
        }
        out
    }
}

fn is_space_char(c: char) -> (b: bool)
    ensures
        b == is_space(c),
{
    c == ' ' || c == '\t' || c == '\n' || c == '\x0C' || c == '\r'
}

/// The token that a word stands for; `None` where it stands for none.
pub fn classify_word(word: &[char]) -> (r: Option<Token>)
    ensures
        r is Some <==> classify(word@) is Some,
        r matches Some(t) ==> classify(word@) == Some(t@),
{
    match Decimal::from_chars(word) {
        Some(d) => Some(Token::Number(d)),
        None => {
            if word.len() != 1 {
                None
            } else {
                let c: char = word[0];
                proof {
                    assert(word@ =~= seq![c]);
                    assert(seq!['+'][0] == '+');
                    assert(seq!['*'][0] == '*');
                    assert(seq!['-'][0] == '-');
                }
                if c == '+' {
                    Some(Token::Plus)
                } else if c == '*' {
                    Some(Token::Multiply)
                } else if c == '-' {
                    Some(Token::Minus)
                } else {
                    None
                }
            }
        },
    }
}

/// Whether the text is a numeral: an optional `-`, then digits with at most
/// one decimal point among them, and at least one digit.
pub fn is_number(a: &str) -> (b: bool)
    ensures
        b == is_numeral(a@),
{
    let chars = to_chars(a);
    Decimal::from_chars(chars.as_slice()).is_some()
}

/// The token that one word stands for; `None` where it stands for none.
pub fn tokenise_single(s: &str) -> (r: Option<Token>)
    ensures
        r is Some <==> classify(s@) is Some,
        r matches Some(t) ==> classify(s@) == Some(t@),
{
    let chars = to_chars(s);
    classify_word(chars.as_slice())
}

/// Cuts the text into tokens. The first word that stands for no token ends
/// the work with an error that holds the word and its place.
pub fn tokenise(input: &str) -> (r: Result<Vec<Token>, LexError>)
    ensures
        match r {
            Ok(tokens) => tokenise_spec(input@) == Ok::<Seq<TokenView>, LexErrorView>(
                token_views(tokens@),
            ),
            Err(e) => tokenise_spec(input@) == Err::<Seq<TokenView>, LexErrorView>(e@),
        },
{
    let chars = to_chars(input);
    let s: &[char] = chars.as_slice();
    let n: usize = s.len();
    let mut tokens: Vec<Token> = Vec::new();
    let mut i: usize = 0;
    proof {
        assert(token_views(tokens@) =~= Seq::<TokenView>::empty());
        lemma_prepend_nothing(tokens_from(s@, 0));
    }
    while i < n
        invariant
            i <= n,
            n == s@.len(),
            s@ == input@,
            tokens_from(s@, 0) == prepend(token_views(tokens@), tokens_from(s@, i as int)),
        decreases n - i,
    {
        if is_space_char(s[i]) {
            i = i + 1;
        } else {
            let mut j: usize = i + 1;
            while j < n && !is_space_char(s[j])
                invariant
                    i < j <= n,
                    n == s@.len(),
                    forall|k: int| i <= k < j ==> !is_space(s@[k]),
                decreases n - j,
            {
                j = j + 1;
            }
            proof {
                lemma_word_end_is(s@, i as int, j as int);
            }
            let word: &[char] = &s[i..j];
            match classify_word(word) {
                None => {
                    return Err(LexError { text: to_text(word), position: i });
                },
                Some(token) => {
                    proof {
                        let done = token_views(tokens@);
                        let rest = tokens_from(s@, j as int);
                        assert(token_views(tokens@.push(token)) =~= done.push(token@));
                        lemma_prepend_twice(done, token@, rest);
                    }
                    tokens.push(token);
                    i = j;
                },
            }
        }
    }
    proof {
        assert(token_views(tokens@) + Seq::<TokenView>::empty() =~= token_views(tokens@));
    }
    Ok(tokens)
}

/// No tokens in front change nothing.
proof fn lemma_prepend_nothing(rest: Result<Seq<TokenView>, LexErrorView>)
    ensures
        prepend(Seq::empty(), rest) == rest,
{
    if let Ok(tokens) = rest {
        assert(Seq::<TokenView>::empty() + tokens =~= tokens);
    }
}

/// Tokens put in front one after the other are put in front together.
proof fn lemma_prepend_twice(
    done: Seq<TokenView>,
    token: TokenView,
    rest: Result<Seq<TokenView>, LexErrorView>,
)
    ensures
        prepend(done, prepend(seq![token], rest)) == prepend(done.push(token), rest),
{
    if let Ok(tokens) = rest {
        assert(done + (seq![token] + tokens) =~= done.push(token) + tokens);
    }
}

} // verus!
