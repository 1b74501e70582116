//! Lexical tokens and lexical errors.

use vstd::prelude::*;

verus! {

/// Model of a token: what the tokenizer's output denotes.
pub ghost enum TokenM {
    Str(Seq<char>),
    Int(usize),
    Float(Seq<char>),
    OpenBrace,
    CloseBrace,
    OpenBracket,
    CloseBracket,
    Colon,
    Comma,
    Bool(bool),
    Null,
}

/// A token of the grammar. `Str` carries the decoded string content (escape
/// sequences already resolved); `Float` carries the decimal text of the
/// number unchanged.
#[derive(Debug, PartialEq)]
pub enum Token {
    Str(String),
    Int(usize),
    Float(String),
    OpenBrace,
    CloseBrace,
    OpenBracket,
    CloseBracket,
    Colon,
    Comma,
    Bool(bool),
    Null,
}

impl View for Token {
    type V = TokenM;

    open spec fn view(&self) -> TokenM {
        match self {
            Token::Str(s) => TokenM::Str(s@),
            Token::Int(n) => TokenM::Int(*n),
            Token::Float(lx) => TokenM::Float(lx@),
            Token::OpenBrace => TokenM::OpenBrace,
            Token::CloseBrace => TokenM::CloseBrace,
            Token::OpenBracket => TokenM::OpenBracket,
            Token::CloseBracket => TokenM::CloseBracket,
            Token::Colon => TokenM::Colon,
            Token::Comma => TokenM::Comma,
            Token::Bool(b) => TokenM::Bool(*b),
            Token::Null => TokenM::Null,
        }
    }
}

impl DeepView for Token {
    type V = TokenM;

    open spec fn deep_view(&self) -> TokenM {
        self.view()
    }
}

/// The models of a token sequence, in order.
pub open spec fn tokens_view(ts: Seq<Token>) -> Seq<TokenM>
    decreases ts,
{
    if ts.len() == 0 {
        Seq::empty()
    } else {
        tokens_view(ts.drop_last()).push(ts.last()@)
    }
}

/// The view of a token sequence is pointwise.
pub proof fn lemma_tokens_view(ts: Seq<Token>)
    ensures
        tokens_view(ts).len() == ts.len(),
        forall|i: int| 0 <= i < ts.len() ==> tokens_view(ts)[i] == (#[trigger] ts[i])@,
    decreases ts.len(),
{
    if ts.len() > 0 {
        lemma_tokens_view(ts.drop_last());
        assert forall|i: int|
            0 <= i < ts.len() implies tokens_view(ts)[i] == (#[trigger] ts[i])@ by {
            if i < ts.len() - 1 {
                assert(ts.drop_last()[i] == ts[i]);
            }
        }
    }
}

/// Appending a token extends the view by its model.
pub proof fn lemma_tokens_view_push(ts: Seq<Token>, t: Token)
    ensures
        tokens_view(ts.push(t)) == tokens_view(ts).push(t@),
{
    assert(ts.push(t).drop_last() =~= ts);
    assert(ts.push(t).last() == t);
}

/// Why tokenizing failed.
#[derive(Debug, Clone, Copy, PartialEq, Eq)]
pub enum LexError {
    /// The input ended inside a string literal, before its closing quote.
    UnterminatedString,
    /// The input ended while a number was still being accumulated.
    UnterminatedNumber,
    /// A run of number characters with a dot is not a valid decimal
    /// (no digit, or more than one dot).
    MalformedNumber,
    /// An integer literal does not fit the machine's unsigned word.
    IntegerOverflow,
    /// A `t`, `f` or `n` that does not begin exactly `true`, `false` or `null`.
    UnknownLiteral,
    /// A character that cannot begin any token.
    UnexpectedChar,
}

} // verus!
