//! Tokens: sentence boundary markers and literal words.

use vstd::prelude::*;

verus! {

/// Mathematical value of a token: a word is its character sequence.
pub ghost enum TokenV {
    Start,
    End,
    Word(Seq<char>),
}

/// A token of the sentence-bounded token stream. `Start` and `End` are
/// synthetic sentence boundary markers; `Word` carries a literal surface
/// form verbatim.
#[derive(Debug, Clone, PartialEq, Eq)]
pub enum Token {
    Start,
    End,
    Word(String),
}

impl View for Token {
    type V = TokenV;

    open spec fn view(&self) -> TokenV {
        match self {
            Token::Start => TokenV::Start,
            Token::End => TokenV::End,
            Token::Word(s) => TokenV::Word(s@),
        }
    }
}

impl DeepView for Token {
    type V = TokenV;

    open spec fn deep_view(&self) -> TokenV {
        self.view()
    }
}

/// Structural equality of tokens, decided on the mathematical values.
pub fn token_eq(a: &Token, b: &Token) -> (r: bool)
    ensures
        r == (a@ == b@),
{
    match a {
        Token::Start => matches!(b, Token::Start),
        Token::End => matches!(b, Token::End),
        Token::Word(x) => match b {
            Token::Word(y) => x.eq(y),
            _ => false,
        },
    }
}

/// A copy of a token with the same mathematical value.
pub fn dup_token(t: &Token) -> (r: Token)
    ensures
        r@ == t@,
{
    match t {
        Token::Start => Token::Start,
        Token::End => Token::End,
        Token::Word(s) => Token::Word(s.clone()),
    }
}

/// Structural equality of token sequences, decided on the mathematical
/// values.
pub fn tokens_eq(a: &Vec<Token>, b: &Vec<Token>) -> (r: bool)
    ensures
        r == (a.deep_view() == b.deep_view()),
{
    if a.len() != b.len() {
        proof {
            assert(a.deep_view().len() != b.deep_view().len());
        }
        return false;
    }
    let mut i: usize = 0;
    while i < a.len()
        invariant
            a@.len() == b@.len(),
            i <= a@.len(),
            forall|j: int| 0 <= j < i ==> a@[j]@ == b@[j]@,
        decreases a@.len() - i,
    {
        if !token_eq(&a[i], &b[i]) {
            proof {
                assert(a.deep_view()[i as int] != b.deep_view()[i as int]);
            }
            return false;
        }
        i = i + 1;
    }
    proof {
        assert(a.deep_view() =~= b.deep_view());
    }
    true
}

/// A copy of a token sequence with the same mathematical value.
pub fn dup_tokens(v: &Vec<Token>) -> (r: Vec<Token>)
    ensures
        r.deep_view() == v.deep_view(),
{
    let mut r: Vec<Token> = Vec::new();
    let mut i: usize = 0;
    while i < v.len()
        invariant
            i <= v.len(),
            r@.len() == i,
            forall|j: int| 0 <= j < i ==> r@[j]@ == v@[j]@,
        decreases v.len() - i,
    {
        r.push(dup_token(&v[i]));
        i = i + 1;
    }
    proof {
        assert(r.deep_view() =~= v.deep_view());
    }
    r
}

} // verus!
