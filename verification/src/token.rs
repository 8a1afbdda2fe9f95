//! The lexical units a template is made of, as plain values.

use crate::span::SpanPos;
use vstd::prelude::*;

verus! {

/// What sort of lexical unit a token is.
#[derive(Clone, Copy, Debug, PartialEq, Eq, Structural)]
pub enum TokenKind {
    /// A word: an identifier or a keyword.
    Ident,
    /// A single punctuation character.
    Punct,
    /// A literal: a string, a character, a number.
    Literal,
    /// A group in parentheses or brackets, carried as its text.
    Group,
    /// A group in braces.
    Braced,
}

/// One lexical unit: its text and where it stood in the source.
#[derive(Clone, Debug, PartialEq, Eq)]
pub struct Token {
    pub kind: TokenKind,
    pub text: String,
    pub span: SpanPos,
}

/// A token as a mathematical value.
pub struct TokenView {
    pub kind: TokenKind,
    pub text: Seq<char>,
    pub span: SpanPos,
}

impl View for Token {
    type V = TokenView;

    open spec fn view(&self) -> TokenView {
        TokenView { kind: self.kind, text: self.text@, span: self.span }
    }
}

/// A unit of the template stream: a token and, for a group in braces, the
/// tokens between the braces.
#[derive(Clone, Debug, PartialEq, Eq)]
pub struct TokenTree {
    pub token: Token,
    pub body: Vec<Token>,
}

/// A unit of the template stream as a mathematical value.
pub struct TokenTreeView {
    pub token: TokenView,
    pub body: Seq<TokenView>,
}

impl View for TokenTree {
    type V = TokenTreeView;

    open spec fn view(&self) -> TokenTreeView {
        TokenTreeView { token: self.token@, body: views(self.body@) }
    }
}

/// The views of the elements of `s`, in order.
pub open spec fn views<T: View>(s: Seq<T>) -> Seq<T::V> {
    Seq::new(s.len(), |i: int| s[i]@)
}

impl TokenTreeView {
    /// Whether this unit is the punctuation character `c`.
    pub open spec fn is_punct(self, c: char) -> bool {
        self.token.kind == TokenKind::Punct && self.token.text == seq![c]
    }

    /// Whether this unit is a group in braces.
    pub open spec fn is_braced(self) -> bool {
        self.token.kind == TokenKind::Braced
    }
}

impl Token {
    /// A token of the given kind and text that spans `start..end`.
    pub fn new(kind: TokenKind, text: &str, start: usize, end: usize) -> (t: Token)
        ensures
            t@ == (TokenView { kind, text: text@, span: SpanPos { start, end } }),
    {
        Token { kind, text: String::from_str(text), span: SpanPos { start, end } }
    }

    /// Whether this token is the punctuation character `c`.
    pub fn is_punct(&self, c: char) -> (r: bool)
        ensures
            r == (self.kind == TokenKind::Punct && self.text@ == seq![c]),
    {
        if self.kind != TokenKind::Punct {
            return false;
        }
        let s = self.text.as_str();
        let n = s.unicode_len();
        if n != 1 {
            return false;
        }
        let d = s.get_char(0);
        proof {
            assert(d == c ==> self.text@ =~= seq![c]);
        }
        d == c
    }
}

impl TokenTree {
    /// A unit that is a single token.
    pub fn leaf(token: Token) -> (t: TokenTree)
        ensures
            t@ == (TokenTreeView { token: token@, body: Seq::empty() }),
    {
        let t = TokenTree { token, body: Vec::new() };
        proof {
            assert(views(t.body@) =~= Seq::<TokenView>::empty());
        }
        t
    }

    /// A group in braces: `text` is the group as written, `body` the tokens
    /// between the braces.
    pub fn braced(text: &str, start: usize, end: usize, body: Vec<Token>) -> (t: TokenTree)
        ensures
            t@ == (TokenTreeView {
                token: TokenView { kind: TokenKind::Braced, text: text@, span: SpanPos { start, end } },
                body: views(body@),
            }),
    {
        TokenTree { token: Token::new(TokenKind::Braced, text, start, end), body }
    }
}

} // verus!
