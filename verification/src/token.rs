//! Tokens produced by the lexer: a kind plus the position of the token's
//! first character. Equality on tokens compares kinds only — the position is
//! metadata, not semantic identity.

use crate::lexer::cursor::Position;
use vstd::prelude::*;

verus! {

/// The kind of payload a literal token carries.
#[derive(Debug, Clone, Copy, PartialEq, Eq, Structural)]
pub enum LiteralKind {
    String,
    Integer,
    Boolean,
}

/// The keywords of the language.
#[derive(Debug, Clone, Copy, PartialEq, Eq, Structural)]
pub enum Keyword {
    Let,
}

/// A token kind. Literals keep their raw characters: numeric and string
/// conversion is deferred past the lexer.
#[derive(Debug, Clone)]
pub enum TokenKind {
    Keyword(Keyword),
    Literal { kind: LiteralKind, chars: Vec<char> },
    Identifier(String),
    Whitespace,
    Semi,
    Comment(String),
    Equals,
    Plus,
    Minus,
    Asterix,
    Slash,
    Hat,
    LSmooth,
    RSmooth,
    Unknown,
}

/// The mathematical value of a token kind: character payloads as sequences.
pub enum TokenKindView {
    Keyword(Keyword),
    Literal { kind: LiteralKind, chars: Seq<char> },
    Identifier(Seq<char>),
    Whitespace,
    Semi,
    Comment(Seq<char>),
    Equals,
    Plus,
    Minus,
    Asterix,
    Slash,
    Hat,
    LSmooth,
    RSmooth,
    Unknown,
}

impl View for TokenKind {
    type V = TokenKindView;

    open spec fn view(&self) -> TokenKindView {
        match self {
            TokenKind::Keyword(k) => TokenKindView::Keyword(*k),
            TokenKind::Literal { kind, chars } => TokenKindView::Literal {
                kind: *kind,
                chars: chars@,
            },
            TokenKind::Identifier(name) => TokenKindView::Identifier(name@),
            TokenKind::Whitespace => TokenKindView::Whitespace,
            TokenKind::Semi => TokenKindView::Semi,
            TokenKind::Comment(text) => TokenKindView::Comment(text@),
            TokenKind::Equals => TokenKindView::Equals,
            TokenKind::Plus => TokenKindView::Plus,
            TokenKind::Minus => TokenKindView::Minus,
            TokenKind::Asterix => TokenKindView::Asterix,
            TokenKind::Slash => TokenKindView::Slash,
            TokenKind::Hat => TokenKindView::Hat,
            TokenKind::LSmooth => TokenKindView::LSmooth,
            TokenKind::RSmooth => TokenKindView::RSmooth,
            TokenKind::Unknown => TokenKindView::Unknown,
        }
    }
}

/// Character-by-character equality of two character vectors.
fn chars_eq(a: &Vec<char>, b: &Vec<char>) -> (r: bool)
    ensures
        r == (a@ == b@),
{
    if a.len() != b.len() {
        return false;
    }
    let mut i: usize = 0;
    while i < a.len()
        invariant
            i <= a.len(),
            a.len() == b.len(),
            forall|j: int| 0 <= j < i ==> a@[j] == b@[j],
        decreases a.len() - i,
    {
        if a[i] != b[i] {
            return false;
        }
        i += 1;
    }
    proof {
        assert(a@ =~= b@);
    }
    true
}

impl PartialEq for TokenKind {
    /// Two kinds are equal when they are the same variant with equal
    /// character payloads.
    fn eq(&self, other: &Self) -> (r: bool) {
        match (self, other) {
            (TokenKind::Keyword(a), TokenKind::Keyword(b)) => *a == *b,
            (
                TokenKind::Literal { kind: ka, chars: ca },
                TokenKind::Literal { kind: kb, chars: cb },
            ) => *ka == *kb && chars_eq(ca, cb),
            (TokenKind::Identifier(a), TokenKind::Identifier(b)) => *a == *b,
            (TokenKind::Whitespace, TokenKind::Whitespace) => true,
            (TokenKind::Semi, TokenKind::Semi) => true,
            (TokenKind::Comment(a), TokenKind::Comment(b)) => *a == *b,
            (TokenKind::Equals, TokenKind::Equals) => true,
            (TokenKind::Plus, TokenKind::Plus) => true,
            (TokenKind::Minus, TokenKind::Minus) => true,
            (TokenKind::Asterix, TokenKind::Asterix) => true,
            (TokenKind::Slash, TokenKind::Slash) => true,
            (TokenKind::Hat, TokenKind::Hat) => true,
            (TokenKind::LSmooth, TokenKind::LSmooth) => true,
            (TokenKind::RSmooth, TokenKind::RSmooth) => true,
            (TokenKind::Unknown, TokenKind::Unknown) => true,
            _ => false,
        }
    }
}

impl vstd::std_specs::cmp::PartialEqSpecImpl for TokenKind {
    open spec fn obeys_eq_spec() -> bool {
        true
    }

    open spec fn eq_spec(&self, other: &Self) -> bool {
        self@ == other@
    }
}

/// A token: a kind and the position of its first character in the source.
#[derive(Debug)]
pub struct Token {
    pub kind: TokenKind,
    pub position: Position,
}

/// The mathematical value of a token.
pub struct TokenView {
    pub kind: TokenKindView,
    pub position: Position,
}

impl View for Token {
    type V = TokenView;

    open spec fn view(&self) -> TokenView {
        TokenView { kind: self.kind@, position: self.position }
    }
}

impl Token {
    pub fn new(kind: TokenKind, position: Position) -> (t: Self)
        ensures
            t == (Token { kind, position }),
    {
        Self { kind, position }
    }
}

impl PartialEq for Token {
    /// Tokens compare by kind alone; the position is ignored.
    fn eq(&self, other: &Self) -> (r: bool) {
        self.kind == other.kind
    }
}

impl vstd::std_specs::cmp::PartialEqSpecImpl for Token {
    open spec fn obeys_eq_spec() -> bool {
        true
    }

    open spec fn eq_spec(&self, other: &Self) -> bool {
        self.kind@ == other.kind@
    }
}

} // verus!
