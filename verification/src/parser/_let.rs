//! The `let` statement: `let <identifier> = <expression> ;`. The leading
//! `let` keyword has already been consumed by the statement dispatcher.

use crate::parser::error::{ParserError, ParserErrorView, ParserResult};
use crate::parser::expression::{
    lemma_parse_expression_bounds, lemma_stream_suffix_skip, lemma_stream_suffix_trans, seq_after,
    spec_parse_expression, stream_suffix, Expression, ExpressionView,
};
use crate::token::{Token, TokenKind, TokenKindView, TokenView};
use crate::token_stream::{expect_spec, TokenStream};
use vstd::prelude::*;

verus! {

/// A `let` binding: an identifier and the expression bound to it.
#[derive(Debug, PartialEq)]
pub struct Let {
    pub ident: String,
    pub rhs: Expression,
}

/// The mathematical value of a `let` binding.
pub struct LetView {
    pub ident: Seq<char>,
    pub rhs: ExpressionView,
}

impl View for Let {
    type V = LetView;

    open spec fn view(&self) -> LetView {
        LetView { ident: self.ident@, rhs: self.rhs@ }
    }
}

/// The mirror of `Let::parse`, applied to the tokens after the `let`
/// keyword: an identifier, `=`, a full expression, and a terminating `;`,
/// each missing piece failing with the specific expected-token error.
pub open spec fn spec_parse_let(ts: Seq<TokenView>) -> Result<(LetView, nat), ParserErrorView> {
    if ts.len() == 0 {
        Err(ParserErrorView::ExpectedTokenToFollow)
    } else {
        match ts[0].kind {
            TokenKindView::Identifier(name) => match expect_spec(
                ts.skip(1),
                TokenKindView::Equals,
            ) {
                Err(e) => Err(e),
                Ok(_) => match spec_parse_expression(ts.skip(2)) {
                    Err(e) => Err(e),
                    Ok((rhs, n)) => match expect_spec(
                        seq_after(ts, 2 + n as int),
                        TokenKindView::Semi,
                    ) {
                        Err(e) => Err(e),
                        Ok(_) => Ok((LetView { ident: name, rhs }, (3 + n) as nat)),
                    },
                },
            },
            _ => Err(
                ParserErrorView::ExpectedToken {
                    token: TokenKindView::Identifier(Seq::empty()),
                    position: ts[0].position,
                },
            ),
        }
    }
}

/// A successful `let` consumes at least three tokens and never more than
/// exist.
pub proof fn lemma_parse_let_bounds(ts: Seq<TokenView>)
    ensures
        spec_parse_let(ts) matches Ok((l, n)) ==> 3 <= n <= ts.len(),
{
    if ts.len() > 0 {
        match ts[0].kind {
            TokenKindView::Identifier(name) => {
                lemma_parse_expression_bounds(ts.skip(2));
            },
            _ => {},
        }
    }
}

impl Let {
    /// Parse the statement's remainder: requires, in order, an identifier,
    /// an `=`, a full expression and a terminating `;`.
    pub fn parse(tokens: &mut TokenStream) -> (r: ParserResult<Let>)
        ensures
            match spec_parse_let(old(tokens).remaining()) {
                Ok((l, n)) => {
                    &&& r matches Ok(node) && node@ == l
                    &&& final(tokens).remaining() == old(tokens).remaining().skip(n as int)
                },
                Err(ev) => {
                    &&& r matches Err(err) && err@ == ev
                    &&& stream_suffix(final(tokens).remaining(), old(tokens).remaining())
                },
            },
    {
        let ghost rem0 = tokens.remaining();
        let token = match tokens.next() {
            Ok(t) => t,
            Err(e) => {
                proof {
                    assert(rem0.skip(0) =~= rem0);
                    lemma_stream_suffix_skip(rem0, 0);
                }
                return Err(e);
            },
        };
        let Token { kind, position } = token;
        let ident = match kind {
            TokenKind::Identifier(ident) => ident,
            _ => {
                proof {
                    lemma_stream_suffix_skip(rem0, 1);
                }
                return Err(
                    ParserError::ExpectedToken { token: TokenKind::Identifier(String::new()), position },
                );
            },
        };
        match tokens.expect(TokenKind::Equals) {
            Ok(_) => {},
            Err(e) => {
                proof {
                    lemma_stream_suffix_skip(rem0, 1);
                }
                return Err(e);
            },
        }
        proof {
            assert(rem0.skip(1).skip(1) =~= rem0.skip(2));
            lemma_parse_expression_bounds(rem0.skip(2));
        }
        let expression = match Expression::parse(tokens) {
            Ok(e) => e,
            Err(e) => {
                proof {
                    lemma_stream_suffix_skip(rem0, 2);
                    lemma_stream_suffix_trans(final(tokens).remaining(), rem0.skip(2), rem0);
                }
                return Err(e);
            },
        };
        let ghost n = match spec_parse_expression(rem0.skip(2)) {
            Ok((e, n)) => n as int,
            Err(_) => 0,
        };
        proof {
            assert(rem0.skip(2).skip(n) =~= rem0.skip(2 + n));
        }
        match tokens.expect(TokenKind::Semi) {
            Ok(_) => {
                proof {
                    assert(rem0.skip(2 + n).skip(1) =~= rem0.skip(3 + n));
                }
            },
            Err(e) => {
                proof {
                    lemma_stream_suffix_skip(rem0, 2 + n);
                }
                return Err(e);
            },
        }
        Ok(Let { ident, rhs: expression })
    }
}

} // verus!
