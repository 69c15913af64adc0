//! A thin sequential-access, single-token-lookahead wrapper over a token
//! sequence. `expect` — consume the next token exactly when it has a given
//! kind — is the primitive the parser composes on.

use crate::parser::error::{ParserError, ParserErrorView, ParserResult};
use crate::token::{Token, TokenKind, TokenKindView, TokenView};
use vstd::prelude::*;

verus! {

/// What `expect` returns when the stream holds `rem` and the kind `want`
/// is required: the front token when its kind matches, consumed; otherwise
/// an error naming the kind that was required, at the position of the
/// token found, with nothing consumed.
pub open spec fn expect_spec(rem: Seq<TokenView>, want: TokenKindView) -> Result<
    TokenView,
    ParserErrorView,
> {
    if rem.len() == 0 {
        Err(ParserErrorView::ExpectedTokenToFollow)
    } else if rem[0].kind == want {
        Ok(rem[0])
    } else {
        Err(ParserErrorView::ExpectedToken { token: want, position: rem[0].position })
    }
}

/// The tokens still to be consumed, front first.
pub struct TokenStream(pub Vec<Token>);

impl TokenStream {
    /// The tokens still to be consumed, as mathematical values.
    pub open spec fn remaining(&self) -> Seq<TokenView> {
        self.0@.map_values(|t: Token| t@)
    }

    /// Consumes and returns the next token from the stream, returning an
    /// `ExpectedTokenToFollow` error if none is left.
    pub fn next(&mut self) -> (r: ParserResult<Token>)
        ensures
            old(self).remaining().len() == 0 ==> {
                &&& r matches Err(e) && e@ == ParserErrorView::ExpectedTokenToFollow
                &&& *final(self) == *old(self)
            },
            old(self).remaining().len() > 0 ==> {
                &&& r matches Ok(t) && t@ == old(self).remaining()[0]
                &&& final(self).remaining() == old(self).remaining().skip(1)
            },
    {
        if self.0.len() > 0 {
            let t = self.0.remove(0);
            proof {
                assert(self.remaining() =~= old(self).remaining().skip(1));
            }
            Ok(t)
        } else {
            Err(ParserError::ExpectedTokenToFollow)
        }
    }

    /// A reference to the next token, without consuming it; `None` if the
    /// stream is exhausted.
    pub fn peek(&self) -> (r: Option<&Token>)
        ensures
            self.remaining().len() == 0 ==> r is None,
            self.remaining().len() > 0 ==> (r matches Some(t) && t@ == self.remaining()[0]),
    {
        if self.0.len() > 0 {
            Some(&self.0[0])
        } else {
            None
        }
    }

    /// Peeks the next token, consuming it if its kind equals `token`;
    /// otherwise fails without consuming, so the caller can try another
    /// production or surface the error — which names the required kind at
    /// the found token's exact position.
    pub fn expect(&mut self, token: TokenKind) -> (r: ParserResult<Token>)
        ensures
            match expect_spec(old(self).remaining(), token@) {
                Ok(tv) => {
                    &&& r matches Ok(t) && t@ == tv
                    &&& final(self).remaining() == old(self).remaining().skip(1)
                },
                Err(ev) => {
                    &&& r matches Err(e) && e@ == ev
                    &&& *final(self) == *old(self)
                },
            },
    {
        if self.0.len() == 0 {
            return Err(ParserError::ExpectedTokenToFollow);
        }
        if self.0[0].kind == token {
            self.next()
        } else {
            let position = self.0[0].position;
            Err(ParserError::ExpectedToken { token, position })
        }
    }
}

impl From<Vec<Token>> for TokenStream {
    /// Wrap an owned token sequence.
    fn from(tokens: Vec<Token>) -> (s: TokenStream) {
        TokenStream(tokens)
    }
}

impl vstd::std_specs::convert::FromSpecImpl<Vec<Token>> for TokenStream {
    open spec fn obeys_from_spec() -> bool {
        true
    }

    open spec fn from_spec(tokens: Vec<Token>) -> TokenStream {
        TokenStream(tokens)
    }
}

} // verus!
