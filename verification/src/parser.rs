//! The parser: turns a token sequence into an abstract syntax tree of
//! statements, one token of lookahead, no backtracking. Comments are
//! silently skipped at statement level; whitespace is expected to have
//! been filtered out by the caller.

pub mod _let;
pub mod error;
pub mod expression;

use crate::parser::_let::{lemma_parse_let_bounds, spec_parse_let, Let, LetView};
use crate::parser::error::{ParserError, ParserErrorView, ParserResult};
use crate::parser::expression::{seq_after, Expression, ExpressionView};
use crate::token::{Keyword, Token, TokenKind, TokenKindView, TokenView};
use crate::token_stream::TokenStream;
use vstd::prelude::*;

verus! {

/// A top-level statement: a `let` binding or a bare expression.
#[derive(Debug, PartialEq)]
pub enum AstNode {
    Let(Let),
    Expression(Expression),
}

/// The mathematical value of a statement.
pub enum AstNodeView {
    Let(LetView),
    Expression(ExpressionView),
}

impl View for AstNode {
    type V = AstNodeView;

    open spec fn view(&self) -> AstNodeView {
        match self {
            AstNode::Let(l) => AstNodeView::Let(l@),
            AstNode::Expression(e) => AstNodeView::Expression(e@),
        }
    }
}

/// The mirror of `parse`: statements in order until the tokens run out.
/// A `let` keyword opens a binding, a comment is skipped, and any other
/// token fails the whole parse.
pub open spec fn spec_parse_program(ts: Seq<TokenView>) -> Result<
    Seq<AstNodeView>,
    ParserErrorView,
>
    decreases ts.len(),
{
    if ts.len() == 0 {
        Ok(Seq::empty())
    } else {
        match ts[0].kind {
            TokenKindView::Keyword(k) => match spec_parse_let(ts.skip(1)) {
                Err(e) => Err(e),
                Ok((l, n)) => match spec_parse_program(seq_after(ts, 1 + n as int)) {
                    Err(e) => Err(e),
                    Ok(rest) => Ok(seq![AstNodeView::Let(l)] + rest),
                },
            },
            TokenKindView::Comment(_) => spec_parse_program(ts.skip(1)),
            _ => Err(
                ParserErrorView::UnexpectedToken { token: ts[0].kind, position: ts[0].position },
            ),
        }
    }
}

/// Law: parsing is deterministic. The syntax tree is a function of the
/// token sequence alone — no hidden state takes part — so re-parsing
/// identical input yields a structurally equal tree.
pub proof fn lemma_reparse_equal(t1: Seq<TokenView>, t2: Seq<TokenView>)
    requires
        t1 == t2,
    ensures
        spec_parse_program(t1) == spec_parse_program(t2),
{
}

/// Parse a whole program: repeatedly pull a token; a `let` keyword
/// dispatches to `Let::parse`, comments are skipped, and any other token
/// kind where a statement is expected fails the parse.
#[verifier::rlimit(50)]
pub fn parse(tokens: Vec<Token>) -> (r: ParserResult<Vec<AstNode>>)
    ensures
        match spec_parse_program(tokens@.map_values(|t: Token| t@)) {
            Ok(nodes) => r matches Ok(ast) && ast@.map_values(|a: AstNode| a@) == nodes,
            Err(ev) => r matches Err(err) && err@ == ev,
        },
{
    let ghost ts0 = tokens@.map_values(|t: Token| t@);
    let mut stream = TokenStream::from(tokens);
    let mut nodes: Vec<AstNode> = Vec::new();
    let ghost mut off: int = 0;
    proof {
        assert(ts0.skip(0) =~= ts0);
        assert(nodes@.map_values(|a: AstNode| a@) =~= Seq::<AstNodeView>::empty());
    }
    loop
        invariant_except_break
            ts0 == tokens@.map_values(|t: Token| t@),
            0 <= off <= ts0.len(),
            stream.remaining() == ts0.skip(off),
            match spec_parse_program(stream.remaining()) {
                Ok(rest) => spec_parse_program(ts0) == Ok::<Seq<AstNodeView>, ParserErrorView>(
                    nodes@.map_values(|a: AstNode| a@) + rest,
                ),
                Err(ev) => spec_parse_program(ts0) == Err::<Seq<AstNodeView>, ParserErrorView>(ev),
            },
        ensures
            spec_parse_program(ts0) == Ok::<Seq<AstNodeView>, ParserErrorView>(
                nodes@.map_values(|a: AstNode| a@),
            ),
        decreases ts0.len() - off,
    {
        let ghost rem_now = stream.remaining();
        let token = match stream.next() {
            Ok(t) => t,
            Err(_) => {
                proof {
                    assert(nodes@.map_values(|a: AstNode| a@) + Seq::<AstNodeView>::empty()
                        =~= nodes@.map_values(|a: AstNode| a@));
                }
                break;
            },
        };
        let Token { kind, position } = token;
        match kind {
            TokenKind::Keyword(Keyword::Let) => {
                proof {
                    assert(ts0.skip(off).skip(1) =~= ts0.skip(off + 1));
                    lemma_parse_let_bounds(ts0.skip(off + 1));
                }
                let node = match Let::parse(&mut stream) {
                    Ok(l) => l,
                    Err(e) => {
                        return Err(e);
                    },
                };
                let ghost nodes_before = nodes@.map_values(|a: AstNode| a@);
                let ghost node_view = node@;
                nodes.push(AstNode::Let(node));
                proof {
                    let n = match spec_parse_let(ts0.skip(off + 1)) {
                        Ok((l, n)) => n as int,
                        Err(_) => 0,
                    };
                    assert(ts0.skip(off + 1).skip(n) =~= ts0.skip(off + 1 + n));
                    assert(rem_now.skip(1 + n) =~= ts0.skip(off + 1 + n));
                    assert(seq_after(rem_now, 1 + n) == rem_now.skip(1 + n));
                    assert(nodes@.map_values(|a: AstNode| a@) =~= nodes_before.push(
                        AstNodeView::Let(node_view),
                    ));
                    assert(spec_parse_program(rem_now) == match spec_parse_program(
                        rem_now.skip(1 + n),
                    ) {
                        Err(e) => Err::<Seq<AstNodeView>, ParserErrorView>(e),
                        Ok(rest) => Ok::<Seq<AstNodeView>, ParserErrorView>(
                            seq![AstNodeView::Let(node_view)] + rest,
                        ),
                    });
                    match spec_parse_program(rem_now.skip(1 + n)) {
                        Err(_) => {},
                        Ok(rest) => {
                            assert(nodes_before + (seq![AstNodeView::Let(node_view)] + rest)
                                =~= nodes_before.push(AstNodeView::Let(node_view)) + rest);
                        },
                    }
                    off = off + 1 + n;
                }
            },
            TokenKind::Comment(_) => {
                proof {
                    assert(ts0.skip(off).skip(1) =~= ts0.skip(off + 1));
                    off = off + 1;
                }
            },
            t => {
                return Err(ParserError::UnexpectedToken { token: t, position });
            },
        }
    }
    Ok(nodes)
}

} // verus!
