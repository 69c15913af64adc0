//! Expressions and their parser.
//!
//! The grammar, precedence increasing with rule depth, each decision made
//! from one token of lookahead:
//!
//! ```txt
//! E -> T {("+" | "-") T}     left-associative
//! T -> F {("*" | "/") F}     left-associative
//! F -> P ["^" F]             right-associative
//! P -> Literal | Identifier | "(" E ")" | "-" T
//! ```
//!
//! Each executable parser is pinned to a specification mirror of the same
//! rule: the mirrors return the expression parsed and the number of tokens
//! consumed, or the error met.

use crate::parser::error::{ParserError, ParserErrorView, ParserResult};
use crate::token::{LiteralKind, Token, TokenKind, TokenKindView, TokenView};
use crate::token_stream::{expect_spec, TokenStream};
use vstd::prelude::*;

verus! {

/// Each of the binary operations that can take place within an expression.
#[derive(Debug, Clone, Copy, PartialEq, Eq, Structural)]
pub enum BinaryOperationKind {
    /// Addition
    Add,
    /// Subtraction
    Sub,
    /// Multiplication
    Mult,
    /// Division
    Div,
    /// Exponent
    Exp,
}

/// Each of the unary operations that can take place within an expression.
#[derive(Debug, Clone, Copy, PartialEq, Eq, Structural)]
pub enum UnaryOperationKind {
    /// Negation (eg `-8`)
    Negative,
}

/// Each of the possible expression types.
#[allow(inconsistent_fields)]
#[derive(Debug, PartialEq, Eq)]
pub enum Expression {
    /// A variable. Eg `a`.
    Ident(String),
    /// A binary operation. Eg `a + 8`.
    BinaryOperation { operation: BinaryOperationKind, lhs: Box<Expression>, rhs: Box<Expression> },
    /// A unary operation. Eg `-8`.
    UnaryOperation { operation: UnaryOperationKind, rhs: Box<Expression> },
    /// A literal, its raw characters still unconverted.
    Literal { kind: LiteralKind, chars: Vec<char> },
}

/// The mathematical value of an expression tree.
#[allow(inconsistent_fields)]
pub enum ExpressionView {
    Ident(Seq<char>),
    BinaryOperation {
        operation: BinaryOperationKind,
        lhs: Box<ExpressionView>,
        rhs: Box<ExpressionView>,
    },
    UnaryOperation { operation: UnaryOperationKind, rhs: Box<ExpressionView> },
    Literal { kind: LiteralKind, chars: Seq<char> },
}

impl View for Expression {
    type V = ExpressionView;

    open spec fn view(&self) -> ExpressionView
        decreases self,
    {
        match self {
            Expression::Ident(name) => ExpressionView::Ident(name@),
            Expression::BinaryOperation { operation, lhs, rhs } => ExpressionView::BinaryOperation {
                operation: *operation,
                lhs: Box::new((**lhs)@),
                rhs: Box::new((**rhs)@),
            },
            Expression::UnaryOperation { operation, rhs } => ExpressionView::UnaryOperation {
                operation: *operation,
                rhs: Box::new((**rhs)@),
            },
            Expression::Literal { kind, chars } => ExpressionView::Literal {
                kind: *kind,
                chars: chars@,
            },
        }
    }
}

/// The tokens after the first `n` are dropped. The parsers never consume
/// more tokens than exist (the bounds lemmas below show it), so the
/// clamping serves only to keep the specification functions total and
/// their recursion visibly well-founded.
pub open spec fn seq_after(s: Seq<TokenView>, n: int) -> Seq<TokenView> {
    if 0 <= n <= s.len() {
        s.skip(n)
    } else {
        Seq::empty()
    }
}

/// `post` is what is left of `pre` after consuming some prefix.
pub open spec fn stream_suffix(post: Seq<TokenView>, pre: Seq<TokenView>) -> bool {
    exists|k: int| 0 <= k <= pre.len() && post == #[trigger] pre.skip(k)
}

/// Dropping a prefix leaves a suffix.
pub proof fn lemma_stream_suffix_skip(pre: Seq<TokenView>, k: int)
    requires
        0 <= k <= pre.len(),
    ensures
        stream_suffix(pre.skip(k), pre),
{
}

/// A suffix of a suffix is a suffix.
pub proof fn lemma_stream_suffix_trans(a: Seq<TokenView>, b: Seq<TokenView>, c: Seq<TokenView>)
    requires
        stream_suffix(a, b),
        stream_suffix(b, c),
    ensures
        stream_suffix(a, c),
{
    let k1 = choose|k1: int| 0 <= k1 <= b.len() && a == #[trigger] b.skip(k1);
    let k2 = choose|k2: int| 0 <= k2 <= c.len() && b == #[trigger] c.skip(k2);
    assert(a =~= c.skip(k2 + k1));
}

/// The mirror of `parse_primary`: one token is consumed and dispatched; a
/// parenthesis opens a full sub-expression, a minus binds a whole term.
pub open spec fn spec_parse_primary(ts: Seq<TokenView>) -> Result<
    (ExpressionView, nat),
    ParserErrorView,
>
    decreases ts.len(), 0int,
{
    if ts.len() == 0 {
        Err(ParserErrorView::ExpectedTokenToFollow)
    } else {
        match ts[0].kind {
            TokenKindView::Literal { kind, chars } => Ok(
                (ExpressionView::Literal { kind, chars }, 1),
            ),
            TokenKindView::Identifier(name) => Ok((ExpressionView::Ident(name), 1)),
            TokenKindView::LSmooth => match spec_parse_expression(ts.skip(1)) {
                Err(e) => Err(e),
                Ok((inner, n)) => match expect_spec(
                    seq_after(ts, 1 + n as int),
                    TokenKindView::RSmooth,
                ) {
                    Ok(_) => Ok((inner, (2 + n) as nat)),
                    Err(e) => Err(e),
                },
            },
            TokenKindView::Minus => match spec_parse_term(ts.skip(1)) {
                Err(e) => Err(e),
                Ok((rhs, n)) => Ok(
                    (
                        ExpressionView::UnaryOperation {
                            operation: UnaryOperationKind::Negative,
                            rhs: Box::new(rhs),
                        },
                        (1 + n) as nat,
                    ),
                ),
            },
            _ => Err(
                ParserErrorView::UnexpectedToken { token: ts[0].kind, position: ts[0].position },
            ),
        }
    }
}

/// The mirror of `parse_factor`: a primary, then an optional `^` whose
/// right-hand side is a whole factor again — exponentiation associates to
/// the right.
pub open spec fn spec_parse_factor(ts: Seq<TokenView>) -> Result<
    (ExpressionView, nat),
    ParserErrorView,
>
    decreases ts.len(), 1int,
{
    match spec_parse_primary(ts) {
        Err(e) => Err(e),
        Ok((p, n)) => {
            if n < ts.len() && ts[n as int].kind == TokenKindView::Hat {
                match spec_parse_factor(ts.skip(n as int + 1)) {
                    Err(e) => Err(e),
                    Ok((rhs, m)) => Ok(
                        (
                            ExpressionView::BinaryOperation {
                                operation: BinaryOperationKind::Exp,
                                lhs: Box::new(p),
                                rhs: Box::new(rhs),
                            },
                            (n + 1 + m) as nat,
                        ),
                    ),
                }
            } else {
                Ok((p, n))
            }
        },
    }
}

/// The mirror of `parse_term`'s folding loop: as long as a `*` or `/`
/// follows, fold the accumulated expression with a freshly parsed factor —
/// multiplication and division associate to the left.
pub open spec fn spec_parse_term_rest(lhs: ExpressionView, rem: Seq<TokenView>) -> Result<
    (ExpressionView, nat),
    ParserErrorView,
>
    decreases rem.len(), 2int,
{
    if rem.len() > 0 && (rem[0].kind == TokenKindView::Asterix || rem[0].kind
        == TokenKindView::Slash) {
        let operation = if rem[0].kind == TokenKindView::Asterix {
            BinaryOperationKind::Mult
        } else {
            BinaryOperationKind::Div
        };
        match spec_parse_factor(rem.skip(1)) {
            Err(e) => Err(e),
            Ok((rhs, m)) => {
                let combined = ExpressionView::BinaryOperation {
                    operation,
                    lhs: Box::new(lhs),
                    rhs: Box::new(rhs),
                };
                match spec_parse_term_rest(combined, seq_after(rem, 1 + m as int)) {
                    Err(e) => Err(e),
                    Ok((folded, k)) => Ok((folded, (1 + m + k) as nat)),
                }
            },
        }
    } else {
        Ok((lhs, 0))
    }
}

/// The mirror of `parse_term`: a factor, then the folding loop.
pub open spec fn spec_parse_term(ts: Seq<TokenView>) -> Result<
    (ExpressionView, nat),
    ParserErrorView,
>
    decreases ts.len(), 3int,
{
    match spec_parse_factor(ts) {
        Err(e) => Err(e),
        Ok((lhs, n)) => match spec_parse_term_rest(lhs, seq_after(ts, n as int)) {
            Err(e) => Err(e),
            Ok((folded, k)) => Ok((folded, (n + k) as nat)),
        },
    }
}

/// The mirror of `parse_expression`'s folding loop, one level up: `+` and
/// `-` fold left over terms.
pub open spec fn spec_parse_expression_rest(lhs: ExpressionView, rem: Seq<TokenView>) -> Result<
    (ExpressionView, nat),
    ParserErrorView,
>
    decreases rem.len(), 4int,
{
    if rem.len() > 0 && (rem[0].kind == TokenKindView::Plus || rem[0].kind
        == TokenKindView::Minus) {
        let operation = if rem[0].kind == TokenKindView::Plus {
            BinaryOperationKind::Add
        } else {
            BinaryOperationKind::Sub
        };
        match spec_parse_term(rem.skip(1)) {
            Err(e) => Err(e),
            Ok((rhs, m)) => {
                let combined = ExpressionView::BinaryOperation {
                    operation,
                    lhs: Box::new(lhs),
                    rhs: Box::new(rhs),
                };
                match spec_parse_expression_rest(combined, seq_after(rem, 1 + m as int)) {
                    Err(e) => Err(e),
                    Ok((folded, k)) => Ok((folded, (1 + m + k) as nat)),
                }
            },
        }
    } else {
        Ok((lhs, 0))
    }
}

/// The mirror of `parse_expression`: a term, then the folding loop.
pub open spec fn spec_parse_expression(ts: Seq<TokenView>) -> Result<
    (ExpressionView, nat),
    ParserErrorView,
>
    decreases ts.len(), 5int,
{
    match spec_parse_term(ts) {
        Err(e) => Err(e),
        Ok((lhs, n)) => match spec_parse_expression_rest(lhs, seq_after(ts, n as int)) {
            Err(e) => Err(e),
            Ok((folded, k)) => Ok((folded, (n + k) as nat)),
        },
    }
}

/// A successful primary consumes at least one token and never more than
/// exist.
pub proof fn lemma_parse_primary_bounds(ts: Seq<TokenView>)
    ensures
        spec_parse_primary(ts) matches Ok((e, n)) ==> 1 <= n <= ts.len(),
    decreases ts.len(), 0int,
{
    if ts.len() > 0 {
        match ts[0].kind {
            TokenKindView::LSmooth => {
                lemma_parse_expression_bounds(ts.skip(1));
            },
            TokenKindView::Minus => {
                lemma_parse_term_bounds(ts.skip(1));
            },
            _ => {},
        }
    }
}

/// A successful factor consumes at least one token and never more than
/// exist.
pub proof fn lemma_parse_factor_bounds(ts: Seq<TokenView>)
    ensures
        spec_parse_factor(ts) matches Ok((e, n)) ==> 1 <= n <= ts.len(),
    decreases ts.len(), 1int,
{
    lemma_parse_primary_bounds(ts);
    match spec_parse_primary(ts) {
        Err(_) => {},
        Ok((p, n)) => {
            if n < ts.len() && ts[n as int].kind == TokenKindView::Hat {
                lemma_parse_factor_bounds(ts.skip(n as int + 1));
            }
        },
    }
}

/// The folding loop of a term consumes no more tokens than remain.
pub proof fn lemma_parse_term_rest_bounds(lhs: ExpressionView, rem: Seq<TokenView>)
    ensures
        spec_parse_term_rest(lhs, rem) matches Ok((e, k)) ==> k <= rem.len(),
    decreases rem.len(), 2int,
{
    if rem.len() > 0 && (rem[0].kind == TokenKindView::Asterix || rem[0].kind
        == TokenKindView::Slash) {
        let operation = if rem[0].kind == TokenKindView::Asterix {
            BinaryOperationKind::Mult
        } else {
            BinaryOperationKind::Div
        };
        lemma_parse_factor_bounds(rem.skip(1));
        match spec_parse_factor(rem.skip(1)) {
            Err(_) => {},
            Ok((rhs, m)) => {
                let combined = ExpressionView::BinaryOperation {
                    operation,
                    lhs: Box::new(lhs),
                    rhs: Box::new(rhs),
                };
                lemma_parse_term_rest_bounds(combined, seq_after(rem, 1 + m as int));
            },
        }
    }
}

/// A successful term consumes at least one token and never more than
/// exist.
pub proof fn lemma_parse_term_bounds(ts: Seq<TokenView>)
    ensures
        spec_parse_term(ts) matches Ok((e, n)) ==> 1 <= n <= ts.len(),
    decreases ts.len(), 3int,
{
    lemma_parse_factor_bounds(ts);
    match spec_parse_factor(ts) {
        Err(_) => {},
        Ok((lhs, n)) => {
            lemma_parse_term_rest_bounds(lhs, seq_after(ts, n as int));
        },
    }
}

/// The folding loop of an expression consumes no more tokens than remain.
pub proof fn lemma_parse_expression_rest_bounds(lhs: ExpressionView, rem: Seq<TokenView>)
    ensures
        spec_parse_expression_rest(lhs, rem) matches Ok((e, k)) ==> k <= rem.len(),
    decreases rem.len(), 4int,
{
    if rem.len() > 0 && (rem[0].kind == TokenKindView::Plus || rem[0].kind
        == TokenKindView::Minus) {
        let operation = if rem[0].kind == TokenKindView::Plus {
            BinaryOperationKind::Add
        } else {
            BinaryOperationKind::Sub
        };
        lemma_parse_term_bounds(rem.skip(1));
        match spec_parse_term(rem.skip(1)) {
            Err(_) => {},
            Ok((rhs, m)) => {
                let combined = ExpressionView::BinaryOperation {
                    operation,
                    lhs: Box::new(lhs),
                    rhs: Box::new(rhs),
                };
                lemma_parse_expression_rest_bounds(combined, seq_after(rem, 1 + m as int));
            },
        }
    }
}

/// A successful expression consumes at least one token and never more than
/// exist.
pub proof fn lemma_parse_expression_bounds(ts: Seq<TokenView>)
    ensures
        spec_parse_expression(ts) matches Ok((e, n)) ==> 1 <= n <= ts.len(),
    decreases ts.len(), 5int,
{
    lemma_parse_term_bounds(ts);
    match spec_parse_term(ts) {
        Err(_) => {},
        Ok((lhs, n)) => {
            lemma_parse_expression_rest_bounds(lhs, seq_after(ts, n as int));
        },
    }
}

impl Expression {
    /// Parse the `P` term from the grammar
    /// ```txt
    /// P -> v | "(" E ")" | "-" T
    /// ```
    pub fn parse_primary(tokens: &mut TokenStream) -> (r: ParserResult<Expression>)
        ensures
            parse_outcome(
                spec_parse_primary(old(tokens).remaining()),
                old(tokens).remaining(),
                final(tokens).remaining(),
                r,
            ),
        decreases old(tokens).remaining().len(), 0int,
    {
        let ghost rem0 = tokens.remaining();
        let token = match tokens.next() {
            Ok(t) => t,
            Err(e) => {
                proof {
                    lemma_stream_suffix_skip(rem0, 0);
                    assert(rem0.skip(0) =~= rem0);
                }
                return Err(e);
            },
        };
        let Token { kind, position } = token;
        match kind {
            TokenKind::Literal { kind, chars } => Ok(Expression::Literal { kind, chars }),
            TokenKind::Identifier(ident) => Ok(Expression::Ident(ident)),
            TokenKind::LSmooth => {
                proof {
                    lemma_parse_expression_bounds(rem0.skip(1));
                }
                let expression = match Self::parse_expression(tokens) {
                    Ok(e) => e,
                    Err(e) => {
                        proof {
                            lemma_stream_suffix_skip(rem0, 1);
                            lemma_stream_suffix_trans(
                                final(tokens).remaining(),
                                rem0.skip(1),
                                rem0,
                            );
                        }
                        return Err(e);
                    },
                };
                let ghost n = match spec_parse_expression(rem0.skip(1)) {
                    Ok((e, n)) => n as int,
                    Err(_) => 0,
                };
                proof {
                    assert(rem0.skip(1).skip(n) =~= rem0.skip(1 + n));
                }
                match tokens.expect(TokenKind::RSmooth) {
                    Ok(_) => {
                        proof {
                            assert(rem0.skip(1 + n).skip(1) =~= rem0.skip(2 + n));
                        }
                        Ok(expression)
                    },
                    Err(e) => {
                        proof {
                            lemma_stream_suffix_skip(rem0, 1 + n);
                        }
                        Err(e)
                    },
                }
            },
            TokenKind::Minus => {
                proof {
                    lemma_parse_term_bounds(rem0.skip(1));
                }
                let rhs = match Self::parse_term(tokens) {
                    Ok(e) => e,
                    Err(e) => {
                        proof {
                            lemma_stream_suffix_skip(rem0, 1);
                            lemma_stream_suffix_trans(
                                final(tokens).remaining(),
                                rem0.skip(1),
                                rem0,
                            );
                        }
                        return Err(e);
                    },
                };
                proof {
                    let n = match spec_parse_term(rem0.skip(1)) {
                        Ok((e, n)) => n as int,
                        Err(_) => 0,
                    };
                    assert(rem0.skip(1).skip(n) =~= rem0.skip(1 + n));
                }
                Ok(
                    Expression::UnaryOperation {
                        operation: UnaryOperationKind::Negative,
                        rhs: Box::new(rhs),
                    },
                )
            },
            t => {
                proof {
                    lemma_stream_suffix_skip(rem0, 1);
                }
                Err(ParserError::UnexpectedToken { token: t, position })
            },
        }
    }

    /// Parse the `F` term from the grammar
    /// ```txt
    /// F -> P ["^" F]
    /// ```
    pub fn parse_factor(tokens: &mut TokenStream) -> (r: ParserResult<Expression>)
        ensures
            parse_outcome(
                spec_parse_factor(old(tokens).remaining()),
                old(tokens).remaining(),
                final(tokens).remaining(),
                r,
            ),
        decreases old(tokens).remaining().len(), 1int,
    {
        let ghost rem0 = tokens.remaining();
        proof {
            lemma_parse_primary_bounds(rem0);
        }
        let p = match Self::parse_primary(tokens) {
            Ok(p) => p,
            Err(e) => {
                return Err(e);
            },
        };
        let ghost n = match spec_parse_primary(rem0) {
            Ok((e, n)) => n as int,
            Err(_) => 0,
        };
        match tokens.expect(TokenKind::Hat) {
            Ok(_) => {
                proof {
                    assert(rem0.skip(n)[0] == rem0[n]);
                    assert(rem0.skip(n).skip(1) =~= rem0.skip(n + 1));
                    lemma_parse_factor_bounds(rem0.skip(n + 1));
                }
                let rhs = match Self::parse_factor(tokens) {
                    Ok(e) => e,
                    Err(e) => {
                        proof {
                            lemma_stream_suffix_skip(rem0, n + 1);
                            lemma_stream_suffix_trans(
                                final(tokens).remaining(),
                                rem0.skip(n + 1),
                                rem0,
                            );
                        }
                        return Err(e);
                    },
                };
                proof {
                    let m = match spec_parse_factor(rem0.skip(n + 1)) {
                        Ok((e, m)) => m as int,
                        Err(_) => 0,
                    };
                    assert(rem0.skip(n + 1).skip(m) =~= rem0.skip(n + 1 + m));
                }
                Ok(
                    Expression::BinaryOperation {
                        operation: BinaryOperationKind::Exp,
                        lhs: Box::new(p),
                        rhs: Box::new(rhs),
                    },
                )
            },
            Err(_) => {
                proof {
                    if n < rem0.len() {
                        assert(rem0.skip(n)[0] == rem0[n]);
                    }
                }
                Ok(p)
            },
        }
    }

    /// Parse the `T` term from the grammar
    /// ```txt
    /// T -> F {("*" | "/") F}
    /// ```
    #[verifier::rlimit(50)]
    pub fn parse_term(tokens: &mut TokenStream) -> (r: ParserResult<Expression>)
        ensures
            parse_outcome(
                spec_parse_term(old(tokens).remaining()),
                old(tokens).remaining(),
                final(tokens).remaining(),
                r,
            ),
        decreases old(tokens).remaining().len(), 3int,
    {
        let ghost rem0 = tokens.remaining();
        proof {
            lemma_parse_factor_bounds(rem0);
        }
        let mut expr = match Self::parse_factor(tokens) {
            Ok(e) => e,
            Err(e) => {
                return Err(e);
            },
        };
        let ghost mut off: int = match spec_parse_factor(rem0) {
            Ok((e, n)) => n as int,
            Err(_) => 0,
        };
        loop
            invariant_except_break
                rem0 == old(tokens).remaining(),
                0 <= off <= rem0.len(),
                tokens.remaining() == rem0.skip(off),
                match spec_parse_term_rest(expr@, tokens.remaining()) {
                    Ok((folded, k)) => spec_parse_term(rem0) == Ok::<
                        (ExpressionView, nat),
                        ParserErrorView,
                    >((folded, (off + k) as nat)),
                    Err(ev) => spec_parse_term(rem0) == Err::<
                        (ExpressionView, nat),
                        ParserErrorView,
                    >(ev),
                },
            ensures
                0 <= off <= rem0.len(),
                tokens.remaining() == rem0.skip(off),
                spec_parse_term(rem0) == Ok::<(ExpressionView, nat), ParserErrorView>(
                    (expr@, off as nat),
                ),
            decreases rem0.len() - off,
        {
            let operation = match tokens.peek() {
                Some(t) => match &t.kind {
                    TokenKind::Asterix => Some(BinaryOperationKind::Mult),
                    TokenKind::Slash => Some(BinaryOperationKind::Div),
                    _ => None,
                },
                None => None,
            };
            match operation {
                None => {
                    break;
                },
                Some(operation) => {
                    let ghost rem_now = tokens.remaining();
                    let _ = tokens.next();
                    proof {
                        assert(rem0.skip(off).skip(1) =~= rem0.skip(off + 1));
                        lemma_parse_factor_bounds(rem0.skip(off + 1));
                    }
                    let rhs = match Self::parse_factor(tokens) {
                        Ok(e) => e,
                        Err(e) => {
                            proof {
                                lemma_stream_suffix_skip(rem0, off + 1);
                                lemma_stream_suffix_trans(
                                    final(tokens).remaining(),
                                    rem0.skip(off + 1),
                                    rem0,
                                );
                            }
                            return Err(e);
                        },
                    };
                    let ghost expr_old = expr@;
                    let ghost rhs_view = rhs@;
                    expr = Expression::BinaryOperation {
                        operation,
                        lhs: Box::new(expr),
                        rhs: Box::new(rhs),
                    };
                    proof {
                        let m = match spec_parse_factor(rem0.skip(off + 1)) {
                            Ok((e, m)) => m as int,
                            Err(_) => 0,
                        };
                        assert(rem0.skip(off + 1).skip(m) =~= rem0.skip(off + 1 + m));
                        assert(rem_now.skip(1 + m) =~= rem0.skip(off + 1 + m));
                        assert(seq_after(rem_now, 1 + m) == rem_now.skip(1 + m));
                        assert(expr@ == ExpressionView::BinaryOperation {
                            operation,
                            lhs: Box::new(expr_old),
                            rhs: Box::new(rhs_view),
                        });
                        off = off + 1 + m;
                    }
                },
            }
        }
        Ok(expr)
    }

    /// Parse the `E` term from the grammar
    /// ```txt
    /// E -> T {("+" | "-") T}
    /// ```
    #[verifier::rlimit(80)]
    pub fn parse_expression(tokens: &mut TokenStream) -> (r: ParserResult<Expression>)
        ensures
            parse_outcome(
                spec_parse_expression(old(tokens).remaining()),
                old(tokens).remaining(),
                final(tokens).remaining(),
                r,
            ),
        decreases old(tokens).remaining().len(), 5int,
    {
        let ghost rem0 = tokens.remaining();
        proof {
            lemma_parse_term_bounds(rem0);
        }
        let mut expr = match Self::parse_term(tokens) {
            Ok(e) => e,
            Err(e) => {
                return Err(e);
            },
        };
        let ghost mut off: int = match spec_parse_term(rem0) {
            Ok((e, n)) => n as int,
            Err(_) => 0,
        };
        loop
            invariant_except_break
                rem0 == old(tokens).remaining(),
                0 <= off <= rem0.len(),
                tokens.remaining() == rem0.skip(off),
                match spec_parse_expression_rest(expr@, tokens.remaining()) {
                    Ok((folded, k)) => spec_parse_expression(rem0) == Ok::<
                        (ExpressionView, nat),
                        ParserErrorView,
                    >((folded, (off + k) as nat)),
                    Err(ev) => spec_parse_expression(rem0) == Err::<
                        (ExpressionView, nat),
                        ParserErrorView,
                    >(ev),
                },
            ensures
                0 <= off <= rem0.len(),
                tokens.remaining() == rem0.skip(off),
                spec_parse_expression(rem0) == Ok::<(ExpressionView, nat), ParserErrorView>(
                    (expr@, off as nat),
                ),
            decreases rem0.len() - off,
        {
            let operation = match tokens.peek() {
                Some(t) => match &t.kind {
                    TokenKind::Plus => Some(BinaryOperationKind::Add),
                    TokenKind::Minus => Some(BinaryOperationKind::Sub),
                    _ => None,
                },
                None => None,
            };
            match operation {
                None => {
                    break;
                },
                Some(operation) => {
                    let ghost rem_now = tokens.remaining();
                    let _ = tokens.next();
                    proof {
                        assert(rem0.skip(off).skip(1) =~= rem0.skip(off + 1));
                        lemma_parse_term_bounds(rem0.skip(off + 1));
                    }
                    let rhs = match Self::parse_term(tokens) {
                        Ok(e) => e,
                        Err(e) => {
                            proof {
                                lemma_stream_suffix_skip(rem0, off + 1);
                                lemma_stream_suffix_trans(
                                    final(tokens).remaining(),
                                    rem0.skip(off + 1),
                                    rem0,
                                );
                            }
                            return Err(e);
                        },
                    };
                    let ghost expr_old = expr@;
                    let ghost rhs_view = rhs@;
                    expr = Expression::BinaryOperation {
                        operation,
                        lhs: Box::new(expr),
                        rhs: Box::new(rhs),
                    };
                    proof {
                        let m = match spec_parse_term(rem0.skip(off + 1)) {
                            Ok((e, m)) => m as int,
                            Err(_) => 0,
                        };
                        assert(rem0.skip(off + 1).skip(m) =~= rem0.skip(off + 1 + m));
                        assert(rem_now.skip(1 + m) =~= rem0.skip(off + 1 + m));
                        assert(seq_after(rem_now, 1 + m) == rem_now.skip(1 + m));
                        assert(expr@ == ExpressionView::BinaryOperation {
                            operation,
                            lhs: Box::new(expr_old),
                            rhs: Box::new(rhs_view),
                        });
                        off = off + 1 + m;
                    }
                },
            }
        }
        Ok(expr)
    }

    /// Parses tokens into an expression (identical to a `parse_expression`
    /// call).
    pub fn parse(tokens: &mut TokenStream) -> (r: ParserResult<Expression>)
        ensures
            parse_outcome(
                spec_parse_expression(old(tokens).remaining()),
                old(tokens).remaining(),
                final(tokens).remaining(),
                r,
            ),
    {
        Self::parse_expression(tokens)
    }
}

/// What an executable parser did, judged against its mirror: on success
/// the returned tree is the mirrored one and exactly the mirrored number
/// of tokens was consumed; on failure the mirrored error is returned and
/// the stream stands at some suffix of where it stood.
pub open spec fn parse_outcome(
    mirrored: Result<(ExpressionView, nat), ParserErrorView>,
    pre: Seq<TokenView>,
    post: Seq<TokenView>,
    r: ParserResult<Expression>,
) -> bool {
    match mirrored {
        Ok((e, n)) => {
            &&& r matches Ok(expr) && expr@ == e
            &&& post == pre.skip(n as int)
        },
        Err(ev) => {
            &&& r matches Err(err) && err@ == ev
            &&& stream_suffix(post, pre)
        },
    }
}

} // verus!
