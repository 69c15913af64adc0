//! The lexer: repeatedly produces the next token from a character stream.
//!
//! Whitespace runs collapse into one token, comments and string escapes are
//! handled here, and literals keep their raw characters. The one lexical
//! error is a digit run whose value does not fit the host integer width.
//! What `next` returns is pinned by the specification function `lex_next`
//! of the remaining characters alone.

pub mod cursor;

use crate::lexer::cursor::{
    config_steps, lemma_config_steps_bound, lemma_consume_split, lemma_position_after_single,
    lemma_run_len_bound, lemma_run_len_chars, position_after, position_step, run_len, Cursor,
    Position, TakeOption,
};
use crate::token::{Keyword, LiteralKind, Token, TokenKind, TokenKindView, TokenView};
use vstd::prelude::*;

verus! {

/// An ASCII decimal digit.
pub open spec fn spec_is_digit(c: char) -> bool {
    48 <= c as u32 && c as u32 <= 57
}

fn is_digit(c: char) -> (b: bool)
    ensures
        b == spec_is_digit(c),
{
    let u = c as u32;
    48 <= u && u <= 57
}

/// An ASCII whitespace character: space, tab, newline, form feed or
/// carriage return.
pub open spec fn spec_is_whitespace(c: char) -> bool {
    c == ' ' || c == '\t' || c == '\n' || c == '\u{c}' || c == '\r'
}

fn is_whitespace(c: char) -> (b: bool)
    ensures
        b == spec_is_whitespace(c),
{
    c == ' ' || c == '\t' || c == '\n' || c == '\u{c}' || c == '\r'
}

/// A character that may appear in an identifier: an ASCII letter or an
/// underscore.
pub open spec fn spec_is_ident_char(c: char) -> bool {
    (65 <= c as u32 && c as u32 <= 90) || (97 <= c as u32 && c as u32 <= 122) || c == '_'
}

fn is_ident_char(c: char) -> (b: bool)
    ensures
        b == spec_is_ident_char(c),
{
    let u = c as u32;
    (65 <= u && u <= 90) || (97 <= u && u <= 122) || c == '_'
}

fn is_not_newline(c: char) -> (b: bool)
    ensures
        b == (c != '\n'),
{
    c != '\n'
}

/// The digit predicate as a function value, shared by the lexer's contract
/// and its body.
pub open spec fn digit_pred() -> spec_fn(char) -> bool {
    |c: char| spec_is_digit(c)
}

/// The whitespace predicate as a function value.
pub open spec fn whitespace_pred() -> spec_fn(char) -> bool {
    |c: char| spec_is_whitespace(c)
}

/// The identifier-character predicate as a function value.
pub open spec fn ident_pred() -> spec_fn(char) -> bool {
    |c: char| spec_is_ident_char(c)
}

/// The comment-text predicate as a function value: everything up to a
/// newline.
pub open spec fn not_newline_pred() -> spec_fn(char) -> bool {
    |c: char| c != '\n'
}

/// The string-literal state machine. The state records whether the previous
/// character was an unconsumed escape marker: a backslash when not escaped
/// is dropped and turns escaping on; any escaped character is kept; an
/// unescaped quote ends the literal without being kept.
pub open spec fn escape_step() -> spec_fn(char, bool) -> (TakeOption, bool) {
    |c: char, escaped: bool|
        if c == '\\' && !escaped {
            (TakeOption::Skip, true)
        } else if c == '\\' {
            (TakeOption::Take, false)
        } else if c == '"' && !escaped {
            (TakeOption::SkipAndStop, false)
        } else {
            (TakeOption::Take, false)
        }
}

/// One step of the string-literal state machine, as executable code.
fn escape_advance(c: char, escaped: bool) -> (r: (TakeOption, bool))
    ensures
        r == escape_step()(c, escaped),
{
    if c == '\\' && !escaped {
        (TakeOption::Skip, true)
    } else if c == '\\' {
        (TakeOption::Take, false)
    } else if c == '"' && !escaped {
        (TakeOption::SkipAndStop, false)
    } else {
        (TakeOption::Take, false)
    }
}

/// The escaped source spelling of a string literal's body: a backslash is
/// laid before every quote and every backslash; all other characters stand
/// as themselves.
pub open spec fn escape_render(cs: Seq<char>) -> Seq<char>
    decreases cs.len(),
{
    if cs.len() == 0 {
        Seq::empty()
    } else if cs[0] == '"' || cs[0] == '\\' {
        seq!['\\', cs[0]] + escape_render(cs.skip(1))
    } else {
        seq![cs[0]] + escape_render(cs.skip(1))
    }
}

/// The escape scan undoes `escape_render`: run on the rendered body, a
/// closing quote and anything after, it collects exactly the original
/// characters and consumes the rendering together with the quote.
proof fn lemma_escape_scan(cs: Seq<char>, rest: Seq<char>)
    ensures
        config_steps(escape_step(), false, escape_render(cs) + (seq!['"'] + rest)) == (
            cs,
            (escape_render(cs).len() + 1) as nat,
        ),
    decreases cs.len(),
{
    reveal_with_fuel(config_steps, 3);
    let full = escape_render(cs) + (seq!['"'] + rest);
    if cs.len() == 0 {
        assert(full =~= seq!['"'] + rest);
        assert(full[0] == '"');
        assert(cs =~= Seq::<char>::empty());
    } else {
        let c = cs[0];
        let tail = cs.skip(1);
        lemma_escape_scan(tail, rest);
        let full_tail = escape_render(tail) + (seq!['"'] + rest);
        if c == '"' || c == '\\' {
            assert(escape_render(cs) =~= seq!['\\', c] + escape_render(tail));
            assert(full =~= seq!['\\', c] + full_tail);
            assert(full[0] == '\\');
            assert(full.skip(1) =~= seq![c] + full_tail);
            assert((seq![c] + full_tail)[0] == c);
            assert((seq![c] + full_tail).skip(1) =~= full_tail);
            assert(seq![c] + tail =~= cs);
        } else {
            assert(escape_render(cs) =~= seq![c] + escape_render(tail));
            assert(full[0] == c);
            assert(full.skip(1) =~= full_tail);
            assert(seq![c] + tail =~= cs);
        }
    }
}

/// Law: string escaping round-trips. For any literal body `cs`, lexing a
/// string literal written as a quote, the escaped spelling of `cs`, and a
/// closing quote yields one string literal token holding exactly the
/// characters `cs`: backslash-quote and backslash-backslash unescape to
/// the single characters, and the delimiting quotes are not part of the
/// value.
pub proof fn lemma_string_escape_round_trip(cs: Seq<char>, rest: Seq<char>)
    ensures
        lex_next(seq!['"'] + escape_render(cs) + (seq!['"'] + rest)) == Some(
            Ok::<(TokenKindView, nat), LexerErrorView>(
                (
                    TokenKindView::Literal { kind: LiteralKind::String, chars: cs },
                    (escape_render(cs).len() + 1) as nat,
                ),
            ),
        ),
{
    let src = seq!['"'] + escape_render(cs) + (seq!['"'] + rest);
    assert(src[0] == '"');
    assert(src.skip(1) =~= escape_render(cs) + (seq!['"'] + rest));
    lemma_escape_scan(cs, rest);
}

/// The numeric value of a digit character.
pub open spec fn digit_value(c: char) -> int {
    c as u32 - 48
}

/// The numeric value of a digit run, most significant digit first.
pub open spec fn digits_value(ds: Seq<char>) -> int
    decreases ds.len(),
{
    if ds.len() == 0 {
        0
    } else {
        digits_value(ds.drop_last()) * 10 + digit_value(ds.last())
    }
}

/// A digit run's value is never negative.
pub proof fn lemma_digits_value_nonneg(ds: Seq<char>)
    requires
        forall|i: int| 0 <= i < ds.len() ==> spec_is_digit(#[trigger] ds[i]),
    ensures
        digits_value(ds) >= 0,
    decreases ds.len(),
{
    if ds.len() > 0 {
        lemma_digits_value_nonneg(ds.drop_last());
    }
}

/// Extending a digit run by one digit multiplies its value by ten and adds
/// the digit.
pub proof fn lemma_digits_value_extend(ds: Seq<char>, i: int)
    requires
        0 <= i < ds.len(),
    ensures
        digits_value(ds.take(i + 1)) == digits_value(ds.take(i)) * 10 + digit_value(ds[i]),
{
    assert(ds.take(i + 1).drop_last() =~= ds.take(i));
    assert(ds.take(i + 1).last() == ds[i]);
}

/// A digit run's value only grows as the run is extended.
pub proof fn lemma_digits_value_monotone(ds: Seq<char>, i: int)
    requires
        forall|k: int| 0 <= k < ds.len() ==> spec_is_digit(#[trigger] ds[k]),
        0 <= i <= ds.len(),
    ensures
        digits_value(ds) >= digits_value(ds.take(i)),
    decreases ds.len() - i,
{
    if i == ds.len() {
        assert(ds.take(i) =~= ds);
    } else {
        lemma_digits_value_extend(ds, i);
        lemma_digits_value_take_nonneg(ds, i);
        lemma_digits_value_monotone(ds, i + 1);
    }
}

proof fn lemma_digits_value_take_nonneg(ds: Seq<char>, i: int)
    requires
        forall|k: int| 0 <= k < ds.len() ==> spec_is_digit(#[trigger] ds[k]),
        0 <= i <= ds.len(),
    ensures
        digits_value(ds.take(i)) >= 0,
{
    lemma_digits_value_nonneg(ds.take(i));
}

/// Classification of an identifier-shaped word: the spellings of the
/// boolean values are literals, the keyword set holds only `let`, and any
/// other word is an identifier.
pub open spec fn spec_classify_word(w: Seq<char>) -> TokenKindView {
    if w == seq!['t', 'r', 'u', 'e'] || w == seq!['f', 'a', 'l', 's', 'e'] {
        TokenKindView::Literal { kind: LiteralKind::Boolean, chars: w }
    } else if w == seq!['l', 'e', 't'] {
        TokenKindView::Keyword(Keyword::Let)
    } else {
        TokenKindView::Identifier(w)
    }
}

/// Relies on `String::from_iter` over characters: the collected string's
/// characters are the iterated characters, in order.
#[verifier::external_body]
fn chars_to_string(chars: Vec<char>) -> (s: String)
    ensures
        s@ == chars@,
{
    chars.into_iter().collect()
}

fn classify_word(w: Vec<char>) -> (k: TokenKind)
    ensures
        k@ == spec_classify_word(w@),
{
    let is_true = w.len() == 4 && w[0] == 't' && w[1] == 'r' && w[2] == 'u' && w[3] == 'e';
    let is_false = w.len() == 5 && w[0] == 'f' && w[1] == 'a' && w[2] == 'l' && w[3] == 's'
        && w[4] == 'e';
    let is_let = w.len() == 3 && w[0] == 'l' && w[1] == 'e' && w[2] == 't';
    proof {
        if is_true {
            assert(w@ =~= seq!['t', 'r', 'u', 'e']);
        }
        if is_false {
            assert(w@ =~= seq!['f', 'a', 'l', 's', 'e']);
        }
        if is_let {
            assert(w@ =~= seq!['l', 'e', 't']);
        }
    }
    if is_true || is_false {
        TokenKind::Literal { kind: LiteralKind::Boolean, chars: w }
    } else if is_let {
        TokenKind::Keyword(Keyword::Let)
    } else {
        TokenKind::Identifier(chars_to_string(w))
    }
}

/// Whether the value of a digit run fits in `usize`.
fn digits_fit(ds: &Vec<char>) -> (b: bool)
    requires
        forall|i: int| 0 <= i < ds@.len() ==> spec_is_digit(#[trigger] ds@[i]),
    ensures
        b == (digits_value(ds@) <= usize::MAX as int),
{
    let mut acc: usize = 0;
    let mut i: usize = 0;
    while i < ds.len()
        invariant
            i <= ds.len(),
            forall|k: int| 0 <= k < ds@.len() ==> spec_is_digit(#[trigger] ds@[k]),
            acc as int == digits_value(ds@.take(i as int)),
        decreases ds.len() - i,
    {
        let d = ((ds[i] as u32) - 48) as usize;
        proof {
            lemma_digits_value_extend(ds@, i as int);
        }
        let stepped = match acc.checked_mul(10) {
            Some(m) => m.checked_add(d),
            None => None,
        };
        match stepped {
            Some(v) => {
                acc = v;
            },
            None => {
                proof {
                    lemma_digits_value_monotone(ds@, i + 1);
                }
                return false;
            },
        }
        i += 1;
    }
    proof {
        assert(ds@.take(ds@.len() as int) =~= ds@);
    }
    true
}

/// The lexical errors: a digit run whose value does not fit the target
/// integer width. The offending characters are kept for reporting.
#[derive(Debug)]
pub enum LexerError {
    ParseIntError { chars: Vec<char> },
}

/// The mathematical value of a lexical error.
pub enum LexerErrorView {
    ParseIntError { chars: Seq<char> },
}

impl View for LexerError {
    type V = LexerErrorView;

    open spec fn view(&self) -> LexerErrorView {
        match self {
            LexerError::ParseIntError { chars } => LexerErrorView::ParseIntError { chars: chars@ },
        }
    }
}

/// The kind of the next token in `rem` and how many characters it consumes
/// beyond the first, or the lexical error met there; `None` once `rem` is
/// empty.
pub open spec fn lex_next(rem: Seq<char>) -> Option<Result<(TokenKindView, nat), LexerErrorView>> {
    if rem.len() == 0 {
        None
    } else {
        let c = rem[0];
        let rest = rem.skip(1);
        Some(
            if c == '=' {
                Ok((TokenKindView::Equals, 0))
            } else if c == '+' {
                Ok((TokenKindView::Plus, 0))
            } else if c == '-' {
                Ok((TokenKindView::Minus, 0))
            } else if c == '*' {
                Ok((TokenKindView::Asterix, 0))
            } else if c == '^' {
                Ok((TokenKindView::Hat, 0))
            } else if c == ';' {
                Ok((TokenKindView::Semi, 0))
            } else if c == '/' && rest.len() > 0 && rest[0] == '/' {
                let text = rest.skip(1).take(run_len(not_newline_pred(), rest.skip(1)) as int);
                Ok((TokenKindView::Comment(text), (1 + text.len()) as nat))
            } else if c == '/' {
                Ok((TokenKindView::Slash, 0))
            } else if c == '(' {
                Ok((TokenKindView::LSmooth, 0))
            } else if c == ')' {
                Ok((TokenKindView::RSmooth, 0))
            } else if spec_is_whitespace(c) {
                Ok((TokenKindView::Whitespace, run_len(whitespace_pred(), rest)))
            } else if spec_is_digit(c) {
                let ds = seq![c] + rest.take(run_len(digit_pred(), rest) as int);
                if digits_value(ds) <= usize::MAX as int {
                    Ok(
                        (
                            TokenKindView::Literal { kind: LiteralKind::Integer, chars: ds },
                            run_len(digit_pred(), rest),
                        ),
                    )
                } else {
                    Err(LexerErrorView::ParseIntError { chars: ds })
                }
            } else if spec_is_ident_char(c) {
                let w = seq![c] + rest.take(run_len(ident_pred(), rest) as int);
                Ok((spec_classify_word(w), run_len(ident_pred(), rest)))
            } else if c == '"' {
                let (content, n) = config_steps(escape_step(), false, rest);
                Ok((TokenKindView::Literal { kind: LiteralKind::String, chars: content }, n))
            } else {
                Ok((TokenKindView::Unknown, 0))
            },
        )
    }
}

/// A token never consumes more characters than remain, and a failing digit
/// run lies within the input.
pub proof fn lemma_lex_next_bound(rem: Seq<char>)
    ensures
        match lex_next(rem) {
            None => true,
            Some(Ok((kind, extra))) => 1 + extra <= rem.len(),
            Some(Err(LexerErrorView::ParseIntError { chars })) => 1 <= chars.len() <= rem.len(),
        },
{
    if rem.len() > 0 {
        let rest = rem.skip(1);
        lemma_run_len_bound(not_newline_pred(), rest.skip(1));
        lemma_run_len_bound(whitespace_pred(), rest);
        lemma_run_len_bound(digit_pred(), rest);
        lemma_run_len_bound(ident_pred(), rest);
        lemma_config_steps_bound(escape_step(), false, rest);
    }
}

/// The tokens lexed from `rem` when the most recently read character stood
/// at `pos`, or the first lexical error met.
pub open spec fn spec_tokens(rem: Seq<char>, pos: Position) -> Result<
    Seq<TokenView>,
    LexerErrorView,
>
    decreases rem.len(),
    via spec_tokens_decreases
{
    match lex_next(rem) {
        None => Ok(Seq::empty()),
        Some(Err(e)) => Err(e),
        Some(Ok((kind, extra))) => {
            let consumed = 1 + extra as int;
            let token = TokenView { kind, position: position_step(pos, rem[0]) };
            match spec_tokens(rem.skip(consumed), position_after(pos, rem.take(consumed))) {
                Err(e) => Err(e),
                Ok(rest) => Ok(seq![token] + rest),
            }
        },
    }
}

#[via_fn]
proof fn spec_tokens_decreases(rem: Seq<char>, pos: Position) {
    lemma_lex_next_bound(rem);
}

/// Produces tokens from an owned cursor; stateless beyond it.
pub struct Lexer {
    cursor: Cursor,
}

impl Lexer {
    /// The position counters of the cursor cannot overflow.
    pub closed spec fn wf(&self) -> bool {
        self.cursor.wf()
    }

    /// The characters not yet turned into tokens.
    pub closed spec fn remaining(&self) -> Seq<char> {
        self.cursor.remaining()
    }

    /// The position of the most recently read character.
    pub closed spec fn pos(&self) -> Position {
        self.cursor.pos()
    }

    pub fn new(source: &str) -> (lexer: Self)
        ensures
            lexer.wf(),
            lexer.remaining() == source@,
            lexer.pos() == (Position { line: 0, character: 0 }),
    {
        Self { cursor: Cursor::new(source) }
    }

    /// Produce the next token, or the lexical error met, or `None` once the
    /// input is exhausted. The result is exactly what `lex_next` prescribes
    /// for the characters that remained before the call.
    pub fn next(&mut self) -> (r: Option<Result<Token, LexerError>>)
        requires
            old(self).wf(),
        ensures
            final(self).wf(),
            lex_next_post(*old(self), *final(self), r),
    {
        let ghost rem0 = self.cursor.remaining();
        let ghost pos0 = self.cursor.pos();
        let first = self.cursor.next();
        match first {
            None => None,
            Some((c, position)) => {
                proof {
                    lemma_position_after_single(pos0, c);
                    assert(rem0.take(1) =~= seq![c]);
                }
                let kind_result: Result<TokenKind, LexerError> = if c == '=' {
                    Ok(TokenKind::Equals)
                } else if c == '+' {
                    Ok(TokenKind::Plus)
                } else if c == '-' {
                    Ok(TokenKind::Minus)
                } else if c == '*' {
                    Ok(TokenKind::Asterix)
                } else if c == '^' {
                    Ok(TokenKind::Hat)
                } else if c == ';' {
                    Ok(TokenKind::Semi)
                } else if c == '/' {
                    let second = self.cursor.peek_next();
                    let is_comment = match second {
                        Some(c2) => c2 == '/',
                        None => false,
                    };
                    if is_comment {
                        let ghost rem1 = self.cursor.remaining();
                        let ghost pos1 = self.cursor.pos();
                        self.cursor.next();
                        let text = self.cursor.take_while(
                            is_not_newline,
                            Ghost(not_newline_pred()),
                        );
                        proof {
                            let t = run_len(not_newline_pred(), rem1.skip(1)) as int;
                            lemma_run_len_bound(not_newline_pred(), rem1.skip(1));
                            lemma_consume_split(pos1, rem1, t);
                            lemma_consume_split(pos0, rem0, 1 + t);
                        }
                        Ok(TokenKind::Comment(chars_to_string(text)))
                    } else {
                        Ok(TokenKind::Slash)
                    }
                } else if c == '(' {
                    Ok(TokenKind::LSmooth)
                } else if c == ')' {
                    Ok(TokenKind::RSmooth)
                } else if is_whitespace(c) {
                    let ghost rem1 = self.cursor.remaining();
                    self.cursor.skip_while(is_whitespace, Ghost(whitespace_pred()));
                    proof {
                        let t = run_len(whitespace_pred(), rem1) as int;
                        lemma_run_len_bound(whitespace_pred(), rem1);
                        lemma_consume_split(pos0, rem0, t);
                    }
                    Ok(TokenKind::Whitespace)
                } else if is_digit(c) {
                    let ghost rem1 = self.cursor.remaining();
                    let ds = self.cursor.retake_while(is_digit, Ghost(digit_pred()));
                    proof {
                        let t = run_len(digit_pred(), rem1) as int;
                        lemma_run_len_bound(digit_pred(), rem1);
                        lemma_run_len_chars(digit_pred(), rem1);
                        lemma_consume_split(pos0, rem0, t);
                        assert forall|i: int| 0 <= i < ds@.len() implies spec_is_digit(
                            #[trigger] ds@[i],
                        ) by {
                            if i > 0 {
                                assert(ds@[i] == rem1.take(t)[i - 1]);
                            }
                        }
                    }
                    if digits_fit(&ds) {
                        Ok(TokenKind::Literal { kind: LiteralKind::Integer, chars: ds })
                    } else {
                        Err(LexerError::ParseIntError { chars: ds })
                    }
                } else if is_ident_char(c) {
                    let ghost rem1 = self.cursor.remaining();
                    let w = self.cursor.retake_while(is_ident_char, Ghost(ident_pred()));
                    proof {
                        let t = run_len(ident_pred(), rem1) as int;
                        lemma_run_len_bound(ident_pred(), rem1);
                        lemma_consume_split(pos0, rem0, t);
                    }
                    Ok(classify_word(w))
                } else if c == '"' {
                    let ghost rem1 = self.cursor.remaining();
                    let content = self.cursor.take_while_config(
                        false,
                        false,
                        escape_advance,
                        Ghost(escape_step()),
                    );
                    proof {
                        let t = config_steps(escape_step(), false, rem1).1 as int;
                        lemma_config_steps_bound(escape_step(), false, rem1);
                        lemma_consume_split(pos0, rem0, t);
                        assert(Seq::<char>::empty() + config_steps(escape_step(), false, rem1).0
                            =~= config_steps(escape_step(), false, rem1).0);
                    }
                    Ok(TokenKind::Literal { kind: LiteralKind::String, chars: content })
                } else {
                    Ok(TokenKind::Unknown)
                };
                match kind_result {
                    Ok(kind) => Some(Ok(Token::new(kind, position))),
                    Err(e) => Some(Err(e)),
                }
            },
        }
    }
}

/// Law: a source holding one bare integer literal of digits `d1..dn` lexes
/// to exactly one integer literal token whose raw characters are those
/// digits verbatim, leading zeros kept — the value is not collapsed at lex
/// time. (A run whose value exceeds the host integer width is the one
/// lexical error, so such runs are left out here.)
pub proof fn lemma_lex_single_integer_literal(source: Seq<char>)
    requires
        source.len() > 0,
        forall|i: int| 0 <= i < source.len() ==> spec_is_digit(#[trigger] source[i]),
        digits_value(source) <= usize::MAX as int,
    ensures
        spec_tokens(source, Position { line: 0, character: 0 }) == Ok::<
            Seq<TokenView>,
            LexerErrorView,
        >(
            seq![
                TokenView {
                    kind: TokenKindView::Literal { kind: LiteralKind::Integer, chars: source },
                    position: Position { line: 0, character: 1 },
                },
            ],
        ),
{
    reveal_with_fuel(spec_tokens, 2);
    let rest = source.skip(1);
    assert forall|i: int| 0 <= i < rest.len() implies spec_is_digit(#[trigger] rest[i]) by {
        assert(rest[i] == source[i + 1]);
    }
    cursor::lemma_run_len_all(digit_pred(), rest);
    let ds = seq![source[0]] + rest.take(rest.len() as int);
    assert(ds =~= source);
    assert(lex_next(source) == Some(
        Ok::<(TokenKindView, nat), LexerErrorView>(
            (
                TokenKindView::Literal { kind: LiteralKind::Integer, chars: source },
                (source.len() - 1) as nat,
            ),
        ),
    ));
    assert(source.skip(source.len() as int) =~= Seq::<char>::empty());
    let token = TokenView {
        kind: TokenKindView::Literal { kind: LiteralKind::Integer, chars: source },
        position: Position { line: 0, character: 1 },
    };
    assert(seq![token] + Seq::<TokenView>::empty() =~= seq![token]);
}

/// Law: lexing is deterministic. The token stream is a function of the
/// source characters alone — no hidden state takes part — so re-lexing
/// identical input yields a structurally equal token sequence.
pub proof fn lemma_relex_equal(s1: Seq<char>, s2: Seq<char>, pos: Position)
    requires
        s1 == s2,
    ensures
        spec_tokens(s1, pos) == spec_tokens(s2, pos),
{
}

/// What one call of `Lexer::next` did: the result and the new lexer state
/// are the ones `lex_next` prescribes for the characters that remained.
pub open spec fn lex_next_post(
    pre: Lexer,
    post: Lexer,
    r: Option<Result<Token, LexerError>>,
) -> bool {
    let rem = pre.remaining();
    match lex_next(rem) {
        None => r is None && post.remaining() == rem && post.pos() == pre.pos(),
        Some(step) => match (step, r) {
            (Ok((kind, extra)), Some(Ok(token))) => {
                let consumed = 1 + extra as int;
                &&& token@.kind == kind
                &&& token@.position == position_step(pre.pos(), rem[0])
                &&& post.remaining() == rem.skip(consumed)
                &&& post.pos() == position_after(pre.pos(), rem.take(consumed))
            },
            (Err(e), Some(Err(err))) => {
                let consumed = match e {
                    LexerErrorView::ParseIntError { chars } => chars.len() as int,
                };
                &&& err@ == e
                &&& post.remaining() == rem.skip(consumed)
                &&& post.pos() == position_after(pre.pos(), rem.take(consumed))
            },
            _ => false,
        },
    }
}

} // verus!
