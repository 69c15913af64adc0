//! A cursor over the source characters: tracks line/column position and
//! offers peeking and conditional multi-character consumption.

use vstd::prelude::*;

verus! {

/// Line/column coordinates of a character in the source text, both
/// zero-based. A newline resets the column and advances the line.
#[derive(Debug, Clone, Copy, PartialEq, Eq, Structural)]
pub struct Position {
    pub line: usize,
    pub character: usize,
}

impl Position {
    /// The position before any character has been read.
    pub fn new() -> (p: Self)
        ensures
            p == (Position { line: 0, character: 0 }),
    {
        Self { line: 0, character: 0 }
    }

    /// Move to the start of the next line.
    pub fn next_line(&mut self)
        requires
            old(self).line < usize::MAX,
        ensures
            *final(self) == (Position { line: (old(self).line + 1) as usize, character: 0 }),
    {
        self.line += 1;
        self.character = 0;
    }

    /// Move one character to the right within the current line.
    pub fn next_character(&mut self)
        requires
            old(self).character < usize::MAX,
        ensures
            *final(self) == (Position {
                line: old(self).line,
                character: (old(self).character + 1) as usize,
            }),
    {
        self.character += 1;
    }
}

/// The position reached after reading character `c` at position `p`.
pub open spec fn position_step(p: Position, c: char) -> Position {
    if c == '\n' {
        Position { line: (p.line + 1) as usize, character: 0 }
    } else {
        Position { line: p.line, character: (p.character + 1) as usize }
    }
}

/// The position reached after reading all of `cs`, in order, from `p`.
pub open spec fn position_after(p: Position, cs: Seq<char>) -> Position
    decreases cs.len(),
{
    if cs.len() == 0 {
        p
    } else {
        position_after(position_step(p, cs[0]), cs.skip(1))
    }
}

/// Reading one more character extends `position_after` by one step.
pub proof fn lemma_position_after_snoc(p: Position, cs: Seq<char>, c: char)
    ensures
        position_after(p, cs.push(c)) == position_step(position_after(p, cs), c),
    decreases cs.len(),
{
    reveal_with_fuel(position_after, 2);
    if cs.len() == 0 {
        assert(cs.push(c)[0] == c);
        assert(cs.push(c).skip(1) =~= Seq::<char>::empty());
    } else {
        assert(cs.push(c)[0] == cs[0]);
        assert(cs.push(c).skip(1) =~= cs.skip(1).push(c));
        lemma_position_after_snoc(position_step(p, cs[0]), cs.skip(1), c);
    }
}

/// `position_after` distributes over concatenation.
pub proof fn lemma_position_after_concat(p: Position, a: Seq<char>, b: Seq<char>)
    ensures
        position_after(p, a + b) == position_after(position_after(p, a), b),
    decreases b.len(),
{
    if b.len() == 0 {
        assert(a + b =~= a);
    } else {
        assert((a + b) =~= (a.push(b[0]) + b.skip(1)));
        lemma_position_after_snoc(p, a, b[0]);
        lemma_position_after_concat(p, a.push(b[0]), b.skip(1));
    }
}

/// What `take_while_config` does with one character: keep it, drop it, or
/// end the run (keeping or dropping the character that ended it).
pub enum TakeOption {
    Take,
    Skip,
    Stop,
    TakeAndStop,
    SkipAndStop,
}

impl From<bool> for TakeOption {
    /// `true` keeps the character and continues; `false` ends the run
    /// without consuming it.
    fn from(b: bool) -> (r: Self) {
        if b {
            Self::Take
        } else {
            Self::Stop
        }
    }
}

impl vstd::std_specs::convert::FromSpecImpl<bool> for TakeOption {
    open spec fn obeys_from_spec() -> bool {
        true
    }

    open spec fn from_spec(b: bool) -> Self {
        if b {
            TakeOption::Take
        } else {
            TakeOption::Stop
        }
    }
}

/// The characters collected and the number of characters consumed when a
/// run driven by the state machine `step` starts in `state` and reads `rem`.
pub open spec fn config_steps<S>(
    step: spec_fn(char, S) -> (TakeOption, S),
    state: S,
    rem: Seq<char>,
) -> (Seq<char>, nat)
    decreases rem.len(),
{
    if rem.len() == 0 {
        (Seq::empty(), 0)
    } else {
        let (opt, next_state) = step(rem[0], state);
        match opt {
            TakeOption::Take => {
                let (cs, n) = config_steps(step, next_state, rem.skip(1));
                (seq![rem[0]] + cs, n + 1)
            },
            TakeOption::Skip => {
                let (cs, n) = config_steps(step, next_state, rem.skip(1));
                (cs, n + 1)
            },
            TakeOption::Stop => (Seq::empty(), 0),
            TakeOption::TakeAndStop => (seq![rem[0]], 1),
            TakeOption::SkipAndStop => (Seq::empty(), 1),
        }
    }
}

/// A run never consumes more characters than remain.
pub proof fn lemma_config_steps_bound<S>(
    step: spec_fn(char, S) -> (TakeOption, S),
    state: S,
    rem: Seq<char>,
)
    ensures
        config_steps(step, state, rem).1 <= rem.len(),
    decreases rem.len(),
{
    if rem.len() > 0 {
        let (opt, next_state) = step(rem[0], state);
        lemma_config_steps_bound(step, next_state, rem.skip(1));
    }
}

/// The state machine that keeps characters while `pred` holds of them and
/// stops, without consuming, at the first character where it does not.
pub open spec fn pred_step(pred: spec_fn(char) -> bool) -> spec_fn(char, ()) -> (TakeOption, ()) {
    |c: char, state: ()|
        if pred(c) {
            (TakeOption::Take, ())
        } else {
            (TakeOption::Stop, ())
        }
}

/// The length of the longest prefix of `s` whose characters all satisfy
/// `pred`.
pub open spec fn run_len(pred: spec_fn(char) -> bool, s: Seq<char>) -> nat
    decreases s.len(),
{
    if s.len() > 0 && pred(s[0]) {
        1 + run_len(pred, s.skip(1))
    } else {
        0
    }
}

/// The run is a prefix: it is never longer than the sequence itself.
pub proof fn lemma_run_len_bound(pred: spec_fn(char) -> bool, s: Seq<char>)
    ensures
        run_len(pred, s) <= s.len(),
    decreases s.len(),
{
    if s.len() > 0 && pred(s[0]) {
        lemma_run_len_bound(pred, s.skip(1));
    }
}

/// A run driven by `pred_step(pred)` collects exactly the longest prefix
/// satisfying `pred` and consumes exactly those characters.
pub proof fn lemma_config_steps_pred(pred: spec_fn(char) -> bool, s: Seq<char>)
    ensures
        config_steps(pred_step(pred), (), s) == (
            s.take(run_len(pred, s) as int),
            run_len(pred, s),
        ),
    decreases s.len(),
{
    lemma_run_len_bound(pred, s);
    if s.len() > 0 && pred(s[0]) {
        lemma_config_steps_pred(pred, s.skip(1));
        lemma_run_len_bound(pred, s.skip(1));
        assert(s.take(run_len(pred, s) as int) =~= seq![s[0]] + s.skip(1).take(
            run_len(pred, s.skip(1)) as int,
        ));
    } else if s.len() > 0 {
        assert(s.take(0) =~= Seq::<char>::empty());
    } else {
        assert(s.take(0) =~= Seq::<char>::empty());
    }
}

/// When every character satisfies the predicate, the run is the whole
/// sequence.
pub proof fn lemma_run_len_all(pred: spec_fn(char) -> bool, s: Seq<char>)
    requires
        forall|i: int| 0 <= i < s.len() ==> pred(#[trigger] s[i]),
    ensures
        run_len(pred, s) == s.len(),
    decreases s.len(),
{
    if s.len() > 0 {
        assert forall|i: int| 0 <= i < s.skip(1).len() implies pred(#[trigger] s.skip(1)[i]) by {
            assert(s.skip(1)[i] == s[i + 1]);
        }
        lemma_run_len_all(pred, s.skip(1));
    }
}

/// Every character inside the run satisfies the predicate.
pub proof fn lemma_run_len_chars(pred: spec_fn(char) -> bool, s: Seq<char>)
    ensures
        forall|i: int| 0 <= i < run_len(pred, s) ==> pred(#[trigger] s[i]),
    decreases s.len(),
{
    lemma_run_len_bound(pred, s);
    if s.len() > 0 && pred(s[0]) {
        lemma_run_len_chars(pred, s.skip(1));
        assert forall|i: int| 0 <= i < run_len(pred, s) implies pred(#[trigger] s[i]) by {
            if i > 0 {
                assert(s[i] == s.skip(1)[i - 1]);
            }
        }
    }
}

/// Reading a single character advances the position by one step.
pub proof fn lemma_position_after_single(p: Position, c: char)
    ensures
        position_after(p, seq![c]) == position_step(p, c),
{
    reveal_with_fuel(position_after, 2);
    assert(seq![c].skip(1) =~= Seq::<char>::empty());
}

/// Splitting off the first character of a consumed chunk: the characters
/// after it glue back together, and the position advances through `rem[0]`
/// first.
pub proof fn lemma_consume_split(p: Position, rem: Seq<char>, k: int)
    requires
        0 <= k,
        1 + k <= rem.len(),
    ensures
        rem.skip(1).skip(k) == rem.skip(1 + k),
        rem.take(1 + k) == seq![rem[0]] + rem.skip(1).take(k),
        position_after(p, rem.take(1 + k)) == position_after(
            position_step(p, rem[0]),
            rem.skip(1).take(k),
        ),
{
    assert(rem.skip(1).skip(k) =~= rem.skip(1 + k));
    assert(rem.take(1 + k) =~= seq![rem[0]] + rem.skip(1).take(k));
    lemma_position_after_single(p, rem[0]);
    lemma_position_after_concat(p, seq![rem[0]], rem.skip(1).take(k));
}

/// Relies on `str::chars` and `Iterator::collect`: the characters of the
/// string, in order.
#[verifier::external_body]
fn collect_chars(source: &str) -> (chars: Vec<char>)
    ensures
        chars@ == source@,
{
    source.chars().collect()
}

/// Owns iteration over the source characters. Tracks the position of the
/// most recently read character and remembers that character so that a
/// multi-character run can re-include it.
pub struct Cursor {
    chars: Vec<char>,
    index: usize,
    current: Option<char>,
    position: Position,
}

impl Cursor {
    /// The full source text this cursor was created over.
    pub closed spec fn source(&self) -> Seq<char> {
        self.chars@
    }

    /// The characters not yet consumed.
    pub closed spec fn remaining(&self) -> Seq<char> {
        self.chars@.skip(self.index as int)
    }

    /// The character most recently returned by `next`, if any.
    pub closed spec fn recent(&self) -> Option<char> {
        self.current
    }

    /// The position of the character most recently returned by `next`.
    pub closed spec fn pos(&self) -> Position {
        self.position
    }

    /// The position counters never exceed the number of characters read, so
    /// advancing them can never overflow while characters remain.
    pub closed spec fn wf(&self) -> bool {
        &&& self.index <= self.chars@.len()
        &&& self.position.line <= self.index
        &&& self.position.character <= self.index
    }

    pub fn new(source: &str) -> (cursor: Self)
        ensures
            cursor.wf(),
            cursor.source() == source@,
            cursor.remaining() == source@,
            cursor.recent() is None,
            cursor.pos() == (Position { line: 0, character: 0 }),
    {
        let chars = collect_chars(source);
        assert(chars@.skip(0) =~= chars@);
        Self { chars, index: 0, current: None, position: Position::new() }
    }

    /// Consume and return the next character together with its position, or
    /// `None` at end of input.
    pub fn next(&mut self) -> (r: Option<(char, Position)>)
        requires
            old(self).wf(),
        ensures
            final(self).wf(),
            final(self).source() == old(self).source(),
            old(self).remaining().len() == 0 ==> {
                &&& r is None
                &&& final(self).remaining() == old(self).remaining()
                &&& final(self).recent() is None
                &&& final(self).pos() == old(self).pos()
            },
            old(self).remaining().len() > 0 ==> {
                let c = old(self).remaining()[0];
                &&& r == Some((c, position_step(old(self).pos(), c)))
                &&& final(self).remaining() == old(self).remaining().skip(1)
                &&& final(self).recent() == Some(c)
                &&& final(self).pos() == position_step(old(self).pos(), c)
            },
    {
        if self.index < self.chars.len() {
            let c = self.chars[self.index];
            self.index += 1;
            if c == '\n' {
                self.position.next_line();
            } else {
                self.position.next_character();
            }
            self.current = Some(c);
            proof {
                assert(old(self).remaining().skip(1) =~= self.chars@.skip(self.index as int));
            }
            Some((c, self.position))
        } else {
            self.current = None;
            None
        }
    }

    /// Consume a run of characters driven by the state machine `f`, whose
    /// spec-level mirror is `step`: per character, `f` decides whether to
    /// keep it, drop it, or end the run. With `retake`, the character most
    /// recently returned by `next` is re-included at the front of the
    /// collected run (it was already consumed, so it is not re-read).
    pub fn take_while_config<F, S>(
        &mut self,
        state: S,
        retake: bool,
        f: F,
        Ghost(step): Ghost<spec_fn(char, S) -> (TakeOption, S)>,
    ) -> (chars: Vec<char>) where F: Fn(char, S) -> (TakeOption, S),
        requires
            old(self).wf(),
            forall|c: char, s: S| #[trigger] call_requires(f, (c, s)),
            forall|c: char, s: S, r: (TakeOption, S)|
                #[trigger] call_ensures(f, (c, s), r) ==> r == step(c, s),
        ensures
            final(self).wf(),
            final(self).source() == old(self).source(),
            ({
                let prefix = if retake && old(self).recent() is Some {
                    seq![old(self).recent()->0]
                } else {
                    Seq::<char>::empty()
                };
                let (taken, n) = config_steps(step, state, old(self).remaining());
                &&& chars@ == prefix + taken
                &&& final(self).remaining() == old(self).remaining().skip(n as int)
                &&& final(self).pos() == position_after(
                    old(self).pos(),
                    old(self).remaining().take(n as int),
                )
                &&& final(self).recent() == (if n > 0 {
                    Some(old(self).remaining()[n - 1])
                } else {
                    old(self).recent()
                })
            }),
    {
        let ghost rem0 = old(self).remaining();
        let ghost pos0 = old(self).pos();
        let ghost rec0 = old(self).recent();
        let ghost state0 = state;
        let mut chars: Vec<char> = Vec::new();
        if retake {
            if let Some(c) = self.current {
                chars.push(c);
            }
        }
        let ghost prefix = chars@;
        let mut state = state;
        let ghost mut consumed: int = 0;
        proof {
            assert(rem0.skip(0) =~= rem0);
            assert(rem0.take(0) =~= Seq::<char>::empty());
        }
        loop
            invariant_except_break
                self.wf(),
                self.source() == old(self).source(),
                forall|c: char, s: S| #[trigger] call_requires(f, (c, s)),
                forall|c: char, s: S, r: (TakeOption, S)|
                    #[trigger] call_ensures(f, (c, s), r) ==> r == step(c, s),
                0 <= consumed <= rem0.len(),
                self.remaining() == rem0.skip(consumed),
                self.pos() == position_after(pos0, rem0.take(consumed)),
                self.recent() == (if consumed > 0 {
                    Some(rem0[consumed - 1])
                } else {
                    rec0
                }),
                ({
                    let (t_all, n_all) = config_steps(step, state0, rem0);
                    let (t_now, n_now) = config_steps(step, state, self.remaining());
                    &&& chars@ + t_now == prefix + t_all
                    &&& consumed + n_now == n_all
                }),
            ensures
                self.wf(),
                self.source() == old(self).source(),
                ({
                    let (t_all, n_all) = config_steps(step, state0, rem0);
                    &&& chars@ == prefix + t_all
                    &&& self.remaining() == rem0.skip(n_all as int)
                    &&& self.pos() == position_after(pos0, rem0.take(n_all as int))
                    &&& self.recent() == (if n_all > 0 {
                        Some(rem0[n_all - 1])
                    } else {
                        rec0
                    })
                }),
            decreases rem0.len() - consumed,
        {
            let ghost rem_now = self.remaining();
            let ghost pos_now = self.pos();
            let next_char = self.peek_next();
            match next_char {
                None => {
                    proof {
                        assert(chars@ + Seq::<char>::empty() =~= chars@);
                    }
                    break;
                },
                Some(c) => {
                    let ghost prev_state = state;
                    let (take_option, next_state) = f(c, state);
                    proof {
                        assert((take_option, next_state) == step(c, prev_state));
                        assert(rem_now.skip(1) =~= rem0.skip(consumed + 1));
                        assert(rem0.take(consumed + 1) =~= rem0.take(consumed).push(
                            rem0[consumed],
                        ));
                        lemma_position_after_snoc(pos0, rem0.take(consumed), rem0[consumed]);
                    }
                    match take_option {
                        TakeOption::Take => {
                            chars.push(c);
                            self.next();
                            state = next_state;
                            proof {
                                let (t_rest, n_rest) = config_steps(step, state, rem_now.skip(1));
                                assert(chars@ =~= chars@.drop_last() + seq![c]);
                                assert(chars@.drop_last() + (seq![c] + t_rest) =~= chars@ + t_rest);
                                consumed = consumed + 1;
                            }
                        },
                        TakeOption::Skip => {
                            self.next();
                            state = next_state;
                            proof {
                                consumed = consumed + 1;
                            }
                        },
                        TakeOption::Stop => {
                            proof {
                                assert(chars@ + Seq::<char>::empty() =~= chars@);
                            }
                            break;
                        },
                        TakeOption::TakeAndStop => {
                            chars.push(c);
                            self.next();
                            proof {
                                consumed = consumed + 1;
                                assert(chars@ =~= chars@.drop_last() + seq![c]);
                            }
                            break;
                        },
                        TakeOption::SkipAndStop => {
                            self.next();
                            proof {
                                consumed = consumed + 1;
                                assert(chars@ + Seq::<char>::empty() =~= chars@);
                            }
                            break;
                        },
                    }
                },
            }
        }
        chars
    }

    /// Consume and collect characters while `f` (mirrored by `pred`) holds,
    /// stopping without consuming at the first character where it does not.
    pub fn take_while<F>(&mut self, f: F, Ghost(pred): Ghost<spec_fn(char) -> bool>) -> (chars:
        Vec<char>) where F: Fn(char) -> bool,
        requires
            old(self).wf(),
            forall|c: char| #[trigger] call_requires(f, (c,)),
            forall|c: char, b: bool| #[trigger] call_ensures(f, (c,), b) ==> b == pred(c),
        ensures
            final(self).wf(),
            final(self).source() == old(self).source(),
            ({
                let n = run_len(pred, old(self).remaining());
                &&& chars@ == old(self).remaining().take(n as int)
                &&& final(self).remaining() == old(self).remaining().skip(n as int)
                &&& final(self).pos() == position_after(old(self).pos(), chars@)
                &&& final(self).recent() == (if n > 0 {
                    Some(old(self).remaining()[n - 1])
                } else {
                    old(self).recent()
                })
            }),
    {
        let ghost_pred: Ghost<spec_fn(char) -> bool> = Ghost(pred);
        let g = |c: char, s: ()| -> (r: (TakeOption, ()))
            ensures
                r == pred_step(ghost_pred@)(c, s),
            {
                (TakeOption::from(f(c)), ())
            };
        let chars = self.take_while_config((), false, g, Ghost(pred_step(pred)));
        proof {
            lemma_config_steps_pred(pred, old(self).remaining());
            let n = run_len(pred, old(self).remaining());
            assert(Seq::<char>::empty() + old(self).remaining().take(n as int) =~= old(
                self,
            ).remaining().take(n as int));
        }
        chars
    }

    /// As `take_while`, but the collected run starts with the character most
    /// recently returned by `next` (already consumed by the caller).
    pub fn retake_while<F>(&mut self, f: F, Ghost(pred): Ghost<spec_fn(char) -> bool>) -> (chars:
        Vec<char>) where F: Fn(char) -> bool,
        requires
            old(self).wf(),
            forall|c: char| #[trigger] call_requires(f, (c,)),
            forall|c: char, b: bool| #[trigger] call_ensures(f, (c,), b) ==> b == pred(c),
        ensures
            final(self).wf(),
            final(self).source() == old(self).source(),
            ({
                let prefix = if old(self).recent() is Some {
                    seq![old(self).recent()->0]
                } else {
                    Seq::<char>::empty()
                };
                let n = run_len(pred, old(self).remaining());
                &&& chars@ == prefix + old(self).remaining().take(n as int)
                &&& final(self).remaining() == old(self).remaining().skip(n as int)
                &&& final(self).pos() == position_after(
                    old(self).pos(),
                    old(self).remaining().take(n as int),
                )
                &&& final(self).recent() == (if n > 0 {
                    Some(old(self).remaining()[n - 1])
                } else {
                    old(self).recent()
                })
            }),
    {
        let ghost_pred: Ghost<spec_fn(char) -> bool> = Ghost(pred);
        let g = |c: char, s: ()| -> (r: (TakeOption, ()))
            ensures
                r == pred_step(ghost_pred@)(c, s),
            {
                (TakeOption::from(f(c)), ())
            };
        let chars = self.take_while_config((), true, g, Ghost(pred_step(pred)));
        proof {
            lemma_config_steps_pred(pred, old(self).remaining());
        }
        chars
    }

    /// Consume characters while `f` (mirrored by `pred`) holds, discarding
    /// them.
    pub fn skip_while<F>(&mut self, f: F, Ghost(pred): Ghost<spec_fn(char) -> bool>) where
        F: Fn(char) -> bool,

        requires
            old(self).wf(),
            forall|c: char| #[trigger] call_requires(f, (c,)),
            forall|c: char, b: bool| #[trigger] call_ensures(f, (c,), b) ==> b == pred(c),
        ensures
            final(self).wf(),
            final(self).source() == old(self).source(),
            ({
                let n = run_len(pred, old(self).remaining());
                &&& final(self).remaining() == old(self).remaining().skip(n as int)
                &&& final(self).pos() == position_after(
                    old(self).pos(),
                    old(self).remaining().take(n as int),
                )
                &&& final(self).recent() == (if n > 0 {
                    Some(old(self).remaining()[n - 1])
                } else {
                    old(self).recent()
                })
            }),
    {
        self.take_while(f, Ghost(pred));
    }

    /// Return the next character without consuming it, or `None` at end of
    /// input.
    pub fn peek_next(&mut self) -> (r: Option<char>)
        requires
            old(self).wf(),
        ensures
            *final(self) == *old(self),
            r == (if old(self).remaining().len() > 0 {
                Some(old(self).remaining()[0])
            } else {
                None::<char>
            }),
    {
        if self.index < self.chars.len() {
            Some(self.chars[self.index])
        } else {
            None
        }
    }
}

} // verus!
