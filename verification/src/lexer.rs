//! The lexing session: the input, the cursor into it, the span of the current
//! match and the remembered accepting candidate, with the operations that the
//! matching engine and semantic actions are built from.

use crate::loc::Loc;
use crate::text::{lemma_byte_len, lemma_encode_injective, lemma_split, split_first};
use vstd::prelude::*;
use vstd::string::*;
use vstd::utf8::*;

verus! {

/// An error of the lexer, with the position it is reported at.
#[derive(Debug, Clone, PartialEq, Eq)]
pub struct LexerError<E> {
    pub location: Loc,
    pub kind: LexerErrorKind<E>,
}

/// What went wrong.
#[derive(Debug, Clone, PartialEq, Eq)]
pub enum LexerErrorKind<E> {
    /// No rule matches the input at the position.
    InvalidToken,
    /// A semantic action failed with an error of its own.
    Custom(E),
}

/// What a semantic action asks of the lexer.
#[derive(Debug, Clone, PartialEq, Eq)]
pub enum SemanticActionResult<T> {
    /// No token: go on with the input that follows.
    Continue,
    /// Hand the token out.
    Return(T),
}

impl<T> SemanticActionResult<T> {
    /// Applies `f` to the token, if there is one.
    pub fn map_token<F, T1>(self, f: F) -> (mapped: SemanticActionResult<T1>) where F: Fn(T) -> T1
        requires
            self matches SemanticActionResult::Return(t) ==> f.requires((t,)),
        ensures
            self is Continue <==> mapped is Continue,
            self matches SemanticActionResult::Return(t) ==> (mapped matches SemanticActionResult::Return(
                t1,
            ) && f.ensures((t,), t1)),
    {
        match self {
            SemanticActionResult::Continue => SemanticActionResult::Continue,
            SemanticActionResult::Return(t) => SemanticActionResult::Return(f(t)),
        }
    }
}

/// The longest input, in characters, that a session accepts: with it no line,
/// column or byte offset leaves its type.
pub const MAX_INPUT_LEN: usize = 0x3fff_ffff;

/// An accepting candidate that a session remembers: the span of its match, in
/// characters from the start of the input, and its semantic action.
pub struct Candidate<A> {
    pub start: nat,
    pub action: A,
    pub end: nat,
}

/// The state of a session as a plain value.
pub struct Session<A> {
    /// The whole input.
    pub input: Seq<char>,
    /// The number of characters before the start of the current match.
    pub start: nat,
    /// The number of characters read: the end of the current match.
    pub pos: nat,
    /// The remembered candidate.
    pub candidate: Option<Candidate<A>>,
    /// The current state of the automaton.
    pub state: usize,
    /// Whether the end of the input has been handled.
    pub done: bool,
    /// The state that matching restarts from.
    pub initial_state: usize,
}

impl<A> Session<A> {
    /// The input that has not been read.
    pub open spec fn rest(self) -> Seq<char> {
        self.input.skip(self.pos as int)
    }

    /// The text of the current match.
    pub open spec fn matched(self) -> Seq<char> {
        self.input.subrange(self.start as int, self.pos as int)
    }

    /// The session before anything of `input` is read.
    pub open spec fn fresh(input: Seq<char>) -> Session<A> {
        Session {
            input,
            start: 0,
            pos: 0,
            candidate: None,
            state: 0,
            done: false,
            initial_state: 0,
        }
    }

    /// The session after reading one character, if one is left.
    pub open spec fn read(self) -> Session<A> {
        if self.pos < self.input.len() {
            Session { pos: self.pos + 1, ..self }
        } else {
            self
        }
    }

    /// The session after falling back to the remembered candidate: the match
    /// and the cursor are those of the candidate, which is then forgotten.
    pub open spec fn fallen_back(self) -> Session<A> {
        match self.candidate {
            Some(cand) => Session {
                start: cand.start,
                pos: cand.end,
                candidate: None,
                done: false,
                ..self
            },
            None => self,
        }
    }

    /// The session after remembering `action` for the current match.
    pub open spec fn remembering(self, action: A) -> Session<A> {
        Session {
            candidate: Some(Candidate { start: self.start, action, end: self.pos }),
            ..self
        }
    }

    /// The session after forgetting the candidate.
    pub open spec fn forgetting(self) -> Session<A> {
        Session { candidate: None, ..self }
    }

    /// The session after starting a new match where the current one ends.
    pub open spec fn restarted(self) -> Session<A> {
        Session { start: self.pos, ..self }
    }
}

/// The state of one run of a lexer over one input.
///
/// The three public fields are for the code that drives the automaton.
pub struct Lexer<'input, A, S> {
    /// The current state of the automaton.
    pub __state: usize,
    /// Set once the end of the input has been handled.
    pub __done: bool,
    /// The state to go back to after a match.
    pub __initial_state: usize,
    pub(crate) user_state: S,
    pub(crate) input: &'input str,
    /// The input from the cursor on.
    pub(crate) rest: &'input str,
    pub(crate) current_match_start: Loc,
    pub(crate) current_match_end: Loc,
    /// The remembered candidate: the start of its match, its semantic action
    /// and the end of its match.
    pub(crate) last_match: Option<(Loc, A, Loc)>,
    pub(crate) start_pos: Ghost<nat>,
    pub(crate) last_pos: Ghost<(nat, nat)>,
}

impl Loc {
    /// Whether no field is beyond what `k` characters can add up to.
    pub open spec fn within(self, k: nat) -> bool {
        &&& self.line <= k
        &&& self.col <= 4 * k
        &&& self.byte_idx <= 4 * k
    }
}

impl<'input, A, S> Lexer<'input, A, S> {
    /// The session as a plain value.
    pub open(crate) spec fn view(&self) -> Session<A> {
        Session {
            input: self.input@,
            start: self.start_pos@,
            pos: (self.input@.len() - self.rest@.len()) as nat,
            candidate: match self.last_match {
                Some((_, action, _)) => Some(
                    Candidate { start: self.last_pos@.0, action, end: self.last_pos@.1 },
                ),
                None => None,
            },
            state: self.__state,
            done: self.__done,
            initial_state: self.__initial_state,
        }
    }

    /// The state of the user.
    pub open(crate) spec fn user(&self) -> S {
        self.user_state
    }

    /// The position at which the current match starts.
    pub open(crate) spec fn start_loc(&self) -> Loc {
        self.current_match_start
    }

    /// The position of the cursor, at which the current match ends.
    pub open(crate) spec fn end_loc(&self) -> Loc {
        self.current_match_end
    }

    /// The invariant of a session: the cursor is inside the input, the match
    /// starts at or before it, and every position held is the position of
    /// the text before it.
    pub open(crate) spec fn wf(&self) -> bool {
        let input = self.input@;
        let pos = input.len() - self.rest@.len();
        &&& input.len() <= MAX_INPUT_LEN
        &&& self.rest@.len() <= input.len()
        &&& self.rest@ == input.skip(pos)
        &&& self.current_match_end.is_at(input.take(pos))
        &&& self.current_match_end.within(pos as nat)
        &&& self.start_pos@ <= pos
        &&& self.current_match_start.is_at(input.take(self.start_pos@ as int))
        &&& self.current_match_start.within(self.start_pos@)
        &&& match self.last_match {
            Some((start, _, end)) => {
                let (sp, ep) = self.last_pos@;
                &&& sp <= ep <= input.len()
                &&& start.is_at(input.take(sp as int))
                &&& start.within(sp)
                &&& end.is_at(input.take(ep as int))
                &&& end.within(ep)
            },
            None => true,
        }
    }

    /// What `wf` gives of the session as a plain value.
    pub proof fn lemma_wf(&self)
        requires
            self.wf(),
        ensures
            self@.input.len() <= MAX_INPUT_LEN,
            self@.start <= self@.pos <= self@.input.len(),
            self.start_loc().is_at(self@.input.take(self@.start as int)),
            self.end_loc().is_at(self@.input.take(self@.pos as int)),
            self@.candidate matches Some(cand) ==> cand.start <= cand.end <= self@.input.len(),
    {
    }

    /// A session at the start of `input`, with a user state of `state`.
    pub fn new_with_state(input: &'input str, state: S) -> (lexer: Self)
        requires
            input@.len() <= MAX_INPUT_LEN,
        ensures
            lexer.wf(),
            lexer@ == Session::<A>::fresh(input@),
            lexer.user() == state,
            lexer.start_loc() == Loc::zero(),
            lexer.end_loc() == Loc::zero(),
    {
        let zero = Loc { line: 0, col: 0, byte_idx: 0 };
        let lexer = Lexer {
            __state: 0,
            __done: false,
            __initial_state: 0,
            user_state: state,
            input,
            rest: input,
            current_match_start: zero,
            current_match_end: zero,
            last_match: None,
            start_pos: Ghost(0),
            last_pos: Ghost((0, 0)),
        };
        assert(input@.skip(0) =~= input@);
        lexer
    }

    /// Reads the next character, if one is left, and moves the end of the
    /// current match past it.
    pub fn next(&mut self) -> (c: Option<char>)
        requires
            old(self).wf(),
        ensures
            final(self).wf(),
            final(self)@ == old(self)@.read(),
            final(self).user() == old(self).user(),
            final(self).start_loc() == old(self).start_loc(),
            c == (if old(self)@.pos < old(self)@.input.len() {
                Some(old(self)@.input[old(self)@.pos as int])
            } else {
                None::<char>
            }),
            c matches Some(ch) ==> final(self).end_loc() == old(self).end_loc().after(ch),
            c is None ==> final(self).end_loc() == old(self).end_loc(),
    {
        match split_first(self.rest) {
            None => None,
            Some((c, tail)) => {
                let ghost input = self.input@;
                let ghost pos = input.len() - self.rest@.len();
                proof {
                    assert(input[pos] == c);
                    assert(self.rest@.drop_first() =~= input.skip(pos + 1));
                    assert(input.take(pos + 1) =~= input.take(pos).push(c));
                }
                self.rest = tail;
                self.current_match_end = self.current_match_end.advance(c);
                Some(c)
            },
        }
    }

    /// The next character, which is not read.
    pub fn peek(&mut self) -> (c: Option<char>)
        requires
            old(self).wf(),
        ensures
            *final(self) == *old(self),
            c == (if old(self)@.pos < old(self)@.input.len() {
                Some(old(self)@.input[old(self)@.pos as int])
            } else {
                None::<char>
            }),
    {
        match split_first(self.rest) {
            None => None,
            Some((c, _)) => Some(c),
        }
    }

    /// The input that has not been read. Reading from the result leaves the
    /// session as it is.
    pub fn remaining(&self) -> (rest: &'input str)
        requires
            self.wf(),
        ensures
            rest@ == self@.rest(),
    {
        self.rest
    }

    /// Falls back to the remembered candidate: the current match becomes the
    /// candidate's, the cursor goes to the end of it, the candidate is
    /// forgotten, and its semantic action is returned. Without a candidate
    /// the result is an `InvalidToken` error at the start of the current match.
    pub fn backtrack<E>(&mut self) -> (action: Result<A, LexerError<E>>)
        requires
            old(self).wf(),
        ensures
            final(self).wf(),
            final(self)@ == old(self)@.fallen_back(),
            final(self).user() == old(self).user(),
            match old(self)@.candidate {
                Some(cand) => {
                    &&& action == Ok::<A, LexerError<E>>(cand.action)
                    &&& final(self).start_loc().is_at(old(self)@.input.take(cand.start as int))
                    &&& final(self).end_loc().is_at(old(self)@.input.take(cand.end as int))
                },
                None => {
                    &&& action matches Err(e)
                    &&& e.kind is InvalidToken
                    &&& e.location == old(self).start_loc()
                    &&& final(self).start_loc() == old(self).start_loc()
                    &&& final(self).end_loc() == old(self).end_loc()
                },
            },
    {
        match self.last_match.take() {
            None => Err(
                LexerError { location: self.current_match_start, kind: LexerErrorKind::InvalidToken },
            ),
            Some((match_start, semantic_action, match_end)) => {
                let ghost input = self.input@;
                let ghost (sp, ep) = self.last_pos@;
                proof {
                    lemma_split(input, ep as int);
                    lemma_byte_len(input);
                }
                let (_, tail) = self.input.split_at(match_end.byte_idx);
                proof {
                    lemma_encode_injective(tail@, input.skip(ep as int));
                    assert(input.skip(ep as int).len() == input.len() - ep);
                }
                self.__done = false;
                self.current_match_start = match_start;
                self.current_match_end = match_end;
                self.rest = tail;
                self.start_pos = Ghost(sp);
                Ok(semantic_action)
            },
        }
    }

    /// Forgets the remembered candidate.
    pub fn reset_accepting_state(&mut self)
        ensures
            old(self).wf() ==> final(self).wf(),
            final(self)@ == old(self)@.forgetting(),
            final(self).user() == old(self).user(),
            final(self).start_loc() == old(self).start_loc(),
            final(self).end_loc() == old(self).end_loc(),
    {
        self.last_match = None;
    }

    /// Remembers `semantic_action_fn` as the candidate for the current match.
    pub fn set_accepting_state(&mut self, semantic_action_fn: A)
        ensures
            old(self).wf() ==> final(self).wf(),
            final(self)@ == old(self)@.remembering(semantic_action_fn),
            final(self).user() == old(self).user(),
            final(self).start_loc() == old(self).start_loc(),
            final(self).end_loc() == old(self).end_loc(),
    {
        self.last_match = Some(
            (self.current_match_start, semantic_action_fn, self.current_match_end),
        );
        self.last_pos = Ghost(
            (self.start_pos@, (self.input@.len() - self.rest@.len()) as nat),
        );
    }

    /// Starts a new match where the current one ends.
    pub fn reset_match(&mut self)
        ensures
            old(self).wf() ==> final(self).wf(),
            final(self)@ == old(self)@.restarted(),
            final(self).user() == old(self).user(),
            final(self).start_loc() == old(self).end_loc(),
            final(self).end_loc() == old(self).end_loc(),
    {
        self.current_match_start = self.current_match_end;
        self.start_pos = Ghost((self.input@.len() - self.rest@.len()) as nat);
    }

    /// The text of the current match.
    pub fn match_(&self) -> (text: &'input str)
        requires
            self.wf(),
        ensures
            text@ == self@.matched(),
    {
        let ghost input = self.input@;
        let ghost pos = input.len() - self.rest@.len();
        let ghost start = self.start_pos@ as int;
        proof {
            lemma_split(input, pos);
            lemma_byte_len(input);
        }
        let (head, _) = self.input.split_at(self.current_match_end.byte_idx);
        proof {
            lemma_encode_injective(head@, input.take(pos));
            lemma_split(head@, start);
            lemma_byte_len(head@);
            assert(head@.take(start) =~= input.take(start));
        }
        let (_, text) = head.split_at(self.current_match_start.byte_idx);
        proof {
            lemma_encode_injective(text@, head@.skip(start));
            assert(head@.skip(start) =~= input.subrange(start, pos));
        }
        text
    }

    /// The positions at which the current match starts and ends.
    pub fn match_loc(&self) -> (span: (Loc, Loc))
        ensures
            span.0 == self.start_loc(),
            span.1 == self.end_loc(),
    {
        (self.current_match_start, self.current_match_end)
    }

    /// The state of the user.
    pub fn state(&mut self) -> (user: &mut S)
        ensures
            *user == old(self).user(),
            final(self).user() == *final(user),
            final(self)@ == old(self)@,
            old(self).wf() ==> final(self).wf(),
            final(self).start_loc() == old(self).start_loc(),
            final(self).end_loc() == old(self).end_loc(),
    {
        &mut self.user_state
    }
}

impl<'input, A, S: Default> Lexer<'input, A, S> {
    /// A session at the start of `input`, with the default user state.
    pub fn new(input: &'input str) -> (lexer: Self)
        requires
            input@.len() <= MAX_INPUT_LEN,
        ensures
            lexer.wf(),
            lexer@ == Session::<A>::fresh(input@),
            lexer.start_loc() == Loc::zero(),
            lexer.end_loc() == Loc::zero(),
    {
        Self::new_with_state(input, Default::default())
    }
}

} // verus!
