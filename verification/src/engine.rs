//! The matching engine: from the current state of a session it follows the
//! automaton over the input, remembers the accepting candidates it passes,
//! and stops where a semantic action is to be run, where the input ends, or
//! where nothing matches.

use crate::dfa::{candidates_in_bounds, first_char, first_range, State, Trans, DFA};
use crate::lexer::{Lexer, LexerError, LexerErrorKind, SemanticActionResult, Session};
use crate::loc::Loc;
use crate::right_ctx::{select, select_candidate, RightCtxDFAs};
use vstd::prelude::*;

verus! {

/// What the automaton does at one step.
#[derive(Debug, Clone, Copy, PartialEq, Eq, Structural)]
pub enum Move {
    /// Go on in this state.
    Goto(usize),
    /// Accept here and now: run this semantic action.
    Fire(usize),
    /// Nothing matches: fall back to the remembered candidate.
    Fail,
    /// The input is at its end and nothing is left to do.
    Finish,
}

/// How a scan ended.
pub enum Event {
    /// This semantic action is to be run on the current match.
    Action(usize),
    /// No more tokens.
    EndOfInput,
    /// Nothing matches at the start of the current match.
    Invalid,
}

/// How a scan ended, as the lexer reports it.
#[derive(Debug, Clone, PartialEq, Eq)]
pub enum Scan<E> {
    /// This semantic action is to be run on the current match.
    Action(usize),
    /// No more tokens.
    EndOfInput,
    /// An `InvalidToken` error, at the start of the match that failed.
    Error(LexerError<E>),
}

impl<E> Scan<E> {
    /// How the scan ended, without the error.
    pub open spec fn event(self) -> Event {
        match self {
            Scan::Action(action) => Event::Action(action),
            Scan::EndOfInput => Event::EndOfInput,
            Scan::Error(_) => Event::Invalid,
        }
    }
}

impl DFA<Trans> {
    /// Whether the automaton has a state, every transition leads to one of
    /// its states, and every candidate names a right context below
    /// `n_right_ctxs`.
    pub open spec fn in_bounds(&self, n_right_ctxs: nat) -> bool {
        let n = self.states@.len();
        &&& n > 0
        &&& forall|s: int, i: int|
            0 <= s < n && 0 <= i < self.states@[s].char_transitions@.len() ==> (
            #[trigger] self.states@[s].char_transitions@[i]).1.in_bounds(n, n_right_ctxs)
        &&& forall|s: int, i: int|
            0 <= s < n && 0 <= i < self.states@[s].range_transitions@.len() ==> (
            #[trigger] self.states@[s].range_transitions@[i]).value.in_bounds(n, n_right_ctxs)
        &&& forall|s: int|
            0 <= s < n ==> ((#[trigger] self.states@[s]).any_transition matches Some(t)
                ==> t.in_bounds(n, n_right_ctxs))
        &&& forall|s: int|
            0 <= s < n ==> ((#[trigger] self.states@[s]).end_of_input_transition matches Some(t)
                ==> t.in_bounds(n, n_right_ctxs))
        &&& forall|s: int|
            0 <= s < n ==> candidates_in_bounds(
                (#[trigger] self.states@[s]).accepting@,
                n_right_ctxs,
            )
    }

    /// Whether state `s` is merged into the one state that leads to it: it
    /// has one predecessor and is not initial. The session never rests in
    /// such a state.
    pub open spec fn inlined(&self, s: usize) -> bool {
        self.states@[s as int].predecessors == 1 && !self.states@[s as int].initial
    }
}

/// What a transition does, with `rest` ahead: it leads on, or it accepts
/// with the candidate chosen from its list. Where no candidate can be
/// chosen, `fallback` happens.
pub open spec fn resolve(
    trans: Trans,
    right_ctxs: Seq<DFA<usize>>,
    rest: Seq<char>,
    fallback: Move,
) -> Move {
    match trans {
        Trans::Trans(next) => Move::Goto(next),
        Trans::Accept(cands) => match select(cands@, right_ctxs, rest) {
            Some(action) => Move::Fire(action),
            None => fallback,
        },
    }
}

/// What `state` does on the character `c`, read with `rest` after it. The
/// transition for exactly `c` comes first, then the first range that holds
/// `c`, then the wildcard. An accepting transition for `c` none of whose
/// candidates can be chosen gives way to the wildcard; where the wildcard is
/// missing or cannot choose either, the match fails.
pub open spec fn on_char(
    state: State<Trans>,
    right_ctxs: Seq<DFA<usize>>,
    c: char,
    rest: Seq<char>,
) -> Move {
    let wildcard = match state.any_transition {
        Some(trans) => resolve(trans, right_ctxs, rest, Move::Fail),
        None => Move::Fail,
    };
    match first_char(state.char_transitions@, c, 0) {
        Some(i) => resolve(state.char_transitions@[i].1, right_ctxs, rest, wildcard),
        None => match first_range(state.range_transitions@, c, 0) {
            Some(i) => resolve(state.range_transitions@[i].value, right_ctxs, rest, wildcard),
            None => wildcard,
        },
    }
}

/// What state number `s` does at the end of the input. Without an
/// end-of-input transition, or with one none of whose candidates can be
/// chosen, state 0 finishes and every other state fails.
pub open spec fn on_end(s: usize, state: State<Trans>, right_ctxs: Seq<DFA<usize>>) -> Move {
    let fallback = if s == 0 { Move::Finish } else { Move::Fail };
    match state.end_of_input_transition {
        Some(trans) => resolve(trans, right_ctxs, Seq::<char>::empty(), fallback),
        None => fallback,
    }
}

/// The session on entering state number `s`. State 0 starts a new match.
/// Any other state with candidates remembers the one chosen with the unread
/// input ahead, if one can be chosen.
pub open spec fn entered(
    dfa: &DFA<Trans>,
    right_ctxs: Seq<DFA<usize>>,
    s: usize,
    v: Session<usize>,
) -> Session<usize> {
    if s == 0 {
        v.restarted()
    } else {
        match select(dfa.states@[s as int].accepting@, right_ctxs, v.rest()) {
            Some(action) => v.remembering(action),
            None => v,
        }
    }
}

/// The end of a match that cannot be extended: the session falls back to the
/// remembered candidate, whose semantic action is to be run; without a
/// candidate nothing matches.
pub open spec fn failed(v: Session<usize>) -> (Session<usize>, Event) {
    match v.candidate {
        Some(cand) => (v.fallen_back(), Event::Action(cand.action)),
        None => (v, Event::Invalid),
    }
}

/// The scan of a session that enters state number `s`.
pub open spec fn scan_from(
    dfa: &DFA<Trans>,
    right_ctxs: Seq<DFA<usize>>,
    s: usize,
    v: Session<usize>,
) -> (Session<usize>, Event)
    decreases v.input.len() - v.pos,
{
    let v1 = entered(dfa, right_ctxs, s, v);
    if v1.pos >= v1.input.len() {
        let v2 = Session { done: true, ..v1 };
        match on_end(s, dfa.states@[s as int], right_ctxs) {
            Move::Goto(next) => (Session { state: next, ..v2 }, Event::EndOfInput),
            Move::Fire(action) => (v2.forgetting(), Event::Action(action)),
            Move::Fail => failed(v2),
            Move::Finish => (v2, Event::EndOfInput),
        }
    } else {
        let c = v1.input[v1.pos as int];
        let v2 = v1.read();
        match on_char(dfa.states@[s as int], right_ctxs, c, v2.rest()) {
            Move::Goto(next) => if dfa.inlined(next) {
                scan_from(dfa, right_ctxs, next, v2)
            } else {
                scan_from(dfa, right_ctxs, next, Session { state: next, ..v2 })
            },
            Move::Fire(action) => (v2.forgetting(), Event::Action(action)),
            Move::Fail => failed(v2),
            Move::Finish => (v2, Event::EndOfInput),
        }
    }
}

/// One scan: the session it leaves and how it ended. A session that is done
/// stays as it is. Otherwise the automaton runs from the state of the
/// session until a semantic action is to be run, the input ends, or nothing
/// matches.
pub open spec fn scan(dfa: &DFA<Trans>, right_ctxs: Seq<DFA<usize>>, v: Session<usize>) -> (
    Session<usize>,
    Event,
) {
    if v.done {
        (v, Event::EndOfInput)
    } else {
        scan_from(dfa, right_ctxs, v.state, v)
    }
}

/// The session after its semantic action has run: matching restarts from the
/// initial state, and after a token the next match starts where this one
/// ends.
pub open spec fn finished<A>(v: Session<A>, returned: bool) -> Session<A> {
    Session { state: v.initial_state, start: if returned { v.pos } else { v.start }, ..v }
}

/// What a transition does, with `rest` ahead.
fn resolve_trans(trans: &Trans, right_ctxs: &RightCtxDFAs, rest: &str, fallback: Move) -> (m: Move)
    requires
        right_ctxs.wf(),
        trans matches Trans::Accept(cands) ==> candidates_in_bounds(cands@, right_ctxs.dfas@.len()),
    ensures
        m == resolve(*trans, right_ctxs.dfas@, rest@, fallback),
{
    match trans {
        Trans::Trans(next) => Move::Goto(*next),
        Trans::Accept(cands) => match select_candidate(cands, right_ctxs, rest) {
            Some(action) => Move::Fire(action),
            None => fallback,
        },
    }
}

/// What `state` of `dfa` does on `c`, read with `rest` after it.
pub fn step_on_char(
    dfa: &DFA<Trans>,
    s: usize,
    right_ctxs: &RightCtxDFAs,
    c: char,
    rest: &str,
) -> (m: Move)
    requires
        dfa.in_bounds(right_ctxs.dfas@.len()),
        right_ctxs.wf(),
        s < dfa.states@.len(),
    ensures
        m == on_char(dfa.states@[s as int], right_ctxs.dfas@, c, rest@),
        m matches Move::Goto(next) ==> next < dfa.states@.len(),
        !(m is Finish),
{
    let state = &dfa.states[s];
    let wildcard = match &state.any_transition {
        Some(trans) => resolve_trans(trans, right_ctxs, rest, Move::Fail),
        None => Move::Fail,
    };
    match state.find_char(c) {
        Some(i) => resolve_trans(&state.char_transitions[i].1, right_ctxs, rest, wildcard),
        None => match state.find_range(c) {
            Some(i) => resolve_trans(&state.range_transitions[i].value, right_ctxs, rest, wildcard),
            None => wildcard,
        },
    }
}

/// What state number `s` of `dfa` does at the end of the input.
pub fn step_on_end(dfa: &DFA<Trans>, s: usize, right_ctxs: &RightCtxDFAs) -> (m: Move)
    requires
        dfa.in_bounds(right_ctxs.dfas@.len()),
        right_ctxs.wf(),
        s < dfa.states@.len(),
    ensures
        m == on_end(s, dfa.states@[s as int], right_ctxs.dfas@),
{
    let fallback = if s == 0 { Move::Finish } else { Move::Fail };
    proof {
        reveal_strlit("");
    }
    match &dfa.states[s].end_of_input_transition {
        Some(trans) => {
            let m = resolve_trans(trans, right_ctxs, "", fallback);
            assert(""@ =~= Seq::<char>::empty());
            m
        },
        None => fallback,
    }
}

impl<'input, S> Lexer<'input, usize, S> {
    /// Falls back to the remembered candidate, or reports that nothing
    /// matches.
    pub(crate) fn fail<E>(&mut self) -> (scan: Scan<E>)
        requires
            old(self).wf(),
        ensures
            final(self).wf(),
            (final(self)@, scan.event()) == failed(old(self)@),
            final(self).user() == old(self).user(),
            scan matches Scan::Error(e) ==> e.kind is InvalidToken && e.location == final(self).start_loc(),
    {
        match self.backtrack() {
            Ok(action) => Scan::Action(action),
            Err(e) => Scan::Error(e),
        }
    }

    /// Runs the automaton from the state of the session until a semantic
    /// action is to be run, the input ends, or nothing matches.
    ///
    /// On `Scan::Action` the current match is the text that the action is
    /// for; the caller runs the action and hands what it returns to `finish`.
    pub fn scan<E>(&mut self, dfa: &DFA<Trans>, right_ctxs: &RightCtxDFAs) -> (scan: Scan<E>)
        requires
            old(self).wf(),
            dfa.in_bounds(right_ctxs.dfas@.len()),
            right_ctxs.wf(),
            !old(self)@.done ==> old(self)@.state < dfa.states@.len(),
        ensures
            final(self).wf(),
            (final(self)@, scan.event()) == self::scan(dfa, right_ctxs.dfas@, old(self)@),
            final(self).user() == old(self).user(),
            scan matches Scan::Error(e) ==> e.kind is InvalidToken && e.location == final(self).start_loc(),
    {
        if self.__done {
            return Scan::EndOfInput;
        }
        let mut s: usize = self.__state;
        loop
            invariant
                self.wf(),
                dfa.in_bounds(right_ctxs.dfas@.len()),
                right_ctxs.wf(),
                s < dfa.states@.len(),
                !self@.done,
                self.user() == old(self).user(),
                self::scan(dfa, right_ctxs.dfas@, old(self)@) == scan_from(
                    dfa,
                    right_ctxs.dfas@,
                    s,
                    self@,
                ),
            decreases self@.input.len() - self@.pos,
        {
            let state = &dfa.states[s];
            if s == 0 {
                self.reset_match();
            } else {
                match select_candidate(&state.accepting, right_ctxs, self.remaining()) {
                    Some(action) => self.set_accepting_state(action),
                    None => {},
                }
            }
            match self.next() {
                None => {
                    self.__done = true;
                    match step_on_end(dfa, s, right_ctxs) {
                        Move::Goto(next) => {
                            self.__state = next;
                            return Scan::EndOfInput;
                        },
                        Move::Fire(action) => {
                            self.reset_accepting_state();
                            return Scan::Action(action);
                        },
                        Move::Fail => {
                            return self.fail();
                        },
                        Move::Finish => {
                            return Scan::EndOfInput;
                        },
                    }
                },
                Some(c) => {
                    match step_on_char(dfa, s, right_ctxs, c, self.remaining()) {
                        Move::Goto(next) => {
                            let target = &dfa.states[next];
                            if !(target.predecessors == 1 && !target.initial) {
                                self.__state = next;
                            }
                            s = next;
                        },
                        Move::Fire(action) => {
                            self.reset_accepting_state();
                            return Scan::Action(action);
                        },
                        Move::Fail => {
                            return self.fail();
                        },
                        Move::Finish => {
                            return Scan::EndOfInput;
                        },
                    }
                },
            }
        }
    }
}

impl<'input, A, S> Lexer<'input, A, S> {
    /// Takes what the semantic action of the last scan returned. The session
    /// goes back to its initial state. After `Continue` there is no token and
    /// the caller scans again. After `Return` the result is the token with
    /// the span of its match, or the action's error at the start of the
    /// match, and the next match starts where this one ends.
    pub fn finish<T, E>(&mut self, result: SemanticActionResult<Result<T, E>>) -> (token: Option<
        Result<(Loc, T, Loc), LexerError<E>>,
    >)
        ensures
            old(self).wf() ==> final(self).wf(),
            final(self)@ == finished(old(self)@, result is Return),
            final(self).user() == old(self).user(),
            final(self).end_loc() == old(self).end_loc(),
            final(self).start_loc() == (if result is Return {
                old(self).end_loc()
            } else {
                old(self).start_loc()
            }),
            match result {
                SemanticActionResult::Continue => token is None,
                SemanticActionResult::Return(Ok(t)) => token == Some(
                    Ok::<(Loc, T, Loc), LexerError<E>>(
                        (old(self).start_loc(), t, old(self).end_loc()),
                    ),
                ),
                SemanticActionResult::Return(Err(e)) => token == Some(
                    Err::<(Loc, T, Loc), LexerError<E>>(
                        LexerError { location: old(self).start_loc(), kind: LexerErrorKind::Custom(e) },
                    ),
                ),
            },
    {
        self.__state = self.__initial_state;
        match result {
            SemanticActionResult::Continue => None,
            SemanticActionResult::Return(res) => {
                let (match_start, match_end) = self.match_loc();
                self.reset_match();
                match res {
                    Ok(tok) => Some(Ok((match_start, tok, match_end))),
                    Err(err) => Some(
                        Err(LexerError { location: match_start, kind: LexerErrorKind::Custom(err) }),
                    ),
                }
            },
        }
    }

    /// Switches to the rule set that starts in state `start`: matching goes
    /// on from there, and restarts from there after each match.
    pub fn switch<T>(&mut self, start: usize) -> (result: SemanticActionResult<T>)
        ensures
            old(self).wf() ==> final(self).wf(),
            final(self)@ == (Session { state: start, initial_state: start, ..old(self)@ }),
            final(self).user() == old(self).user(),
            final(self).start_loc() == old(self).start_loc(),
            final(self).end_loc() == old(self).end_loc(),
            result is Continue,
    {
        self.__state = start;
        self.__initial_state = start;
        SemanticActionResult::Continue
    }
}

} // verus!
