//! What holds of every scan: the match it reports is the longest one that the
//! automaton accepts, and the end of the input is handled once.

use crate::dfa::{Trans, DFA};
use crate::engine::{entered, failed, on_char, on_end, scan, scan_from, Event, Move};
use crate::lexer::Session;
use crate::right_ctx::select;
use vstd::prelude::*;

verus! {

/// The semantic action that accepts exactly the `k` characters of `input`
/// from position `p` on, for an automaton that enters state `s` at `p`; none
/// if the automaton does not accept there.
///
/// The automaton accepts after no character with the candidate that `s`
/// chooses on entry, or, at the end of the input, with the one that its
/// end-of-input transition chooses. It accepts after `k` characters where the
/// first leads to a state that accepts after the other `k - 1`, or where
/// `k` is 1 and the transition on the character accepts.
pub open spec fn accept_point(
    dfa: &DFA<Trans>,
    right_ctxs: Seq<DFA<usize>>,
    s: usize,
    input: Seq<char>,
    p: nat,
    k: nat,
) -> Option<usize>
    decreases k,
{
    let state = dfa.states@[s as int];
    if k == 0 {
        let entry = if s == 0 {
            None
        } else {
            select(state.accepting@, right_ctxs, input.skip(p as int))
        };
        if p >= input.len() {
            match on_end(s, state, right_ctxs) {
                Move::Fire(action) => Some(action),
                _ => entry,
            }
        } else {
            entry
        }
    } else if p >= input.len() {
        None
    } else {
        match on_char(state, right_ctxs, input[p as int], input.skip(p as int + 1)) {
            Move::Goto(next) => accept_point(dfa, right_ctxs, next, input, p + 1, (k - 1) as nat),
            Move::Fire(action) => if k == 1 {
                Some(action)
            } else {
                None
            },
            _ => None,
        }
    }
}

/// A scan that enters state `s` and ends with a semantic action either ends
/// the match at the last point from the cursor on at which the automaton
/// accepts, with the action of that point, or, where there is no such point,
/// falls back to the candidate that the session came with. One that finds
/// nothing to match came without a candidate and passed no such point.
pub proof fn lemma_scan_from_longest(
    dfa: &DFA<Trans>,
    right_ctxs: Seq<DFA<usize>>,
    s: usize,
    v: Session<usize>,
    k: nat,
)
    requires
        v.pos <= v.input.len(),
        v.candidate matches Some(cand) ==> cand.end < v.pos,
    ensures
        ({
            let (v2, event) = scan_from(dfa, right_ctxs, s, v);
            match event {
                Event::Action(action) => {
                    &&& v2.pos >= v.pos ==> accept_point(
                        dfa,
                        right_ctxs,
                        s,
                        v.input,
                        v.pos,
                        (v2.pos - v.pos) as nat,
                    ) == Some(action)
                    &&& v2.pos < v.pos ==> (v.candidate matches Some(cand) && cand.action == action
                        && cand.end == v2.pos)
                    &&& k > v2.pos - v.pos ==> accept_point(dfa, right_ctxs, s, v.input, v.pos, k)
                        is None
                },
                Event::Invalid => {
                    &&& v.candidate is None
                    &&& accept_point(dfa, right_ctxs, s, v.input, v.pos, k) is None
                },
                Event::EndOfInput => true,
            }
        }),
    decreases v.input.len() - v.pos,
{
    let v1 = entered(dfa, right_ctxs, s, v);
    let state = dfa.states@[s as int];
    if v1.pos < v1.input.len() {
        let c = v1.input[v1.pos as int];
        let v2 = v1.read();
        assert(v2.rest() == v.input.skip(v.pos as int + 1));
        match on_char(state, right_ctxs, c, v2.rest()) {
            Move::Goto(next) => {
                let k1 = if k >= 1 { (k - 1) as nat } else { 0 };
                if dfa.inlined(next) {
                    lemma_scan_from_longest(dfa, right_ctxs, next, v2, k1);
                } else {
                    lemma_scan_from_longest(
                        dfa,
                        right_ctxs,
                        next,
                        Session { state: next, ..v2 },
                        k1,
                    );
                }
            },
            _ => {},
        }
    }
}

/// Maximal munch. A scan of a session that remembers no candidate and that
/// ends with a semantic action ends the match at the last point from the
/// cursor on at which the automaton accepts, and the action is the one that
/// accepts there: at no later point `k` does the automaton accept. A scan
/// that finds nothing to match passed no point at which the automaton
/// accepts.
pub proof fn lemma_maximal_munch(
    dfa: &DFA<Trans>,
    right_ctxs: Seq<DFA<usize>>,
    v: Session<usize>,
    k: nat,
)
    requires
        !v.done,
        v.candidate is None,
        v.pos <= v.input.len(),
    ensures
        ({
            let (v2, event) = scan(dfa, right_ctxs, v);
            match event {
                Event::Action(action) => {
                    &&& v2.pos >= v.pos
                    &&& accept_point(
                        dfa,
                        right_ctxs,
                        v.state,
                        v.input,
                        v.pos,
                        (v2.pos - v.pos) as nat,
                    ) == Some(action)
                    &&& k > v2.pos - v.pos ==> accept_point(
                        dfa,
                        right_ctxs,
                        v.state,
                        v.input,
                        v.pos,
                        k,
                    ) is None
                },
                Event::Invalid => accept_point(dfa, right_ctxs, v.state, v.input, v.pos, k) is None,
                Event::EndOfInput => true,
            }
        }),
{
    lemma_scan_from_longest(dfa, right_ctxs, v.state, v, k);
}

/// A scan that ends with a semantic action or with an error leaves no
/// candidate behind: the next match starts without one.
pub proof fn lemma_scan_forgets(
    dfa: &DFA<Trans>,
    right_ctxs: Seq<DFA<usize>>,
    s: usize,
    v: Session<usize>,
)
    ensures
        !(scan_from(dfa, right_ctxs, s, v).1 is EndOfInput) ==> scan_from(
            dfa,
            right_ctxs,
            s,
            v,
        ).0.candidate is None,
    decreases v.input.len() - v.pos,
{
    let v1 = entered(dfa, right_ctxs, s, v);
    if v1.pos < v1.input.len() {
        let v2 = v1.read();
        match on_char(dfa.states@[s as int], right_ctxs, v1.input[v1.pos as int], v2.rest()) {
            Move::Goto(next) => {
                if dfa.inlined(next) {
                    lemma_scan_forgets(dfa, right_ctxs, next, v2);
                } else {
                    lemma_scan_forgets(dfa, right_ctxs, next, Session { state: next, ..v2 });
                }
            },
            _ => {},
        }
    }
}

/// A scan that falls back to a candidate leaves the cursor and the match
/// exactly where the candidate was remembered, and forgets the candidate.
pub proof fn lemma_fall_back_exact(v: Session<usize>)
    requires
        v.candidate is Some,
    ensures
        ({
            let (v2, event) = failed(v);
            let cand = v.candidate->0;
            &&& event == Event::Action(cand.action)
            &&& v2.pos == cand.end
            &&& v2.start == cand.start
            &&& v2.rest() == v.input.skip(cand.end as int)
            &&& v2.candidate is None
            &&& v2.input == v.input
        }),
{
}

/// The end of the input is handled once. A scan that starts at the end of
/// the input, in a state that remembers no candidate on entry, leaves the
/// session done, whether it ends with a semantic action, with an error or
/// with the end of the input. The scan after it, in whatever state the
/// action has left the session, reports the end of the input and changes
/// nothing. So a rule set whose actions only continue cannot scan for ever.
pub proof fn lemma_end_handled_once(
    dfa: &DFA<Trans>,
    right_ctxs: Seq<DFA<usize>>,
    v: Session<usize>,
    after: Session<usize>,
)
    requires
        !v.done,
        v.pos >= v.input.len(),
        v.candidate is None,
        entered(dfa, right_ctxs, v.state, v).candidate is None,
        after.done == scan(dfa, right_ctxs, v).0.done,
    ensures
        scan(dfa, right_ctxs, v).0.done,
        scan(dfa, right_ctxs, v).0.pos == v.pos,
        scan(dfa, right_ctxs, after) == (after, Event::EndOfInput),
{
}

} // verus!
