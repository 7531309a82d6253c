//! Right contexts: small automata that look ahead in the input without
//! reading it, and the choice among the accepting candidates that they guard.

use crate::dfa::{candidates_in_bounds, lemma_first_char, lemma_first_range, AcceptingState, DFA};
use crate::text::split_first;
use vstd::prelude::*;

verus! {

/// The right-context automata of a lexer. A candidate names one by its index.
#[derive(Debug, Clone)]
pub struct RightCtxDFAs {
    pub dfas: Vec<DFA<usize>>,
}

impl DFA<usize> {
    /// Whether the automaton has a state and every transition leads to one
    /// of its states.
    pub open spec fn right_ctx_wf(&self) -> bool {
        &&& self.states@.len() > 0
        &&& forall|s: int, i: int|
            0 <= s < self.states@.len() && 0 <= i < self.states@[s].char_transitions@.len() ==> (
            #[trigger] self.states@[s].char_transitions@[i]).1 < self.states@.len()
        &&& forall|s: int, i: int|
            0 <= s < self.states@.len() && 0 <= i < self.states@[s].range_transitions@.len() ==> (
            #[trigger] self.states@[s].range_transitions@[i]).value < self.states@.len()
        &&& forall|s: int|
            0 <= s < self.states@.len() ==> (
            (#[trigger] self.states@[s]).any_transition matches Some(n) ==> n < self.states@.len())
        &&& forall|s: int|
            0 <= s < self.states@.len() ==> (
            (#[trigger] self.states@[s]).end_of_input_transition matches Some(n) ==> n
                < self.states@.len())
    }
}

impl RightCtxDFAs {
    /// Whether every automaton is well formed.
    pub open spec fn wf(&self) -> bool {
        forall|r: int| 0 <= r < self.dfas@.len() ==> (#[trigger] self.dfas@[r]).right_ctx_wf()
    }
}

/// Whether a right-context automaton in state `s`, with `rest` ahead of it,
/// reaches an accepting state. At the end of the input it follows at most
/// `fuel` end-of-input transitions.
pub open spec fn accepts_from(dfa: &DFA<usize>, s: usize, rest: Seq<char>, fuel: nat) -> bool
    decreases rest.len(), fuel,
{
    let state = dfa.states@[s as int];
    if state.accepting@.len() > 0 {
        true
    } else if rest.len() == 0 {
        match state.end_of_input_transition {
            Some(next) => fuel > 0 && accepts_from(dfa, next, rest, (fuel - 1) as nat),
            None => false,
        }
    } else {
        match state.target(rest[0]) {
            Some(next) => accepts_from(dfa, next, rest.drop_first(), fuel),
            None => false,
        }
    }
}

/// Whether the right context holds of `rest`: whether the automaton, from
/// its first state, reaches an accepting state. It reads `rest` as far as it
/// has transitions; at the end of `rest` it follows end-of-input transitions,
/// at most as many as it has states.
pub open spec fn accepts(dfa: &DFA<usize>, rest: Seq<char>) -> bool {
    accepts_from(dfa, 0, rest, dfa.states@.len())
}

/// Whether a candidate can be chosen with `rest` ahead: it has no right
/// context, or its right context holds of `rest`.
pub open spec fn holds(cand: AcceptingState, right_ctxs: Seq<DFA<usize>>, rest: Seq<char>) -> bool {
    match cand.right_ctx {
        None => true,
        Some(r) => r < right_ctxs.len() && accepts(&right_ctxs[r as int], rest),
    }
}

/// The index of the first candidate at or after `from` that can be chosen.
pub open spec fn first_holding(
    cands: Seq<AcceptingState>,
    right_ctxs: Seq<DFA<usize>>,
    rest: Seq<char>,
    from: int,
) -> Option<int>
    decreases cands.len() - from,
{
    if from < 0 || from >= cands.len() {
        None
    } else if holds(cands[from], right_ctxs, rest) {
        Some(from)
    } else {
        first_holding(cands, right_ctxs, rest, from + 1)
    }
}

/// The semantic action of the candidate chosen from `cands` with `rest`
/// ahead: that of the first candidate that can be chosen.
pub open spec fn select(
    cands: Seq<AcceptingState>,
    right_ctxs: Seq<DFA<usize>>,
    rest: Seq<char>,
) -> Option<usize> {
    match first_holding(cands, right_ctxs, rest, 0) {
        Some(i) => Some(cands[i].value),
        None => None,
    }
}

/// What `first_holding` finds is the first such candidate from `from` on.
pub proof fn lemma_first_holding(
    cands: Seq<AcceptingState>,
    right_ctxs: Seq<DFA<usize>>,
    rest: Seq<char>,
    from: int,
)
    requires
        0 <= from,
    ensures
        match first_holding(cands, right_ctxs, rest, from) {
            Some(i) => {
                &&& from <= i < cands.len()
                &&& holds(cands[i], right_ctxs, rest)
                &&& forall|j: int| from <= j < i ==> !holds(#[trigger] cands[j], right_ctxs, rest)
            },
            None => forall|j: int|
                from <= j < cands.len() ==> !holds(#[trigger] cands[j], right_ctxs, rest),
        },
    decreases cands.len() - from,
{
    if from < cands.len() && !holds(cands[from], right_ctxs, rest) {
        lemma_first_holding(cands, right_ctxs, rest, from + 1);
    }
}

/// The tie-break among candidates: the chosen action is that of the first
/// candidate, in the order of the list, whose right context holds or that has
/// none; no candidate is chosen only where none can be.
pub proof fn lemma_select_first(
    cands: Seq<AcceptingState>,
    right_ctxs: Seq<DFA<usize>>,
    rest: Seq<char>,
)
    ensures
        match select(cands, right_ctxs, rest) {
            Some(action) => exists|i: int|
                {
                    &&& 0 <= i < cands.len()
                    &&& holds(#[trigger] cands[i], right_ctxs, rest)
                    &&& cands[i].value == action
                    &&& forall|j: int| 0 <= j < i ==> !holds(#[trigger] cands[j], right_ctxs, rest)
                },
            None => forall|i: int|
                0 <= i < cands.len() ==> !holds(#[trigger] cands[i], right_ctxs, rest),
        },
{
    lemma_first_holding(cands, right_ctxs, rest, 0);
}

/// Whether the right context `dfa` holds of `rest`.
pub fn right_ctx_matches(dfa: &DFA<usize>, rest: &str) -> (found: bool)
    requires
        dfa.right_ctx_wf(),
    ensures
        found == accepts(dfa, rest@),
{
    let mut s: usize = 0;
    let mut ahead = rest;
    let mut fuel: usize = dfa.states.len();
    loop
        invariant
            dfa.right_ctx_wf(),
            s < dfa.states@.len(),
            accepts(dfa, rest@) == accepts_from(dfa, s, ahead@, fuel as nat),
        decreases ahead@.len(), fuel,
    {
        let state = &dfa.states[s];
        if state.accepting.len() > 0 {
            return true;
        }
        match split_first(ahead) {
            None => match state.end_of_input_transition {
                Some(next) => {
                    if fuel == 0 {
                        return false;
                    }
                    fuel -= 1;
                    s = next;
                },
                None => {
                    return false;
                },
            },
            Some((c, tail)) => match state.lookup(c) {
                Some(next) => {
                    proof {
                        lemma_target_in_bounds(dfa, s, c);
                    }
                    s = *next;
                    ahead = tail;
                },
                None => {
                    return false;
                },
            },
        }
    }
}

/// The transition that a well-formed right-context automaton takes on a
/// character leads to one of its states.
pub proof fn lemma_target_in_bounds(dfa: &DFA<usize>, s: usize, c: char)
    requires
        dfa.right_ctx_wf(),
        s < dfa.states@.len(),
    ensures
        dfa.states@[s as int].target(c) matches Some(n) ==> n < dfa.states@.len(),
{
    let state = dfa.states@[s as int];
    lemma_first_char(state.char_transitions@, c, 0);
    lemma_first_range(state.range_transitions@, c, 0);
}

/// Chooses among `cands` with `rest` ahead: tries the candidates in order and
/// takes the first whose right context holds of `rest`, or that has none.
pub fn select_candidate(cands: &Vec<AcceptingState>, right_ctxs: &RightCtxDFAs, rest: &str) -> (chosen:
    Option<usize>)
    requires
        candidates_in_bounds(cands@, right_ctxs.dfas@.len()),
        right_ctxs.wf(),
    ensures
        chosen == select(cands@, right_ctxs.dfas@, rest@),
{
    let mut i: usize = 0;
    while i < cands.len()
        invariant
            i <= cands@.len(),
            candidates_in_bounds(cands@, right_ctxs.dfas@.len()),
            right_ctxs.wf(),
            first_holding(cands@, right_ctxs.dfas@, rest@, 0) == first_holding(
                cands@,
                right_ctxs.dfas@,
                rest@,
                i as int,
            ),
        decreases cands@.len() - i,
    {
        let cand = &cands[i];
        match cand.right_ctx {
            None => {
                return Some(cand.value);
            },
            Some(r) => {
                if right_ctx_matches(&right_ctxs.dfas[r], rest) {
                    return Some(cand.value);
                }
            },
        }
        i += 1;
    }
    None
}

/// The number of end-of-input transitions from state `s` to the first state
/// that accepts, if there is one within `fuel` transitions.
pub open spec fn steps_to_accept(dfa: &DFA<usize>, s: usize, fuel: nat) -> Option<nat>
    decreases fuel,
{
    let state = dfa.states@[s as int];
    if state.accepting@.len() > 0 {
        Some(0)
    } else {
        match state.end_of_input_transition {
            Some(next) => if fuel > 0 {
                match steps_to_accept(dfa, next, (fuel - 1) as nat) {
                    Some(k) => Some(k + 1),
                    None => None,
                }
            } else {
                None
            },
            None => None,
        }
    }
}

/// The state that `i` end-of-input transitions lead to from state `s`, as
/// long as no state on the way accepts.
pub open spec fn state_after(dfa: &DFA<usize>, s: usize, i: nat) -> usize
    decreases i,
{
    if i == 0 {
        s
    } else {
        match dfa.states@[s as int].end_of_input_transition {
            Some(next) => state_after(dfa, next, (i - 1) as nat),
            None => s,
        }
    }
}

/// At the end of the input a right context holds exactly where a state that
/// accepts is within reach.
proof fn lemma_accepts_at_end(dfa: &DFA<usize>, s: usize, fuel: nat)
    ensures
        accepts_from(dfa, s, Seq::<char>::empty(), fuel) == steps_to_accept(dfa, s, fuel) is Some,
        steps_to_accept(dfa, s, fuel) matches Some(k) ==> k <= fuel,
    decreases fuel,
{
    let state = dfa.states@[s as int];
    if state.accepting@.len() == 0 && fuel > 0 {
        match state.end_of_input_transition {
            Some(next) => {
                lemma_accepts_at_end(dfa, next, (fuel - 1) as nat);
            },
            None => {},
        }
    }
}

/// The number of steps to the first state that accepts does not depend on
/// how many are allowed, once it is allowed.
proof fn lemma_steps_fixed(dfa: &DFA<usize>, s: usize, fuel: nat, more: nat)
    requires
        steps_to_accept(dfa, s, fuel) is Some,
        steps_to_accept(dfa, s, fuel)->0 <= more,
    ensures
        steps_to_accept(dfa, s, more) == steps_to_accept(dfa, s, fuel),
    decreases fuel,
{
    let state = dfa.states@[s as int];
    if state.accepting@.len() == 0 {
        let next = state.end_of_input_transition->0;
        lemma_steps_fixed(dfa, next, (fuel - 1) as nat, (more - 1) as nat);
    }
}

/// On the way to the first state that accepts, each state is as many steps
/// from it as are left, and is a state of the automaton.
proof fn lemma_steps_along(dfa: &DFA<usize>, s: usize, fuel: nat, i: nat)
    requires
        dfa.right_ctx_wf(),
        s < dfa.states@.len(),
        steps_to_accept(dfa, s, fuel) is Some,
        i <= steps_to_accept(dfa, s, fuel)->0,
    ensures
        state_after(dfa, s, i) < dfa.states@.len(),
        steps_to_accept(dfa, state_after(dfa, s, i), fuel) == Some(
            (steps_to_accept(dfa, s, fuel)->0 - i) as nat,
        ),
    decreases i,
{
    if i > 0 {
        let state = dfa.states@[s as int];
        let next = state.end_of_input_transition->0;
        let k = steps_to_accept(dfa, s, fuel)->0;
        assert(steps_to_accept(dfa, next, (fuel - 1) as nat) == Some((k - 1) as nat));
        lemma_steps_along(dfa, next, (fuel - 1) as nat, (i - 1) as nat);
        lemma_accepts_at_end(dfa, s, fuel);
        lemma_steps_fixed(dfa, state_after(dfa, s, i), (fuel - 1) as nat, fuel);
    }
}

/// The first state that accepts is fewer steps away than the automaton has
/// states: no state comes twice on the way to it.
proof fn lemma_steps_bound(dfa: &DFA<usize>, s: usize, fuel: nat)
    requires
        dfa.right_ctx_wf(),
        s < dfa.states@.len(),
        steps_to_accept(dfa, s, fuel) is Some,
    ensures
        steps_to_accept(dfa, s, fuel)->0 < dfa.states@.len(),
{
    let k = steps_to_accept(dfa, s, fuel)->0;
    let n = dfa.states@.len() as int;
    let way = Seq::new(k + 1, |i: int| state_after(dfa, s, i as nat) as int);
    assert forall|i: int, j: int| 0 <= i < way.len() && 0 <= j < way.len() && i != j implies way[i]
        != way[j] by {
        lemma_steps_along(dfa, s, fuel, i as nat);
        lemma_steps_along(dfa, s, fuel, j as nat);
    }
    assert(way.no_duplicates());
    way.unique_seq_to_set();
    vstd::set_lib::lemma_int_range(0, n);
    assert forall|x: int| way.to_set().contains(x) implies vstd::set_lib::set_int_range(
        0,
        n,
    ).contains(x) by {
        let i = choose|i: int| 0 <= i < way.len() && way[i] == x;
        lemma_steps_along(dfa, s, fuel, i as nat);
    }
    vstd::set_lib::lemma_len_subset(way.to_set(), vstd::set_lib::set_int_range(0, n));
}

/// The bound on the steps at the end of the input loses nothing: a right
/// context that is allowed more steps than it has states holds of the same
/// texts.
pub proof fn lemma_fuel_enough(dfa: &DFA<usize>, s: usize, rest: Seq<char>, fuel: nat)
    requires
        dfa.right_ctx_wf(),
        s < dfa.states@.len(),
        fuel >= dfa.states@.len(),
    ensures
        accepts_from(dfa, s, rest, fuel) == accepts_from(dfa, s, rest, dfa.states@.len()),
    decreases rest.len(),
{
    let state = dfa.states@[s as int];
    let n = dfa.states@.len();
    if state.accepting@.len() > 0 {
    } else if rest.len() == 0 {
        assert(rest =~= Seq::<char>::empty());
        lemma_accepts_at_end(dfa, s, fuel);
        lemma_accepts_at_end(dfa, s, n);
        if steps_to_accept(dfa, s, fuel) is Some {
            lemma_steps_bound(dfa, s, fuel);
            lemma_steps_fixed(dfa, s, fuel, n);
        } else if steps_to_accept(dfa, s, n) is Some {
            lemma_steps_fixed(dfa, s, n, fuel);
        }
    } else {
        lemma_target_in_bounds(dfa, s, rest[0]);
        match state.target(rest[0]) {
            Some(next) => {
                lemma_fuel_enough(dfa, next, rest.drop_first(), fuel);
            },
            None => {},
        }
    }
}

} // verus!
