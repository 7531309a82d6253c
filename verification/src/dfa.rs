//! The automaton data model: states, their transition tables and accepting
//! candidates, and the lookup of the transition taken on a character.

use vstd::prelude::*;

verus! {

/// One accepting candidate: a semantic action, and the right context that
/// guards it, if any. A candidate without a right context is the
/// unconditional default of its list.
#[derive(Debug, Clone, Copy, PartialEq, Eq, Structural)]
pub struct AcceptingState {
    pub value: usize,
    pub right_ctx: Option<usize>,
}

/// Where a transition of the main automaton leads: to another state, or
/// straight to acceptance with an ordered list of candidates.
#[derive(Debug, Clone)]
pub enum Trans {
    Accept(Vec<AcceptingState>),
    Trans(usize),
}

/// A transition on every character from `start` to `end`, both included.
#[derive(Debug, Clone)]
pub struct Range<T> {
    pub start: char,
    pub end: char,
    pub value: T,
}

/// A state of an automaton whose transitions lead to values of `T`.
#[derive(Debug, Clone)]
pub struct State<T> {
    pub initial: bool,
    pub char_transitions: Vec<(char, T)>,
    pub range_transitions: Vec<Range<T>>,
    pub any_transition: Option<T>,
    pub end_of_input_transition: Option<T>,
    pub accepting: Vec<AcceptingState>,
    pub predecessors: usize,
}

/// An automaton: its states, the first of which is the initial state.
#[derive(Debug, Clone)]
pub struct DFA<T> {
    pub states: Vec<State<T>>,
}

impl<T> DFA<T> {
    /// Whether in every state no character has two exact transitions, and
    /// the ranges are non-empty, in order and pairwise disjoint: whether the
    /// transition on a character does not depend on the order in which the
    /// transitions are tried.
    pub open spec fn unambiguous(&self) -> bool {
        forall|s: int|
            0 <= s < self.states@.len() ==> (#[trigger] self.states@[s]).chars_distinct()
                && self.states@[s].ranges_sorted()
    }
}

/// The index of the first entry of `ts` at or after `from` whose character is
/// `c`.
pub open spec fn first_char<T>(ts: Seq<(char, T)>, c: char, from: int) -> Option<int>
    decreases ts.len() - from,
{
    if from < 0 || from >= ts.len() {
        None
    } else if ts[from].0 == c {
        Some(from)
    } else {
        first_char(ts, c, from + 1)
    }
}

/// The index of the first range of `rs` at or after `from` that holds `c`.
pub open spec fn first_range<T>(rs: Seq<Range<T>>, c: char, from: int) -> Option<int>
    decreases rs.len() - from,
{
    if from < 0 || from >= rs.len() {
        None
    } else if rs[from].start <= c && c <= rs[from].end {
        Some(from)
    } else {
        first_range(rs, c, from + 1)
    }
}

/// Whether the candidates of `cands` are in order: no candidate follows one
/// without a right context.
pub open spec fn candidates_ordered(cands: Seq<AcceptingState>) -> bool {
    forall|i: int| 0 <= i < cands.len() - 1 ==> (#[trigger] cands[i]).right_ctx is Some
}

/// Whether every right context that `cands` names is below `n_right_ctxs`.
pub open spec fn candidates_in_bounds(cands: Seq<AcceptingState>, n_right_ctxs: nat) -> bool {
    forall|i: int|
        0 <= i < cands.len() ==> ((#[trigger] cands[i]).right_ctx matches Some(r) ==> r
            < n_right_ctxs)
}

/// What `first_char` finds is an entry for `c` from `from` on.
pub proof fn lemma_first_char<T>(ts: Seq<(char, T)>, c: char, from: int)
    requires
        0 <= from,
    ensures
        match first_char(ts, c, from) {
            Some(i) => {
                &&& from <= i < ts.len()
                &&& ts[i].0 == c
                &&& forall|j: int| from <= j < i ==> (#[trigger] ts[j]).0 != c
            },
            None => forall|j: int| from <= j < ts.len() ==> (#[trigger] ts[j]).0 != c,
        },
    decreases ts.len() - from,
{
    if from < ts.len() && ts[from].0 != c {
        lemma_first_char(ts, c, from + 1);
    }
}

/// What `first_range` finds is a range that holds `c`, from `from` on.
pub proof fn lemma_first_range<T>(rs: Seq<Range<T>>, c: char, from: int)
    requires
        0 <= from,
    ensures
        match first_range(rs, c, from) {
            Some(i) => {
                &&& from <= i < rs.len()
                &&& rs[i].start <= c && c <= rs[i].end
                &&& forall|j: int|
                    from <= j < i ==> !((#[trigger] rs[j]).start <= c && c <= rs[j].end)
            },
            None => forall|j: int|
                from <= j < rs.len() ==> !((#[trigger] rs[j]).start <= c && c <= rs[j].end),
        },
    decreases rs.len() - from,
{
    if from < rs.len() && !(rs[from].start <= c && c <= rs[from].end) {
        lemma_first_range(rs, c, from + 1);
    }
}

impl Trans {
    /// Whether the target is a state below `n_states`, or a list of candidates
    /// whose right contexts are below `n_right_ctxs`.
    pub open spec fn in_bounds(&self, n_states: nat, n_right_ctxs: nat) -> bool {
        match self {
            Trans::Trans(next) => *next < n_states,
            Trans::Accept(cands) => candidates_in_bounds(cands@, n_right_ctxs),
        }
    }
}

impl<T> State<T> {
    /// The transition taken on `c`: the one for exactly `c` if there is one,
    /// else that of the first range that holds `c`, else the wildcard's.
    pub open spec fn target(&self, c: char) -> Option<T> {
        match first_char(self.char_transitions@, c, 0) {
            Some(i) => Some(self.char_transitions@[i].1),
            None => match first_range(self.range_transitions@, c, 0) {
                Some(i) => Some(self.range_transitions@[i].value),
                None => self.any_transition,
            },
        }
    }

    /// Whether no character has two exact transitions.
    pub open spec fn chars_distinct(&self) -> bool {
        forall|i: int, j: int|
            0 <= i < j < self.char_transitions@.len() ==> (#[trigger] self.char_transitions@[i]).0
                != (#[trigger] self.char_transitions@[j]).0
    }

    /// Whether the ranges are non-empty, ordered by their start and pairwise
    /// disjoint.
    pub open spec fn ranges_sorted(&self) -> bool {
        &&& forall|i: int|
            0 <= i < self.range_transitions@.len() ==> (#[trigger] self.range_transitions@[i]).start
                <= self.range_transitions@[i].end
        &&& forall|i: int, j: int|
            0 <= i < j < self.range_transitions@.len() ==> (#[trigger] self.range_transitions@[i]).end
                < (#[trigger] self.range_transitions@[j]).start
    }

    /// The index of the exact transition on `c`, if there is one.
    pub fn find_char(&self, c: char) -> (found: Option<usize>)
        ensures
            found is Some <==> first_char(self.char_transitions@, c, 0) is Some,
            found matches Some(i) ==> first_char(self.char_transitions@, c, 0) == Some(i as int)
                && i < self.char_transitions@.len() && self.char_transitions@[i as int].0 == c,
    {
        let mut i: usize = 0;
        while i < self.char_transitions.len()
            invariant
                i <= self.char_transitions@.len(),
                first_char(self.char_transitions@, c, 0) == first_char(
                    self.char_transitions@,
                    c,
                    i as int,
                ),
            decreases self.char_transitions@.len() - i,
        {
            if self.char_transitions[i].0 == c {
                return Some(i);
            }
            i += 1;
        }
        None
    }

    /// The index of the first range that holds `c`, if there is one.
    pub fn find_range(&self, c: char) -> (found: Option<usize>)
        ensures
            found is Some <==> first_range(self.range_transitions@, c, 0) is Some,
            found matches Some(i) ==> first_range(self.range_transitions@, c, 0) == Some(i as int)
                && i < self.range_transitions@.len() && self.range_transitions@[i as int].start
                <= c && c <= self.range_transitions@[i as int].end,
    {
        let mut i: usize = 0;
        while i < self.range_transitions.len()
            invariant
                i <= self.range_transitions@.len(),
                first_range(self.range_transitions@, c, 0) == first_range(
                    self.range_transitions@,
                    c,
                    i as int,
                ),
            decreases self.range_transitions@.len() - i,
        {
            if self.range_transitions[i].start <= c && c <= self.range_transitions[i].end {
                return Some(i);
            }
            i += 1;
        }
        None
    }

    /// The transition taken on `c`: exact character first, then range, then
    /// wildcard.
    pub fn lookup(&self, c: char) -> (found: Option<&T>)
        ensures
            found is Some <==> self.target(c) is Some,
            found matches Some(t) ==> self.target(c) == Some(*t),
    {
        match self.find_char(c) {
            Some(i) => Some(&self.char_transitions[i].1),
            None => match self.find_range(c) {
                Some(i) => Some(&self.range_transitions[i].value),
                None => self.any_transition.as_ref(),
            },
        }
    }
}

} // verus!
