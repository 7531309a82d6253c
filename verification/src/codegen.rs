//! The compilation of an automaton into a dispatch program: dense labels for
//! the states that keep an arm, the splicing of single-predecessor states
//! into the arms that lead to them, merged guards, and search tables for the
//! guards that would be too long.

use crate::dfa::{candidates_ordered, AcceptingState, Range, State, Trans, DFA};
use crate::dispatch::{
    right_ctx_char_arm_views, Arm, ArmView, Candidates, CandidatesView, CharArm, CharArmView, Code,
    CodeView, Guard, GuardView, Otherwise, Program, RangeTest, RightCtxArm, RightCtxArmView,
    RightCtxCode,
};
use crate::dispatch::run;
use crate::engine::scan;
use crate::equivalence::{lemma_program_equivalent, lemma_reified, relabel, rests};
use crate::lexer::Session;
use crate::grouping::{
    collect_members, collect_unled, groups, is_seen_before, lemma_members_sorted,
    lemma_unled_sorted, members, sorted_items, unled,
};
use crate::right_ctx::RightCtxDFAs;
use crate::right_ctx_codegen::{generate_right_ctx_fns, right_ctx_fns_of};
use crate::search_table::{sorted_ranges, MAX_GUARD_SIZE};
use vstd::prelude::*;

verus! {

/// The guarded candidates of `cands` from `from` on, up to the first
/// candidate without a right context: each as its right context and its
/// semantic action.
pub open spec fn guarded_prefix(cands: Seq<AcceptingState>, from: int) -> Seq<(usize, usize)>
    decreases cands.len() - from,
{
    if from < 0 || from >= cands.len() {
        Seq::empty()
    } else {
        match cands[from].right_ctx {
            Some(r) => seq![(r, cands[from].value)] + guarded_prefix(cands, from + 1),
            None => Seq::empty(),
        }
    }
}

/// The semantic action of the first candidate of `cands` from `from` on that
/// has no right context.
pub open spec fn first_default(cands: Seq<AcceptingState>, from: int) -> Option<usize>
    decreases cands.len() - from,
{
    if from < 0 || from >= cands.len() {
        None
    } else {
        match cands[from].right_ctx {
            Some(_) => first_default(cands, from + 1),
            None => Some(cands[from].value),
        }
    }
}

/// The ordered choice that a list of candidates stands for: its guarded
/// candidates up to the first one without a guard, and that one as the
/// default. What follows the default can never be chosen and is left out.
pub open spec fn candidates_of(cands: Seq<AcceptingState>) -> CandidatesView {
    CandidatesView { alts: guarded_prefix(cands, 0), default: first_default(cands, 0) }
}

/// Where the candidates are in order, with the one without a right context
/// last, the ordered choice leaves none of them out.
pub proof fn lemma_candidates_complete(cands: Seq<AcceptingState>, from: int)
    requires
        0 <= from <= cands.len(),
        candidates_ordered(cands),
    ensures
        guarded_prefix(cands, from).len() + (if first_default(cands, from) is Some {
            1int
        } else {
            0int
        }) == cands.len() - from,
    decreases cands.len() - from,
{
    if from < cands.len() {
        if cands[from].right_ctx is Some {
            lemma_candidates_complete(cands, from + 1);
        } else {
            assert(from == cands.len() - 1);
        }
    }
}

/// The choice without any candidate.
pub open spec fn no_candidates() -> CandidatesView {
    CandidatesView { alts: Seq::empty(), default: None }
}

/// The ordered choice that `cands` stands for.
pub fn candidates(cands: &Vec<AcceptingState>) -> (choice: Candidates)
    ensures
        choice@ == candidates_of(cands@),
{
    let mut alts: Vec<(usize, usize)> = Vec::new();
    let mut i: usize = 0;
    while i < cands.len()
        invariant
            i <= cands@.len(),
            guarded_prefix(cands@, 0) == alts@ + guarded_prefix(cands@, i as int),
            first_default(cands@, 0) == first_default(cands@, i as int),
        decreases cands@.len() - i,
    {
        let cand = &cands[i];
        match cand.right_ctx {
            Some(r) => {
                assert(alts@.push((r, cand.value)) + guarded_prefix(cands@, i + 1) =~= alts@ + (
                seq![(r, cand.value)] + guarded_prefix(cands@, i + 1)));
                alts.push((r, cand.value));
            },
            None => {
                assert(alts@ + Seq::<(usize, usize)>::empty() =~= alts@);
                return Candidates { alts, default: Some(cand.value) };
            },
        }
        i += 1;
    }
    assert(alts@ + Seq::<(usize, usize)>::empty() =~= alts@);
    Candidates { alts, default: None }
}

/// The code that runs the semantic action chosen among `accepting_states`:
/// the right contexts are tried in order, and the first that holds decides;
/// the candidate without a right context is the default. Where none can be
/// chosen, `otherwise` follows.
pub fn test_right_ctxs(accepting_states: &Vec<AcceptingState>, otherwise: Otherwise) -> (code: Code)
    ensures
        code@ == CodeView::Select(candidates_of(accepting_states@), otherwise),
{
    Code::Select(candidates(accepting_states), otherwise)
}

/// The test of a character against the range from `range_start` to
/// `range_end`: an equality where the range is one character.
pub open spec fn range_test(range_start: char, range_end: char) -> RangeTest {
    if range_start == range_end {
        RangeTest::Is(range_start)
    } else {
        RangeTest::Within(range_start, range_end)
    }
}

/// The test of a character against the range from `range_start` to
/// `range_end`, both included.
pub fn inclusive_range_contains(range_start: char, range_end: char) -> (test: RangeTest)
    ensures
        test == range_test(range_start, range_end),
        forall|c: char| test.holds(c) <==> (range_start <= c && c <= range_end),
{
    if range_start == range_end {
        RangeTest::Is(range_start)
    } else {
        RangeTest::Within(range_start, range_end)
    }
}

impl DFA<Trans> {
    /// The label of state `s` in the dispatch program: the number of states
    /// before `s` that keep an arm. The states that keep an arm so get the
    /// labels from zero on, without a gap, in their order.
    pub open spec fn label(&self, s: int) -> nat
        decreases s,
    {
        if s <= 0 {
            0
        } else {
            self.label(s - 1) + if self.inlined((s - 1) as usize) { 0nat } else { 1nat }
        }
    }
}

/// A label is at most the number of the state.
pub proof fn lemma_label_bound(dfa: &DFA<Trans>, s: int)
    requires
        0 <= s,
    ensures
        dfa.label(s) <= s,
    decreases s,
{
    if s > 0 {
        lemma_label_bound(dfa, s - 1);
    }
}

/// Labels grow with the states.
pub proof fn lemma_label_monotone(dfa: &DFA<Trans>, s: int, t: int)
    requires
        0 <= s <= t,
    ensures
        dfa.label(s) <= dfa.label(t),
    decreases t - s,
{
    if s < t {
        lemma_label_monotone(dfa, s, t - 1);
    }
}

/// The labels of the states of `dfa`, by state.
pub fn renumber_states(dfa: &DFA<Trans>) -> (labels: Vec<usize>)
    ensures
        labels@.len() == dfa.states@.len(),
        forall|s: int| 0 <= s < labels@.len() ==> #[trigger] labels@[s] == dfa.label(s),
{
    let mut labels: Vec<usize> = Vec::new();
    let mut next: usize = 0;
    let mut s: usize = 0;
    while s < dfa.states.len()
        invariant
            s <= dfa.states@.len(),
            labels@.len() == s,
            next == dfa.label(s as int),
            forall|t: int| 0 <= t < s ==> #[trigger] labels@[t] == dfa.label(t),
        decreases dfa.states@.len() - s,
    {
        proof {
            lemma_label_bound(dfa, s as int);
        }
        labels.push(next);
        let state = &dfa.states[s];
        if !(state.predecessors == 1 && !state.initial) {
            next += 1;
        }
        s += 1;
    }
    labels
}

impl Trans {
    /// The state that the transition leads to, if it leads to one.
    pub open spec fn goto_of(&self) -> Option<usize> {
        match self {
            Trans::Trans(next) => Some(*next),
            Trans::Accept(_) => None,
        }
    }
}

impl DFA<Trans> {
    /// Whether the automaton has a state and every transition that leads to
    /// a state leads to one of its states.
    pub open spec fn targets_in_bounds(&self) -> bool {
        let n = self.states@.len();
        &&& n > 0
        &&& forall|s: int, i: int|
            0 <= s < n && 0 <= i < self.states@[s].char_transitions@.len() ==> (
            (#[trigger] self.states@[s].char_transitions@[i]).1.goto_of() matches Some(t) ==> t < n)
        &&& forall|s: int, i: int|
            0 <= s < n && 0 <= i < self.states@[s].range_transitions@.len() ==> (
            (#[trigger] self.states@[s].range_transitions@[i]).value.goto_of() matches Some(t) ==> t
                < n)
        &&& forall|s: int|
            0 <= s < n ==> ((#[trigger] self.states@[s]).any_transition matches Some(
                Trans::Trans(t),
            ) ==> t < n)
        &&& forall|s: int|
            0 <= s < n ==> ((#[trigger] self.states@[s]).end_of_input_transition matches Some(
                Trans::Trans(t),
            ) ==> t < n)
    }
}

/// The exact transitions of a state, each as its character and the state it
/// leads to, if it leads to one.
pub open spec fn char_items(ts: Seq<(char, Trans)>) -> Seq<(char, Option<usize>)> {
    Seq::new(ts.len(), |i: int| (ts[i].0, ts[i].1.goto_of()))
}

/// The range transitions of a state, each as its range and the state it
/// leads to, if it leads to one.
pub open spec fn range_items(rs: Seq<Range<Trans>>) -> Seq<((char, char), Option<usize>)> {
    Seq::new(rs.len(), |i: int| ((rs[i].start, rs[i].end), rs[i].value.goto_of()))
}

/// The guard for the ranges `keys`: a search table where there are more than
/// `MAX_GUARD_SIZE` of them, else one test for each.
pub open spec fn ranges_guard(keys: Seq<(char, char)>) -> GuardView {
    if keys.len() > MAX_GUARD_SIZE {
        GuardView::Search(keys)
    } else {
        GuardView::Ranges(Seq::new(keys.len(), |i: int| range_test(keys[i].0, keys[i].1)))
    }
}

/// One guard for each group: the characters of the group.
pub open spec fn char_guards(gs: Seq<(usize, Seq<char>)>) -> Seq<(usize, GuardView)> {
    Seq::new(gs.len(), |a: int| (gs[a].0, GuardView::Chars(gs[a].1)))
}

/// One guard for each group: the ranges of the group.
pub open spec fn range_guards(gs: Seq<(usize, Seq<(char, char)>)>) -> Seq<(usize, GuardView)> {
    Seq::new(gs.len(), |a: int| (gs[a].0, ranges_guard(gs[a].1)))
}

/// The exact transitions of a state, each as the guard for its character and
/// what it leads to.
pub open spec fn char_entries(ts: Seq<(char, Trans)>) -> Seq<(GuardView, Trans)> {
    Seq::new(ts.len(), |i: int| (GuardView::Chars(seq![ts[i].0]), ts[i].1))
}

/// The range transitions of a state, each as the guard for its range and
/// what it leads to.
pub open spec fn range_entries(rs: Seq<Range<Trans>>) -> Seq<(GuardView, Trans)> {
    Seq::new(
        rs.len(),
        |i: int| (GuardView::Ranges(seq![range_test(rs[i].start, rs[i].end)]), rs[i].value),
    )
}

/// The alternatives for the transitions from `from` on that accept: one for
/// each, which runs the chosen semantic action, or does what the arm does by
/// default where none can be chosen.
pub open spec fn accept_arms(entries: Seq<(GuardView, Trans)>, from: int) -> Seq<
    CharArmView<CodeView>,
>
    decreases entries.len() - from,
{
    if from < 0 || from >= entries.len() {
        Seq::empty()
    } else {
        match entries[from].1 {
            Trans::Accept(cands) => seq![
                CharArmView {
                    guard: entries[from].0,
                    code: CodeView::Select(candidates_of(cands@), Otherwise::Default),
                },
            ] + accept_arms(entries, from + 1),
            Trans::Trans(_) => accept_arms(entries, from + 1),
        }
    }
}

/// The code for going to state `next`: the arm of `next` itself where `next`
/// is spliced in, else a jump to its label. Splicing nests at most `fuel`
/// deep; there is no code where that is not enough.
pub open spec fn target_code(dfa: &DFA<Trans>, next: usize, fuel: nat) -> Option<CodeView>
    decreases fuel, 0nat, 0nat,
{
    if dfa.inlined(next) {
        if fuel == 0 {
            None
        } else {
            match state_arm(dfa, next, (fuel - 1) as nat) {
                Some(arm) => Some(CodeView::Inline(Box::new(arm))),
                None => None,
            }
        }
    } else {
        Some(CodeView::Goto(dfa.label(next as int) as usize))
    }
}

/// The alternatives for the groups `gs`: for each group, in order, its guard
/// and the code for going to its state.
pub open spec fn goto_arms(dfa: &DFA<Trans>, gs: Seq<(usize, GuardView)>, fuel: nat) -> Option<
    Seq<CharArmView<CodeView>>,
>
    decreases fuel, 1nat, gs.len(),
{
    if gs.len() == 0 {
        Some(Seq::empty())
    } else {
        match (target_code(dfa, gs[0].0, fuel), goto_arms(dfa, gs.drop_first(), fuel)) {
            (Some(code), Some(rest)) => Some(seq![CharArmView { guard: gs[0].1, code }] + rest),
            _ => None,
        }
    }
}

/// The alternatives of the arm of `state`, in the order in which they are
/// tried: the exact transitions that accept, one by one; the exact
/// transitions that lead on, merged by the state they lead to; the ranges
/// that accept, one by one; the ranges that lead on, merged by state.
pub open spec fn state_char_arms(dfa: &DFA<Trans>, state: State<Trans>, fuel: nat) -> Option<
    Seq<CharArmView<CodeView>>,
>
    decreases fuel, 2nat, 0nat,
{
    match (
        goto_arms(dfa, char_guards(groups(char_items(state.char_transitions@), 0)), fuel),
        goto_arms(dfa, range_guards(groups(range_items(state.range_transitions@), 0)), fuel),
    ) {
        (Some(chars), Some(ranges)) => Some(
            accept_arms(char_entries(state.char_transitions@), 0) + chars + accept_arms(
                range_entries(state.range_transitions@),
                0,
            ) + ranges,
        ),
        _ => None,
    }
}

/// The code of the wildcard transition `trans`.
pub open spec fn any_transition_code(dfa: &DFA<Trans>, trans: Trans, fuel: nat) -> Option<CodeView>
    decreases fuel, 2nat, 0nat,
{
    match trans {
        Trans::Trans(next) => target_code(dfa, next, fuel),
        Trans::Accept(cands) => Some(CodeView::Select(candidates_of(cands@), Otherwise::Fail)),
    }
}

/// What the arm of state `s` does at the end of the input.
pub open spec fn end_code(dfa: &DFA<Trans>, s: usize) -> CodeView {
    match dfa.states@[s as int].end_of_input_transition {
        Some(Trans::Trans(next)) => CodeView::Goto(dfa.label(next as int) as usize),
        Some(Trans::Accept(cands)) => CodeView::Select(
            candidates_of(cands@),
            if s == 0 { Otherwise::Finish } else { Otherwise::Fail },
        ),
        None => if s == 0 { CodeView::Finish } else { CodeView::Fail },
    }
}

/// The arm of state `s`, with splicing nested at most `fuel` deep. State 0
/// starts a new match on entry and remembers nothing; every other state
/// remembers the candidate chosen among its own.
pub open spec fn state_arm(dfa: &DFA<Trans>, s: usize, fuel: nat) -> Option<ArmView>
    decreases fuel, 3nat, 0nat,
{
    let state = dfa.states@[s as int];
    let default = match state.any_transition {
        Some(trans) => any_transition_code(dfa, trans, fuel),
        None => Some(CodeView::Fail),
    };
    match (default, state_char_arms(dfa, state, fuel)) {
        (Some(default), Some(char_arms)) => Some(
            ArmView {
                reset_match: s == 0,
                remember: if s == 0 { no_candidates() } else { candidates_of(state.accepting@) },
                on_end: end_code(dfa, s),
                char_arms,
                default,
            },
        ),
        _ => None,
    }
}

/// The views of alternatives.
pub open spec fn char_arm_views(arms: Seq<CharArm<Code>>) -> Seq<CharArmView<CodeView>> {
    Seq::new(arms.len(), |i: int| arms[i].view())
}

/// Whether `labels` holds the label of each state of `dfa`.
pub open spec fn labels_of(dfa: &DFA<Trans>, labels: Seq<usize>) -> bool {
    &&& labels.len() == dfa.states@.len()
    &&& forall|s: int| 0 <= s < labels.len() ==> #[trigger] labels[s] == dfa.label(s)
}

/// The code for going to state `next`.
fn generate_target(dfa: &DFA<Trans>, labels: &Vec<usize>, next: usize, fuel: usize) -> (code: Option<
    Code,
>)
    requires
        dfa.targets_in_bounds(),
        labels_of(dfa, labels@),
        next < dfa.states@.len(),
    ensures
        code is Some <==> target_code(dfa, next, fuel as nat) is Some,
        code matches Some(c) ==> Some(c@) == target_code(dfa, next, fuel as nat),
        dfa.unambiguous() ==> (code matches Some(c) ==> c.wf()),
    decreases fuel, 0nat, 0nat,
{
    let target = &dfa.states[next];
    if target.predecessors == 1 && !target.initial {
        if fuel == 0 {
            None
        } else {
            match generate_state_arm(dfa, labels, next, fuel - 1) {
                Some(arm) => Some(Code::Inline(Box::new(arm))),
                None => None,
            }
        }
    } else {
        Some(Code::Goto(labels[next]))
    }
}

/// The code of the wildcard transition `trans`: the code for going to its
/// state, or the choice among its candidates, where the match fails if none
/// can be chosen.
pub fn generate_any_transition(
    dfa: &DFA<Trans>,
    labels: &Vec<usize>,
    trans: &Trans,
    fuel: usize,
) -> (code: Option<Code>)
    requires
        dfa.targets_in_bounds(),
        labels_of(dfa, labels@),
        trans matches Trans::Trans(next) ==> next < dfa.states@.len(),
    ensures
        code is Some <==> any_transition_code(dfa, *trans, fuel as nat) is Some,
        code matches Some(c) ==> Some(c@) == any_transition_code(dfa, *trans, fuel as nat),
        dfa.unambiguous() ==> (code matches Some(c) ==> c.wf()),
    decreases fuel, 2nat, 0nat,
{
    match trans {
        Trans::Trans(next) => generate_target(dfa, labels, *next, fuel),
        Trans::Accept(accepting_states) => Some(test_right_ctxs(accepting_states, Otherwise::Fail)),
    }
}

/// The guard for the ranges `keys`.
pub(crate) fn generate_ranges_guard(keys: Vec<(char, char)>) -> (guard: Guard)
    ensures
        guard@ == ranges_guard(keys@),
        sorted_ranges(keys@) ==> guard.wf(),
{
    if keys.len() > MAX_GUARD_SIZE {
        Guard::Search(keys)
    } else {
        let mut tests: Vec<RangeTest> = Vec::new();
        let mut i: usize = 0;
        while i < keys.len()
            invariant
                i <= keys@.len(),
                tests@.len() == i,
                forall|j: int|
                    0 <= j < i ==> #[trigger] tests@[j] == range_test(keys@[j].0, keys@[j].1),
            decreases keys@.len() - i,
        {
            tests.push(inclusive_range_contains(keys[i].0, keys[i].1));
            i += 1;
        }
        assert(tests@ =~= Seq::new(keys@.len(), |i: int| range_test(keys@[i].0, keys@[i].1)));
        Guard::Ranges(tests)
    }
}

/// Whether every guard in the alternatives can be tested.
pub open spec fn alternatives_wf(arms: Seq<CharArm<Code>>) -> bool {
    forall|i: int| 0 <= i < arms.len() ==> (#[trigger] arms[i]).guard.wf() && arms[i].code.wf()
}

/// The alternatives of the arm of state `s`, in the order in which they are
/// tried.
pub fn generate_state_char_arms(
    dfa: &DFA<Trans>,
    labels: &Vec<usize>,
    s: usize,
    fuel: usize,
) -> (arms: Option<Vec<CharArm<Code>>>)
    requires
        dfa.targets_in_bounds(),
        labels_of(dfa, labels@),
        s < dfa.states@.len(),
    ensures
        arms is Some <==> state_char_arms(dfa, dfa.states@[s as int], fuel as nat) is Some,
        arms matches Some(a) ==> Some(char_arm_views(a@)) == state_char_arms(
            dfa,
            dfa.states@[s as int],
            fuel as nat,
        ),
        dfa.unambiguous() ==> (arms matches Some(a) ==> alternatives_wf(a@)),
    decreases fuel, 2nat, 0nat,
{
    let state = &dfa.states[s];
    let ghost ts = state.char_transitions@;
    let ghost rs = state.range_transitions@;
    let mut arms: Vec<CharArm<Code>> = Vec::new();
    assert(char_arm_views(arms@) =~= Seq::empty());

    // The exact transitions that accept, then those that lead on.
    let mut items: Vec<(char, Option<usize>)> = Vec::new();
    let mut i: usize = 0;
    while i < state.char_transitions.len()
        invariant
            ts == state.char_transitions@,
            i <= ts.len(),
            items@ =~= char_items(ts).take(i as int),
            alternatives_wf(arms@),
            accept_arms(char_entries(ts), 0) == char_arm_views(arms@) + accept_arms(
                char_entries(ts),
                i as int,
            ),
        decreases ts.len() - i,
    {
        let entry = &state.char_transitions[i];
        match &entry.1 {
            Trans::Accept(cands) => {
                let mut chars: Vec<char> = Vec::new();
                chars.push(entry.0);
                let arm = CharArm {
                    guard: Guard::Chars(chars),
                    code: test_right_ctxs(cands, Otherwise::Default),
                };
                let ghost before = arms@;
                assert(chars@ =~= seq![entry.0]);
                arms.push(arm);
                assert(char_arm_views(arms@) =~= char_arm_views(before).push(arm.view()));
                assert(char_arm_views(before).push(arm.view()) + accept_arms(
                    char_entries(ts),
                    i + 1,
                ) =~= char_arm_views(before) + (seq![arm.view()] + accept_arms(
                    char_entries(ts),
                    i + 1,
                )));
                items.push((entry.0, None));
            },
            Trans::Trans(next) => {
                items.push((entry.0, Some(*next)));
            },
        }
        i += 1;
    }
    assert(items@ =~= char_items(ts));
    assert(char_arm_views(arms@) + Seq::<CharArmView<CodeView>>::empty() =~= char_arm_views(arms@));
    let ghost accept_chars = char_arm_views(arms@);

    let mut i: usize = 0;
    let ghost mut done: Seq<CharArmView<CodeView>> = Seq::empty();
    while i < items.len()
        invariant
            dfa.targets_in_bounds(),
            labels_of(dfa, labels@),
            s < dfa.states@.len(),
            ts == dfa.states@[s as int].char_transitions@,
            items@ == char_items(ts),
            i <= items@.len(),
            dfa.unambiguous() ==> alternatives_wf(arms@),
            char_arm_views(arms@) == accept_chars + done,
            goto_arms(dfa, char_guards(groups(items@, 0)), fuel as nat) == (match goto_arms(
                dfa,
                char_guards(groups(items@, i as int)),
                fuel as nat,
            ) {
                Some(rest) => Some(done + rest),
                None => None,
            }),
        decreases items@.len() - i,
    {
        match items[i].1 {
            Some(n) => {
                if !is_seen_before(&items, n, i) {
                    assert(ts[i as int].1.goto_of() == Some(n));
                    proof {
                        let here = char_guards(groups(items@, i as int));
                        let next = char_guards(groups(items@, i + 1));
                        assert(here =~= seq![(n, GuardView::Chars(members(items@, n, i as int)))]
                            + next);
                        assert(here.drop_first() =~= next);
                    }
                    match generate_target(dfa, labels, n, fuel) {
                        Some(code) => {
                            let keys = collect_members(&items, n, i);
                            let arm = CharArm { guard: Guard::Chars(keys), code };
                            let ghost before = arms@;
                            arms.push(arm);
                            proof {
                                assert(char_arm_views(arms@) =~= char_arm_views(before).push(
                                    arm.view(),
                                ));
                                let rest = goto_arms(
                                    dfa,
                                    char_guards(groups(items@, i + 1)),
                                    fuel as nat,
                                );
                                if rest is Some {
                                    assert(done.push(arm.view()) + rest->0 =~= done + (
                                    seq![arm.view()] + rest->0));
                                }
                                assert(accept_chars + done.push(arm.view()) =~= (accept_chars
                                    + done).push(arm.view()));
                                done = done.push(arm.view());
                            }
                        },
                        None => {
                            return None;
                        },
                    }
                }
            },
            None => {},
        }
        i += 1;
    }
    assert(done + Seq::<CharArmView<CodeView>>::empty() =~= done);
    let ghost goto_chars = done;

    // The ranges that accept, then those that lead on.
    let mut items: Vec<((char, char), Option<usize>)> = Vec::new();
    let mut i: usize = 0;
    let ghost mut done: Seq<CharArmView<CodeView>> = Seq::empty();
    while i < state.range_transitions.len()
        invariant
            rs == state.range_transitions@,
            i <= rs.len(),
            items@ =~= range_items(rs).take(i as int),
            dfa.unambiguous() ==> alternatives_wf(arms@),
            char_arm_views(arms@) == accept_chars + goto_chars + done,
            accept_arms(range_entries(rs), 0) == done + accept_arms(range_entries(rs), i as int),
        decreases rs.len() - i,
    {
        let range = &state.range_transitions[i];
        match &range.value {
            Trans::Accept(cands) => {
                let mut tests: Vec<RangeTest> = Vec::new();
                tests.push(inclusive_range_contains(range.start, range.end));
                let arm = CharArm {
                    guard: Guard::Ranges(tests),
                    code: test_right_ctxs(cands, Otherwise::Default),
                };
                let ghost before = arms@;
                assert(tests@ =~= seq![range_test(range.start, range.end)]);
                arms.push(arm);
                proof {
                    assert(char_arm_views(arms@) =~= char_arm_views(before).push(arm.view()));
                    assert(done.push(arm.view()) + accept_arms(range_entries(rs), i + 1) =~= done
                        + (seq![arm.view()] + accept_arms(range_entries(rs), i + 1)));
                    assert(accept_chars + goto_chars + done.push(arm.view()) =~= (accept_chars
                        + goto_chars + done).push(arm.view()));
                    done = done.push(arm.view());
                }
                items.push(((range.start, range.end), None));
            },
            Trans::Trans(next) => {
                items.push(((range.start, range.end), Some(*next)));
            },
        }
        i += 1;
    }
    assert(items@ =~= range_items(rs));
    assert(done + Seq::<CharArmView<CodeView>>::empty() =~= done);
    let ghost accept_ranges = done;

    let mut i: usize = 0;
    let ghost mut done: Seq<CharArmView<CodeView>> = Seq::empty();
    assert(accept_chars + goto_chars + accept_ranges + done =~= accept_chars + goto_chars
        + accept_ranges);
    while i < items.len()
        invariant
            dfa.targets_in_bounds(),
            labels_of(dfa, labels@),
            s < dfa.states@.len(),
            rs == dfa.states@[s as int].range_transitions@,
            items@ == range_items(rs),
            i <= items@.len(),
            dfa.unambiguous() ==> alternatives_wf(arms@),
            char_arm_views(arms@) == accept_chars + goto_chars + accept_ranges + done,
            goto_arms(dfa, range_guards(groups(items@, 0)), fuel as nat) == (match goto_arms(
                dfa,
                range_guards(groups(items@, i as int)),
                fuel as nat,
            ) {
                Some(rest) => Some(done + rest),
                None => None,
            }),
        decreases items@.len() - i,
    {
        match items[i].1 {
            Some(n) => {
                if !is_seen_before(&items, n, i) {
                    assert(rs[i as int].value.goto_of() == Some(n));
                    proof {
                        let here = range_guards(groups(items@, i as int));
                        let next = range_guards(groups(items@, i + 1));
                        assert(here =~= seq![(n, ranges_guard(members(items@, n, i as int)))]
                            + next);
                        assert(here.drop_first() =~= next);
                    }
                    match generate_target(dfa, labels, n, fuel) {
                        Some(code) => {
                            let keys = collect_members(&items, n, i);
                            proof {
                                if dfa.unambiguous() {
                                    assert(dfa.states@[s as int].ranges_sorted());
                                    assert(sorted_items(items@));
                                    lemma_members_sorted(items@, n, i as int);
                                }
                            }
                            let arm = CharArm { guard: generate_ranges_guard(keys), code };
                            let ghost before = arms@;
                            arms.push(arm);
                            proof {
                                assert(char_arm_views(arms@) =~= char_arm_views(before).push(
                                    arm.view(),
                                ));
                                let rest = goto_arms(
                                    dfa,
                                    range_guards(groups(items@, i + 1)),
                                    fuel as nat,
                                );
                                if rest is Some {
                                    assert(done.push(arm.view()) + rest->0 =~= done + (
                                    seq![arm.view()] + rest->0));
                                }
                                assert(accept_chars + goto_chars + accept_ranges + done.push(
                                    arm.view(),
                                ) =~= (accept_chars + goto_chars + accept_ranges + done).push(
                                    arm.view(),
                                ));
                                done = done.push(arm.view());
                            }
                        },
                        None => {
                            return None;
                        },
                    }
                }
            },
            None => {},
        }
        i += 1;
    }
    assert(done + Seq::<CharArmView<CodeView>>::empty() =~= done);
    Some(arms)
}

/// The arm of state `s`: what it does on entry, at the end of the input, on
/// each character that a transition is for, and on every other character.
/// The states with a single predecessor that `s` leads to are spliced in, at
/// most `fuel` deep; there is no arm where that is not enough.
pub fn generate_state_arm(dfa: &DFA<Trans>, labels: &Vec<usize>, s: usize, fuel: usize) -> (arm:
    Option<Arm>)
    requires
        dfa.targets_in_bounds(),
        labels_of(dfa, labels@),
        s < dfa.states@.len(),
    ensures
        arm is Some <==> state_arm(dfa, s, fuel as nat) is Some,
        arm matches Some(a) ==> Some(a@) == state_arm(dfa, s, fuel as nat),
        dfa.unambiguous() ==> (arm matches Some(a) ==> a.wf()),
    decreases fuel, 3nat, 0nat,
{
    let state = &dfa.states[s];
    let default = match &state.any_transition {
        Some(trans) => match generate_any_transition(dfa, labels, trans, fuel) {
            Some(code) => code,
            None => {
                return None;
            },
        },
        None => Code::Fail,
    };
    let char_arms = match generate_state_char_arms(dfa, labels, s, fuel) {
        Some(arms) => arms,
        None => {
            return None;
        },
    };
    let end_otherwise = if s == 0 { Otherwise::Finish } else { Otherwise::Fail };
    let on_end = match &state.end_of_input_transition {
        Some(Trans::Trans(next)) => Code::Goto(labels[*next]),
        Some(Trans::Accept(accepting_states)) => test_right_ctxs(accepting_states, end_otherwise),
        None => if s == 0 { Code::Finish } else { Code::Fail },
    };
    let remember = if s == 0 {
        Candidates { alts: Vec::new(), default: None }
    } else {
        candidates(&state.accepting)
    };
    let arm = Arm { reset_match: s == 0, remember, on_end, char_arms, default };
    assert(arm@.char_arms =~= char_arm_views(char_arms@));
    Some(arm)
}

/// Whether every state of `dfa` that keeps a label has an arm with splicing
/// nested no deeper than the automaton has states.
pub open spec fn arms_exist(dfa: &DFA<Trans>) -> bool {
    forall|s: int|
        0 <= s < dfa.states@.len() && !dfa.inlined(s as usize) ==> (#[trigger] state_arm(
            dfa,
            s as usize,
            dfa.states@.len(),
        )) is Some
}

/// Whether `arms` are the arms of the states of `dfa` that keep a label,
/// each at its label.
pub open spec fn arms_of(dfa: &DFA<Trans>, arms: Seq<Arm>) -> bool {
    &&& arms.len() == dfa.label(dfa.states@.len() as int)
    &&& forall|s: int|
        0 <= s < dfa.states@.len() && !dfa.inlined(s as usize) ==> dfa.label(s) < arms.len()
            && Some(arms[dfa.label(s) as int]@) == #[trigger] state_arm(
            dfa,
            s as usize,
            dfa.states@.len(),
        )
}

/// The arms of the dispatch program of `dfa`: one for each state that keeps
/// a label, in the order of the states, so that each stands at its label.
/// There are none where a state cannot be spliced in within the depth
/// allowed.
pub fn generate_state_arms(dfa: &DFA<Trans>, labels: &Vec<usize>) -> (arms: Option<Vec<Arm>>)
    requires
        dfa.targets_in_bounds(),
        labels_of(dfa, labels@),
    ensures
        arms is Some <==> arms_exist(dfa),
        arms matches Some(a) ==> arms_of(dfa, a@),
        dfa.unambiguous() ==> (arms matches Some(a) ==> forall|l: int|
            0 <= l < a@.len() ==> (#[trigger] a@[l]).wf()),
{
    let n_states = dfa.states.len();
    let mut arms: Vec<Arm> = Vec::new();
    let mut s: usize = 0;
    while s < n_states
        invariant
            dfa.targets_in_bounds(),
            labels_of(dfa, labels@),
            n_states == dfa.states@.len(),
            s <= n_states,
            arms@.len() == dfa.label(s as int),
            dfa.unambiguous() ==> forall|l: int| 0 <= l < arms@.len() ==> (#[trigger] arms@[l]).wf(),
            forall|t: int|
                0 <= t < s && !dfa.inlined(t as usize) ==> dfa.label(t) < arms@.len() && Some(
                    arms@[dfa.label(t) as int]@,
                ) == #[trigger] state_arm(dfa, t as usize, n_states as nat),
        decreases n_states - s,
    {
        let state = &dfa.states[s];
        if !(state.predecessors == 1 && !state.initial) {
            match generate_state_arm(dfa, labels, s, n_states) {
                Some(arm) => {
                    let ghost before = arms@;
                    arms.push(arm);
                    assert forall|t: int|
                        0 <= t < s + 1 && !dfa.inlined(t as usize) implies dfa.label(t)
                        < arms@.len() && Some(arms@[dfa.label(t) as int]@) == #[trigger] state_arm(
                        dfa,
                        t as usize,
                        n_states as nat,
                    ) by {
                        if t < s {
                            assert(dfa.label(t) < before.len());
                            assert(arms@[dfa.label(t) as int] == before[dfa.label(t) as int]);
                        }
                    }
                },
                None => {
                    assert(state_arm(dfa, (s as int) as usize, dfa.states@.len()) is None);
                    return None;
                },
            }
        }
        s += 1;
    }
    Some(arms)
}

/// The label at which each rule set starts: the label of its start state.
pub open spec fn switch_of(dfa: &DFA<Trans>, rule_states: Seq<(String, usize)>, rules: Seq<
    (String, usize),
>) -> bool {
    &&& rules.len() == rule_states.len()
    &&& forall|i: int|
        0 <= i < rules.len() ==> (#[trigger] rules[i]).0@ == rule_states[i].0@ && rules[i].1
            == dfa.label(rule_states[i].1 as int)
}

/// For each rule set, by name, the label that a switch to it sets the state
/// to.
pub fn generate_switch(
    dfa: &DFA<Trans>,
    labels: &Vec<usize>,
    rule_states: &Vec<(String, usize)>,
) -> (rules: Vec<(String, usize)>)
    requires
        labels_of(dfa, labels@),
        forall|i: int|
            0 <= i < rule_states@.len() ==> (#[trigger] rule_states@[i]).1 < dfa.states@.len(),
    ensures
        switch_of(dfa, rule_states@, rules@),
{
    let mut rules: Vec<(String, usize)> = Vec::new();
    let mut i: usize = 0;
    while i < rule_states.len()
        invariant
            labels_of(dfa, labels@),
            forall|i: int|
                0 <= i < rule_states@.len() ==> (#[trigger] rule_states@[i]).1 < dfa.states@.len(),
            i <= rule_states@.len(),
            rules@.len() == i,
            forall|j: int|
                0 <= j < i ==> (#[trigger] rules@[j]).0@ == rule_states@[j].0@ && rules@[j].1
                    == dfa.label(rule_states@[j].1 as int),
        decreases rule_states@.len() - i,
    {
        let rule = &rule_states[i];
        rules.push((rule.0.clone(), labels[rule.1]));
        i += 1;
    }
    rules
}

/// Whether every rule set starts in a state of `dfa`.
pub open spec fn rules_in_bounds(dfa: &DFA<Trans>, rule_states: Seq<(String, usize)>) -> bool {
    forall|i: int| 0 <= i < rule_states.len() ==> (#[trigger] rule_states[i]).1 < dfa.states@.len()
}

/// Whether every rule set starts in a state that keeps a label.
pub open spec fn rules_labelled(dfa: &DFA<Trans>, rule_states: Seq<(String, usize)>) -> bool {
    forall|i: int| 0 <= i < rule_states.len() ==> !dfa.inlined((#[trigger] rule_states[i]).1)
}

/// Whether every rule set starts in a state that keeps a label.
fn rules_keep_labels(dfa: &DFA<Trans>, rule_states: &Vec<(String, usize)>) -> (ok: bool)
    requires
        rules_in_bounds(dfa, rule_states@),
    ensures
        ok == rules_labelled(dfa, rule_states@),
{
    let mut i: usize = 0;
    while i < rule_states.len()
        invariant
            rules_in_bounds(dfa, rule_states@),
            i <= rule_states@.len(),
            forall|j: int| 0 <= j < i ==> !dfa.inlined((#[trigger] rule_states@[j]).1),
        decreases rule_states@.len() - i,
    {
        let state = &dfa.states[rule_states[i].1];
        if state.predecessors == 1 && !state.initial {
            return false;
        }
        i += 1;
    }
    true
}

/// Whether the program does what the automaton does: on every session that
/// rests in a state which keeps a label, one run of the program, with labels
/// for states, leaves the session that one scan of the automaton leaves, and
/// ends as the scan ends.
pub open spec fn does_the_same(
    dfa: &DFA<Trans>,
    right_ctx_dfas: &RightCtxDFAs,
    program: &Program,
) -> bool {
    forall|v: Session<usize>| #[trigger]
        rests(dfa, v) ==> run(program.arms(), program.fns(), relabel(dfa, v)) == (
            relabel(dfa, scan(dfa, right_ctx_dfas.dfas@, v).0),
            scan(dfa, right_ctx_dfas.dfas@, v).1,
        )
}

/// Compiles the automaton `dfa`, with its right contexts and the start
/// states of its rule sets, into a dispatch program.
///
/// There is a program unless a rule set starts in a state that keeps no
/// label, or a state cannot be spliced in within the depth allowed. Its arms
/// are those of the states that keep a label, each at its label; its rules
/// give each rule set the label of its start state; its right contexts have
/// one arm for each of their states. Where the automaton and its right
/// contexts are unambiguous, the program does what the automaton does, and
/// it can be run where state 0 is initial.
pub fn reify(dfa: &DFA<Trans>, right_ctx_dfas: &RightCtxDFAs, rule_states: &Vec<(String, usize)>) -> (
    program: Option<Program>)
    requires
        dfa.targets_in_bounds(),
        right_ctx_dfas.wf(),
        right_ctx_dfas.not_nested(),
        rules_in_bounds(dfa, rule_states@),
    ensures
        program is Some <==> arms_exist(dfa) && rules_labelled(dfa, rule_states@),
        program matches Some(p) ==> {
            &&& arms_of(dfa, p.arms@)
            &&& switch_of(dfa, rule_states@, p.rules@)
            &&& right_ctx_fns_of(right_ctx_dfas, p.right_ctxs@)
        },
        dfa.unambiguous() && right_ctx_dfas.unambiguous() && dfa.states@[0].initial ==> (
        program matches Some(p) ==> p.wf()),
        dfa.unambiguous() && right_ctx_dfas.unambiguous() ==> (program matches Some(p)
            ==> does_the_same(dfa, right_ctx_dfas, &p)),
{
    if !rules_keep_labels(dfa, rule_states) {
        return None;
    }
    let labels = renumber_states(dfa);
    let arms = match generate_state_arms(dfa, &labels) {
        Some(arms) => arms,
        None => {
            return None;
        },
    };
    let rules = generate_switch(dfa, &labels, rule_states);
    let right_ctxs = generate_right_ctx_fns(right_ctx_dfas);
    proof {
        if dfa.states@[0].initial {
            lemma_label_monotone(dfa, 1, dfa.states@.len() as int);
            assert(dfa.label(1) == dfa.label(0) + 1);
        }
    }
    let program = Program { arms, rules, right_ctxs };
    proof {
        if dfa.unambiguous() && right_ctx_dfas.unambiguous() {
            lemma_reified(dfa, right_ctx_dfas, program.arms@, program.right_ctxs@);
            assert forall|v: Session<usize>| #[trigger]
                rests(dfa, v) implies run(program.arms(), program.fns(), relabel(dfa, v)) == (
                relabel(dfa, scan(dfa, right_ctx_dfas.dfas@, v).0),
                scan(dfa, right_ctx_dfas.dfas@, v).1,
            ) by {
                lemma_program_equivalent(
                    dfa,
                    right_ctx_dfas.dfas@,
                    program.arms(),
                    program.fns(),
                    v,
                );
            }
        }
    }
    Some(program)
}

} // verus!
