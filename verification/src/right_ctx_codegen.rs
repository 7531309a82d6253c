//! The compilation of a right context into its code: one arm for each
//! state, with one guard for all the characters or ranges that lead the same
//! way.

use crate::codegen::{char_guards, generate_ranges_guard, range_guards, ranges_guard};
use crate::dfa::{Range, State, DFA};
use crate::dispatch::{
    right_ctx_char_arm_views, CharArm, CharArmView, Guard, GuardView, RightCtxArm,
    RightCtxArmView, RightCtxCode,
};
use crate::dispatcher::{right_ctx_fn_wf, right_ctx_fns_wf};
use crate::grouping::{
    collect_members, collect_unled, groups, is_seen_before, lemma_members_sorted,
    lemma_unled_sorted, members, sorted_items, unled,
};
use crate::right_ctx::RightCtxDFAs;
use vstd::prelude::*;

verus! {

impl DFA<usize> {
    /// Whether state `s` of a right context accepts.
    pub open spec fn accepting(&self, s: usize) -> bool {
        self.states@[s as int].accepting@.len() > 0
    }

    /// Whether no candidate of a right context has a right context of its
    /// own.
    pub open spec fn not_nested(&self) -> bool {
        forall|s: int, i: int|
            0 <= s < self.states@.len() && 0 <= i < self.states@[s].accepting@.len() ==> (
            #[trigger] self.states@[s].accepting@[i]).right_ctx is None
    }
}

/// The exact transitions of a state of the right context `dfa`, each as its
/// character and the state it leads to, unless that state accepts.
pub open spec fn right_ctx_char_items(dfa: &DFA<usize>, ts: Seq<(char, usize)>) -> Seq<
    (char, Option<usize>),
> {
    Seq::new(
        ts.len(),
        |i: int| (ts[i].0, if dfa.accepting(ts[i].1) { None } else { Some(ts[i].1) }),
    )
}

/// The range transitions of a state of the right context `dfa`, each as its
/// range and the state it leads to, unless that state accepts.
pub open spec fn right_ctx_range_items(dfa: &DFA<usize>, rs: Seq<Range<usize>>) -> Seq<
    ((char, char), Option<usize>),
> {
    Seq::new(
        rs.len(),
        |i: int|
            (
                (rs[i].start, rs[i].end),
                if dfa.accepting(rs[i].value) { None } else { Some(rs[i].value) },
            ),
    )
}

/// The alternatives of a right context for the groups `gs`: for each group,
/// its guard and the step to its state.
pub open spec fn right_ctx_goto_arms(gs: Seq<(usize, GuardView)>) -> Seq<CharArmView<RightCtxCode>> {
    Seq::new(gs.len(), |a: int| CharArmView { guard: gs[a].1, code: RightCtxCode::Goto(gs[a].0) })
}

/// The one alternative for all the keys that lead to acceptance, if there
/// are any.
pub open spec fn right_ctx_accept_arm(keys_len: nat, guard: GuardView) -> Seq<CharArmView<RightCtxCode>> {
    if keys_len > 0 {
        seq![CharArmView { guard, code: RightCtxCode::True }]
    } else {
        Seq::empty()
    }
}

/// The alternatives of the arm of a state of a right context, in the order
/// in which they are tried: the characters that lead on, by state; the
/// characters that lead to acceptance; the ranges that lead on, by state; the
/// ranges that lead to acceptance.
pub open spec fn right_ctx_state_char_arms(dfa: &DFA<usize>, state: State<usize>) -> Seq<
    CharArmView<RightCtxCode>,
> {
    let chars = right_ctx_char_items(dfa, state.char_transitions@);
    let ranges = right_ctx_range_items(dfa, state.range_transitions@);
    right_ctx_goto_arms(char_guards(groups(chars, 0))) + right_ctx_accept_arm(
        unled(chars, 0).len(),
        GuardView::Chars(unled(chars, 0)),
    ) + right_ctx_goto_arms(range_guards(groups(ranges, 0))) + right_ctx_accept_arm(
        unled(ranges, 0).len(),
        ranges_guard(unled(ranges, 0)),
    )
}

/// The arm of a state of a right context: a state that accepts says that the
/// right context holds; any other reads a character, and says that it does
/// not hold where it has no transition.
pub open spec fn right_ctx_state_arm(dfa: &DFA<usize>, state: State<usize>) -> RightCtxArmView {
    if state.accepting@.len() > 0 {
        RightCtxArmView::Accept
    } else {
        RightCtxArmView::Match {
            on_end: match state.end_of_input_transition {
                Some(next) => RightCtxCode::Goto(next),
                None => RightCtxCode::False,
            },
            char_arms: right_ctx_state_char_arms(dfa, state),
            default: match state.any_transition {
                Some(next) => RightCtxCode::Goto(next),
                None => RightCtxCode::False,
            },
        }
    }
}

/// The alternatives of the arm of state `s` of the right context `dfa`.
pub fn generate_right_ctx_state_char_arms(dfa: &DFA<usize>, s: usize) -> (arms: Vec<CharArm<RightCtxCode>>)
    requires
        dfa.right_ctx_wf(),
        s < dfa.states@.len(),
    ensures
        right_ctx_char_arm_views(arms@) == right_ctx_state_char_arms(dfa, dfa.states@[s as int]),
        dfa.states@[s as int].ranges_sorted() ==> forall|i: int|
            0 <= i < arms@.len() ==> (#[trigger] arms@[i]).guard.wf(),
{
    let state = &dfa.states[s];
    let ghost ts = state.char_transitions@;
    let ghost rs = state.range_transitions@;
    let mut arms: Vec<CharArm<RightCtxCode>> = Vec::new();

    let mut items: Vec<(char, Option<usize>)> = Vec::new();
    let mut i: usize = 0;
    while i < state.char_transitions.len()
        invariant
            dfa.right_ctx_wf(),
            s < dfa.states@.len(),
            state == dfa.states@[s as int],
            ts == state.char_transitions@,
            i <= ts.len(),
            items@ =~= right_ctx_char_items(dfa, ts).take(i as int),
        decreases ts.len() - i,
    {
        let entry = &state.char_transitions[i];
        let next = entry.1;
        if dfa.states[next].accepting.len() == 0 {
            items.push((entry.0, Some(next)));
        } else {
            items.push((entry.0, None));
        }
        i += 1;
    }
    assert(items@ =~= right_ctx_char_items(dfa, ts));

    let mut i: usize = 0;
    assert(right_ctx_char_arm_views(arms@) =~= Seq::empty());
    while i < items.len()
        invariant
            i <= items@.len(),
            forall|k: int| 0 <= k < arms@.len() ==> (#[trigger] arms@[k]).guard.wf(),
            right_ctx_goto_arms(char_guards(groups(items@, 0))) == right_ctx_char_arm_views(arms@)
                + right_ctx_goto_arms(char_guards(groups(items@, i as int))),
        decreases items@.len() - i,
    {
        match items[i].1 {
            Some(n) => {
                if !is_seen_before(&items, n, i) {
                    let keys = collect_members(&items, n, i);
                    let arm = CharArm { guard: Guard::Chars(keys), code: RightCtxCode::Goto(n) };
                    let ghost before = arms@;
                    arms.push(arm);
                    assert(right_ctx_char_arm_views(arms@) =~= right_ctx_char_arm_views(before).push(
                        arm@,
                    ));
                    assert(char_guards(groups(items@, i as int)) =~= seq![
                        (n, GuardView::Chars(members(items@, n, i as int))),
                    ] + char_guards(groups(items@, i + 1)));
                    assert(right_ctx_goto_arms(char_guards(groups(items@, i as int))) =~= seq![arm@]
                        + right_ctx_goto_arms(char_guards(groups(items@, i + 1))));
                    assert(right_ctx_char_arm_views(before).push(arm@) + right_ctx_goto_arms(
                        char_guards(groups(items@, i + 1)),
                    ) =~= right_ctx_char_arm_views(before) + (seq![arm@] + right_ctx_goto_arms(
                        char_guards(groups(items@, i + 1)),
                    )));
                }
            },
            None => {},
        }
        i += 1;
    }
    assert(right_ctx_char_arm_views(arms@) + Seq::<CharArmView<RightCtxCode>>::empty()
        =~= right_ctx_char_arm_views(arms@));
    let accept_chars = collect_unled(&items);
    let ghost char_items = items@;
    if accept_chars.len() > 0 {
        let arm = CharArm { guard: Guard::Chars(accept_chars), code: RightCtxCode::True };
        let ghost before = arms@;
        arms.push(arm);
        assert(right_ctx_char_arm_views(arms@) =~= right_ctx_char_arm_views(before) + seq![arm@]);
    } else {
        assert(right_ctx_char_arm_views(arms@) + Seq::<CharArmView<RightCtxCode>>::empty()
            =~= right_ctx_char_arm_views(arms@));
    }
    let ghost char_part = right_ctx_char_arm_views(arms@);

    let mut items: Vec<((char, char), Option<usize>)> = Vec::new();
    let mut i: usize = 0;
    while i < state.range_transitions.len()
        invariant
            dfa.right_ctx_wf(),
            s < dfa.states@.len(),
            state == dfa.states@[s as int],
            rs == state.range_transitions@,
            i <= rs.len(),
            forall|k: int| 0 <= k < arms@.len() ==> (#[trigger] arms@[k]).guard.wf(),
            items@ =~= right_ctx_range_items(dfa, rs).take(i as int),
        decreases rs.len() - i,
    {
        let range = &state.range_transitions[i];
        let next = range.value;
        if dfa.states[next].accepting.len() == 0 {
            items.push(((range.start, range.end), Some(next)));
        } else {
            items.push(((range.start, range.end), None));
        }
        i += 1;
    }
    assert(items@ =~= right_ctx_range_items(dfa, rs));

    let mut i: usize = 0;
    let ghost mut done: Seq<CharArmView<RightCtxCode>> = Seq::empty();
    assert(char_part + done =~= char_part);
    while i < items.len()
        invariant
            i <= items@.len(),
            items@ == right_ctx_range_items(dfa, rs),
            rs == dfa.states@[s as int].range_transitions@,
            dfa.states@[s as int].ranges_sorted() ==> forall|k: int|
                0 <= k < arms@.len() ==> (#[trigger] arms@[k]).guard.wf(),
            right_ctx_char_arm_views(arms@) == char_part + done,
            right_ctx_goto_arms(range_guards(groups(items@, 0))) == done + right_ctx_goto_arms(
                range_guards(groups(items@, i as int)),
            ),
        decreases items@.len() - i,
    {
        match items[i].1 {
            Some(n) => {
                if !is_seen_before(&items, n, i) {
                    let keys = collect_members(&items, n, i);
                    proof {
                        if dfa.states@[s as int].ranges_sorted() {
                            assert(sorted_items(items@));
                            lemma_members_sorted(items@, n, i as int);
                        }
                    }
                    let arm = CharArm {
                        guard: generate_ranges_guard(keys),
                        code: RightCtxCode::Goto(n),
                    };
                    let ghost before = arms@;
                    arms.push(arm);
                    proof {
                        assert(right_ctx_char_arm_views(arms@) =~= right_ctx_char_arm_views(
                            before,
                        ).push(arm@));
                        assert(range_guards(groups(items@, i as int)) =~= seq![
                            (n, ranges_guard(members(items@, n, i as int))),
                        ] + range_guards(groups(items@, i + 1)));
                        assert(right_ctx_goto_arms(range_guards(groups(items@, i as int)))
                            =~= seq![arm@] + right_ctx_goto_arms(
                            range_guards(groups(items@, i + 1)),
                        ));
                        assert(done.push(arm@) + right_ctx_goto_arms(
                            range_guards(groups(items@, i + 1)),
                        ) =~= done + (seq![arm@] + right_ctx_goto_arms(
                            range_guards(groups(items@, i + 1)),
                        )));
                        assert(char_part + done.push(arm@) =~= (char_part + done).push(arm@));
                        done = done.push(arm@);
                    }
                }
            },
            None => {},
        }
        i += 1;
    }
    assert(done + Seq::<CharArmView<RightCtxCode>>::empty() =~= done);
    let accept_ranges = collect_unled(&items);
    proof {
        if dfa.states@[s as int].ranges_sorted() {
            assert(sorted_items(items@));
            lemma_unled_sorted(items@, 0);
        }
    }
    if accept_ranges.len() > 0 {
        let arm = CharArm {
            guard: generate_ranges_guard(accept_ranges),
            code: RightCtxCode::True,
        };
        let ghost before = arms@;
        arms.push(arm);
        assert(right_ctx_char_arm_views(arms@) =~= right_ctx_char_arm_views(before) + seq![arm@]);
    } else {
        assert(right_ctx_char_arm_views(arms@) + Seq::<CharArmView<RightCtxCode>>::empty()
            =~= right_ctx_char_arm_views(arms@));
    }
    arms
}

/// The arm of state `s` of the right context `dfa`.
pub fn generate_right_ctx_state_arm(dfa: &DFA<usize>, s: usize) -> (arm: RightCtxArm)
    requires
        dfa.right_ctx_wf(),
        dfa.not_nested(),
        s < dfa.states@.len(),
    ensures
        arm@ == right_ctx_state_arm(dfa, dfa.states@[s as int]),
        dfa.states@[s as int].ranges_sorted() ==> arm.wf(),
{
    let state = &dfa.states[s];
    if state.accepting.len() > 0 {
        return RightCtxArm::Accept;
    }
    let char_arms = generate_right_ctx_state_char_arms(dfa, s);
    let on_end = match state.end_of_input_transition {
        Some(next) => RightCtxCode::Goto(next),
        None => RightCtxCode::False,
    };
    let default = match state.any_transition {
        Some(next) => RightCtxCode::Goto(next),
        None => RightCtxCode::False,
    };
    RightCtxArm::Match { on_end, char_arms, default }
}

/// Whether `arms` are the arms of the states of the right context `dfa`.
pub open spec fn right_ctx_arms_of(dfa: &DFA<usize>, arms: Seq<RightCtxArm>) -> bool {
    &&& arms.len() == dfa.states@.len()
    &&& forall|s: int|
        0 <= s < arms.len() ==> (#[trigger] arms[s])@ == right_ctx_state_arm(dfa, dfa.states@[s])
}

/// The arms of the right context `dfa`, one for each state.
pub fn generate_right_ctx_state_arms(dfa: &DFA<usize>) -> (arms: Vec<RightCtxArm>)
    requires
        dfa.right_ctx_wf(),
        dfa.not_nested(),
    ensures
        right_ctx_arms_of(dfa, arms@),
        dfa.unambiguous() ==> right_ctx_fn_wf(arms@),
{
    let mut arms: Vec<RightCtxArm> = Vec::new();
    let mut s: usize = 0;
    while s < dfa.states.len()
        invariant
            dfa.right_ctx_wf(),
            dfa.not_nested(),
            s <= dfa.states@.len(),
            arms@.len() == s,
            dfa.unambiguous() ==> forall|t: int| 0 <= t < s ==> (#[trigger] arms@[t]).wf(),
            forall|t: int|
                0 <= t < s ==> (#[trigger] arms@[t])@ == right_ctx_state_arm(dfa, dfa.states@[t]),
        decreases dfa.states@.len() - s,
    {
        arms.push(generate_right_ctx_state_arm(dfa, s));
        s += 1;
    }
    arms
}

impl RightCtxDFAs {
    /// Whether every right context is unambiguous.
    pub open spec fn unambiguous(&self) -> bool {
        forall|r: int| 0 <= r < self.dfas@.len() ==> (#[trigger] self.dfas@[r]).unambiguous()
    }

    /// Whether no right context has a right context of its own.
    pub open spec fn not_nested(&self) -> bool {
        forall|r: int| 0 <= r < self.dfas@.len() ==> (#[trigger] self.dfas@[r]).not_nested()
    }
}

/// Whether `fns` holds the arms of each right context of `right_ctx_dfas`.
pub open spec fn right_ctx_fns_of(right_ctx_dfas: &RightCtxDFAs, fns: Seq<Vec<RightCtxArm>>) -> bool {
    &&& fns.len() == right_ctx_dfas.dfas@.len()
    &&& forall|r: int|
        0 <= r < fns.len() ==> right_ctx_arms_of(&right_ctx_dfas.dfas@[r], (#[trigger] fns[r])@)
}

/// The code of each right context, by its index.
pub fn generate_right_ctx_fns(right_ctx_dfas: &RightCtxDFAs) -> (fns: Vec<Vec<RightCtxArm>>)
    requires
        right_ctx_dfas.wf(),
        right_ctx_dfas.not_nested(),
    ensures
        right_ctx_fns_of(right_ctx_dfas, fns@),
        right_ctx_dfas.unambiguous() ==> right_ctx_fns_wf(fns@),
{
    let mut fns: Vec<Vec<RightCtxArm>> = Vec::new();
    let mut r: usize = 0;
    while r < right_ctx_dfas.dfas.len()
        invariant
            right_ctx_dfas.wf(),
            right_ctx_dfas.not_nested(),
            r <= right_ctx_dfas.dfas@.len(),
            fns@.len() == r,
            right_ctx_dfas.unambiguous() ==> forall|q: int|
                0 <= q < r ==> right_ctx_fn_wf((#[trigger] fns@[q])@),
            forall|q: int|
                0 <= q < r ==> right_ctx_arms_of(&right_ctx_dfas.dfas@[q], (#[trigger] fns@[q])@),
        decreases right_ctx_dfas.dfas@.len() - r,
    {
        fns.push(generate_right_ctx_state_arms(&right_ctx_dfas.dfas[r]));
        r += 1;
    }
    fns
}

} // verus!
