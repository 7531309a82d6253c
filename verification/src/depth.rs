//! When the compilation succeeds: the states that are spliced into one
//! another must not lead to one another in a circle.

use crate::codegen::{
    any_transition_code, arms_exist, char_guards, char_items, goto_arms, range_guards,
    range_items, state_arm, state_char_arms, target_code,
};
use crate::dfa::{State, Trans, DFA};
use crate::dispatch::GuardView;
use crate::grouping::{groups, members, seen_before};
use vstd::prelude::*;

verus! {

/// Whether `state` leads to state `t` on a character: by an exact
/// transition, by a range, or by its wildcard.
pub open spec fn leads_on(state: State<Trans>, t: usize) -> bool {
    ||| exists|i: int|
        0 <= i < state.char_transitions@.len() && (#[trigger] state.char_transitions@[i]).1.goto_of()
            == Some(t)
    ||| exists|i: int|
        0 <= i < state.range_transitions@.len() && (
        #[trigger] state.range_transitions@[i]).value.goto_of() == Some(t)
    ||| state.any_transition matches Some(Trans::Trans(next)) && next == t
}

/// Whether `rank` gives every state a rank, no greater than the number of
/// states, such that a state which is spliced in has a smaller rank than
/// every state that leads to it. There is such a ranking exactly where the
/// states that are spliced in do not lead to one another in a circle.
pub open spec fn ranked(dfa: &DFA<Trans>, rank: Seq<nat>) -> bool {
    &&& rank.len() == dfa.states@.len()
    &&& forall|s: int| 0 <= s < rank.len() ==> #[trigger] rank[s] <= rank.len()
    &&& forall|s: int, t: usize|
        0 <= s < rank.len() && t < rank.len() && dfa.inlined(t) && #[trigger] leads_on(
            dfa.states@[s],
            t,
        ) ==> rank[t as int] < rank[s]
}

/// Every group leads to a state that an entry leads to.
proof fn lemma_group_targets<K>(items: Seq<(K, Option<usize>)>, from: int)
    requires
        0 <= from,
    ensures
        forall|a: int|
            0 <= a < groups(items, from).len() ==> exists|j: int|
                from <= j < items.len() && (#[trigger] items[j]).1 == Some(
                    (#[trigger] groups(items, from)[a]).0,
                ),
    decreases items.len() - from,
{
    if from < items.len() {
        lemma_group_targets(items, from + 1);
        let gs = groups(items, from);
        let rest = groups(items, from + 1);
        assert forall|a: int| 0 <= a < gs.len() implies exists|j: int|
            from <= j < items.len() && (#[trigger] items[j]).1 == Some((#[trigger] gs[a]).0) by {
            let first = match items[from].1 {
                Some(n) => !seen_before(items, n, from),
                None => false,
            };
            if first {
                let n = items[from].1->0;
                assert(gs =~= seq![(n, members(items, n, from))] + rest);
                if a == 0 {
                    assert(items[from].1 == Some(gs[0].0));
                } else {
                    assert(gs[a] == rest[a - 1]);
                    let j = choose|j: int|
                        from + 1 <= j < items.len() && (#[trigger] items[j]).1 == Some(
                            rest[a - 1].0,
                        );
                    assert(items[j].1 == Some(gs[a].0));
                }
            } else {
                assert(gs == rest);
                let j = choose|j: int|
                    from + 1 <= j < items.len() && (#[trigger] items[j]).1 == Some(rest[a].0);
                assert(items[j].1 == Some(gs[a].0));
            }
        }
    }
}

/// There are alternatives for the groups where there is code for going to
/// the state of each.
proof fn lemma_goto_arms_exist(dfa: &DFA<Trans>, gs: Seq<(usize, GuardView)>, fuel: nat)
    requires
        forall|a: int| 0 <= a < gs.len() ==> target_code(dfa, (#[trigger] gs[a]).0, fuel) is Some,
    ensures
        goto_arms(dfa, gs, fuel) is Some,
    decreases gs.len(),
{
    if gs.len() > 0 {
        assert(target_code(dfa, gs[0].0, fuel) is Some);
        assert forall|a: int| 0 <= a < gs.drop_first().len() implies target_code(
            dfa,
            (#[trigger] gs.drop_first()[a]).0,
            fuel,
        ) is Some by {
            assert(gs.drop_first()[a] == gs[a + 1]);
        }
        lemma_goto_arms_exist(dfa, gs.drop_first(), fuel);
    }
}

/// A state has an arm where splicing may nest as deep as its rank.
pub proof fn lemma_state_arm_exists(dfa: &DFA<Trans>, rank: Seq<nat>, s: usize, fuel: nat)
    requires
        dfa.targets_in_bounds(),
        ranked(dfa, rank),
        s < dfa.states@.len(),
        rank[s as int] <= fuel,
    ensures
        state_arm(dfa, s, fuel) is Some,
    decreases fuel,
{
    let state = dfa.states@[s as int];
    let ts = state.char_transitions@;
    let rs = state.range_transitions@;
    assert forall|t: usize| #[trigger] leads_on(state, t) && t < dfa.states@.len() implies target_code(
        dfa,
        t,
        fuel,
    ) is Some by {
        if dfa.inlined(t) {
            assert(rank[t as int] < rank[s as int]);
            lemma_state_arm_exists(dfa, rank, t, (fuel - 1) as nat);
        }
    }
    match state.any_transition {
        Some(Trans::Trans(next)) => {
            assert(leads_on(state, next));
            assert(any_transition_code(dfa, Trans::Trans(next), fuel) is Some);
        },
        _ => {},
    }
    let chars = groups(char_items(ts), 0);
    lemma_group_targets(char_items(ts), 0);
    assert forall|a: int| 0 <= a < chars.len() implies target_code(
        dfa,
        (#[trigger] char_guards(chars)[a]).0,
        fuel,
    ) is Some by {
        let j = choose|j: int|
            0 <= j < char_items(ts).len() && (#[trigger] char_items(ts)[j]).1 == Some(chars[a].0);
        assert(ts[j].1.goto_of() == Some(chars[a].0));
        assert(leads_on(state, chars[a].0));
    }
    lemma_goto_arms_exist(dfa, char_guards(chars), fuel);
    let ranges = groups(range_items(rs), 0);
    lemma_group_targets(range_items(rs), 0);
    assert forall|a: int| 0 <= a < ranges.len() implies target_code(
        dfa,
        (#[trigger] range_guards(ranges)[a]).0,
        fuel,
    ) is Some by {
        let j = choose|j: int|
            0 <= j < range_items(rs).len() && (#[trigger] range_items(rs)[j]).1 == Some(
                ranges[a].0,
            );
        assert(rs[j].value.goto_of() == Some(ranges[a].0));
        assert(leads_on(state, ranges[a].0));
    }
    lemma_goto_arms_exist(dfa, range_guards(ranges), fuel);
    assert(state_char_arms(dfa, state, fuel) is Some);
}

/// The compilation finds an arm for every state that keeps a label where
/// the automaton can be ranked: where the states that are spliced in do not
/// lead to one another in a circle.
pub proof fn lemma_arms_exist(dfa: &DFA<Trans>, rank: Seq<nat>)
    requires
        dfa.targets_in_bounds(),
        ranked(dfa, rank),
    ensures
        arms_exist(dfa),
{
    assert forall|s: int| 0 <= s < dfa.states@.len() && !dfa.inlined(s as usize) implies (
    #[trigger] state_arm(dfa, s as usize, dfa.states@.len())) is Some by {
        lemma_state_arm_exists(dfa, rank, s as usize, dfa.states@.len());
    }
}

} // verus!
