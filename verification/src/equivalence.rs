//! The dispatch program does what the automaton does: the proof that the
//! compilation keeps the meaning.

use crate::codegen::{
    accept_arms, arms_of, candidates_of, char_entries, char_guards, char_items, first_default,
    goto_arms, guarded_prefix, lemma_label_bound, range_entries, range_guards, range_items,
    range_test, ranges_guard, state_arm, state_char_arms, target_code,
};
use crate::grouping::{
    any_entry, any_key, groups, lemma_groups_all, lemma_groups_none, lemma_groups_some,
    lemma_unled_any, unled,
};
use crate::dfa::{
    first_char, first_range, lemma_first_char, lemma_first_range, AcceptingState, State, Trans, DFA,
};
use crate::dispatch::{
    arm_at, arm_end_step, arm_entered, arm_step, arm_views, chosen, code_step, first_alt, first_arm,
    guard_holds, right_ctx_arm_at, right_ctx_fn_views, right_ctx_holds, right_ctx_run, run, run_arm,
    Arm, ArmView, CharArmView, CodeView, GuardView, Otherwise, RightCtxArm, RightCtxArmView,
    RightCtxCode, Step,
};
use crate::engine::{entered, on_char, on_end, resolve, scan, scan_from, Move};
use crate::lexer::Session;
use crate::right_ctx_codegen::{
    right_ctx_accept_arm, right_ctx_arms_of, right_ctx_char_items, right_ctx_fns_of,
    right_ctx_goto_arms, right_ctx_range_items, right_ctx_state_arm, right_ctx_state_char_arms,
};
use crate::right_ctx::{accepts, accepts_from, first_holding, holds, select, RightCtxDFAs};
use vstd::prelude::*;

verus! {

/// Whether no guard of `arms` holds of `c`.
pub open spec fn none_holds<C>(arms: Seq<CharArmView<C>>, c: char) -> bool {
    forall|a: int| 0 <= a < arms.len() ==> !guard_holds((#[trigger] arms[a]).guard, c)
}

/// Whether every alternative of `arms` whose guard holds of `c` has the code
/// `code`.
pub open spec fn all_have<C>(arms: Seq<CharArmView<C>>, c: char, code: C) -> bool {
    forall|a: int|
        0 <= a < arms.len() && guard_holds((#[trigger] arms[a]).guard, c) ==> arms[a].code == code
}

/// Whether a guard of `arms` holds of `c`.
pub open spec fn some_holds<C>(arms: Seq<CharArmView<C>>, c: char) -> bool {
    exists|a: int| 0 <= a < arms.len() && guard_holds((#[trigger] arms[a]).guard, c)
}

/// The code of the first alternative of `arms` whose guard holds of `c`.
pub open spec fn picked<C>(arms: Seq<CharArmView<C>>, c: char) -> Option<C> {
    match first_arm(arms, c, 0) {
        Some(i) => Some(arms[i].code),
        None => None,
    }
}

/// What `first_arm` finds is the first alternative from `from` on whose guard
/// holds.
pub proof fn lemma_first_arm<C>(arms: Seq<CharArmView<C>>, c: char, from: int)
    requires
        0 <= from,
    ensures
        match first_arm(arms, c, from) {
            Some(i) => {
                &&& from <= i < arms.len()
                &&& guard_holds(arms[i].guard, c)
                &&& forall|j: int| from <= j < i ==> !guard_holds((#[trigger] arms[j]).guard, c)
            },
            None => forall|j: int|
                from <= j < arms.len() ==> !guard_holds((#[trigger] arms[j]).guard, c),
        },
    decreases arms.len() - from,
{
    if from < arms.len() && !guard_holds(arms[from].guard, c) {
        lemma_first_arm(arms, c, from + 1);
    }
}

/// Where every alternative that takes `c` has the same code, and one does,
/// that code is picked.
pub proof fn lemma_picked_some<C>(arms: Seq<CharArmView<C>>, c: char, code: C)
    requires
        all_have(arms, c, code),
        some_holds(arms, c),
    ensures
        picked(arms, c) == Some(code),
{
    lemma_first_arm(arms, c, 0);
}

/// Where no alternative takes `c`, none is picked.
pub proof fn lemma_picked_none<C>(arms: Seq<CharArmView<C>>, c: char)
    requires
        none_holds(arms, c),
    ensures
        picked(arms, c) is None,
{
    lemma_first_arm(arms, c, 0);
}

/// Of two lists of alternatives one after the other, the first decides
/// where it takes `c`.
pub proof fn lemma_picked_concat<C>(a: Seq<CharArmView<C>>, b: Seq<CharArmView<C>>, c: char)
    ensures
        picked(a + b, c) == (if picked(a, c) is Some {
            picked(a, c)
        } else {
            picked(b, c)
        }),
{
    lemma_first_arm(a + b, c, 0);
    lemma_first_arm(a, c, 0);
    lemma_first_arm(b, c, 0);
    let whole = a + b;
    assert forall|j: int| 0 <= j < a.len() implies (#[trigger] whole[j]) == a[j] by {}
    assert forall|j: int| 0 <= j < b.len() implies (#[trigger] whole[a.len() + j]) == b[j] by {}
    match first_arm(a, c, 0) {
        Some(i) => {
            assert(whole[i] == a[i]);
            match first_arm(whole, c, 0) {
                Some(k) => {
                    if k < i {
                        assert(whole[k] == a[k]);
                    }
                },
                None => {},
            }
        },
        None => {
            match first_arm(b, c, 0) {
                Some(i) => {
                    assert(whole[a.len() + i] == b[i]);
                    match first_arm(whole, c, 0) {
                        Some(k) => {
                            if k < a.len() {
                                assert(whole[k] == a[k]);
                            } else if k < a.len() + i {
                                assert(whole[a.len() + (k - a.len())] == b[k - a.len()]);
                            }
                        },
                        None => {},
                    }
                },
                None => {
                    match first_arm(whole, c, 0) {
                        Some(k) => {
                            if k < a.len() {
                                assert(whole[k] == a[k]);
                            } else {
                                assert(whole[a.len() + (k - a.len())] == b[k - a.len()]);
                            }
                        },
                        None => {},
                    }
                },
            }
        },
    }
}

/// The predicate of being the character `c`.
pub open spec fn is_char(c: char) -> spec_fn(char) -> bool {
    |k: char| k == c
}

/// The predicate of being a range that holds `c`.
pub open spec fn holds_char(c: char) -> spec_fn((char, char)) -> bool {
    |k: (char, char)| k.0 <= c && c <= k.1
}

/// A guard over characters holds of `c` exactly where `c` is one of them.
pub proof fn lemma_chars_guard(keys: Seq<char>, c: char)
    ensures
        guard_holds(GuardView::Chars(keys), c) <==> any_key(keys, is_char(c)),
{
    if keys.contains(c) {
        let k = choose|k: int| 0 <= k < keys.len() && keys[k] == c;
        assert(is_char(c)(keys[k]));
    }
    if any_key(keys, is_char(c)) {
        let k = choose|k: int| 0 <= k < keys.len() && is_char(c)(#[trigger] keys[k]);
        assert(keys[k] == c);
    }
}

/// A guard over ranges, as a chain of tests or as a search table, holds of
/// `c` exactly where one of the ranges holds `c`.
pub proof fn lemma_ranges_guard(keys: Seq<(char, char)>, c: char)
    ensures
        guard_holds(ranges_guard(keys), c) <==> any_key(keys, holds_char(c)),
{
    match ranges_guard(keys) {
        GuardView::Search(table) => {
            if guard_holds(ranges_guard(keys), c) {
                let i = choose|i: int|
                    0 <= i < keys.len() && (#[trigger] keys[i]).0 <= c && c <= keys[i].1;
                assert(holds_char(c)(keys[i]));
            }
            if any_key(keys, holds_char(c)) {
                let k = choose|k: int| 0 <= k < keys.len() && holds_char(c)(#[trigger] keys[k]);
                assert(keys[k].0 <= c && c <= keys[k].1);
            }
        },
        GuardView::Ranges(tests) => {
            if guard_holds(ranges_guard(keys), c) {
                let i = choose|i: int| 0 <= i < tests.len() && (#[trigger] tests[i]).holds(c);
                assert(holds_char(c)(keys[i]));
            }
            if any_key(keys, holds_char(c)) {
                let k = choose|k: int| 0 <= k < keys.len() && holds_char(c)(#[trigger] keys[k]);
                assert(tests[k].holds(c));
            }
        },
        GuardView::Chars(_) => {},
    }
}

/// What the groups of `items` come to on a character, where `p` says which
/// keys take the character and takes the key of at most one entry: the code
/// of the state that the entry leads to, if it leads to one.
proof fn lemma_right_ctx_goto_arms<K>(
    items: Seq<(K, Option<usize>)>,
    gs: Seq<(usize, GuardView)>,
    p: spec_fn(K) -> bool,
    c: char,
    hit: Option<int>,
)
    requires
        gs.len() == groups(items, 0).len(),
        forall|a: int|
            0 <= a < gs.len() ==> (#[trigger] gs[a]).0 == groups(items, 0)[a].0 && (guard_holds(
                gs[a].1,
                c,
            ) <==> any_key(groups(items, 0)[a].1, p)),
        match hit {
            Some(i) => 0 <= i < items.len() && p(items[i].0),
            None => true,
        },
        forall|j: int| 0 <= j < items.len() && p((#[trigger] items[j]).0) ==> hit == Some(j),
    ensures
        picked(right_ctx_goto_arms(gs), c) == (match hit {
            Some(i) => match items[i].1 {
                Some(n) => Some(RightCtxCode::Goto(n)),
                None => None,
            },
            None => None,
        }),
{
    let arms = right_ctx_goto_arms(gs);
    let led = match hit {
        Some(i) => items[i].1,
        None => None,
    };
    match led {
        Some(n) => {
            let i = hit->0;
            lemma_groups_all(items, 0, p, i, n);
            lemma_groups_some(items, 0, p, i, n);
            let a = choose|a: int|
                0 <= a < groups(items, 0).len() && any_key((#[trigger] groups(items, 0)[a]).1, p);
            assert(guard_holds(arms[a].guard, c));
            assert(all_have(arms, c, RightCtxCode::Goto(n))) by {
                assert forall|b: int|
                    0 <= b < arms.len() && guard_holds((#[trigger] arms[b]).guard, c) implies arms[b].code
                    == RightCtxCode::Goto(n) by {
                    assert(any_key(groups(items, 0)[b].1, p));
                }
            }
            lemma_picked_some(arms, c, RightCtxCode::Goto(n));
        },
        None => {
            lemma_groups_none(items, 0, p);
            assert(none_holds(arms, c)) by {
                assert forall|b: int| 0 <= b < arms.len() implies !guard_holds(
                    (#[trigger] arms[b]).guard,
                    c,
                ) by {
                    assert(!any_key(groups(items, 0)[b].1, p));
                }
            }
            lemma_picked_none(arms, c);
        },
    }
}

/// What the alternative for the keys that lead to acceptance comes to on a
/// character: it says that the right context holds where the entry that
/// takes the character leads to no state.
proof fn lemma_right_ctx_accept_arm<K>(
    items: Seq<(K, Option<usize>)>,
    guard: GuardView,
    p: spec_fn(K) -> bool,
    c: char,
    hit: Option<int>,
)
    requires
        guard_holds(guard, c) <==> any_key(unled(items, 0), p),
        match hit {
            Some(i) => 0 <= i < items.len() && p(items[i].0),
            None => true,
        },
        forall|j: int| 0 <= j < items.len() && p((#[trigger] items[j]).0) ==> hit == Some(j),
    ensures
        picked(right_ctx_accept_arm(unled(items, 0).len(), guard), c) == (match hit {
            Some(i) => match items[i].1 {
                Some(n) => None,
                None => Some(RightCtxCode::True),
            },
            None => None,
        }),
{
    let arms = right_ctx_accept_arm(unled(items, 0).len(), guard);
    lemma_unled_any(items, 0, p);
    lemma_first_arm(arms, c, 0);
    let accepted = match hit {
        Some(i) => items[i].1 is None,
        None => false,
    };
    if accepted {
        let i = hit->0;
        assert(any_entry(items, None, 0, p));
        let k = choose|k: int| 0 <= k < unled(items, 0).len() && p(#[trigger] unled(items, 0)[k]);
        assert(arms.len() == 1);
        assert(guard_holds(arms[0].guard, c));
    } else {
        if any_entry(items, None, 0, p) {
            let j = choose|j: int|
                0 <= j < items.len() && (#[trigger] items[j]).1 == None::<usize> && p(items[j].0);
            assert(hit == Some(j));
        }
        if arms.len() > 0 {
            assert(!guard_holds(arms[0].guard, c));
        }
    }
}

impl DFA<usize> {
    /// What a step to state `next` of a right context comes to: the right
    /// context holds where `next` accepts.
    pub open spec fn step_code(&self, next: usize) -> RightCtxCode {
        if self.accepting(next) {
            RightCtxCode::True
        } else {
            RightCtxCode::Goto(next)
        }
    }
}

/// The alternatives of a state of a right context pick, on a character, the
/// step to the state that the exact transition on the character leads to,
/// or else the first range that holds it; they pick nothing where there is
/// neither.
pub proof fn lemma_right_ctx_picked(dfa: &DFA<usize>, state: State<usize>, c: char)
    requires
        state.chars_distinct(),
        state.ranges_sorted(),
    ensures
        picked(right_ctx_state_char_arms(dfa, state), c) == (match first_char(
            state.char_transitions@,
            c,
            0,
        ) {
            Some(i) => Some(dfa.step_code(state.char_transitions@[i].1)),
            None => match first_range(state.range_transitions@, c, 0) {
                Some(i) => Some(dfa.step_code(state.range_transitions@[i].value)),
                None => None,
            },
        }),
{
    let ts = state.char_transitions@;
    let rs = state.range_transitions@;
    let chars = right_ctx_char_items(dfa, ts);
    let ranges = right_ctx_range_items(dfa, rs);
    let g1 = right_ctx_goto_arms(char_guards(groups(chars, 0)));
    let a1 = right_ctx_accept_arm(unled(chars, 0).len(), GuardView::Chars(unled(chars, 0)));
    let g2 = right_ctx_goto_arms(range_guards(groups(ranges, 0)));
    let a2 = right_ctx_accept_arm(unled(ranges, 0).len(), ranges_guard(unled(ranges, 0)));
    lemma_first_char(ts, c, 0);
    lemma_first_range(rs, c, 0);
    let hit1 = first_char(ts, c, 0);
    let hit2 = first_range(rs, c, 0);
    assert forall|j: int| 0 <= j < chars.len() && is_char(c)((#[trigger] chars[j]).0) implies hit1
        == Some(j) by {
        assert(ts[j].0 == c);
    }
    assert forall|j: int|
        0 <= j < ranges.len() && holds_char(c)((#[trigger] ranges[j]).0) implies hit2 == Some(
        j,
    ) by {
        assert(rs[j].start <= c && c <= rs[j].end);
    }
    assert(hit1 matches Some(i) ==> is_char(c)(chars[i].0));
    assert(hit2 matches Some(i) ==> holds_char(c)(ranges[i].0));
    assert forall|a: int| 0 <= a < groups(chars, 0).len() implies (guard_holds(
        (#[trigger] char_guards(groups(chars, 0))[a]).1,
        c,
    ) <==> any_key(groups(chars, 0)[a].1, is_char(c))) by {
        lemma_chars_guard(groups(chars, 0)[a].1, c);
    }
    assert forall|a: int| 0 <= a < groups(ranges, 0).len() implies (guard_holds(
        (#[trigger] range_guards(groups(ranges, 0))[a]).1,
        c,
    ) <==> any_key(groups(ranges, 0)[a].1, holds_char(c))) by {
        lemma_ranges_guard(groups(ranges, 0)[a].1, c);
    }
    lemma_chars_guard(unled(chars, 0), c);
    lemma_ranges_guard(unled(ranges, 0), c);
    lemma_right_ctx_goto_arms(chars, char_guards(groups(chars, 0)), is_char(c), c, hit1);
    lemma_right_ctx_accept_arm(chars, GuardView::Chars(unled(chars, 0)), is_char(c), c, hit1);
    lemma_right_ctx_goto_arms(ranges, range_guards(groups(ranges, 0)), holds_char(c), c, hit2);
    lemma_right_ctx_accept_arm(ranges, ranges_guard(unled(ranges, 0)), holds_char(c), c, hit2);
    lemma_picked_concat(g1, a1, c);
    lemma_picked_concat(g1 + a1, g2, c);
    lemma_picked_concat(g1 + a1 + g2, a2, c);
}

/// Whether `arms` are the arms of the states of the right context `dfa`.
pub open spec fn right_ctx_code_of(dfa: &DFA<usize>, arms: Seq<RightCtxArmView>) -> bool {
    &&& arms.len() == dfa.states@.len()
    &&& forall|s: int|
        0 <= s < arms.len() ==> #[trigger] arms[s] == right_ctx_state_arm(dfa, dfa.states@[s])
}

/// The code of a right context says, in every state and with every text
/// ahead, what the automaton says.
pub proof fn lemma_right_ctx_run(
    dfa: &DFA<usize>,
    arms: Seq<RightCtxArmView>,
    s: usize,
    rest: Seq<char>,
    fuel: nat,
)
    requires
        dfa.right_ctx_wf(),
        dfa.unambiguous(),
        right_ctx_code_of(dfa, arms),
        s < dfa.states@.len(),
    ensures
        right_ctx_run(arms, s, rest, fuel) == accepts_from(dfa, s, rest, fuel),
    decreases rest.len(), fuel,
{
    let state = dfa.states@[s as int];
    assert(right_ctx_arm_at(arms, s) == right_ctx_state_arm(dfa, state));
    if state.accepting@.len() > 0 {
    } else if rest.len() == 0 {
        match state.end_of_input_transition {
            Some(next) => {
                if fuel > 0 {
                    lemma_right_ctx_run(dfa, arms, next, rest, (fuel - 1) as nat);
                }
            },
            None => {},
        }
    } else {
        let c = rest[0];
        lemma_right_ctx_picked(dfa, state, c);
        lemma_first_char(state.char_transitions@, c, 0);
        lemma_first_range(state.range_transitions@, c, 0);
        match state.target(c) {
            Some(next) => {
                assert(next < dfa.states@.len());
                lemma_right_ctx_run(dfa, arms, next, rest.drop_first(), fuel);
            },
            None => {},
        }
    }
}

/// The code of a right context holds of a text exactly where the right
/// context does.
pub proof fn lemma_right_ctx_holds(dfa: &DFA<usize>, arms: Seq<RightCtxArmView>, rest: Seq<char>)
    requires
        dfa.right_ctx_wf(),
        dfa.unambiguous(),
        right_ctx_code_of(dfa, arms),
    ensures
        right_ctx_holds(arms, rest) == accepts(dfa, rest),
{
    lemma_right_ctx_run(dfa, arms, 0, rest, arms.len());
}

/// Whether `fns` is the code of the right contexts `right_ctxs`, each of
/// which is well formed and unambiguous.
pub open spec fn right_ctxs_compiled(
    right_ctxs: Seq<DFA<usize>>,
    fns: Seq<Seq<RightCtxArmView>>,
) -> bool {
    &&& fns.len() == right_ctxs.len()
    &&& forall|r: int|
        0 <= r < fns.len() ==> {
            &&& (#[trigger] right_ctxs[r]).right_ctx_wf()
            &&& right_ctxs[r].unambiguous()
            &&& right_ctx_code_of(&right_ctxs[r], fns[r])
        }
}

/// The first alternative after a new first one is the first alternative of
/// the rest.
proof fn lemma_first_alt_shift(
    head: (usize, usize),
    alts: Seq<(usize, usize)>,
    fns: Seq<Seq<RightCtxArmView>>,
    rest: Seq<char>,
    from: int,
)
    requires
        0 <= from,
    ensures
        first_alt(seq![head] + alts, fns, rest, from + 1) == (match first_alt(
            alts,
            fns,
            rest,
            from,
        ) {
            Some(i) => Some(i + 1),
            None => None,
        }),
    decreases alts.len() - from,
{
    let all = seq![head] + alts;
    if from < alts.len() {
        assert(all[from + 1] == alts[from]);
        lemma_first_alt_shift(head, alts, fns, rest, from + 1);
    }
}

/// What `first_alt` finds is an alternative from `from` on.
proof fn lemma_first_alt_bound(
    alts: Seq<(usize, usize)>,
    fns: Seq<Seq<RightCtxArmView>>,
    rest: Seq<char>,
    from: int,
)
    requires
        0 <= from,
    ensures
        first_alt(alts, fns, rest, from) matches Some(i) ==> from <= i < alts.len(),
    decreases alts.len() - from,
{
    if from < alts.len() {
        lemma_first_alt_bound(alts, fns, rest, from + 1);
    }
}

/// The ordered choice that the candidates from `from` on stand for gives the
/// semantic action that is chosen among them.
pub proof fn lemma_chosen_from(
    cands: Seq<AcceptingState>,
    right_ctxs: Seq<DFA<usize>>,
    fns: Seq<Seq<RightCtxArmView>>,
    rest: Seq<char>,
    from: int,
)
    requires
        right_ctxs_compiled(right_ctxs, fns),
        0 <= from,
    ensures
        (match first_alt(guarded_prefix(cands, from), fns, rest, 0) {
            Some(i) => Some(guarded_prefix(cands, from)[i].1),
            None => first_default(cands, from),
        }) == (match first_holding(cands, right_ctxs, rest, from) {
            Some(i) => Some(cands[i].value),
            None => None,
        }),
    decreases cands.len() - from,
{
    if from < cands.len() {
        match cands[from].right_ctx {
            Some(r) => {
                let head = (r, cands[from].value);
                let tail = guarded_prefix(cands, from + 1);
                let all = guarded_prefix(cands, from);
                assert(all =~= seq![head] + tail);
                if r < right_ctxs.len() {
                    lemma_right_ctx_holds(&right_ctxs[r as int], fns[r as int], rest);
                }
                assert(all[0] == head);
                if holds(cands[from], right_ctxs, rest) {
                    assert(first_alt(all, fns, rest, 0) == Some(0int));
                } else {
                    lemma_chosen_from(cands, right_ctxs, fns, rest, from + 1);
                    lemma_first_alt_shift(head, tail, fns, rest, 0);
                    lemma_first_alt_bound(tail, fns, rest, 0);
                    assert(first_alt(all, fns, rest, 0) == first_alt(all, fns, rest, 1));
                    match first_alt(tail, fns, rest, 0) {
                        Some(i) => {
                            assert(all[i + 1] == tail[i]);
                        },
                        None => {},
                    }
                }
            },
            None => {},
        }
    }
}

/// The ordered choice that a list of candidates stands for gives the
/// semantic action that is chosen from the list.
pub proof fn lemma_chosen(
    cands: Seq<AcceptingState>,
    right_ctxs: Seq<DFA<usize>>,
    fns: Seq<Seq<RightCtxArmView>>,
    rest: Seq<char>,
)
    requires
        right_ctxs_compiled(right_ctxs, fns),
    ensures
        chosen(candidates_of(cands), fns, rest) == select(cands, right_ctxs, rest),
{
    lemma_chosen_from(cands, right_ctxs, fns, rest, 0);
}

/// The code of a transition of the main automaton: the choice among its
/// candidates, which gives way to the default of the arm, or the code for
/// going to its state.
pub open spec fn trans_code(dfa: &DFA<Trans>, trans: Trans, fuel: nat) -> Option<CodeView> {
    match trans {
        Trans::Accept(cands) => Some(
            CodeView::Select(candidates_of(cands@), Otherwise::Default),
        ),
        Trans::Trans(next) => target_code(dfa, next, fuel),
    }
}

/// The alternatives for the transitions that accept pick, on a character
/// that the guard of at most one entry holds of, the choice among the
/// candidates of that entry, if it accepts and is among them.
proof fn lemma_accept_arms(
    entries: Seq<(GuardView, Trans)>,
    from: int,
    c: char,
    hit: Option<int>,
)
    requires
        0 <= from,
        match hit {
            Some(i) => 0 <= i < entries.len() && guard_holds(entries[i].0, c),
            None => true,
        },
        forall|j: int|
            0 <= j < entries.len() && guard_holds((#[trigger] entries[j]).0, c) ==> hit == Some(j),
    ensures
        picked(accept_arms(entries, from), c) == (match hit {
            Some(i) => match entries[i].1 {
                Trans::Accept(cands) => if from <= i {
                    Some(CodeView::Select(candidates_of(cands@), Otherwise::Default))
                } else {
                    None
                },
                Trans::Trans(_) => None,
            },
            None => None,
        }),
    decreases entries.len() - from,
{
    if from < entries.len() {
        lemma_accept_arms(entries, from + 1, c, hit);
        match entries[from].1 {
            Trans::Accept(cands) => {
                let arm = CharArmView {
                    guard: entries[from].0,
                    code: CodeView::Select(candidates_of(cands@), Otherwise::Default),
                };
                lemma_picked_concat(seq![arm], accept_arms(entries, from + 1), c);
                lemma_first_arm(seq![arm], c, 0);
                if guard_holds(arm.guard, c) {
                    assert(hit == Some(from));
                    assert(seq![arm][0] == arm);
                }
            },
            Trans::Trans(_) => {},
        }
    } else {
        lemma_first_arm(accept_arms(entries, from), c, 0);
    }
}

/// The alternatives for groups have, one for one, the guard of the group and
/// the code for going to its state.
proof fn lemma_goto_arms(dfa: &DFA<Trans>, gs: Seq<(usize, GuardView)>, fuel: nat)
    requires
        goto_arms(dfa, gs, fuel) is Some,
    ensures
        goto_arms(dfa, gs, fuel)->0.len() == gs.len(),
        forall|a: int|
            0 <= a < gs.len() ==> (#[trigger] goto_arms(dfa, gs, fuel)->0[a]).guard == gs[a].1
                && Some(goto_arms(dfa, gs, fuel)->0[a].code) == target_code(dfa, gs[a].0, fuel),
    decreases gs.len(),
{
    if gs.len() > 0 {
        lemma_goto_arms(dfa, gs.drop_first(), fuel);
        let arms = goto_arms(dfa, gs, fuel)->0;
        let rest = goto_arms(dfa, gs.drop_first(), fuel)->0;
        assert forall|a: int| 0 <= a < gs.len() implies (#[trigger] arms[a]).guard == gs[a].1
            && Some(arms[a].code) == target_code(dfa, gs[a].0, fuel) by {
            if a > 0 {
                assert(arms[a] == rest[a - 1]);
                assert(gs.drop_first()[a - 1] == gs[a]);
            }
        }
    }
}

/// The alternatives for the groups of `items` pick, on a character that the
/// key of at most one entry takes, the code for going to the state that the
/// entry leads to, if it leads to one.
proof fn lemma_main_goto_arms<K>(
    dfa: &DFA<Trans>,
    items: Seq<(K, Option<usize>)>,
    gs: Seq<(usize, GuardView)>,
    fuel: nat,
    p: spec_fn(K) -> bool,
    c: char,
    hit: Option<int>,
)
    requires
        goto_arms(dfa, gs, fuel) is Some,
        gs.len() == groups(items, 0).len(),
        forall|a: int|
            0 <= a < gs.len() ==> (#[trigger] gs[a]).0 == groups(items, 0)[a].0 && (guard_holds(
                gs[a].1,
                c,
            ) <==> any_key(groups(items, 0)[a].1, p)),
        match hit {
            Some(i) => 0 <= i < items.len() && p(items[i].0),
            None => true,
        },
        forall|j: int| 0 <= j < items.len() && p((#[trigger] items[j]).0) ==> hit == Some(j),
    ensures
        picked(goto_arms(dfa, gs, fuel)->0, c) == (match hit {
            Some(i) => match items[i].1 {
                Some(n) => target_code(dfa, n, fuel),
                None => None,
            },
            None => None,
        }),
        hit matches Some(i) ==> (items[i].1 matches Some(n) ==> target_code(dfa, n, fuel) is Some),
{
    let arms = goto_arms(dfa, gs, fuel)->0;
    lemma_goto_arms(dfa, gs, fuel);
    let led = match hit {
        Some(i) => items[i].1,
        None => None,
    };
    match led {
        Some(n) => {
            let i = hit->0;
            lemma_groups_all(items, 0, p, i, n);
            lemma_groups_some(items, 0, p, i, n);
            let a = choose|a: int|
                0 <= a < groups(items, 0).len() && any_key((#[trigger] groups(items, 0)[a]).1, p);
            assert(guard_holds(arms[a].guard, c));
            assert(gs[a].0 == n);
            let code = arms[a].code;
            assert(Some(code) == target_code(dfa, n, fuel));
            assert(all_have(arms, c, code)) by {
                assert forall|b: int|
                    0 <= b < arms.len() && guard_holds((#[trigger] arms[b]).guard, c) implies arms[b].code
                    == code by {
                    assert(any_key(groups(items, 0)[b].1, p));
                    assert(gs[b].0 == n);
                }
            }
            lemma_picked_some(arms, c, code);
        },
        None => {
            lemma_groups_none(items, 0, p);
            assert(none_holds(arms, c)) by {
                assert forall|b: int| 0 <= b < arms.len() implies !guard_holds(
                    (#[trigger] arms[b]).guard,
                    c,
                ) by {
                    assert(!any_key(groups(items, 0)[b].1, p));
                }
            }
            lemma_picked_none(arms, c);
        },
    }
}

/// The alternatives of a state pick, on a character, the code of the exact
/// transition on the character, or else of the first range that holds it;
/// they pick nothing where there is neither.
pub proof fn lemma_picked(dfa: &DFA<Trans>, state: State<Trans>, fuel: nat, c: char)
    requires
        state.chars_distinct(),
        state.ranges_sorted(),
        state_char_arms(dfa, state, fuel) is Some,
    ensures
        picked(state_char_arms(dfa, state, fuel)->0, c) == (match first_char(
            state.char_transitions@,
            c,
            0,
        ) {
            Some(i) => trans_code(dfa, state.char_transitions@[i].1, fuel),
            None => match first_range(state.range_transitions@, c, 0) {
                Some(i) => trans_code(dfa, state.range_transitions@[i].value, fuel),
                None => None,
            },
        }),
        first_char(state.char_transitions@, c, 0) matches Some(i) ==> trans_code(
            dfa,
            state.char_transitions@[i].1,
            fuel,
        ) is Some,
        first_range(state.range_transitions@, c, 0) matches Some(i) ==> trans_code(
            dfa,
            state.range_transitions@[i].value,
            fuel,
        ) is Some,
{
    let ts = state.char_transitions@;
    let rs = state.range_transitions@;
    let chars = char_items(ts);
    let ranges = range_items(rs);
    let a1 = accept_arms(char_entries(ts), 0);
    let g1 = goto_arms(dfa, char_guards(groups(chars, 0)), fuel)->0;
    let a2 = accept_arms(range_entries(rs), 0);
    let g2 = goto_arms(dfa, range_guards(groups(ranges, 0)), fuel)->0;
    lemma_first_char(ts, c, 0);
    lemma_first_range(rs, c, 0);
    let hit1 = first_char(ts, c, 0);
    let hit2 = first_range(rs, c, 0);
    assert forall|j: int| 0 <= j < chars.len() && is_char(c)((#[trigger] chars[j]).0) implies hit1
        == Some(j) by {
        assert(ts[j].0 == c);
    }
    assert forall|j: int|
        0 <= j < ranges.len() && holds_char(c)((#[trigger] ranges[j]).0) implies hit2 == Some(
        j,
    ) by {
        assert(rs[j].start <= c && c <= rs[j].end);
    }
    assert(hit1 matches Some(i) ==> is_char(c)(chars[i].0));
    assert(hit2 matches Some(i) ==> holds_char(c)(ranges[i].0));
    assert forall|j: int|
        0 <= j < ts.len() && guard_holds((#[trigger] char_entries(ts)[j]).0, c) implies hit1
        == Some(j) by {
        assert(seq![ts[j].0].contains(c));
        assert(ts[j].0 == c);
    }
    assert(hit1 matches Some(i) ==> guard_holds(char_entries(ts)[i].0, c)) by {
        if hit1 is Some {
            assert(seq![ts[hit1->0].0][0] == c);
        }
    }
    assert forall|j: int|
        0 <= j < rs.len() && guard_holds((#[trigger] range_entries(rs)[j]).0, c) implies hit2
        == Some(j) by {
        assert(rs[j].start <= c && c <= rs[j].end);
    }
    assert(hit2 matches Some(i) ==> guard_holds(range_entries(rs)[i].0, c)) by {
        if hit2 is Some {
            let i = hit2->0;
            match range_entries(rs)[i].0 {
                GuardView::Ranges(tests) => {
                    assert(tests[0] == range_test(rs[i].start, rs[i].end));
                    assert(tests[0].holds(c));
                },
                _ => {},
            }
        }
    }
    assert forall|a: int| 0 <= a < groups(chars, 0).len() implies (guard_holds(
        (#[trigger] char_guards(groups(chars, 0))[a]).1,
        c,
    ) <==> any_key(groups(chars, 0)[a].1, is_char(c))) by {
        lemma_chars_guard(groups(chars, 0)[a].1, c);
    }
    assert forall|a: int| 0 <= a < groups(ranges, 0).len() implies (guard_holds(
        (#[trigger] range_guards(groups(ranges, 0))[a]).1,
        c,
    ) <==> any_key(groups(ranges, 0)[a].1, holds_char(c))) by {
        lemma_ranges_guard(groups(ranges, 0)[a].1, c);
    }
    lemma_accept_arms(char_entries(ts), 0, c, hit1);
    lemma_main_goto_arms(dfa, chars, char_guards(groups(chars, 0)), fuel, is_char(c), c, hit1);
    lemma_accept_arms(range_entries(rs), 0, c, hit2);
    lemma_main_goto_arms(
        dfa,
        ranges,
        range_guards(groups(ranges, 0)),
        fuel,
        holds_char(c),
        c,
        hit2,
    );
    lemma_picked_concat(a1, g1, c);
    lemma_picked_concat(a1 + g1, a2, c);
    lemma_picked_concat(a1 + g1 + a2, g2, c);
}

/// What going to state `next` comes to in the program: the arm of `next`
/// where it is spliced in, else a jump to its label.
pub open spec fn target_step(dfa: &DFA<Trans>, next: usize, fuel: nat) -> Step {
    if dfa.inlined(next) {
        Step::Inline(state_arm(dfa, next, (fuel - 1) as nat)->0)
    } else {
        Step::Goto(dfa.label(next as int) as usize)
    }
}

/// What a move of the automaton on a character is in the program.
pub open spec fn move_step(dfa: &DFA<Trans>, m: Move, fuel: nat) -> Step {
    match m {
        Move::Goto(next) => target_step(dfa, next, fuel),
        Move::Fire(action) => Step::Fire(action),
        Move::Fail => Step::Fail,
        Move::Finish => Step::Finish,
    }
}

/// What a move of the automaton at the end of the input is in the program.
pub open spec fn end_step(dfa: &DFA<Trans>, m: Move) -> Step {
    match m {
        Move::Goto(next) => Step::Goto(dfa.label(next as int) as usize),
        Move::Fire(action) => Step::Fire(action),
        Move::Fail => Step::Fail,
        Move::Finish => Step::Finish,
    }
}

/// The session of the program that stands for a session of the automaton:
/// its states are labels.
pub open spec fn relabel(dfa: &DFA<Trans>, v: Session<usize>) -> Session<usize> {
    Session {
        state: dfa.label(v.state as int) as usize,
        initial_state: dfa.label(v.initial_state as int) as usize,
        ..v
    }
}

/// Whether the session is done or rests in a state of `dfa` that keeps a
/// label.
pub open spec fn rests(dfa: &DFA<Trans>, v: Session<usize>) -> bool {
    !v.done ==> v.state < dfa.states@.len() && !dfa.inlined(v.state)
}

/// Whether `arms` are the arms of the states of `dfa` that keep a label,
/// each at its label.
pub open spec fn program_of(dfa: &DFA<Trans>, arms: Seq<ArmView>) -> bool {
    &&& arms.len() == dfa.label(dfa.states@.len() as int)
    &&& forall|s: int|
        0 <= s < dfa.states@.len() && !dfa.inlined(s as usize) ==> dfa.label(s) < arms.len()
            && Some(arms[dfa.label(s) as int]) == #[trigger] state_arm(
            dfa,
            s as usize,
            dfa.states@.len(),
        )
}

/// The code for going to a state comes to the arm of the state or to a jump
/// to its label.
proof fn lemma_target_step(
    dfa: &DFA<Trans>,
    next: usize,
    fuel: nat,
    fns: Seq<Seq<RightCtxArmView>>,
    rest: Seq<char>,
    default: Step,
)
    requires
        target_code(dfa, next, fuel) is Some,
    ensures
        code_step(target_code(dfa, next, fuel)->0, fns, rest, default) == target_step(
            dfa,
            next,
            fuel,
        ),
        dfa.inlined(next) ==> fuel > 0 && state_arm(dfa, next, (fuel - 1) as nat) is Some,
{
}

/// The move of a state on a character leads, if it leads on, to a state of
/// the automaton.
proof fn lemma_on_char_bound(
    dfa: &DFA<Trans>,
    s: usize,
    right_ctxs: Seq<DFA<usize>>,
    c: char,
    rest: Seq<char>,
)
    requires
        dfa.targets_in_bounds(),
        s < dfa.states@.len(),
    ensures
        on_char(dfa.states@[s as int], right_ctxs, c, rest) matches Move::Goto(next) ==> next
            < dfa.states@.len(),
        !(on_char(dfa.states@[s as int], right_ctxs, c, rest) is Finish),
{
    let state = dfa.states@[s as int];
    lemma_first_char(state.char_transitions@, c, 0);
    lemma_first_range(state.range_transitions@, c, 0);
    match first_char(state.char_transitions@, c, 0) {
        Some(i) => {
            assert(state.char_transitions@[i].1.goto_of() matches Some(t) ==> t
                < dfa.states@.len());
        },
        None => match first_range(state.range_transitions@, c, 0) {
            Some(i) => {
                assert(state.range_transitions@[i].value.goto_of() matches Some(t) ==> t
                    < dfa.states@.len());
            },
            None => {},
        },
    }
}

/// The arm of a state comes, on a character, to what the state does on it.
pub proof fn lemma_arm_step(
    dfa: &DFA<Trans>,
    right_ctxs: Seq<DFA<usize>>,
    fns: Seq<Seq<RightCtxArmView>>,
    s: usize,
    fuel: nat,
    c: char,
    rest: Seq<char>,
)
    requires
        dfa.unambiguous(),
        s < dfa.states@.len(),
        right_ctxs_compiled(right_ctxs, fns),
        state_arm(dfa, s, fuel) is Some,
    ensures
        arm_step(state_arm(dfa, s, fuel)->0, fns, c, rest) == move_step(
            dfa,
            on_char(dfa.states@[s as int], right_ctxs, c, rest),
            fuel,
        ),
        on_char(dfa.states@[s as int], right_ctxs, c, rest) matches Move::Goto(next) ==> (
        dfa.inlined(next) ==> fuel > 0 && state_arm(dfa, next, (fuel - 1) as nat) is Some),
{
    let state = dfa.states@[s as int];
    let arm = state_arm(dfa, s, fuel)->0;
    let ts = state.char_transitions@;
    let rs = state.range_transitions@;
    lemma_picked(dfa, state, fuel, c);
    let wildcard = match state.any_transition {
        Some(trans) => resolve(trans, right_ctxs, rest, Move::Fail),
        None => Move::Fail,
    };
    let default = code_step(arm.default, fns, rest, Step::Fail);
    assert(default == move_step(dfa, wildcard, fuel) && (wildcard matches Move::Goto(next) ==> (
    dfa.inlined(next) ==> fuel > 0 && state_arm(dfa, next, (fuel - 1) as nat) is Some))) by {
        match state.any_transition {
            Some(Trans::Trans(next)) => {
                lemma_target_step(dfa, next, fuel, fns, rest, Step::Fail);
            },
            Some(Trans::Accept(cands)) => {
                lemma_chosen(cands@, right_ctxs, fns, rest);
            },
            None => {},
        }
    }
    let taken = match first_char(ts, c, 0) {
        Some(i) => Some(ts[i].1),
        None => match first_range(rs, c, 0) {
            Some(i) => Some(rs[i].value),
            None => None,
        },
    };
    assert(picked(arm.char_arms, c) == (match taken {
        Some(trans) => trans_code(dfa, trans, fuel),
        None => None,
    }));
    match taken {
        Some(Trans::Trans(next)) => {
            lemma_target_step(dfa, next, fuel, fns, rest, default);
        },
        Some(Trans::Accept(cands)) => {
            lemma_chosen(cands@, right_ctxs, fns, rest);
        },
        None => {},
    }
}

/// The arm of a state comes, at the end of the input, to what the state
/// does there.
pub proof fn lemma_arm_end_step(
    dfa: &DFA<Trans>,
    right_ctxs: Seq<DFA<usize>>,
    fns: Seq<Seq<RightCtxArmView>>,
    s: usize,
    fuel: nat,
)
    requires
        right_ctxs_compiled(right_ctxs, fns),
        state_arm(dfa, s, fuel) is Some,
    ensures
        arm_end_step(state_arm(dfa, s, fuel)->0, fns) == end_step(
            dfa,
            on_end(s, dfa.states@[s as int], right_ctxs),
        ),
{
    match dfa.states@[s as int].end_of_input_transition {
        Some(Trans::Accept(cands)) => {
            lemma_chosen(cands@, right_ctxs, fns, Seq::<char>::empty());
        },
        _ => {},
    }
}

/// The arm of a state does on entry what the state does.
pub proof fn lemma_arm_entered(
    dfa: &DFA<Trans>,
    right_ctxs: Seq<DFA<usize>>,
    fns: Seq<Seq<RightCtxArmView>>,
    s: usize,
    fuel: nat,
    v: Session<usize>,
)
    requires
        right_ctxs_compiled(right_ctxs, fns),
        state_arm(dfa, s, fuel) is Some,
    ensures
        arm_entered(state_arm(dfa, s, fuel)->0, fns, relabel(dfa, v)) == relabel(
            dfa,
            entered(dfa, right_ctxs, s, v),
        ),
{
    if s != 0 {
        lemma_chosen(dfa.states@[s as int].accepting@, right_ctxs, fns, v.rest());
    }
}

/// Running the arm of a state does to the session what the automaton does
/// from that state, and ends as it does.
pub proof fn lemma_run_arm(
    dfa: &DFA<Trans>,
    right_ctxs: Seq<DFA<usize>>,
    arms: Seq<ArmView>,
    fns: Seq<Seq<RightCtxArmView>>,
    s: usize,
    fuel: nat,
    v: Session<usize>,
)
    requires
        dfa.targets_in_bounds(),
        dfa.unambiguous(),
        right_ctxs_compiled(right_ctxs, fns),
        program_of(dfa, arms),
        s < dfa.states@.len(),
        state_arm(dfa, s, fuel) is Some,
    ensures
        run_arm(arms, fns, state_arm(dfa, s, fuel)->0, relabel(dfa, v)) == (
            relabel(dfa, scan_from(dfa, right_ctxs, s, v).0),
            scan_from(dfa, right_ctxs, s, v).1,
        ),
    decreases v.input.len() - v.pos,
{
    let arm = state_arm(dfa, s, fuel)->0;
    let state = dfa.states@[s as int];
    let v1 = entered(dfa, right_ctxs, s, v);
    lemma_arm_entered(dfa, right_ctxs, fns, s, fuel, v);
    assert(arm_entered(arm, fns, relabel(dfa, v)) == relabel(dfa, v1));
    if v1.pos >= v1.input.len() {
        lemma_arm_end_step(dfa, right_ctxs, fns, s, fuel);
    } else {
        let c = v1.input[v1.pos as int];
        let v2 = v1.read();
        assert(relabel(dfa, v1).read() == relabel(dfa, v2));
        assert(relabel(dfa, v2).rest() == v2.rest());
        lemma_arm_step(dfa, right_ctxs, fns, s, fuel, c, v2.rest());
        lemma_on_char_bound(dfa, s, right_ctxs, c, v2.rest());
        match on_char(state, right_ctxs, c, v2.rest()) {
            Move::Goto(next) => {
                if dfa.inlined(next) {
                    lemma_run_arm(dfa, right_ctxs, arms, fns, next, (fuel - 1) as nat, v2);
                } else {
                    lemma_label_bound(dfa, next as int);
                    let label = dfa.label(next as int) as usize;
                    assert(Some(arms[dfa.label(next as int) as int]) == state_arm(
                        dfa,
                        (next as int) as usize,
                        dfa.states@.len(),
                    ));
                    assert(arm_at(arms, label) == state_arm(dfa, next, dfa.states@.len())->0);
                    let v3 = Session { state: next, ..v2 };
                    assert(relabel(dfa, v3) == Session { state: label, ..relabel(dfa, v2) });
                    lemma_run_arm(dfa, right_ctxs, arms, fns, next, dfa.states@.len(), v3);
                }
            },
            _ => {},
        }
    }
}

/// The dispatch program does what the automaton does. For every session
/// that rests in a state which keeps a label, one run of the program, on
/// the session with labels for states, leaves the session that one scan of
/// the automaton leaves, with labels for states, and ends as the scan ends:
/// with the same semantic action on the same match, with the same error, or
/// at the end of the input.
pub proof fn lemma_program_equivalent(
    dfa: &DFA<Trans>,
    right_ctxs: Seq<DFA<usize>>,
    arms: Seq<ArmView>,
    fns: Seq<Seq<RightCtxArmView>>,
    v: Session<usize>,
)
    requires
        dfa.targets_in_bounds(),
        dfa.unambiguous(),
        right_ctxs_compiled(right_ctxs, fns),
        program_of(dfa, arms),
        rests(dfa, v),
    ensures
        run(arms, fns, relabel(dfa, v)) == (
            relabel(dfa, scan(dfa, right_ctxs, v).0),
            scan(dfa, right_ctxs, v).1,
        ),
{
    if !v.done {
        lemma_label_bound(dfa, v.state as int);
        assert(Some(arms[dfa.label(v.state as int) as int]) == state_arm(
            dfa,
            (v.state as int) as usize,
            dfa.states@.len(),
        ));
        lemma_run_arm(dfa, right_ctxs, arms, fns, v.state, dfa.states@.len(), v);
    }
}

/// What `reify` returns is a program for the automaton: its arms and the
/// code of its right contexts are those that the equivalence is stated of.
pub proof fn lemma_reified(
    dfa: &DFA<Trans>,
    right_ctx_dfas: &RightCtxDFAs,
    arms: Seq<Arm>,
    fns: Seq<Vec<RightCtxArm>>,
)
    requires
        arms_of(dfa, arms),
        right_ctx_fns_of(right_ctx_dfas, fns),
        right_ctx_dfas.wf(),
        right_ctx_dfas.unambiguous(),
    ensures
        program_of(dfa, arm_views(arms)),
        right_ctxs_compiled(right_ctx_dfas.dfas@, right_ctx_fn_views(fns)),
{
    assert forall|s: int|
        0 <= s < dfa.states@.len() && !dfa.inlined(s as usize) implies dfa.label(s) < arm_views(
        arms,
    ).len() && Some(arm_views(arms)[dfa.label(s) as int]) == #[trigger] state_arm(
        dfa,
        s as usize,
        dfa.states@.len(),
    ) by {}
    let views = right_ctx_fn_views(fns);
    assert forall|r: int| 0 <= r < views.len() implies {
        &&& (#[trigger] right_ctx_dfas.dfas@[r]).right_ctx_wf()
        &&& right_ctx_dfas.dfas@[r].unambiguous()
        &&& right_ctx_code_of(&right_ctx_dfas.dfas@[r], views[r])
    } by {
        let dfa_r = &right_ctx_dfas.dfas@[r];
        assert(right_ctx_arms_of(dfa_r, fns[r]@));
        assert forall|s: int| 0 <= s < views[r].len() implies #[trigger] views[r][s]
            == right_ctx_state_arm(dfa_r, dfa_r.states@[s]) by {
            assert(fns[r]@[s]@ == right_ctx_state_arm(dfa_r, dfa_r.states@[s]));
        }
    }
}

} // verus!
