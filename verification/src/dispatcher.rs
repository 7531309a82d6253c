//! The execution of a dispatch program on a session.

use crate::dispatch::{
    arm_at, arm_step, arm_views, chosen, code_step, first_alt, first_arm, guard_holds,
    right_ctx_arm_at, right_ctx_arm_views, right_ctx_fn_views, right_ctx_holds, right_ctx_run, run,
    run_arm, Arm, ArmView, Candidates, CharArm, CharArmView, Code, Guard, GuardView, Otherwise,
    Program, RangeTest, RightCtxArm, RightCtxArmView, RightCtxCode, Step,
};
use crate::engine::Scan;
use crate::lexer::Lexer;
use crate::search_table::{binary_search, sorted_ranges};
use crate::text::split_first;
use vstd::prelude::*;

verus! {

impl RangeTest {
    /// Whether the test holds of `c`.
    pub fn test(self, c: char) -> (b: bool)
        ensures
            b == self.holds(c),
    {
        match self {
            RangeTest::Is(only) => c == only,
            RangeTest::Within(start, end) => start <= c && c <= end,
        }
    }
}

impl Guard {
    /// Whether the guard can be tested: its search table, if it has one, is
    /// sorted.
    pub open spec fn wf(&self) -> bool {
        match self {
            Guard::Search(table) => sorted_ranges(table@),
            _ => true,
        }
    }

    /// Whether the guard holds of `c`.
    pub fn test(&self, c: char) -> (b: bool)
        requires
            self.wf(),
        ensures
            b == guard_holds(self@, c),
    {
        match self {
            Guard::Chars(chars) => {
                let mut i: usize = 0;
                while i < chars.len()
                    invariant
                        self@ == GuardView::Chars(chars@),
                        i <= chars@.len(),
                        forall|j: int| 0 <= j < i ==> chars@[j] != c,
                    decreases chars@.len() - i,
                {
                    if chars[i] == c {
                        assert(chars@[i as int] == c);
                        return true;
                    }
                    i += 1;
                }
                false
            },
            Guard::Ranges(tests) => {
                let mut i: usize = 0;
                while i < tests.len()
                    invariant
                        self@ == GuardView::Ranges(tests@),
                        i <= tests@.len(),
                        forall|j: int| 0 <= j < i ==> !(#[trigger] tests@[j]).holds(c),
                    decreases tests@.len() - i,
                {
                    if tests[i].test(c) {
                        let ghost seen = tests@;
                        let ghost guard = GuardView::Ranges(seen);
                        assert(seen[i as int].holds(c));
                        assert(guard->Ranges_0 == seen);
                        assert(guard_holds(guard, c) == (exists|k: int|
                            0 <= k < seen.len() && (#[trigger] seen[k]).holds(c)));
                        return true;
                    }
                    i += 1;
                }
                false
            },
            Guard::Search(table) => binary_search(c, table.as_slice()),
        }
    }
}

impl Code {
    /// Whether every guard in the code can be tested.
    pub open spec fn wf(&self) -> bool
        decreases self,
    {
        match self {
            Code::Inline(arm) => arm.wf(),
            _ => true,
        }
    }
}

impl Arm {
    /// Whether every guard in the arm can be tested.
    pub open spec fn wf(&self) -> bool
        decreases self,
    {
        &&& self.on_end.wf()
        &&& self.default.wf()
        &&& forall|i: int|
            0 <= i < self.char_arms@.len() ==> (#[trigger] self.char_arms@[i]).guard.wf()
                && self.char_arms@[i].code.wf()
    }
}

impl RightCtxArm {
    /// Whether every guard in the arm can be tested.
    pub open spec fn wf(&self) -> bool {
        match self {
            RightCtxArm::Accept => true,
            RightCtxArm::Match { char_arms, .. } => forall|i: int|
                0 <= i < char_arms@.len() ==> (#[trigger] char_arms@[i]).guard.wf(),
        }
    }
}

impl Program {
    /// Whether the program can be run: it has an arm, every right context
    /// has one, and every guard can be tested.
    pub open spec fn wf(&self) -> bool {
        &&& self.arms@.len() > 0
        &&& forall|l: int| 0 <= l < self.arms@.len() ==> (#[trigger] self.arms@[l]).wf()
        &&& right_ctx_fns_wf(self.right_ctxs@)
    }

    /// The views of the arms.
    pub open spec fn arms(&self) -> Seq<ArmView> {
        arm_views(self.arms@)
    }

    /// The views of the code of the right contexts.
    pub open spec fn fns(&self) -> Seq<Seq<RightCtxArmView>> {
        right_ctx_fn_views(self.right_ctxs@)
    }
}

/// Whether the code of a right context can be run.
pub open spec fn right_ctx_fn_wf(arms: Seq<RightCtxArm>) -> bool {
    &&& arms.len() > 0
    &&& forall|s: int| 0 <= s < arms.len() ==> (#[trigger] arms[s]).wf()
}

/// The index of the first alternative whose guard holds of `c`.
fn pick<C>(arms: &Vec<CharArm<C>>, c: char) -> (found: Option<usize>)
    requires
        forall|i: int| 0 <= i < arms@.len() ==> (#[trigger] arms@[i]).guard.wf(),
    ensures
        match found {
            Some(i) => {
                &&& i < arms@.len()
                &&& guard_holds(arms@[i as int].guard@, c)
                &&& forall|j: int| 0 <= j < i ==> !guard_holds((#[trigger] arms@[j]).guard@, c)
            },
            None => forall|j: int|
                0 <= j < arms@.len() ==> !guard_holds((#[trigger] arms@[j]).guard@, c),
        },
{
    let mut i: usize = 0;
    while i < arms.len()
        invariant
            i <= arms@.len(),
            forall|i: int| 0 <= i < arms@.len() ==> (#[trigger] arms@[i]).guard.wf(),
            forall|j: int| 0 <= j < i ==> !guard_holds((#[trigger] arms@[j]).guard@, c),
        decreases arms@.len() - i,
    {
        if arms[i].guard.test(c) {
            return Some(i);
        }
        i += 1;
    }
    None
}

/// The first alternative whose guard holds is the one before which none
/// holds.
proof fn lemma_first_arm_is<C>(arms: Seq<CharArmView<C>>, c: char, found: Option<int>, from: int)
    requires
        0 <= from,
        match found {
            Some(i) => {
                &&& from <= i < arms.len()
                &&& guard_holds(arms[i].guard, c)
                &&& forall|j: int| from <= j < i ==> !guard_holds((#[trigger] arms[j]).guard, c)
            },
            None => forall|j: int|
                from <= j < arms.len() ==> !guard_holds((#[trigger] arms[j]).guard, c),
        },
    ensures
        first_arm(arms, c, from) == found,
    decreases arms.len() - from,
{
    if from < arms.len() && !guard_holds(arms[from].guard, c) {
        lemma_first_arm_is(arms, c, found, from + 1);
    }
}

/// Whether the code of a right context says that it holds of `rest`.
pub fn run_right_ctx(arms: &Vec<RightCtxArm>, rest: &str) -> (found: bool)
    requires
        right_ctx_fn_wf(arms@),
    ensures
        found == right_ctx_holds(right_ctx_arm_views(arms@), rest@),
{
    let ghost views = right_ctx_arm_views(arms@);
    let mut s: usize = 0;
    let mut ahead = rest;
    let mut fuel: usize = arms.len();
    loop
        invariant
            right_ctx_fn_wf(arms@),
            views == right_ctx_arm_views(arms@),
            right_ctx_holds(views, rest@) == right_ctx_run(views, s, ahead@, fuel as nat),
        decreases ahead@.len(), fuel,
    {
        let arm = if s < arms.len() {
            &arms[s]
        } else {
            &arms[arms.len() - 1]
        };
        assert(arm@ == right_ctx_arm_at(views, s));
        match arm {
            RightCtxArm::Accept => {
                return true;
            },
            RightCtxArm::Match { on_end, char_arms, default } => {
                let code = match split_first(ahead) {
                    None => {
                        if fuel == 0 {
                            return match on_end {
                                RightCtxCode::True => true,
                                _ => false,
                            };
                        }
                        fuel -= 1;
                        *on_end
                    },
                    Some((c, tail)) => {
                        let found = pick(char_arms, c);
                        proof {
                            let alternatives = arm@->char_arms;
                            assert forall|j: int| 0 <= j < alternatives.len() implies (
                            #[trigger] alternatives[j]).guard == char_arms@[j].guard@ by {}
                            lemma_first_arm_is(
                                alternatives,
                                c,
                                match found {
                                    Some(i) => Some(i as int),
                                    None => None,
                                },
                                0,
                            );
                        }
                        let code = match found {
                            Some(i) => char_arms[i].code,
                            None => *default,
                        };
                        ahead = tail;
                        code
                    },
                };
                match code {
                    RightCtxCode::Goto(next) => {
                        s = next;
                    },
                    RightCtxCode::True => {
                        return true;
                    },
                    RightCtxCode::False => {
                        return false;
                    },
                }
            },
        }
    }
}

/// What a piece of code comes to, with the arm to go on in by reference.
#[derive(Clone, Copy)]
pub enum Next<'a> {
    /// Go on in the arm with this label.
    Goto(usize),
    /// Go on in this arm, which has no label.
    Inline(&'a Arm),
    /// Run this semantic action.
    Fire(usize),
    /// Fall back to the remembered candidate.
    Fail,
    /// No more tokens.
    Finish,
}

impl<'a> Next<'a> {
    pub open spec fn view(&self) -> Step {
        match self {
            Next::Goto(label) => Step::Goto(*label),
            Next::Inline(arm) => Step::Inline(arm@),
            Next::Fire(action) => Step::Fire(*action),
            Next::Fail => Step::Fail,
            Next::Finish => Step::Finish,
        }
    }

    /// Whether the arm to go on in, if there is one, can be run.
    pub open spec fn wf(&self) -> bool {
        match self {
            Next::Inline(arm) => arm.wf(),
            _ => true,
        }
    }
}

/// Whether every right context of `fns` can be run.
pub open spec fn right_ctx_fns_wf(fns: Seq<Vec<RightCtxArm>>) -> bool {
    forall|r: int| 0 <= r < fns.len() ==> right_ctx_fn_wf((#[trigger] fns[r])@)
}

/// The semantic action that an ordered choice gives with `rest` ahead.
pub fn choose_action(cands: &Candidates, fns: &Vec<Vec<RightCtxArm>>, rest: &str) -> (action: Option<usize>)
    requires
        right_ctx_fns_wf(fns@),
    ensures
        action == chosen(cands@, right_ctx_fn_views(fns@), rest@),
{
    let ghost views = right_ctx_fn_views(fns@);
    let mut i: usize = 0;
    while i < cands.alts.len()
        invariant
            right_ctx_fns_wf(fns@),
            views == right_ctx_fn_views(fns@),
            i <= cands.alts@.len(),
            first_alt(cands.alts@, views, rest@, 0) == first_alt(cands.alts@, views, rest@, i as int),
        decreases cands.alts@.len() - i,
    {
        let (r, action) = cands.alts[i];
        if r < fns.len() {
            if run_right_ctx(&fns[r], rest) {
                return Some(action);
            }
        }
        i += 1;
    }
    cands.default
}

/// What `code` comes to with `rest` ahead, where nothing follows it.
fn code_next<'a>(code: &'a Code, fns: &Vec<Vec<RightCtxArm>>, rest: &str) -> (next: Next<'a>)
    requires
        right_ctx_fns_wf(fns@),
        code.wf(),
    ensures
        next@ == code_step(code@, right_ctx_fn_views(fns@), rest@, Step::Fail),
        next.wf(),
{
    match code {
        Code::Goto(label) => Next::Goto(*label),
        Code::Inline(arm) => Next::Inline(arm),
        Code::Select(cands, otherwise) => match choose_action(cands, fns, rest) {
            Some(action) => Next::Fire(action),
            None => match otherwise {
                Otherwise::Finish => Next::Finish,
                _ => Next::Fail,
            },
        },
        Code::Fail => Next::Fail,
        Code::Finish => Next::Finish,
    }
}

/// What the arm comes to on the character `c`, read with `rest` after it.
fn arm_next<'a>(arm: &'a Arm, fns: &Vec<Vec<RightCtxArm>>, c: char, rest: &str) -> (next: Next<'a>)
    requires
        right_ctx_fns_wf(fns@),
        arm.wf(),
    ensures
        next@ == arm_step(arm@, right_ctx_fn_views(fns@), c, rest@),
        next.wf(),
{
    let found = pick(&arm.char_arms, c);
    proof {
        let alternatives = arm@.char_arms;
        assert forall|j: int| 0 <= j < alternatives.len() implies (#[trigger] alternatives[j]).guard
            == arm.char_arms@[j].guard@ by {}
        lemma_first_arm_is(
            alternatives,
            c,
            match found {
                Some(i) => Some(i as int),
                None => None,
            },
            0,
        );
    }
    match found {
        Some(i) => {
            let code = &arm.char_arms[i].code;
            assert(arm@.char_arms[i as int].code == code@);
            match code {
                Code::Select(cands, Otherwise::Default) => match choose_action(cands, fns, rest) {
                    Some(action) => Next::Fire(action),
                    None => code_next(&arm.default, fns, rest),
                },
                _ => code_next(code, fns, rest),
            }
        },
        None => code_next(&arm.default, fns, rest),
    }
}

/// The arm with label `label`.
fn program_arm(program: &Program, label: usize) -> (arm: &Arm)
    requires
        program.wf(),
    ensures
        arm@ == arm_at(program.arms(), label),
        arm.wf(),
{
    if label < program.arms.len() {
        &program.arms[label]
    } else {
        &program.arms[program.arms.len() - 1]
    }
}

impl<'input, S> Lexer<'input, usize, S> {
    /// Runs the program from the label that the session is at until a
    /// semantic action is to be run, the input ends, or nothing matches.
    ///
    /// The caller runs the action and hands what it returns to `finish`, as
    /// after a scan.
    pub fn dispatch<E>(&mut self, program: &Program) -> (scan: Scan<E>)
        requires
            old(self).wf(),
            program.wf(),
        ensures
            final(self).wf(),
            (final(self)@, scan.event()) == run(program.arms(), program.fns(), old(self)@),
            final(self).user() == old(self).user(),
            scan matches Scan::Error(e) ==> e.kind is InvalidToken && e.location == final(self).start_loc(),
    {
        if self.__done {
            return Scan::EndOfInput;
        }
        let mut arm: &Arm = program_arm(program, self.__state);
        loop
            invariant
                self.wf(),
                program.wf(),
                arm.wf(),
                !self@.done,
                self.user() == old(self).user(),
                run(program.arms(), program.fns(), old(self)@) == run_arm(
                    program.arms(),
                    program.fns(),
                    arm@,
                    self@,
                ),
            decreases self@.input.len() - self@.pos,
        {
            if arm.reset_match {
                self.reset_match();
            } else {
                match choose_action(&arm.remember, &program.right_ctxs, self.remaining()) {
                    Some(action) => self.set_accepting_state(action),
                    None => {},
                }
            }
            match self.next() {
                None => {
                    self.__done = true;
                    proof {
                        reveal_strlit("");
                        assert(""@ =~= Seq::<char>::empty());
                    }
                    match code_next(&arm.on_end, &program.right_ctxs, "") {
                        Next::Goto(label) => {
                            self.__state = label;
                            return Scan::EndOfInput;
                        },
                        Next::Inline(_) => {
                            return Scan::EndOfInput;
                        },
                        Next::Fire(action) => {
                            self.reset_accepting_state();
                            return Scan::Action(action);
                        },
                        Next::Fail => {
                            return self.fail();
                        },
                        Next::Finish => {
                            return Scan::EndOfInput;
                        },
                    }
                },
                Some(c) => {
                    match arm_next(arm, &program.right_ctxs, c, self.remaining()) {
                        Next::Goto(label) => {
                            self.__state = label;
                            arm = program_arm(program, label);
                        },
                        Next::Inline(inner) => {
                            arm = inner;
                        },
                        Next::Fire(action) => {
                            self.reset_accepting_state();
                            return Scan::Action(action);
                        },
                        Next::Fail => {
                            return self.fail();
                        },
                        Next::Finish => {
                            return Scan::EndOfInput;
                        },
                    }
                },
            }
        }
    }
}

} // verus!
