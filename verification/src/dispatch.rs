//! The dispatch program that an automaton is compiled into: one arm for each
//! state that keeps a label, with the states that have a single predecessor
//! spliced into the arms that lead to them, and one guard for all the
//! characters or ranges that lead the same way.

use crate::engine::{failed, Event};
use crate::lexer::Session;
use crate::right_ctx::accepts;
use crate::search_table::in_ranges;
use vstd::prelude::*;

verus! {

/// A test of the character just read against one range.
#[derive(Debug, Clone, Copy, PartialEq, Eq, Structural)]
pub enum RangeTest {
    /// The character is this one.
    Is(char),
    /// The character is between these two, both included.
    Within(char, char),
}

impl RangeTest {
    /// The first character of the range.
    pub open spec fn start(self) -> char {
        match self {
            RangeTest::Is(c) => c,
            RangeTest::Within(start, _) => start,
        }
    }

    /// The last character of the range.
    pub open spec fn end(self) -> char {
        match self {
            RangeTest::Is(c) => c,
            RangeTest::Within(_, end) => end,
        }
    }

    /// Whether the test holds of `c`.
    pub open spec fn holds(self, c: char) -> bool {
        self.start() <= c && c <= self.end()
    }
}

/// A test of the character just read.
#[derive(Debug, Clone, PartialEq, Eq)]
pub enum Guard {
    /// It is one of these characters.
    Chars(Vec<char>),
    /// One of these tests holds of it; they are tried one after another.
    Ranges(Vec<RangeTest>),
    /// It is in one of these ranges; the table is searched by bisection.
    Search(Vec<(char, char)>),
}

/// What follows where no candidate of a list can be chosen.
#[derive(Debug, Clone, Copy, PartialEq, Eq, Structural)]
pub enum Otherwise {
    /// What the arm does on a character that no guard holds of.
    Default,
    /// Fall back to the remembered candidate.
    Fail,
    /// No more tokens.
    Finish,
}

/// An ordered choice among accepting candidates: each alternative is a right
/// context and the semantic action that it guards; the default is the action
/// without a guard.
#[derive(Debug, Clone, PartialEq, Eq)]
pub struct Candidates {
    pub alts: Vec<(usize, usize)>,
    pub default: Option<usize>,
}

/// What an arm does once it has read a character, or found none.
#[derive(Debug)]
pub enum Code {
    /// Go on in the arm with this label.
    Goto(usize),
    /// Go on here with the arm of a state that has no label of its own.
    Inline(Box<Arm>),
    /// Run the semantic action of the candidate that is chosen; without one,
    /// do what the second field says.
    Select(Candidates, Otherwise),
    /// Fall back to the remembered candidate.
    Fail,
    /// No more tokens.
    Finish,
}

/// One alternative of an arm: what to do where the guard holds.
#[derive(Debug, Clone, PartialEq, Eq)]
pub struct CharArm<C> {
    pub guard: Guard,
    pub code: C,
}

/// The code of one state.
#[derive(Debug)]
pub struct Arm {
    /// Whether the arm starts a new match on entry.
    pub reset_match: bool,
    /// The candidates of which the arm remembers the chosen one on entry.
    pub remember: Candidates,
    /// What the arm does at the end of the input.
    pub on_end: Code,
    /// What the arm does on a character: the first alternative whose guard
    /// holds.
    pub char_arms: Vec<CharArm<Code>>,
    /// What the arm does on a character that no guard holds of.
    pub default: Code,
}

/// A guard as a plain value.
pub enum GuardView {
    Chars(Seq<char>),
    Ranges(Seq<RangeTest>),
    Search(Seq<(char, char)>),
}

/// An ordered choice as a plain value.
pub struct CandidatesView {
    pub alts: Seq<(usize, usize)>,
    pub default: Option<usize>,
}

/// Code as a plain value.
pub enum CodeView {
    Goto(usize),
    Inline(Box<ArmView>),
    Select(CandidatesView, Otherwise),
    Fail,
    Finish,
}

/// An alternative as a plain value.
pub struct CharArmView<C> {
    pub guard: GuardView,
    pub code: C,
}

/// An arm as a plain value.
pub struct ArmView {
    pub reset_match: bool,
    pub remember: CandidatesView,
    pub on_end: CodeView,
    pub char_arms: Seq<CharArmView<CodeView>>,
    pub default: CodeView,
}

impl Guard {
    pub open spec fn view(&self) -> GuardView {
        match self {
            Guard::Chars(chars) => GuardView::Chars(chars@),
            Guard::Ranges(tests) => GuardView::Ranges(tests@),
            Guard::Search(table) => GuardView::Search(table@),
        }
    }
}

impl Candidates {
    pub open spec fn view(&self) -> CandidatesView {
        CandidatesView { alts: self.alts@, default: self.default }
    }
}

impl Code {
    pub open spec fn view(&self) -> CodeView
        decreases self,
    {
        match self {
            Code::Goto(label) => CodeView::Goto(*label),
            Code::Inline(arm) => CodeView::Inline(Box::new(arm.view())),
            Code::Select(cands, otherwise) => CodeView::Select(cands@, *otherwise),
            Code::Fail => CodeView::Fail,
            Code::Finish => CodeView::Finish,
        }
    }
}

impl CharArm<Code> {
    pub open spec fn view(&self) -> CharArmView<CodeView>
        decreases self,
    {
        CharArmView { guard: self.guard@, code: self.code.view() }
    }
}

impl Arm {
    pub open spec fn view(&self) -> ArmView
        decreases self,
    {
        ArmView {
            reset_match: self.reset_match,
            remember: self.remember@,
            on_end: self.on_end.view(),
            char_arms: Seq::new(
                self.char_arms@.len(),
                |i: int|
                    if 0 <= i < self.char_arms@.len() {
                        self.char_arms@[i].view()
                    } else {
                        CharArmView { guard: GuardView::Chars(Seq::empty()), code: CodeView::Fail }
                    },
            ),
            default: self.default.view(),
        }
    }
}

/// The views of the arms of a program, by label.
pub open spec fn arm_views(arms: Seq<Arm>) -> Seq<ArmView> {
    Seq::new(arms.len(), |i: int| arms[i].view())
}

/// What an arm of a right context does once it has read a character, or
/// found none.
#[derive(Debug, Clone, Copy, PartialEq, Eq, Structural)]
pub enum RightCtxCode {
    /// Go on in this state.
    Goto(usize),
    /// The right context holds.
    True,
    /// The right context does not hold.
    False,
}

/// The code of one state of a right context.
#[derive(Debug, Clone, PartialEq, Eq)]
pub enum RightCtxArm {
    /// The state accepts: the right context holds.
    Accept,
    /// The state reads a character.
    Match {
        /// What the arm does at the end of the input.
        on_end: RightCtxCode,
        /// What it does on a character: the first alternative whose guard
        /// holds.
        char_arms: Vec<CharArm<RightCtxCode>>,
        /// What it does on a character that no guard holds of.
        default: RightCtxCode,
    },
}

/// An arm of a right context as a plain value.
pub enum RightCtxArmView {
    Accept,
    Match {
        on_end: RightCtxCode,
        char_arms: Seq<CharArmView<RightCtxCode>>,
        default: RightCtxCode,
    },
}

impl CharArm<RightCtxCode> {
    pub open spec fn view(&self) -> CharArmView<RightCtxCode> {
        CharArmView { guard: self.guard@, code: self.code }
    }
}

/// The views of alternatives of a right context.
pub open spec fn right_ctx_char_arm_views(arms: Seq<CharArm<RightCtxCode>>) -> Seq<
    CharArmView<RightCtxCode>,
> {
    Seq::new(arms.len(), |i: int| arms[i]@)
}

impl RightCtxArm {
    pub open spec fn view(&self) -> RightCtxArmView {
        match self {
            RightCtxArm::Accept => RightCtxArmView::Accept,
            RightCtxArm::Match { on_end, char_arms, default } => RightCtxArmView::Match {
                on_end: *on_end,
                char_arms: right_ctx_char_arm_views(char_arms@),
                default: *default,
            },
        }
    }
}

/// The views of the arms of a right context, by state.
pub open spec fn right_ctx_arm_views(arms: Seq<RightCtxArm>) -> Seq<RightCtxArmView> {
    Seq::new(arms.len(), |i: int| arms[i]@)
}

/// A dispatch program: the arms of the main automaton by label, the label at
/// which each rule set starts, and the arms of each right context by state.
#[derive(Debug)]
pub struct Program {
    pub arms: Vec<Arm>,
    pub rules: Vec<(String, usize)>,
    pub right_ctxs: Vec<Vec<RightCtxArm>>,
}

/// Whether the guard holds of `c`.
pub open spec fn guard_holds(guard: GuardView, c: char) -> bool {
    match guard {
        GuardView::Chars(chars) => chars.contains(c),
        GuardView::Ranges(tests) => exists|i: int|
            0 <= i < tests.len() && (#[trigger] tests[i]).holds(c),
        GuardView::Search(table) => in_ranges(table, c),
    }
}

/// The arm that runs in state `s`: the last arm stands for every state from
/// its own on.
pub open spec fn right_ctx_arm_at(arms: Seq<RightCtxArmView>, s: usize) -> RightCtxArmView {
    if s < arms.len() {
        arms[s as int]
    } else {
        arms.last()
    }
}

/// What the code of a right context says in state `s` with `rest` ahead. At
/// the end of the input it takes at most `fuel` steps.
pub open spec fn right_ctx_run(
    arms: Seq<RightCtxArmView>,
    s: usize,
    rest: Seq<char>,
    fuel: nat,
) -> bool
    decreases rest.len(), fuel,
{
    match right_ctx_arm_at(arms, s) {
        RightCtxArmView::Accept => true,
        RightCtxArmView::Match { on_end, char_arms, default } => {
            if rest.len() == 0 {
                match on_end {
                    RightCtxCode::Goto(next) => fuel > 0 && right_ctx_run(
                        arms,
                        next,
                        rest,
                        (fuel - 1) as nat,
                    ),
                    RightCtxCode::True => true,
                    RightCtxCode::False => false,
                }
            } else {
                let code = match first_arm(char_arms, rest[0], 0) {
                    Some(i) => char_arms[i].code,
                    None => default,
                };
                match code {
                    RightCtxCode::Goto(next) => right_ctx_run(arms, next, rest.drop_first(), fuel),
                    RightCtxCode::True => true,
                    RightCtxCode::False => false,
                }
            }
        },
    }
}

/// Whether the code of a right context says that it holds of `rest`.
pub open spec fn right_ctx_holds(arms: Seq<RightCtxArmView>, rest: Seq<char>) -> bool {
    right_ctx_run(arms, 0, rest, arms.len())
}

/// The index of the first alternative of `alts` at or after `from` whose
/// right context holds of `rest`.
pub open spec fn first_alt(
    alts: Seq<(usize, usize)>,
    fns: Seq<Seq<RightCtxArmView>>,
    rest: Seq<char>,
    from: int,
) -> Option<int>
    decreases alts.len() - from,
{
    if from < 0 || from >= alts.len() {
        None
    } else if alts[from].0 < fns.len() && right_ctx_holds(fns[alts[from].0 as int], rest) {
        Some(from)
    } else {
        first_alt(alts, fns, rest, from + 1)
    }
}

/// The semantic action that an ordered choice gives with `rest` ahead: that
/// of the first alternative whose right context holds, else the default.
pub open spec fn chosen(
    cands: CandidatesView,
    fns: Seq<Seq<RightCtxArmView>>,
    rest: Seq<char>,
) -> Option<usize> {
    match first_alt(cands.alts, fns, rest, 0) {
        Some(i) => Some(cands.alts[i].1),
        None => cands.default,
    }
}

/// The index of the first alternative at or after `from` whose guard holds of
/// `c`.
pub open spec fn first_arm<C>(arms: Seq<CharArmView<C>>, c: char, from: int) -> Option<int>
    decreases arms.len() - from,
{
    if from < 0 || from >= arms.len() {
        None
    } else if guard_holds(arms[from].guard, c) {
        Some(from)
    } else {
        first_arm(arms, c, from + 1)
    }
}

/// What a piece of code comes to.
pub enum Step {
    /// Go on in the arm with this label.
    Goto(usize),
    /// Go on in this arm, which has no label.
    Inline(ArmView),
    /// Run this semantic action.
    Fire(usize),
    /// Fall back to the remembered candidate.
    Fail,
    /// No more tokens.
    Finish,
}

/// What `code` comes to with `rest` ahead, where `default` is what the arm
/// comes to on a character that no guard holds of.
pub open spec fn code_step(
    code: CodeView,
    fns: Seq<Seq<RightCtxArmView>>,
    rest: Seq<char>,
    default: Step,
) -> Step {
    match code {
        CodeView::Goto(label) => Step::Goto(label),
        CodeView::Inline(arm) => Step::Inline(*arm),
        CodeView::Select(cands, otherwise) => match chosen(cands, fns, rest) {
            Some(action) => Step::Fire(action),
            None => match otherwise {
                Otherwise::Default => default,
                Otherwise::Fail => Step::Fail,
                Otherwise::Finish => Step::Finish,
            },
        },
        CodeView::Fail => Step::Fail,
        CodeView::Finish => Step::Finish,
    }
}

/// What the arm comes to on the character `c`, read with `rest` after it.
pub open spec fn arm_step(
    arm: ArmView,
    fns: Seq<Seq<RightCtxArmView>>,
    c: char,
    rest: Seq<char>,
) -> Step {
    let default = code_step(arm.default, fns, rest, Step::Fail);
    match first_arm(arm.char_arms, c, 0) {
        Some(i) => code_step(arm.char_arms[i].code, fns, rest, default),
        None => default,
    }
}

/// What the arm comes to at the end of the input.
pub open spec fn arm_end_step(arm: ArmView, fns: Seq<Seq<RightCtxArmView>>) -> Step {
    code_step(arm.on_end, fns, Seq::<char>::empty(), Step::Fail)
}

/// The session on entering the arm.
pub open spec fn arm_entered(
    arm: ArmView,
    fns: Seq<Seq<RightCtxArmView>>,
    v: Session<usize>,
) -> Session<usize> {
    if arm.reset_match {
        v.restarted()
    } else {
        match chosen(arm.remember, fns, v.rest()) {
            Some(action) => v.remembering(action),
            None => v,
        }
    }
}

/// The arm with label `label`: the last arm stands for every label from its
/// own on.
pub open spec fn arm_at(arms: Seq<ArmView>, label: usize) -> ArmView {
    if label < arms.len() {
        arms[label as int]
    } else {
        arms.last()
    }
}

/// What running `arm` does to a session, and how it ends.
pub open spec fn run_arm(
    arms: Seq<ArmView>,
    fns: Seq<Seq<RightCtxArmView>>,
    arm: ArmView,
    v: Session<usize>,
) -> (Session<usize>, Event)
    decreases v.input.len() - v.pos,
{
    let v1 = arm_entered(arm, fns, v);
    if v1.pos >= v1.input.len() {
        let v2 = Session { done: true, ..v1 };
        match arm_end_step(arm, fns) {
            Step::Goto(label) => (Session { state: label, ..v2 }, Event::EndOfInput),
            Step::Inline(_) => (v2, Event::EndOfInput),
            Step::Fire(action) => (v2.forgetting(), Event::Action(action)),
            Step::Fail => failed(v2),
            Step::Finish => (v2, Event::EndOfInput),
        }
    } else {
        let c = v1.input[v1.pos as int];
        let v2 = v1.read();
        match arm_step(arm, fns, c, v2.rest()) {
            Step::Goto(label) => run_arm(
                arms,
                fns,
                arm_at(arms, label),
                Session { state: label, ..v2 },
            ),
            Step::Inline(inner) => run_arm(arms, fns, inner, v2),
            Step::Fire(action) => (v2.forgetting(), Event::Action(action)),
            Step::Fail => failed(v2),
            Step::Finish => (v2, Event::EndOfInput),
        }
    }
}

/// What one run of the program does to a session whose state is a label,
/// and how it ends.
pub open spec fn run(arms: Seq<ArmView>, fns: Seq<Seq<RightCtxArmView>>, v: Session<usize>) -> (
    Session<usize>,
    Event,
) {
    if v.done {
        (v, Event::EndOfInput)
    } else {
        run_arm(arms, fns, arm_at(arms, v.state), v)
    }
}

/// The views of the code of the right contexts, by right context.
pub open spec fn right_ctx_fn_views(fns: Seq<Vec<RightCtxArm>>) -> Seq<Seq<RightCtxArmView>> {
    Seq::new(fns.len(), |r: int| right_ctx_arm_views(fns[r]@))
}

} // verus!
