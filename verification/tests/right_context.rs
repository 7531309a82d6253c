use lexgen_util::dfa::{AcceptingState, Range, State, DFA};
use lexgen_util::right_ctx::{right_ctx_matches, select_candidate, RightCtxDFAs};

fn state(
    chars: Vec<(char, usize)>,
    ranges: Vec<(char, char, usize)>,
    any: Option<usize>,
    end: Option<usize>,
    accepting: bool,
) -> State<usize> {
    State {
        initial: false,
        char_transitions: chars,
        range_transitions: ranges
            .into_iter()
            .map(|(start, end, value)| Range { start, end, value })
            .collect(),
        any_transition: any,
        end_of_input_transition: end,
        accepting: if accepting {
            vec![AcceptingState { value: 0, right_ctx: None }]
        } else {
            vec![]
        },
        predecessors: 1,
    }
}

/// Holds of a text that starts with `c`.
fn followed_by(c: char) -> DFA<usize> {
    DFA {
        states: vec![
            state(vec![(c, 1)], vec![], None, None, false),
            state(vec![], vec![], None, None, true),
        ],
    }
}

/// Holds of a text that starts with a digit and then a letter.
fn digit_letter() -> DFA<usize> {
    DFA {
        states: vec![
            state(vec![], vec![('0', '9', 1)], None, None, false),
            state(vec![], vec![('A', 'Z', 2), ('a', 'z', 2)], None, None, false),
            state(vec![], vec![], None, None, true),
        ],
    }
}

/// Holds at the end of the input, and before a space.
fn end_or_space() -> DFA<usize> {
    DFA {
        states: vec![
            state(vec![(' ', 1)], vec![], None, Some(1), false),
            state(vec![], vec![], None, None, true),
        ],
    }
}

#[test]
fn right_context_holds_on_its_character() {
    assert!(right_ctx_matches(&followed_by('B'), "B"));
    assert!(right_ctx_matches(&followed_by('B'), "Bxyz"));
}

#[test]
fn right_context_fails_on_another_character() {
    assert!(!right_ctx_matches(&followed_by('B'), "C"));
    assert!(!right_ctx_matches(&followed_by('B'), "AB"));
}

#[test]
fn right_context_fails_at_the_end_of_the_input() {
    assert!(!right_ctx_matches(&followed_by('B'), ""));
}

#[test]
fn right_context_follows_ranges() {
    let dfa = digit_letter();
    assert!(right_ctx_matches(&dfa, "7x"));
    assert!(right_ctx_matches(&dfa, "0Z and more"));
    assert!(!right_ctx_matches(&dfa, "77"));
    assert!(!right_ctx_matches(&dfa, "x7"));
    assert!(!right_ctx_matches(&dfa, "7"));
}

#[test]
fn right_context_follows_the_end_of_input_transition() {
    let dfa = end_or_space();
    assert!(right_ctx_matches(&dfa, ""));
    assert!(right_ctx_matches(&dfa, " x"));
    assert!(!right_ctx_matches(&dfa, "x"));
}

#[test]
fn right_context_with_an_accepting_first_state_always_holds() {
    let dfa = DFA { states: vec![state(vec![], vec![], None, None, true)] };
    assert!(right_ctx_matches(&dfa, ""));
    assert!(right_ctx_matches(&dfa, "anything"));
}

#[test]
fn right_context_wildcard_takes_any_character() {
    let dfa = DFA {
        states: vec![
            state(vec![('x', 0)], vec![], Some(1), None, false),
            state(vec![], vec![], None, None, true),
        ],
    };
    assert!(right_ctx_matches(&dfa, "xxxy"));
    assert!(right_ctx_matches(&dfa, "q"));
    assert!(!right_ctx_matches(&dfa, "xxx"));
}

#[test]
fn right_context_exact_character_comes_before_range() {
    // 'b' alone leads nowhere good; the range a-z leads to acceptance.
    let dfa = DFA {
        states: vec![
            state(vec![('b', 2)], vec![('a', 'z', 1)], None, None, false),
            state(vec![], vec![], None, None, true),
            state(vec![], vec![], None, None, false),
        ],
    };
    assert!(right_ctx_matches(&dfa, "a"));
    assert!(!right_ctx_matches(&dfa, "b"));
}

#[test]
fn right_context_cycle_at_the_end_of_the_input_ends() {
    let dfa = DFA {
        states: vec![
            state(vec![], vec![], None, Some(1), false),
            state(vec![], vec![], None, Some(0), false),
        ],
    };
    assert!(!right_ctx_matches(&dfa, ""));
}

fn contexts() -> RightCtxDFAs {
    RightCtxDFAs { dfas: vec![followed_by('B'), followed_by('C')] }
}

#[test]
fn first_guard_that_holds_wins() {
    let cands = vec![
        AcceptingState { value: 10, right_ctx: Some(0) },
        AcceptingState { value: 11, right_ctx: Some(1) },
        AcceptingState { value: 12, right_ctx: None },
    ];
    assert_eq!(select_candidate(&cands, &contexts(), "B"), Some(10));
    assert_eq!(select_candidate(&cands, &contexts(), "C"), Some(11));
}

#[test]
fn default_wins_where_no_guard_holds() {
    let cands = vec![
        AcceptingState { value: 10, right_ctx: Some(0) },
        AcceptingState { value: 12, right_ctx: None },
    ];
    assert_eq!(select_candidate(&cands, &contexts(), "X"), Some(12));
    assert_eq!(select_candidate(&cands, &contexts(), ""), Some(12));
}

#[test]
fn no_candidate_where_no_guard_holds_and_there_is_no_default() {
    let cands = vec![
        AcceptingState { value: 10, right_ctx: Some(0) },
        AcceptingState { value: 11, right_ctx: Some(1) },
    ];
    assert_eq!(select_candidate(&cands, &contexts(), "X"), None);
    assert_eq!(select_candidate(&vec![], &contexts(), "B"), None);
}

#[test]
fn earlier_guard_wins_where_two_hold() {
    let cands = vec![
        AcceptingState { value: 1, right_ctx: Some(0) },
        AcceptingState { value: 2, right_ctx: Some(0) },
    ];
    assert_eq!(select_candidate(&cands, &contexts(), "B"), Some(1));
}

#[test]
fn choice_is_the_same_on_every_run() {
    let cands = vec![
        AcceptingState { value: 10, right_ctx: Some(1) },
        AcceptingState { value: 11, right_ctx: Some(0) },
        AcceptingState { value: 12, right_ctx: None },
    ];
    let first = select_candidate(&cands, &contexts(), "Bx");
    for _ in 0..10 {
        assert_eq!(select_candidate(&cands, &contexts(), "Bx"), first);
    }
    assert_eq!(first, Some(11));
}
