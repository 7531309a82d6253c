use lexgen_util::dfa::{AcceptingState, Range, State, Trans, DFA};
use lexgen_util::engine::{step_on_char, step_on_end, Move, Scan};
use lexgen_util::right_ctx::RightCtxDFAs;
use lexgen_util::{Lexer, LexerError, LexerErrorKind, Loc, SemanticActionResult};

#[derive(Debug, Clone, PartialEq, Eq)]
enum Token {
    Identifier(String),
    Keyword(String),
    Str(String),
    A,
    C,
}

type Item = Result<(Loc, Token, Loc), LexerError<String>>;

fn loc(line: u32, col: u32, byte_idx: usize) -> Loc {
    Loc { line, col, byte_idx }
}

fn plain(value: usize) -> Vec<AcceptingState> {
    vec![AcceptingState { value, right_ctx: None }]
}

fn state(
    initial: bool,
    chars: Vec<(char, Trans)>,
    ranges: Vec<(char, char, Trans)>,
    any: Option<Trans>,
    end: Option<Trans>,
    accepting: Vec<AcceptingState>,
    predecessors: usize,
) -> State<Trans> {
    State {
        initial,
        char_transitions: chars,
        range_transitions: ranges
            .into_iter()
            .map(|(start, end, value)| Range { start, end, value })
            .collect(),
        any_transition: any,
        end_of_input_transition: end,
        accepting,
        predecessors,
    }
}

fn no_contexts() -> RightCtxDFAs {
    RightCtxDFAs { dfas: vec![] }
}

const IDENT: usize = 0;
const SKIP: usize = 1;
const KEYWORD: usize = 2;

fn ident_ranges() -> Vec<(char, char, Trans)> {
    vec![('A', 'Z', Trans::Trans(1)), ('a', 'z', Trans::Trans(1))]
}

/// Identifiers `[A-Za-z_][A-Za-z0-9_]*` and blanks that are skipped.
fn identifiers() -> DFA<Trans> {
    let mut inner = vec![('0', '9', Trans::Trans(1))];
    inner.extend(ident_ranges());
    DFA {
        states: vec![
            state(
                true,
                vec![('_', Trans::Trans(1)), (' ', Trans::Trans(2))],
                ident_ranges(),
                None,
                None,
                vec![],
                0,
            ),
            state(false, vec![('_', Trans::Trans(1))], inner, None, None, plain(IDENT), 2),
            state(false, vec![(' ', Trans::Trans(2))], vec![], None, None, plain(SKIP), 2),
        ],
    }
}

/// Runs the lexer over `input` and collects what it yields, errors included.
fn run(
    dfa: &DFA<Trans>,
    right_ctxs: &RightCtxDFAs,
    input: &str,
    action: &dyn Fn(&mut Lexer<usize, ()>, usize) -> SemanticActionResult<Result<Token, String>>,
) -> (Vec<Item>, usize) {
    let mut lexer: Lexer<usize, ()> = Lexer::new(input);
    let mut items = Vec::new();
    let mut ends = 0;
    for _ in 0..1000 {
        match lexer.scan::<String>(dfa, right_ctxs) {
            Scan::EndOfInput => {
                ends += 1;
                return (items, ends);
            }
            Scan::Error(e) => items.push(Err(e)),
            Scan::Action(a) => {
                let result = action(&mut lexer, a);
                if let Some(item) = lexer.finish(result) {
                    items.push(item);
                }
            }
        }
    }
    panic!("the lexer does not come to an end");
}

fn ident_action(
    lexer: &mut Lexer<usize, ()>,
    action: usize,
) -> SemanticActionResult<Result<Token, String>> {
    match action {
        IDENT => SemanticActionResult::Return(Ok(Token::Identifier(lexer.match_().to_string()))),
        KEYWORD => SemanticActionResult::Return(Ok(Token::Keyword(lexer.match_().to_string()))),
        _ => SemanticActionResult::Continue,
    }
}

#[test]
fn identifier_then_invalid_token() {
    let (items, ends) = run(&identifiers(), &no_contexts(), "ab 12cd", &ident_action);
    assert_eq!(
        items[0],
        Ok((loc(0, 0, 0), Token::Identifier("ab".to_string()), loc(0, 2, 2)))
    );
    assert_eq!(
        items[1],
        Err(LexerError { location: loc(0, 3, 3), kind: LexerErrorKind::InvalidToken })
    );
    // The lexer goes on after the error, one character further each time.
    assert_eq!(
        items[2],
        Err(LexerError { location: loc(0, 4, 4), kind: LexerErrorKind::InvalidToken })
    );
    assert_eq!(
        items[3],
        Ok((loc(0, 5, 5), Token::Identifier("cd".to_string()), loc(0, 7, 7)))
    );
    assert_eq!(items.len(), 4);
    assert_eq!(ends, 1);
}

#[test]
fn blanks_only_give_a_single_end_of_input() {
    let (items, ends) = run(&identifiers(), &no_contexts(), "   ", &ident_action);
    assert_eq!(items, vec![]);
    assert_eq!(ends, 1);
}

#[test]
fn empty_input_gives_end_of_input() {
    let mut lexer: Lexer<usize, ()> = Lexer::new("");
    let dfa = identifiers();
    assert_eq!(lexer.scan::<String>(&dfa, &no_contexts()), Scan::EndOfInput);
    assert!(lexer.__done);
    assert_eq!(lexer.scan::<String>(&dfa, &no_contexts()), Scan::EndOfInput);
}

#[test]
fn a_session_that_is_done_stays_as_it_is() {
    let mut lexer: Lexer<usize, ()> = Lexer::new("ab");
    lexer.__done = true;
    lexer.__state = 1;
    assert_eq!(lexer.scan::<String>(&identifiers(), &no_contexts()), Scan::EndOfInput);
    assert_eq!(lexer.__state, 1);
    assert_eq!(lexer.peek(), Some('a'));
    assert_eq!(lexer.match_loc(), (loc(0, 0, 0), loc(0, 0, 0)));
}

#[test]
fn end_of_input_rule_that_continues_runs_once() {
    // State 0 accepts the end of the input with an action that continues.
    let dfa = DFA {
        states: vec![state(
            true,
            vec![],
            vec![],
            None,
            Some(Trans::Accept(plain(SKIP))),
            vec![],
            0,
        )],
    };
    let mut lexer: Lexer<usize, ()> = Lexer::new("");
    assert_eq!(lexer.scan::<String>(&dfa, &no_contexts()), Scan::Action(SKIP));
    assert!(lexer.__done);
    let none: Option<Result<(Loc, Token, Loc), LexerError<String>>> =
        lexer.finish(SemanticActionResult::Continue);
    assert_eq!(none, None);
    assert_eq!(lexer.scan::<String>(&dfa, &no_contexts()), Scan::EndOfInput);
    assert_eq!(lexer.scan::<String>(&dfa, &no_contexts()), Scan::EndOfInput);
}

/// The keyword `if`, in states 3 and 4 that each have one predecessor, before
/// identifiers.
fn keyword_and_identifiers() -> DFA<Trans> {
    let mut dfa = identifiers();
    dfa.states[0].char_transitions.push(('i', Trans::Trans(3)));
    let mut inner = vec![('0', '9', Trans::Trans(1))];
    inner.extend(ident_ranges());
    dfa.states.push(state(
        false,
        vec![('_', Trans::Trans(1)), ('f', Trans::Trans(4))],
        inner.clone(),
        None,
        None,
        plain(IDENT),
        1,
    ));
    dfa.states.push(state(
        false,
        vec![('_', Trans::Trans(1))],
        inner,
        None,
        None,
        plain(KEYWORD),
        1,
    ));
    dfa.states[1].predecessors = 4;
    dfa
}

#[test]
fn longest_match_wins_over_a_shorter_keyword() {
    let dfa = keyword_and_identifiers();
    let (items, _) = run(&dfa, &no_contexts(), "if iffy i", &ident_action);
    assert_eq!(
        items,
        vec![
            Ok((loc(0, 0, 0), Token::Keyword("if".to_string()), loc(0, 2, 2))),
            Ok((loc(0, 3, 3), Token::Identifier("iffy".to_string()), loc(0, 7, 7))),
            Ok((loc(0, 8, 8), Token::Identifier("i".to_string()), loc(0, 9, 9))),
        ]
    );
}

#[test]
fn the_session_does_not_rest_in_a_state_with_one_predecessor() {
    let dfa = keyword_and_identifiers();
    let mut lexer: Lexer<usize, ()> = Lexer::new("if$");
    assert_eq!(lexer.scan::<String>(&dfa, &no_contexts()), Scan::Action(KEYWORD));
    // States 3 and 4 were passed through; the session stayed in state 0.
    assert_eq!(lexer.__state, 0);
    assert_eq!(lexer.match_(), "if");
}

#[test]
fn falling_back_restores_the_end_of_the_candidate() {
    // "ab" is accepted; "abcd" would be, but the input ends in "abc".
    let dfa = DFA {
        states: vec![
            state(true, vec![('a', Trans::Trans(1))], vec![], None, None, vec![], 0),
            state(false, vec![('b', Trans::Trans(2))], vec![], None, None, vec![], 1),
            state(false, vec![('c', Trans::Trans(3))], vec![], None, None, plain(7), 1),
            state(false, vec![('d', Trans::Trans(4))], vec![], None, None, vec![], 1),
            state(false, vec![], vec![], None, None, plain(8), 1),
        ],
    };
    let mut lexer: Lexer<usize, ()> = Lexer::new("abcx");
    assert_eq!(lexer.scan::<String>(&dfa, &no_contexts()), Scan::Action(7));
    assert_eq!(lexer.match_(), "ab");
    assert_eq!(lexer.match_loc(), (loc(0, 0, 0), loc(0, 2, 2)));
    assert_eq!(lexer.remaining(), "cx");
    assert_eq!(lexer.peek(), Some('c'));

    let mut longer: Lexer<usize, ()> = Lexer::new("abcd");
    assert_eq!(longer.scan::<String>(&dfa, &no_contexts()), Scan::Action(8));
    assert_eq!(longer.match_(), "abcd");
}

const TOKEN_A: usize = 0;
const TOKEN_C: usize = 1;

/// `A` followed by `B` gives the first action, any other `A` the second.
fn guarded() -> (DFA<Trans>, RightCtxDFAs) {
    let main = DFA {
        states: vec![
            state(true, vec![('A', Trans::Trans(1))], vec![], None, None, vec![], 0),
            state(
                false,
                vec![],
                vec![],
                None,
                None,
                vec![
                    AcceptingState { value: TOKEN_A, right_ctx: Some(0) },
                    AcceptingState { value: TOKEN_C, right_ctx: None },
                ],
                1,
            ),
        ],
    };
    let follows_b = DFA {
        states: vec![
            State {
                initial: true,
                char_transitions: vec![('B', 1)],
                range_transitions: vec![],
                any_transition: None,
                end_of_input_transition: None,
                accepting: vec![],
                predecessors: 0,
            },
            State {
                initial: false,
                char_transitions: vec![],
                range_transitions: vec![],
                any_transition: None,
                end_of_input_transition: None,
                accepting: plain(0),
                predecessors: 1,
            },
        ],
    };
    (main, RightCtxDFAs { dfas: vec![follows_b] })
}

fn guarded_action(
    _lexer: &mut Lexer<usize, ()>,
    action: usize,
) -> SemanticActionResult<Result<Token, String>> {
    match action {
        TOKEN_A => SemanticActionResult::Return(Ok(Token::A)),
        _ => SemanticActionResult::Return(Ok(Token::C)),
    }
}

#[test]
fn right_context_picks_the_guarded_action() {
    let (dfa, right_ctxs) = guarded();
    let (items, _) = run(&dfa, &right_ctxs, "AB", &guarded_action);
    assert_eq!(items[0], Ok((loc(0, 0, 0), Token::A, loc(0, 1, 1))));
    // The right context is not part of the match: `B` is still to be read.
    assert_eq!(
        items[1],
        Err(LexerError { location: loc(0, 1, 1), kind: LexerErrorKind::InvalidToken })
    );
}

#[test]
fn right_context_that_fails_gives_the_default_action() {
    let (dfa, right_ctxs) = guarded();
    let (items, _) = run(&dfa, &right_ctxs, "AA", &guarded_action);
    assert_eq!(
        items,
        vec![
            Ok((loc(0, 0, 0), Token::C, loc(0, 1, 1))),
            Ok((loc(0, 1, 1), Token::C, loc(0, 2, 2))),
        ]
    );
}

#[test]
fn right_context_leaves_the_cursor_where_it_is() {
    let (dfa, right_ctxs) = guarded();
    let mut lexer: Lexer<usize, ()> = Lexer::new("ABC");
    assert_eq!(lexer.scan::<String>(&dfa, &right_ctxs), Scan::Action(TOKEN_A));
    assert_eq!(lexer.remaining(), "BC");
    assert_eq!(lexer.match_loc().1, loc(0, 1, 1));
}

const ENTER: usize = 2;
const LEAVE: usize = 3;
const INSIDE: usize = 4;
const STRING_START: usize = 4;

/// Identifiers, and strings in double quotes that a second rule set reads.
fn strings() -> DFA<Trans> {
    let mut dfa = identifiers();
    dfa.states[0].char_transitions.push(('"', Trans::Trans(3)));
    // 3: the opening quote has been read.
    dfa.states.push(state(false, vec![], vec![], None, None, plain(ENTER), 1));
    // 4: the start of the rule set for the inside of a string.
    dfa.states.push(state(
        true,
        vec![('"', Trans::Trans(5))],
        vec![],
        Some(Trans::Trans(6)),
        None,
        vec![],
        0,
    ));
    dfa.states.push(state(false, vec![], vec![], None, None, plain(LEAVE), 1));
    dfa.states.push(state(false, vec![], vec![], None, None, plain(INSIDE), 1));
    dfa
}

fn string_action(
    lexer: &mut Lexer<usize, ()>,
    action: usize,
) -> SemanticActionResult<Result<Token, String>> {
    match action {
        IDENT => SemanticActionResult::Return(Ok(Token::Identifier(lexer.match_().to_string()))),
        ENTER => lexer.switch(STRING_START),
        LEAVE => {
            let text = lexer.match_().to_string();
            let _: SemanticActionResult<()> = lexer.switch(0);
            SemanticActionResult::Return(Ok(Token::Str(text)))
        }
        _ => SemanticActionResult::Continue,
    }
}

#[test]
fn rule_set_switch_reads_a_string_and_comes_back() {
    let (items, ends) = run(&strings(), &no_contexts(), "\"ab\"cd", &string_action);
    assert_eq!(
        items,
        vec![
            Ok((loc(0, 0, 0), Token::Str("\"ab\"".to_string()), loc(0, 4, 4))),
            Ok((loc(0, 4, 4), Token::Identifier("cd".to_string()), loc(0, 6, 6))),
        ]
    );
    assert_eq!(ends, 1);
}

#[test]
fn unfinished_string_is_an_invalid_token() {
    let (items, _) = run(&strings(), &no_contexts(), "\"ab", &string_action);
    assert_eq!(
        items,
        vec![Err(LexerError { location: loc(0, 0, 0), kind: LexerErrorKind::InvalidToken })]
    );
}

#[test]
fn switch_sets_the_state_to_restart_from() {
    let mut lexer: Lexer<usize, ()> = Lexer::new("x");
    let r: SemanticActionResult<u8> = lexer.switch(4);
    assert_eq!(r, SemanticActionResult::Continue);
    assert_eq!(lexer.__state, 4);
    assert_eq!(lexer.__initial_state, 4);
    lexer.__state = 9;
    let none: Option<Result<(Loc, u8, Loc), LexerError<()>>> =
        lexer.finish(SemanticActionResult::Continue);
    assert_eq!(none, None);
    assert_eq!(lexer.__state, 4);
}

#[test]
fn finish_gives_the_token_its_span_and_starts_the_next_match() {
    let mut lexer: Lexer<usize, ()> = Lexer::new("ab cd");
    lexer.next();
    lexer.next();
    lexer.__state = 5;
    let item: Option<Result<(Loc, &str, Loc), LexerError<()>>> =
        lexer.finish(SemanticActionResult::Return(Ok("tok")));
    assert_eq!(item, Some(Ok((loc(0, 0, 0), "tok", loc(0, 2, 2)))));
    assert_eq!(lexer.__state, 0);
    assert_eq!(lexer.match_loc(), (loc(0, 2, 2), loc(0, 2, 2)));
}

#[test]
fn finish_reports_a_custom_error_at_the_start_of_the_match() {
    let mut lexer: Lexer<usize, ()> = Lexer::new("ab cd");
    lexer.next();
    lexer.reset_match();
    lexer.next();
    lexer.next();
    let item: Option<Result<(Loc, u8, Loc), LexerError<&str>>> =
        lexer.finish(SemanticActionResult::Return(Err("bad")));
    assert_eq!(
        item,
        Some(Err(LexerError { location: loc(0, 1, 1), kind: LexerErrorKind::Custom("bad") }))
    );
    assert_eq!(lexer.match_loc(), (loc(0, 3, 3), loc(0, 3, 3)));
}

#[test]
fn custom_error_does_not_stop_the_lexer() {
    let action = |lexer: &mut Lexer<usize, ()>, a: usize| {
        if a == IDENT && lexer.match_() == "bad" {
            SemanticActionResult::Return(Err("no".to_string()))
        } else {
            ident_action(lexer, a)
        }
    };
    let (items, _) = run(&identifiers(), &no_contexts(), "bad ok", &action);
    assert_eq!(
        items,
        vec![
            Err(LexerError {
                location: loc(0, 0, 0),
                kind: LexerErrorKind::Custom("no".to_string())
            }),
            Ok((loc(0, 4, 4), Token::Identifier("ok".to_string()), loc(0, 6, 6))),
        ]
    );
}

#[test]
fn accepting_transition_fires_at_once() {
    // `;` accepts on the transition itself: there is no state behind it.
    let dfa = DFA {
        states: vec![state(
            true,
            vec![(';', Trans::Accept(plain(9)))],
            vec![],
            None,
            None,
            vec![],
            0,
        )],
    };
    let mut lexer: Lexer<usize, ()> = Lexer::new(";;");
    assert_eq!(lexer.scan::<String>(&dfa, &no_contexts()), Scan::Action(9));
    assert_eq!(lexer.match_(), ";");
    assert_eq!(lexer.remaining(), ";");
}

#[test]
fn exact_character_comes_before_range_and_wildcard() {
    let dfa = DFA {
        states: vec![
            state(
                true,
                vec![('m', Trans::Accept(plain(1)))],
                vec![('a', 'z', Trans::Accept(plain(2)))],
                Some(Trans::Accept(plain(3))),
                None,
                vec![],
                0,
            ),
        ],
    };
    let none = no_contexts();
    assert_eq!(step_on_char(&dfa, 0, &none, 'm', ""), Move::Fire(1));
    assert_eq!(step_on_char(&dfa, 0, &none, 'n', ""), Move::Fire(2));
    assert_eq!(step_on_char(&dfa, 0, &none, '7', ""), Move::Fire(3));
}

#[test]
fn accepting_transition_without_a_choice_gives_way_to_the_wildcard() {
    let (_, right_ctxs) = guarded();
    let only_before_b = vec![AcceptingState { value: 1, right_ctx: Some(0) }];
    let dfa = DFA {
        states: vec![
            state(
                true,
                vec![('x', Trans::Accept(only_before_b))],
                vec![('a', 'z', Trans::Trans(1))],
                Some(Trans::Trans(2)),
                None,
                vec![],
                0,
            ),
            state(false, vec![], vec![], None, None, plain(5), 1),
            state(false, vec![], vec![], None, None, plain(6), 1),
        ],
    };
    assert_eq!(step_on_char(&dfa, 0, &right_ctxs, 'x', "B"), Move::Fire(1));
    // Not the range, though it holds `x`: the wildcard.
    assert_eq!(step_on_char(&dfa, 0, &right_ctxs, 'x', "C"), Move::Goto(2));
    assert_eq!(step_on_char(&dfa, 0, &right_ctxs, 'y', "C"), Move::Goto(1));
}

#[test]
fn nothing_to_take_fails() {
    let dfa = identifiers();
    assert_eq!(step_on_char(&dfa, 0, &no_contexts(), '1', ""), Move::Fail);
    assert_eq!(step_on_char(&dfa, 2, &no_contexts(), 'a', ""), Move::Fail);
}

#[test]
fn end_of_input_finishes_in_state_zero_and_fails_elsewhere() {
    let dfa = identifiers();
    assert_eq!(step_on_end(&dfa, 0, &no_contexts()), Move::Finish);
    assert_eq!(step_on_end(&dfa, 1, &no_contexts()), Move::Fail);
}

#[test]
fn end_of_input_transition_is_taken() {
    let dfa = DFA {
        states: vec![
            state(true, vec![('a', Trans::Trans(1))], vec![], None, None, vec![], 0),
            state(
                false,
                vec![],
                vec![],
                None,
                Some(Trans::Accept(plain(4))),
                vec![],
                1,
            ),
            state(false, vec![], vec![], None, Some(Trans::Trans(0)), vec![], 0),
        ],
    };
    assert_eq!(step_on_end(&dfa, 1, &no_contexts()), Move::Fire(4));
    assert_eq!(step_on_end(&dfa, 2, &no_contexts()), Move::Goto(0));
    let mut lexer: Lexer<usize, ()> = Lexer::new("a");
    assert_eq!(lexer.scan::<String>(&dfa, &no_contexts()), Scan::Action(4));
    assert_eq!(lexer.match_(), "a");
    assert!(lexer.__done);
}

#[test]
fn invalid_token_in_the_middle_is_reported_at_the_match_start() {
    let dfa = keyword_and_identifiers();
    let mut lexer: Lexer<usize, ()> = Lexer::new("  $");
    assert_eq!(lexer.scan::<String>(&dfa, &no_contexts()), Scan::Action(SKIP));
    let none: Option<Result<(Loc, Token, Loc), LexerError<String>>> =
        lexer.finish(SemanticActionResult::Continue);
    assert_eq!(none, None);
    assert_eq!(
        lexer.scan::<String>(&dfa, &no_contexts()),
        Scan::Error(LexerError { location: loc(0, 2, 2), kind: LexerErrorKind::InvalidToken })
    );
}

#[test]
fn spans_count_lines_columns_and_bytes() {
    let mut dfa = identifiers();
    dfa.states[0].char_transitions.push(('\n', Trans::Trans(2)));
    dfa.states[0].char_transitions.push(('\t', Trans::Trans(2)));
    dfa.states[2].char_transitions.push(('\n', Trans::Trans(2)));
    dfa.states[2].char_transitions.push(('\t', Trans::Trans(2)));
    dfa.states[0].range_transitions.push(Range {
        start: '\u{4e00}',
        end: '\u{9fff}',
        value: Trans::Trans(1),
    });
    dfa.states[1].range_transitions.push(Range {
        start: '\u{4e00}',
        end: '\u{9fff}',
        value: Trans::Trans(1),
    });
    let (items, _) = run(&dfa, &no_contexts(), "ab\n\t中文 x", &ident_action);
    assert_eq!(
        items,
        vec![
            Ok((loc(0, 0, 0), Token::Identifier("ab".to_string()), loc(0, 2, 2))),
            Ok((loc(1, 4, 4), Token::Identifier("中文".to_string()), loc(1, 8, 10))),
            Ok((loc(1, 9, 11), Token::Identifier("x".to_string()), loc(1, 10, 12))),
        ]
    );
}
