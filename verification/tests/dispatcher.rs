use lexgen_util::codegen::reify;
use lexgen_util::dfa::{AcceptingState, Range, State, Trans, DFA};
use lexgen_util::dispatch::{Guard, Program, RangeTest};
use lexgen_util::dispatcher::{choose_action, run_right_ctx};
use lexgen_util::engine::Scan;
use lexgen_util::right_ctx::{right_ctx_matches, RightCtxDFAs};
use lexgen_util::{Lexer, LexerError, LexerErrorKind, Loc, SemanticActionResult};

type Item = Result<(Loc, (usize, String), Loc), LexerError<String>>;

fn loc(line: u32, col: u32, byte_idx: usize) -> Loc {
    Loc { line, col, byte_idx }
}

fn plain(value: usize) -> Vec<AcceptingState> {
    vec![AcceptingState { value, right_ctx: None }]
}

fn state(
    initial: bool,
    chars: Vec<(char, Trans)>,
    ranges: Vec<(char, char, Trans)>,
    any: Option<Trans>,
    end: Option<Trans>,
    accepting: Vec<AcceptingState>,
    predecessors: usize,
) -> State<Trans> {
    State {
        initial,
        char_transitions: chars,
        range_transitions: ranges
            .into_iter()
            .map(|(start, end, value)| Range { start, end, value })
            .collect(),
        any_transition: any,
        end_of_input_transition: end,
        accepting,
        predecessors,
    }
}

fn rc_state(
    chars: Vec<(char, usize)>,
    ranges: Vec<(char, char, usize)>,
    any: Option<usize>,
    end: Option<usize>,
    accepting: bool,
) -> State<usize> {
    State {
        initial: false,
        char_transitions: chars,
        range_transitions: ranges
            .into_iter()
            .map(|(start, end, value)| Range { start, end, value })
            .collect(),
        any_transition: any,
        end_of_input_transition: end,
        accepting: if accepting { plain(0) } else { vec![] },
        predecessors: 1,
    }
}

const IDENT: usize = 0;
const SKIP: usize = 1;
const KEYWORD: usize = 2;
const NUMBER: usize = 3;
const ENTER: usize = 4;
const LEAVE: usize = 5;
const INSIDE: usize = 6;
const CALL: usize = 7;
const SIGN: usize = 8;
const AT_END: usize = 9;

const STRING_START: usize = 6;

fn word_ranges(target: usize) -> Vec<(char, char, Trans)> {
    vec![('A', 'Z', Trans::Trans(target)), ('a', 'z', Trans::Trans(target))]
}

/// Many ranges of letters beyond ASCII, all part of identifiers: more than a
/// guard tests one by one.
fn wide_ranges(target: usize) -> Vec<(char, char, Trans)> {
    (0..12u32)
        .map(|i| {
            (
                char::from_u32(0x400 + 0x20 * i).unwrap(),
                char::from_u32(0x400 + 0x20 * i + 0x0f).unwrap(),
                Trans::Trans(target),
            )
        })
        .collect()
}

/// Right context 0 holds before `(`, after blanks if any.
fn before_paren() -> DFA<usize> {
    DFA {
        states: vec![
            rc_state(vec![(' ', 0), ('(', 1)], vec![], None, None, false),
            rc_state(vec![], vec![], None, None, true),
        ],
    }
}

/// Right context 1 holds before a digit.
fn before_digit() -> DFA<usize> {
    DFA {
        states: vec![
            rc_state(vec![], vec![('0', '9', 1)], None, None, false),
            rc_state(vec![], vec![], None, None, true),
        ],
    }
}

fn right_ctxs() -> RightCtxDFAs {
    RightCtxDFAs { dfas: vec![before_paren(), before_digit()] }
}

/// A small language: identifiers (which are calls before a parenthesis),
/// the keyword `if`, numbers, signs before digits, blanks, strings in a rule
/// set of their own, and a rule for the end of the input.
///
/// 0 start; 1 identifier; 2 blanks; 3 `i`; 4 `if`; 5 number; 6 start of the
/// inside of a string; 7 closing quote; 8 character of a string; 9 opening
/// quote.
fn language() -> DFA<Trans> {
    let ident = |extra: Vec<(char, Trans)>, accepting: Vec<AcceptingState>, preds: usize| {
        let mut chars = vec![('_', Trans::Trans(1))];
        chars.extend(extra);
        let mut ranges = vec![('0', '9', Trans::Trans(1))];
        ranges.extend(word_ranges(1));
        ranges.extend(wide_ranges(1));
        state(false, chars, ranges, None, None, accepting, preds)
    };
    let name = vec![
        AcceptingState { value: CALL, right_ctx: Some(0) },
        AcceptingState { value: IDENT, right_ctx: None },
    ];
    let mut start_ranges = vec![('0', '9', Trans::Trans(5))];
    start_ranges.extend(word_ranges(1));
    start_ranges.extend(wide_ranges(1));
    DFA {
        states: vec![
            state(
                true,
                vec![
                    ('_', Trans::Trans(1)),
                    (' ', Trans::Trans(2)),
                    ('\n', Trans::Trans(2)),
                    ('\t', Trans::Trans(2)),
                    ('i', Trans::Trans(3)),
                    ('"', Trans::Trans(9)),
                    (
                        '-',
                        Trans::Accept(vec![AcceptingState { value: SIGN, right_ctx: Some(1) }]),
                    ),
                    ('(', Trans::Accept(plain(SKIP))),
                    (')', Trans::Accept(plain(SKIP))),
                ],
                start_ranges,
                None,
                Some(Trans::Accept(plain(AT_END))),
                vec![],
                0,
            ),
            ident(vec![], name.clone(), 5),
            state(
                false,
                vec![(' ', Trans::Trans(2)), ('\n', Trans::Trans(2)), ('\t', Trans::Trans(2))],
                vec![],
                None,
                None,
                plain(SKIP),
                2,
            ),
            ident(vec![('f', Trans::Trans(4))], name.clone(), 1),
            ident(vec![], plain(KEYWORD), 1),
            state(
                false,
                vec![],
                vec![('0', '9', Trans::Trans(5))],
                None,
                None,
                plain(NUMBER),
                2,
            ),
            state(
                true,
                vec![('"', Trans::Trans(7))],
                vec![],
                Some(Trans::Trans(8)),
                None,
                vec![],
                0,
            ),
            state(false, vec![], vec![], None, None, plain(LEAVE), 1),
            state(false, vec![], vec![], None, None, plain(INSIDE), 1),
            state(false, vec![], vec![], None, None, plain(ENTER), 1),
        ],
    }
}

fn rules() -> Vec<(String, usize)> {
    vec![("Init".to_string(), 0), ("String".to_string(), STRING_START)]
}

/// What the semantic actions do; `start_of` gives the state, or the label,
/// at which a rule set starts.
fn act(
    lexer: &mut Lexer<usize, Vec<usize>>,
    action: usize,
    start_of: &dyn Fn(&str) -> usize,
) -> SemanticActionResult<Result<(usize, String), String>> {
    lexer.state().push(action);
    match action {
        SKIP | INSIDE | AT_END => SemanticActionResult::Continue,
        ENTER => lexer.switch(start_of("String")),
        LEAVE => {
            let text = lexer.match_().to_string();
            let _: SemanticActionResult<()> = lexer.switch(start_of("Init"));
            SemanticActionResult::Return(Ok((LEAVE, text)))
        }
        NUMBER if lexer.match_().len() > 3 => {
            SemanticActionResult::Return(Err(format!("too long: {}", lexer.match_())))
        }
        _ => SemanticActionResult::Return(Ok((action, lexer.match_().to_string()))),
    }
}

fn lex_with_automaton(input: &str) -> (Vec<Item>, Vec<usize>) {
    let dfa = language();
    let right_ctxs = right_ctxs();
    let rules = rules();
    let start_of = |name: &str| rules.iter().find(|rule| rule.0 == name).unwrap().1;
    let mut lexer: Lexer<usize, Vec<usize>> = Lexer::new(input);
    let mut items = Vec::new();
    for _ in 0..10_000 {
        match lexer.scan::<String>(&dfa, &right_ctxs) {
            Scan::EndOfInput => return (items, lexer.state().clone()),
            Scan::Error(e) => items.push(Err(e)),
            Scan::Action(a) => {
                let result = act(&mut lexer, a, &start_of);
                if let Some(item) = lexer.finish(result) {
                    items.push(item);
                }
            }
        }
    }
    panic!("the lexer does not come to an end");
}

fn program() -> Program {
    reify(&language(), &right_ctxs(), &rules()).unwrap()
}

fn lex_with_program(input: &str) -> (Vec<Item>, Vec<usize>) {
    let program = program();
    let start_of = |name: &str| program.rules.iter().find(|rule| rule.0 == name).unwrap().1;
    let mut lexer: Lexer<usize, Vec<usize>> = Lexer::new(input);
    let mut items = Vec::new();
    for _ in 0..10_000 {
        match lexer.dispatch::<String>(&program) {
            Scan::EndOfInput => return (items, lexer.state().clone()),
            Scan::Error(e) => items.push(Err(e)),
            Scan::Action(a) => {
                let result = act(&mut lexer, a, &start_of);
                if let Some(item) = lexer.finish(result) {
                    items.push(item);
                }
            }
        }
    }
    panic!("the program does not come to an end");
}

fn token(start: Loc, action: usize, text: &str, end: Loc) -> Item {
    Ok((start, (action, text.to_string()), end))
}

#[test]
fn program_has_an_arm_for_each_state_with_a_label() {
    let program = program();
    // States 3, 4, 7, 8 and 9 have one predecessor.
    assert_eq!(program.arms.len(), 5);
    assert_eq!(
        program.rules,
        vec![("Init".to_string(), 0), ("String".to_string(), 4)]
    );
    assert_eq!(program.right_ctxs.len(), 2);
}

#[test]
fn program_searches_a_table_for_the_many_ranges() {
    let program = program();
    let tables: Vec<&Vec<(char, char)>> = program.arms[0]
        .char_arms
        .iter()
        .filter_map(|arm| match &arm.guard {
            Guard::Search(table) => Some(table),
            _ => None,
        })
        .collect();
    // The letters, ASCII and beyond, that lead to state 1: fourteen ranges.
    assert_eq!(tables.len(), 1);
    assert_eq!(tables[0].len(), 14);
    assert!(tables[0].windows(2).all(|pair| pair[0].1 < pair[1].0));
    // The digits lead elsewhere, from one range: a single test.
    assert!(program.arms[0]
        .char_arms
        .iter()
        .any(|arm| arm.guard == Guard::Ranges(vec![RangeTest::Within('0', '9')])));
}

#[test]
fn program_yields_the_tokens_of_a_text() {
    let (items, actions) = lex_with_program("if x1 foo (42)");
    assert_eq!(
        items,
        vec![
            token(loc(0, 0, 0), KEYWORD, "if", loc(0, 2, 2)),
            token(loc(0, 3, 3), IDENT, "x1", loc(0, 5, 5)),
            token(loc(0, 6, 6), CALL, "foo", loc(0, 9, 9)),
            token(loc(0, 11, 11), NUMBER, "42", loc(0, 13, 13)),
        ]
    );
    assert_eq!(
        actions,
        vec![KEYWORD, SKIP, IDENT, SKIP, CALL, SKIP, SKIP, NUMBER, SKIP, AT_END]
    );
}

#[test]
fn program_reads_strings_in_their_rule_set() {
    let (items, _) = lex_with_program("\"ab\"cd");
    assert_eq!(
        items,
        vec![
            token(loc(0, 0, 0), LEAVE, "\"ab\"", loc(0, 4, 4)),
            token(loc(0, 4, 4), IDENT, "cd", loc(0, 6, 6)),
        ]
    );
}

#[test]
fn program_reports_invalid_tokens_and_goes_on() {
    let (items, _) = lex_with_program("ab $ cd");
    assert_eq!(
        items,
        vec![
            token(loc(0, 0, 0), IDENT, "ab", loc(0, 2, 2)),
            Err(LexerError { location: loc(0, 3, 3), kind: LexerErrorKind::InvalidToken }),
            token(loc(0, 5, 5), IDENT, "cd", loc(0, 7, 7)),
        ]
    );
}

fn inputs() -> Vec<&'static str> {
    vec![
        "",
        " ",
        "   ",
        "ab 12cd",
        "if iffy i ifif if",
        "if(x) f (y) g  z",
        "i",
        "i(",
        "-1 - 2 -x",
        "12345 123 1234x",
        "\"ab\"cd",
        "\"\"",
        "\"never closed",
        "\"a\"\"b\" \"c",
        "x\ty\nz\n\n  w",
        "имя Ѐname _x_ ԯ п42",
        "αβγ",
        "a\u{301}b",
        "$",
        "a$$b",
        "((()))",
        "if\"if\"if(",
        "\u{40f}\u{410}\u{41f}\u{420}",
    ]
}

#[test]
fn program_and_automaton_yield_the_same_on_every_input() {
    for input in inputs() {
        let by_automaton = lex_with_automaton(input);
        let by_program = lex_with_program(input);
        assert_eq!(by_automaton, by_program, "on {:?}", input);
    }
}

#[test]
fn program_and_automaton_leave_the_same_session_after_each_step() {
    let dfa = language();
    let right_ctxs = right_ctxs();
    let program = program();
    let labels = lexgen_util::codegen::renumber_states(&dfa);
    for input in inputs() {
        let mut a: Lexer<usize, Vec<usize>> = Lexer::new(input);
        let mut p: Lexer<usize, Vec<usize>> = Lexer::new(input);
        for _ in 0..200 {
            let by_automaton = a.scan::<String>(&dfa, &right_ctxs);
            let by_program = p.dispatch::<String>(&program);
            assert_eq!(by_automaton, by_program, "on {:?}", input);
            assert_eq!(a.match_loc(), p.match_loc(), "on {:?}", input);
            assert_eq!(a.remaining(), p.remaining(), "on {:?}", input);
            assert_eq!(a.__done, p.__done, "on {:?}", input);
            assert_eq!(labels[a.__state], p.__state, "on {:?}", input);
            match by_automaton {
                Scan::EndOfInput => break,
                Scan::Error(_) => {}
                Scan::Action(action) => {
                    let in_automaton = act(&mut a, action, &|name| {
                        if name == "Init" {
                            0
                        } else {
                            STRING_START
                        }
                    });
                    let in_program = act(&mut p, action, &|name| {
                        program.rules.iter().find(|rule| rule.0 == name).unwrap().1
                    });
                    assert_eq!(a.finish(in_automaton), p.finish(in_program));
                }
            }
        }
    }
}

#[test]
fn compiled_right_context_agrees_with_its_automaton() {
    let program = program();
    let right_ctxs = right_ctxs();
    for rest in ["", "(", " (", "   (x", "x(", "7", " 7", "77", "a", ")", "  "] {
        for r in 0..2 {
            assert_eq!(
                run_right_ctx(&program.right_ctxs[r], rest),
                right_ctx_matches(&right_ctxs.dfas[r], rest),
                "right context {} on {:?}",
                r,
                rest
            );
        }
    }
}

#[test]
fn guards_hold_of_what_they_list() {
    let chars = Guard::Chars(vec!['a', 'z', '_']);
    assert!(chars.test('a'));
    assert!(chars.test('_'));
    assert!(!chars.test('b'));
    let ranges = Guard::Ranges(vec![RangeTest::Within('0', '9'), RangeTest::Is('x')]);
    assert!(ranges.test('0'));
    assert!(ranges.test('9'));
    assert!(ranges.test('x'));
    assert!(!ranges.test('y'));
    assert!(!ranges.test('/'));
    let search = Guard::Search(vec![('0', '9'), ('A', 'F'), ('a', 'f')]);
    assert!(search.test('7'));
    assert!(search.test('F'));
    assert!(search.test('a'));
    assert!(!search.test('G'));
    assert!(!search.test('@'));
}

#[test]
fn range_tests() {
    assert!(RangeTest::Is('q').test('q'));
    assert!(!RangeTest::Is('q').test('r'));
    assert!(RangeTest::Within('a', 'c').test('a'));
    assert!(RangeTest::Within('a', 'c').test('c'));
    assert!(!RangeTest::Within('a', 'c').test('d'));
}

#[test]
fn choice_in_the_program_tries_the_right_contexts_in_order() {
    let program = program();
    let cands = lexgen_util::dispatch::Candidates {
        alts: vec![(0, 10), (1, 11), (7, 12)],
        default: Some(13),
    };
    assert_eq!(choose_action(&cands, &program.right_ctxs, "(x"), Some(10));
    assert_eq!(choose_action(&cands, &program.right_ctxs, "5"), Some(11));
    // Right context 7 does not exist: it never holds.
    assert_eq!(choose_action(&cands, &program.right_ctxs, "x"), Some(13));
    let no_default = lexgen_util::dispatch::Candidates { alts: vec![(1, 11)], default: None };
    assert_eq!(choose_action(&no_default, &program.right_ctxs, "x"), None);
}
