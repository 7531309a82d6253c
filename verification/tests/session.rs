use lexgen_util::{Lexer, LexerError, LexerErrorKind, Loc, SemanticActionResult};

fn loc(line: u32, col: u32, byte_idx: usize) -> Loc {
    Loc { line, col, byte_idx }
}

#[test]
fn new_session_is_at_the_start() {
    let mut lexer: Lexer<usize, ()> = Lexer::new("abc");
    assert_eq!(lexer.__state, 0);
    assert!(!lexer.__done);
    assert_eq!(lexer.__initial_state, 0);
    assert_eq!(lexer.match_loc(), (loc(0, 0, 0), loc(0, 0, 0)));
    assert_eq!(lexer.match_(), "");
    assert_eq!(lexer.peek(), Some('a'));
    assert_eq!(lexer.remaining(), "abc");
}

#[test]
fn new_with_state_keeps_the_user_state() {
    let mut lexer: Lexer<usize, Vec<u8>> = Lexer::new_with_state("x", vec![1, 2]);
    assert_eq!(*lexer.state(), vec![1, 2]);
    lexer.state().push(3);
    assert_eq!(*lexer.state(), vec![1, 2, 3]);
    assert_eq!(lexer.peek(), Some('x'));
}

#[test]
fn new_uses_the_default_user_state() {
    let mut lexer: Lexer<usize, u32> = Lexer::new("");
    assert_eq!(*lexer.state(), 0);
}

#[test]
fn next_reads_characters_in_order_and_then_none() {
    let mut lexer: Lexer<usize, ()> = Lexer::new("aé");
    assert_eq!(lexer.next(), Some('a'));
    assert_eq!(lexer.match_loc().1, loc(0, 1, 1));
    assert_eq!(lexer.next(), Some('é'));
    assert_eq!(lexer.match_loc().1, loc(0, 2, 3));
    assert_eq!(lexer.next(), None);
    assert_eq!(lexer.next(), None);
    assert_eq!(lexer.match_loc(), (loc(0, 0, 0), loc(0, 2, 3)));
    assert_eq!(lexer.match_(), "aé");
}

#[test]
fn next_tracks_lines_and_tabs() {
    let mut lexer: Lexer<usize, ()> = Lexer::new("a\n\tb");
    lexer.next();
    lexer.next();
    assert_eq!(lexer.match_loc().1, loc(1, 0, 2));
    lexer.next();
    assert_eq!(lexer.match_loc().1, loc(1, 4, 3));
    lexer.next();
    assert_eq!(lexer.match_loc().1, loc(1, 5, 4));
}

#[test]
fn peek_does_not_read() {
    let mut lexer: Lexer<usize, ()> = Lexer::new("xy");
    assert_eq!(lexer.peek(), Some('x'));
    assert_eq!(lexer.peek(), Some('x'));
    assert_eq!(lexer.match_loc().1, loc(0, 0, 0));
    assert_eq!(lexer.next(), Some('x'));
    assert_eq!(lexer.peek(), Some('y'));
    assert_eq!(lexer.next(), Some('y'));
    assert_eq!(lexer.peek(), None);
}

#[test]
fn remaining_is_the_unread_input() {
    let mut lexer: Lexer<usize, ()> = Lexer::new("añb");
    lexer.next();
    assert_eq!(lexer.remaining(), "ñb");
    lexer.next();
    assert_eq!(lexer.remaining(), "b");
    lexer.next();
    assert_eq!(lexer.remaining(), "");
}

#[test]
fn backtrack_without_candidate_is_an_invalid_token_at_the_match_start() {
    let mut lexer: Lexer<usize, ()> = Lexer::new("abc");
    lexer.next();
    lexer.reset_match();
    lexer.next();
    let res: Result<usize, LexerError<String>> = lexer.backtrack();
    assert_eq!(
        res,
        Err(LexerError { location: loc(0, 1, 1), kind: LexerErrorKind::InvalidToken })
    );
    // Nothing moves.
    assert_eq!(lexer.match_loc(), (loc(0, 1, 1), loc(0, 2, 2)));
    assert_eq!(lexer.peek(), Some('c'));
}

#[test]
fn backtrack_restores_the_candidate_exactly() {
    let mut lexer: Lexer<usize, ()> = Lexer::new("é\nxyz");
    lexer.next();
    lexer.next();
    lexer.reset_match();
    lexer.next();
    lexer.set_accepting_state(42);
    let remembered = lexer.match_loc();
    assert_eq!(remembered, (loc(1, 0, 3), loc(1, 1, 4)));
    lexer.next();
    lexer.next();
    assert_eq!(lexer.next(), None);
    lexer.__done = true;
    lexer.reset_match();
    let res: Result<usize, LexerError<()>> = lexer.backtrack();
    assert_eq!(res, Ok(42));
    assert!(!lexer.__done);
    assert_eq!(lexer.match_loc(), remembered);
    assert_eq!(lexer.match_(), "x");
    assert_eq!(lexer.remaining(), "yz");
    assert_eq!(lexer.next(), Some('y'));
    // The candidate is used up.
    let again: Result<usize, LexerError<()>> = lexer.backtrack();
    assert!(again.is_err());
}

#[test]
fn rescanning_after_backtrack_reads_the_same_characters() {
    let mut lexer: Lexer<usize, ()> = Lexer::new("a中b");
    lexer.next();
    lexer.set_accepting_state(1);
    let first: Vec<Option<char>> = (0..3).map(|_| lexer.next()).collect();
    let _: Result<usize, LexerError<()>> = lexer.backtrack();
    lexer.set_accepting_state(1);
    let second: Vec<Option<char>> = (0..3).map(|_| lexer.next()).collect();
    assert_eq!(first, vec![Some('中'), Some('b'), None]);
    assert_eq!(first, second);
    assert_eq!(lexer.match_loc().1, loc(0, 4, 5));
}

#[test]
fn reset_accepting_state_forgets_the_candidate() {
    let mut lexer: Lexer<usize, ()> = Lexer::new("ab");
    lexer.next();
    lexer.set_accepting_state(7);
    lexer.reset_accepting_state();
    let res: Result<usize, LexerError<()>> = lexer.backtrack();
    assert_eq!(
        res,
        Err(LexerError { location: loc(0, 0, 0), kind: LexerErrorKind::InvalidToken })
    );
}

#[test]
fn set_accepting_state_keeps_the_last_candidate() {
    let mut lexer: Lexer<usize, ()> = Lexer::new("abc");
    lexer.next();
    lexer.set_accepting_state(1);
    lexer.next();
    lexer.set_accepting_state(2);
    lexer.next();
    let res: Result<usize, LexerError<()>> = lexer.backtrack();
    assert_eq!(res, Ok(2));
    assert_eq!(lexer.match_(), "ab");
}

#[test]
fn reset_match_starts_at_the_cursor() {
    let mut lexer: Lexer<usize, ()> = Lexer::new("hello world");
    for _ in 0..6 {
        lexer.next();
    }
    assert_eq!(lexer.match_(), "hello ");
    lexer.reset_match();
    assert_eq!(lexer.match_(), "");
    assert_eq!(lexer.match_loc(), (loc(0, 6, 6), loc(0, 6, 6)));
    for _ in 0..5 {
        lexer.next();
    }
    assert_eq!(lexer.match_(), "world");
    assert_eq!(lexer.match_loc(), (loc(0, 6, 6), loc(0, 11, 11)));
}

#[test]
fn match_slices_on_character_boundaries() {
    let mut lexer: Lexer<usize, ()> = Lexer::new("→é😀z");
    lexer.next();
    lexer.reset_match();
    lexer.next();
    lexer.next();
    assert_eq!(lexer.match_(), "é😀");
    assert_eq!(lexer.match_loc(), (loc(0, 1, 3), loc(0, 4, 9)));
}

#[test]
fn semantic_actions_can_be_function_pointers() {
    fn action(lexer: &mut Lexer<Action, u32>) -> SemanticActionResult<u32> {
        *lexer.state() += 1;
        SemanticActionResult::Return(*lexer.state())
    }
    struct Action(fn(&mut Lexer<Action, u32>) -> SemanticActionResult<u32>);

    let mut lexer: Lexer<Action, u32> = Lexer::new_with_state("a", 10);
    lexer.next();
    lexer.set_accepting_state(Action(action));
    let got: Result<Action, LexerError<()>> = lexer.backtrack();
    let f = got.ok().unwrap().0;
    assert_eq!(f(&mut lexer), SemanticActionResult::Return(11));
}

#[test]
fn map_token_maps_a_returned_token() {
    let r = SemanticActionResult::Return(20u32).map_token(|t| t + 1);
    assert_eq!(r, SemanticActionResult::Return(21));
    let ok: SemanticActionResult<Result<u32, String>> =
        SemanticActionResult::Return(5u32).map_token(Ok);
    assert_eq!(ok, SemanticActionResult::Return(Ok(5)));
}

#[test]
fn map_token_keeps_continue() {
    let r: SemanticActionResult<u32> = SemanticActionResult::<u32>::Continue.map_token(|t| t + 1);
    assert_eq!(r, SemanticActionResult::Continue);
}
