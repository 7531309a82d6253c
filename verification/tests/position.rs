use lexgen_util::loc::{len_utf8, TAB_WIDTH};
use lexgen_util::Loc;

const ZERO: Loc = Loc { line: 0, col: 0, byte_idx: 0 };

#[test]
fn ascii_letter_advances_one_column_and_one_byte() {
    assert_eq!(ZERO.advance('a'), Loc { line: 0, col: 1, byte_idx: 1 });
}

#[test]
fn line_feed_starts_a_new_line_at_column_zero() {
    let at = Loc { line: 2, col: 7, byte_idx: 40 };
    assert_eq!(at.advance('\n'), Loc { line: 3, col: 0, byte_idx: 41 });
}

#[test]
fn tab_advances_four_columns() {
    let at = Loc { line: 0, col: 3, byte_idx: 3 };
    assert_eq!(TAB_WIDTH, 4);
    assert_eq!(at.advance('\t'), Loc { line: 0, col: 7, byte_idx: 4 });
}

#[test]
fn wide_character_advances_two_columns_and_three_bytes() {
    assert_eq!(ZERO.advance('中'), Loc { line: 0, col: 2, byte_idx: 3 });
}

#[test]
fn zero_width_character_advances_one_column() {
    // U+0301 is a combining mark: its display width is zero.
    let at = Loc { line: 0, col: 1, byte_idx: 1 };
    assert_eq!(at.advance('\u{301}'), Loc { line: 0, col: 2, byte_idx: 3 });
}

#[test]
fn control_character_advances_one_column() {
    // U+0007 has no display width.
    assert_eq!(ZERO.advance('\u{7}'), Loc { line: 0, col: 1, byte_idx: 1 });
}

#[test]
fn carriage_return_is_not_a_line_break() {
    assert_eq!(ZERO.advance('\r'), Loc { line: 0, col: 1, byte_idx: 1 });
}

#[test]
fn encoded_length_of_each_width() {
    assert_eq!(len_utf8('a'), 1);
    assert_eq!(len_utf8('\u{7f}'), 1);
    assert_eq!(len_utf8('\u{80}'), 2);
    assert_eq!(len_utf8('é'), 2);
    assert_eq!(len_utf8('\u{7ff}'), 2);
    assert_eq!(len_utf8('\u{800}'), 3);
    assert_eq!(len_utf8('中'), 3);
    assert_eq!(len_utf8('\u{ffff}'), 3);
    assert_eq!(len_utf8('\u{10000}'), 4);
    assert_eq!(len_utf8('😀'), 4);
    assert_eq!(len_utf8('\u{10ffff}'), 4);
}

#[test]
fn encoded_length_agrees_with_the_standard_library() {
    for c in ['\0', 'x', 'ß', '\u{fff}', '€', '\u{1f600}', char::MAX] {
        assert_eq!(len_utf8(c), c.len_utf8());
    }
}

#[test]
fn emoji_advances_two_columns_and_four_bytes() {
    assert_eq!(ZERO.advance('😀'), Loc { line: 0, col: 2, byte_idx: 4 });
}

#[test]
fn positions_add_up_over_a_text() {
    let mut at = ZERO;
    for c in "a\tb\nc中".chars() {
        at = at.advance(c);
    }
    // "a\tb\n" is 4 bytes; then 'c' and a three-byte character of width 2.
    assert_eq!(at, Loc { line: 1, col: 3, byte_idx: 8 });
}
