//! Positions in the input text: line, column and byte offset, and how each
//! advances as characters are read.

use unicode_width::UnicodeWidthChar;
use vstd::prelude::*;
use vstd::utf8::*;

verus! {

/// A position in the input. Lines and columns are counted from zero; the byte
/// offset is counted in the UTF-8 encoding of the input.
#[derive(Debug, Clone, Copy, PartialEq, Eq, Structural)]
pub struct Loc {
    pub line: u32,
    pub col: u32,
    pub byte_idx: usize,
}

/// The number of columns a tab advances the column by.
pub const TAB_WIDTH: u32 = 4;

/// The display width that the `unicode-width` tables give to `c`: `None` for a
/// control character, otherwise the number of columns.
pub uninterp spec fn display_width(c: char) -> Option<usize>;

/// The number of bytes of `c` in UTF-8.
pub open spec fn utf8_len(c: char) -> nat {
    encode_scalar(c as u32).len()
}

/// The number of columns by which `c` advances the column, for a `c` other
/// than a line feed: four for a tab, otherwise the display width of `c`, with
/// one column for a character whose width is zero or undefined.
pub open spec fn col_step(c: char) -> nat {
    if c == '\t' {
        4
    } else {
        match display_width(c) {
            Some(w) => if w == 0 { 1 } else { w as nat },
            None => 1,
        }
    }
}

/// The number of line feeds in `s`.
pub open spec fn line_of(s: Seq<char>) -> nat
    decreases s.len(),
{
    if s.len() == 0 {
        0
    } else {
        line_of(s.drop_last()) + if s.last() == '\n' { 1nat } else { 0nat }
    }
}

/// The column reached after reading `s` from the start of a line.
pub open spec fn col_of(s: Seq<char>) -> nat
    decreases s.len(),
{
    if s.len() == 0 {
        0
    } else if s.last() == '\n' {
        0
    } else {
        col_of(s.drop_last()) + col_step(s.last())
    }
}

/// The number of bytes of `s` in UTF-8.
pub open spec fn byte_len(s: Seq<char>) -> nat
    decreases s.len(),
{
    if s.len() == 0 {
        0
    } else {
        byte_len(s.drop_last()) + utf8_len(s.last())
    }
}

/// Calls `unicode_width::UnicodeWidthChar::width`. The result is the display
/// width of `c` by that crate's tables. It is `None` exactly for the control
/// characters (below U+0020, and from U+007F up to but excluding U+00A0), one
/// column for the other ASCII characters, and never more than three columns.
#[verifier::external_body]
fn char_width(c: char) -> (w: Option<usize>)
    ensures
        w == display_width(c),
        w is None <==> (c < '\u{20}' || ('\u{7f}' <= c && c < '\u{a0}')),
        '\u{20}' <= c && c < '\u{7f}' ==> w == Some(1usize),
        w is Some ==> w->0 <= 3,
{
    UnicodeWidthChar::width(c)
}

/// The number of bytes that `c` takes in UTF-8.
pub fn len_utf8(c: char) -> (n: usize)
    ensures
        n == utf8_len(c),
        1 <= n <= 4,
{
    let code: u32 = c as u32;
    proof {
        char_is_scalar(c);
    }
    if code < 0x80 {
        1
    } else if code < 0x800 {
        2
    } else if code < 0x10000 {
        3
    } else {
        4
    }
}

impl Loc {
    /// The position before any character has been read.
    pub open spec fn zero() -> Loc {
        Loc { line: 0, col: 0, byte_idx: 0 }
    }

    /// Whether this is the position reached after reading `s` from the start
    /// of the input.
    pub open spec fn is_at(self, s: Seq<char>) -> bool {
        &&& self.line == line_of(s)
        &&& self.col == col_of(s)
        &&& self.byte_idx == byte_len(s)
    }

    /// The position after reading `c` at this position, where no field
    /// overflows.
    pub open spec fn after(self, c: char) -> Loc {
        Loc {
            line: if c == '\n' { (self.line + 1) as u32 } else { self.line },
            col: if c == '\n' { 0 } else { (self.col + col_step(c)) as u32 },
            byte_idx: (self.byte_idx + utf8_len(c)) as usize,
        }
    }

    /// The position after reading `c` at this position: the byte offset grows
    /// by the encoded length of `c`; a line feed starts a new line at column
    /// zero; any other character advances the column.
    pub fn advance(self, c: char) -> (next: Loc)
        requires
            self.line < u32::MAX,
            self.col <= u32::MAX - 4,
            self.byte_idx <= usize::MAX - 4,
        ensures
            next == self.after(c),
            next.byte_idx == self.byte_idx + utf8_len(c),
            next.byte_idx > self.byte_idx,
            next.line >= self.line,
            c == '\n' ==> next.line == self.line + 1 && next.col == 0,
            c != '\n' ==> next.line == self.line && next.col == self.col + col_step(c),
            c != '\n' ==> 1 <= col_step(c) <= 4,
            forall|s: Seq<char>| self.is_at(s) ==> #[trigger] next.is_at(s.push(c)),
    {
        let byte_idx: usize = self.byte_idx + len_utf8(c);
        let next = if c == '\n' {
            Loc { line: self.line + 1, col: 0, byte_idx }
        } else if c == '\t' {
            Loc { line: self.line, col: self.col + TAB_WIDTH, byte_idx }
        } else {
            let w: u32 = match char_width(c) {
                Some(w) => if w == 0 { 1 } else { w as u32 },
                None => 1,
            };
            Loc { line: self.line, col: self.col + w, byte_idx }
        };
        assert forall|s: Seq<char>| self.is_at(s) implies #[trigger] next.is_at(s.push(c)) by {
            assert(s.push(c).drop_last() =~= s);
            assert(s.push(c).last() == c);
        }
        next
    }
}

} // verus!
