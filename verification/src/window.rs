//! Wraps a position cursor with running line/column counters, turning raw
//! offset deltas into full `(byte offset, line, column)` positions.

use vstd::prelude::*;
use vstd::string::StrSliceExecFns;
use vstd::utf8::encode_utf8;

use crate::cursor::byte_offset_of;
use crate::cursor::char_index_at;
use crate::cursor::char_index_of_boundary;
use crate::cursor::is_byte_boundary;
use crate::cursor::lemma_backward_dest_range;
use crate::cursor::lemma_byte_offset_injective;
use crate::cursor::lemma_byte_offset_strictly_increasing;
use crate::cursor::lemma_byte_offset_total;
use crate::cursor::lemma_forward_dest_range;
use crate::cursor::seek_dest;
use crate::cursor::StringCursor;

verus! {

/// A byte offset with the 0-based line and column (counted in characters)
/// it falls on within some text window.
#[derive(Debug, Clone, Copy)]
pub struct Position {
    pub utf_8: usize,
    pub line: usize,
    pub column: usize,
}

/// Increment that stays put at the top of the `usize` range instead of
/// wrapping.
pub open spec fn sat_inc(x: usize) -> usize {
    if x < usize::MAX {
        (x + 1) as usize
    } else {
        x
    }
}

/// Decrement that stays put at zero instead of wrapping.
pub open spec fn sat_dec(x: usize) -> usize {
    if x > 0 {
        (x - 1) as usize
    } else {
        0
    }
}

/// Line/column state after walking forward over `s[from..to]`: each `'\n'`
/// starts a new line, every other character widens the current one.
pub open spec fn count_forward(s: Seq<char>, from: int, to: int, line: usize, column: usize) -> (
    usize,
    usize,
)
    decreases to - from,
{
    if from >= to {
        (line, column)
    } else if s[from] == '\n' {
        count_forward(s, from + 1, to, sat_inc(line), 0)
    } else {
        count_forward(s, from + 1, to, line, sat_inc(column))
    }
}

/// Line/column state after walking backward over `s[to..from]`, visiting
/// characters from the high end down. Crossing a `'\n'` backward cannot know
/// the previous line's length, so the column is set to the placeholder 1.
pub open spec fn count_backward(s: Seq<char>, to: int, from: int, line: usize, column: usize) -> (
    usize,
    usize,
)
    decreases from - to,
{
    if from <= to {
        (line, column)
    } else if s[from - 1] == '\n' {
        count_backward(s, to, from - 1, sat_dec(line), 1)
    } else {
        count_backward(s, to, from - 1, line, sat_dec(column))
    }
}

/// A text window whose queries yield full positions: a cursor plus running
/// line/column counters, optionally anchored at a starting line for windows
/// that begin mid-document.
pub struct TextWithPosition<'a> {
    pub line: usize,
    pub column: usize,
    pub content: StringCursor<'a>,
}

impl<'a> TextWithPosition<'a> {
    pub open spec fn wf(&self) -> bool {
        self.content.wf()
    }

    pub fn new(content: &'a str) -> (r: Self)
        ensures
            r.wf(),
            r.content.text == content,
            r.content.char_index == 0,
            r.line == 0,
            r.column == 0,
    {
        Self { line: 0, column: 0, content: StringCursor::new(content) }
    }

    pub fn new_with_line(content: &'a str, line: usize) -> (r: Self)
        ensures
            r.wf(),
            r.content.text == content,
            r.content.char_index == 0,
            r.line == line,
            r.column == 0,
    {
        Self { line, column: 0, content: StringCursor::new(content) }
    }

    /// Resolves `char_index` to a full position, defaulting to the end of the
    /// text when the index is out of range, and replays the span between the
    /// previous and the new cursor position to keep line and column current.
    /// The counters saturate instead of wrapping; the column after a backward
    /// line crossing is a placeholder (see [`count_backward`]).
    #[verifier::loop_isolation(false)]
    pub fn get_position(&mut self, char_index: usize, stop_at_newline: bool) -> (r: Position)
        requires
            old(self).wf(),
        ensures
            final(self).wf(),
            final(self).content.text == old(self).content.text,
            ({
                let s = old(self).content.text@;
                let ci0 = old(self).content.char_index as int;
                let d = seek_dest(s, ci0, char_index as int, stop_at_newline);
                let lc = if d >= ci0 {
                    count_forward(s, ci0, d, old(self).line, old(self).column)
                } else {
                    count_backward(s, d, ci0, old(self).line, old(self).column)
                };
                &&& final(self).content.char_index as int == d
                &&& final(self).line == lc.0
                &&& final(self).column == lc.1
                &&& r.utf_8 as nat == byte_offset_of(s, d)
                &&& r.line == lc.0
                &&& r.column == lc.1
            }),
    {
        let ghost s = self.content.text@;
        let ghost ci0 = self.content.char_index as int;
        let ghost t = char_index as int;
        let ghost line0 = self.line;
        let ghost col0 = self.column;
        let start_ci = self.content.char_index;
        let seek_res = self.content.utf_8_offset(char_index, stop_at_newline);
        let ghost d = seek_dest(s, ci0, t, stop_at_newline);
        let end = match seek_res {
            Some(off) => off,
            None => {
                proof {
                    if t > ci0 {
                        lemma_forward_dest_range(s, ci0, t, stop_at_newline);
                    } else if t < ci0 {
                        lemma_backward_dest_range(s, ci0, t, stop_at_newline);
                    }
                    lemma_byte_offset_total(s);
                }
                self.content.text.len()
            },
        };
        let end_ci = self.content.char_index;
        let ghost cur = self.content;
        if start_ci < end_ci {
            let mut k = start_ci;
            while k < end_ci
                invariant
                    count_forward(s, k as int, d, self.line, self.column) == count_forward(
                        s,
                        ci0,
                        d,
                        line0,
                        col0,
                    ),
                    start_ci <= k <= end_ci,
                    self.content == cur,
                decreases end_ci - k,
            {
                let c = self.content.text.get_char(k);
                if c == '\n' {
                    self.line = if self.line < usize::MAX {
                        self.line + 1
                    } else {
                        self.line
                    };
                    self.column = 0;
                } else {
                    self.column = if self.column < usize::MAX {
                        self.column + 1
                    } else {
                        self.column
                    };
                }
                k = k + 1;
            }
        } else if end_ci < start_ci {
            let mut k = start_ci;
            while k > end_ci
                invariant
                    count_backward(s, d, k as int, self.line, self.column) == count_backward(
                        s,
                        d,
                        ci0,
                        line0,
                        col0,
                    ),
                    end_ci <= k <= start_ci,
                    self.content == cur,
                decreases k,
            {
                let c = self.content.text.get_char(k - 1);
                if c == '\n' {
                    self.line = if self.line > 0 {
                        self.line - 1
                    } else {
                        0
                    };
                    self.column = 1;
                } else {
                    self.column = if self.column > 0 {
                        self.column - 1
                    } else {
                        0
                    };
                }
                k = k - 1;
            }
        }
        Position { utf_8: end, line: self.line, column: self.column }
    }

    /// The slice of the text between two byte offsets that lie on character
    /// boundaries.
    pub fn substring(&self, start: usize, end: usize) -> (r: &str)
        requires
            self.wf(),
            is_byte_boundary(self.content.text@, start as int),
            is_byte_boundary(self.content.text@, end as int),
            start <= end,
        ensures
            r@ == self.content.text@.subrange(
                char_index_at(self.content.text@, start as int),
                char_index_at(self.content.text@, end as int),
            ),
    {
        let ghost s = self.content.text@;
        let a = char_index_of_boundary(self.content.text, start);
        let b = char_index_of_boundary(self.content.text, end);
        proof {
            let ghost ia = char_index_at(s, start as int);
            let ghost ib = char_index_at(s, end as int);
            lemma_byte_offset_injective(s, a as int, ia);
            lemma_byte_offset_injective(s, b as int, ib);
            if b < a {
                lemma_byte_offset_strictly_increasing(s, b as int, a as int);
            }
        }
        self.content.text.substring_char(a, b)
    }
}

} // verus!
