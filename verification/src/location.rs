//! Tracking of line, column and character index while source text is consumed.

use vstd::prelude::*;

verus! {

/// A cursor position in the source text.  `index` counts the characters
/// consumed so far; `line` and `col` are 1-based and describe where the next
/// character would be read.
#[derive(Debug, Clone, Copy, PartialEq, Eq, Structural)]
pub struct Location {
    pub col: usize,
    pub line: usize,
    pub index: usize,
}

/// Line number reached after consuming the first `i` characters of `s`:
/// one more than the number of newlines among them.
pub open spec fn line_at(s: Seq<char>, i: int) -> int
    decreases i,
{
    if i <= 0 {
        1
    } else {
        line_at(s, i - 1) + if s[i - 1] == '\n' {
            1int
        } else {
            0int
        }
    }
}

/// Column reached after consuming the first `i` characters of `s`: 1 right
/// after a newline, otherwise one more than at the previous character.
pub open spec fn col_at(s: Seq<char>, i: int) -> int
    decreases i,
{
    if i <= 0 {
        1
    } else if s[i - 1] == '\n' {
        1
    } else {
        col_at(s, i - 1) + 1
    }
}

/// `loc` is exactly the position reached after consuming the first `i`
/// characters of `s`.
pub open spec fn tracks(loc: Location, s: Seq<char>, i: int) -> bool {
    &&& loc.index == i
    &&& loc.line == line_at(s, i)
    &&& loc.col == col_at(s, i)
}

/// Line and column stay at least 1 and together never outgrow the index,
/// so a tracked position never overflows the machine integers that hold it.
pub proof fn lemma_line_col_bounds(s: Seq<char>, i: int)
    requires
        0 <= i,
    ensures
        1 <= line_at(s, i),
        1 <= col_at(s, i),
        line_at(s, i) + col_at(s, i) <= i + 2,
    decreases i,
{
    if i > 0 {
        lemma_line_col_bounds(s, i - 1);
    }
}

impl Location {
    pub fn col(&self) -> (c: usize)
        ensures
            c == self.col,
    {
        self.col
    }

    pub fn line(&self) -> (l: usize)
        ensures
            l == self.line,
    {
        self.line
    }

    pub fn index(&self) -> (i: usize)
        ensures
            i == self.index,
    {
        self.index
    }

    /// The position before anything has been consumed.
    pub fn new() -> (loc: Location)
        ensures
            loc.index == 0,
            loc.line == 1,
            loc.col == 1,
            tracks(loc, Seq::<char>::empty(), 0),
    {
        Location { col: 1, line: 1, index: 0 }
    }

    /// Step past one consumed character: a newline opens a fresh line,
    /// anything else moves one column to the right.
    pub fn advance(&mut self, ch: char)
        requires
            old(self).index < usize::MAX,
            old(self).line < usize::MAX,
            old(self).col < usize::MAX,
        ensures
            final(self).index == old(self).index + 1,
            ch == '\n' ==> final(self).line == old(self).line + 1 && final(self).col == 1,
            ch != '\n' ==> final(self).line == old(self).line && final(self).col == old(
                self,
            ).col + 1,
    {
        self.index = self.index + 1;
        if ch == '\n' {
            self.line = self.line + 1;
            self.col = 1;
        } else {
            self.col = self.col + 1;
        }
    }

    /// Undo the consumption of one character that did not cross a line
    /// boundary.
    pub fn backtrack(&mut self)
        requires
            old(self).index >= 1,
            old(self).col >= 2,
        ensures
            final(self).index == old(self).index - 1,
            final(self).col == old(self).col - 1,
            final(self).line == old(self).line,
    {
        self.index = self.index - 1;
        self.col = self.col - 1;
    }

    /// Advancing past `s[i]` keeps the position tracking `s`.
    pub proof fn lemma_tracks_step(s: Seq<char>, i: int, before: Location, after: Location)
        requires
            0 <= i < s.len(),
            tracks(before, s, i),
            after.index == before.index + 1,
            s[i] == '\n' ==> after.line == before.line + 1 && after.col == 1,
            s[i] != '\n' ==> after.line == before.line && after.col == before.col + 1,
        ensures
            tracks(after, s, i + 1),
    {
        assert(line_at(s, i + 1) == line_at(s, i) + if s[i] == '\n' {
            1int
        } else {
            0int
        });
        assert(col_at(s, i + 1) == if s[i] == '\n' {
            1int
        } else {
            col_at(s, i) + 1
        });
    }
}

} // verus!
