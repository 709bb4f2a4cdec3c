use vstd::prelude::*;

verus! {

/// A line/column location in the input; both components start at 1.
#[derive(Clone, Copy, Debug, PartialEq, Eq, Structural)]
pub struct Position {
    pub line: usize,
    pub column: usize,
}

/// Increment that stops at the top of `usize` instead of wrapping, so that
/// position tracking never aborts, however long the input runs.
pub open spec fn sat_inc(x: usize) -> usize {
    if x == usize::MAX {
        x
    } else {
        (x + 1) as usize
    }
}

/// Where a position moves after consuming `c`: a newline opens the next line
/// at column 1; any other character advances the column.
pub open spec fn advanced(p: Position, c: char) -> Position {
    if c == '\n' {
        Position { line: sat_inc(p.line), column: 1 }
    } else {
        Position { line: p.line, column: sat_inc(p.column) }
    }
}

impl Position {
    /// The start of a fresh input: line 1, column 1.
    pub open spec fn origin() -> Position {
        Position { line: 1, column: 1 }
    }

    /// The position one consumed character later.
    pub fn advance(self, c: char) -> (r: Position)
        ensures
            r == advanced(self, c),
    {
        if c == '\n' {
            let line: usize = if self.line == usize::MAX {
                self.line
            } else {
                self.line + 1
            };
            Position { line, column: 1 }
        } else {
            let column: usize = if self.column == usize::MAX {
                self.column
            } else {
                self.column + 1
            };
            Position { line: self.line, column }
        }
    }
}

} // verus!
