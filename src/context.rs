//! Positions in the source text, for error messages.
use vstd::prelude::*;

verus! {

/// A line and a character within it, both counted from zero.
#[derive(Clone, Copy, Debug, PartialEq, Eq, Structural)]
pub struct Position {
    pub line: usize,
    pub character: usize,
}

impl Position {
    /// The start of the text.
    pub fn new() -> (r: Position)
        ensures
            r.line == 0,
            r.character == 0,
    {
        Position { line: 0, character: 0 }
    }
}

/// Where a reader of the text stands.
#[derive(Clone, Copy, Debug, PartialEq, Eq, Structural)]
pub struct Context {
    pub posn: Position,
}

impl Context {
    /// Moves `n` characters to the right on the same line.
    pub fn add_chars(self, n: usize) -> (r: Context)
        requires
            self.posn.character + n <= usize::MAX,
        ensures
            r.posn.line == self.posn.line,
            r.posn.character == self.posn.character + n,
    {
        let posn = Position { character: self.posn.character + n, ..self.posn };
        Context { posn, ..self }
    }

    /// Moves `n` lines down, to the start of the line.
    pub fn add_lines(self, n: usize) -> (r: Context)
        requires
            self.posn.line + n <= usize::MAX,
        ensures
            r.posn.line == self.posn.line + n,
            r.posn.character == 0,
    {
        let posn = Position { character: 0, line: self.posn.line + n };
        Context { posn, ..self }
    }

    /// The start of the text.
    pub fn new() -> (r: Context)
        ensures
            r.posn.line == 0,
            r.posn.character == 0,
    {
        Context { posn: Position::new() }
    }
}

} // verus!
