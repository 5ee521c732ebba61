use vstd::prelude::*;
use crate::json::{push_signed_decimal, signed_decimal};

verus! {

/// A place in the input text: the line (`row`) and the column, both counted from 1.
#[derive(Debug, Clone, Copy, PartialEq, Eq, Structural)]
pub struct Position {
    pub row: i32,
    pub column: i32,
}

impl Position {
    /// The position one column further to the right.
    pub open spec fn spec_next_column(self) -> Position {
        Position { row: self.row, column: (self.column + 1) as i32 }
    }

    /// The first column of the next line.
    pub open spec fn spec_next_row(self) -> Position {
        Position { row: (self.row + 1) as i32, column: 1 }
    }

    /// The position as text: the row, a colon and the column, each in decimal.
    pub fn to_string(&self) -> (r: String)
        ensures
            r@ == signed_decimal(self.row as int) + seq![':'] + signed_decimal(
                self.column as int,
            ),
    {
        let mut r = String::new();
        push_signed_decimal(&mut r, self.row);
        r.push(':');
        push_signed_decimal(&mut r, self.column);
        assert(r@ =~= signed_decimal(self.row as int) + seq![':'] + signed_decimal(
            self.column as int,
        ));
        r
    }

    /// The start of the input: line 1, column 1.
    pub fn new() -> (p: Self)
        ensures
            p == (Position { row: 1, column: 1 }),
    {
        Position { row: 1, column: 1 }
    }

    /// Moves to the first column of the next line.
    pub fn next_row(&mut self) -> (r: &Self)
        requires
            old(self).row < i32::MAX,
        ensures
            *final(self) == old(self).spec_next_row(),
            *r == *final(self),
    {
        self.row += 1;
        self.reset_column()
    }

    /// Moves one column to the right.
    pub fn next_column(&mut self) -> (r: &Self)
        requires
            old(self).column < i32::MAX,
        ensures
            *final(self) == old(self).spec_next_column(),
            *r == *final(self),
    {
        self.column += 1;
        self
    }

    /// Moves back to the first column of the current line.
    pub fn reset_column(&mut self) -> (r: &Self)
        ensures
            *final(self) == (Position { row: old(self).row, column: 1 }),
            *r == *final(self),
    {
        self.column = 1;
        self
    }
}

} // verus!
