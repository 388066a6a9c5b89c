use vstd::prelude::*;

verus! {

/// One square of the grid.
#[derive(Clone, Copy, Debug, PartialEq, Eq, Structural)]
pub struct Cell {
    pub is_mine: bool,
    pub is_revealed: bool,
    pub is_flagged: bool,
    pub adjacent_mines: u8,
}

/// The character of a decimal digit; `'0'` for a number that is no digit.
pub open spec fn digit_glyph(n: u8) -> char {
    if n == 1 {
        '1'
    } else if n == 2 {
        '2'
    } else if n == 3 {
        '3'
    } else if n == 4 {
        '4'
    } else if n == 5 {
        '5'
    } else if n == 6 {
        '6'
    } else if n == 7 {
        '7'
    } else if n == 8 {
        '8'
    } else if n == 9 {
        '9'
    } else {
        '0'
    }
}

/// Computes [`digit_glyph`].
pub fn digit_symbol(n: u8) -> (ch: char)
    ensures
        ch == digit_glyph(n),
{
    if n < 10 {
        (48u8 + n) as char
    } else {
        '0'
    }
}

impl Cell {
    /// A hidden, unflagged cell without a mine and with a count of zero.
    pub open spec fn blank() -> Cell {
        Cell { is_mine: false, is_revealed: false, is_flagged: false, adjacent_mines: 0 }
    }

    /// The cell once it has been revealed: shown, and no longer flagged.
    pub open spec fn shown(self) -> Cell {
        Cell { is_revealed: true, is_flagged: false, ..self }
    }

    /// The character that stands for the cell on screen: `*` for a revealed
    /// mine, the count for any other revealed cell, `F` for a hidden cell
    /// with a flag, `.` for a hidden cell without one.
    pub open spec fn glyph(self) -> char {
        if self.is_revealed {
            if self.is_mine {
                '*'
            } else {
                digit_glyph(self.adjacent_mines)
            }
        } else if self.is_flagged {
            'F'
        } else {
            '.'
        }
    }

    /// A blank cell.
    pub fn new() -> (cell: Cell)
        ensures
            cell == Cell::blank(),
    {
        Cell { is_mine: false, is_revealed: false, is_flagged: false, adjacent_mines: 0 }
    }

    /// Computes [`Cell::glyph`].
    pub fn symbol(&self) -> (ch: char)
        ensures
            ch == self.glyph(),
    {
        if self.is_revealed {
            if self.is_mine {
                '*'
            } else {
                digit_symbol(self.adjacent_mines)
            }
        } else if self.is_flagged {
            'F'
        } else {
            '.'
        }
    }
}

} // verus!
