use vstd::prelude::*;

verus! {

/// Whether `(r, c)` names a square of the grid. Rows may differ in length.
pub open spec fn in_grid<T>(fs: Seq<Vec<T>>, r: int, c: int) -> bool {
    0 <= r < fs.len() && 0 <= c < fs[r].len()
}

/// Whether `(row, col)` names a square of the grid.
pub fn valid_index<T>(row: usize, col: usize, fields: &[Vec<T>]) -> (b: bool)
    ensures
        b == in_grid(fields@, row as int, col as int),
{
    row < fields.len() && col < fields[row].len()
}

/// The four axis steps of the pusher.
#[derive(Clone, Copy, Debug, PartialEq, Eq, Structural)]
pub enum Direction {
    Up,
    Down,
    Left,
    Right,
}

impl Direction {
    /// Change of the row index by one step.
    pub open spec fn dr(self) -> int {
        match self {
            Direction::Up => -1,
            Direction::Down => 1,
            _ => 0,
        }
    }

    /// Change of the column index by one step.
    pub open spec fn dc(self) -> int {
        match self {
            Direction::Left => -1,
            Direction::Right => 1,
            _ => 0,
        }
    }

    /// The direction that undoes a step.
    pub open spec fn reverse(self) -> Direction {
        match self {
            Direction::Up => Direction::Down,
            Direction::Down => Direction::Up,
            Direction::Left => Direction::Right,
            Direction::Right => Direction::Left,
        }
    }

    /// The direction that undoes a step.
    pub fn opposite(self) -> (d: Direction)
        ensures
            d == self.reverse(),
            d.dr() == -self.dr(),
            d.dc() == -self.dc(),
    {
        match self {
            Direction::Up => Direction::Down,
            Direction::Down => Direction::Up,
            Direction::Left => Direction::Right,
            Direction::Right => Direction::Left,
        }
    }

    /// The letter that stands for the step in a solution.
    pub open spec fn letter_of(self) -> char {
        match self {
            Direction::Up => 'u',
            Direction::Down => 'd',
            Direction::Left => 'l',
            Direction::Right => 'r',
        }
    }

    /// The letter that stands for the step in a solution.
    pub fn letter(self) -> (ch: char)
        ensures
            ch == self.letter_of(),
    {
        match self {
            Direction::Up => 'u',
            Direction::Down => 'd',
            Direction::Left => 'l',
            Direction::Right => 'r',
        }
    }

    /// The square one step from `(row, col)`, if the grid has it.
    pub fn step<T>(self, row: usize, col: usize, fields: &[Vec<T>]) -> (t: Option<(usize, usize)>)
        ensures
            t is Some == in_grid(fields@, row + self.dr(), col + self.dc()),
            t matches Some(p) ==> p.0 == row + self.dr() && p.1 == col + self.dc(),
    {
        let target = match self {
            Direction::Up => {
                if row == 0 {
                    return None;
                }
                (row - 1, col)
            },
            Direction::Down => {
                if row >= fields.len() {
                    return None;
                }
                (row + 1, col)
            },
            Direction::Left => {
                if col == 0 {
                    return None;
                }
                (row, col - 1)
            },
            Direction::Right => {
                if !valid_index(row, col, fields) {
                    return None;
                }
                (row, col + 1)
            },
        };
        if valid_index(target.0, target.1, fields) {
            Some(target)
        } else {
            None
        }
    }
}

} // verus!
