use vstd::prelude::*;

verus! {

/// The state of one cell of the grid.
#[derive(Clone, Copy, Debug, PartialEq, Eq, Structural, PartialOrd, Ord)]
pub enum Cell {
    Dead,
    Alive,
}

/// `true` stands for a live cell, `false` for a dead one.
pub open spec fn cell_of(b: bool) -> Cell {
    if b {
        Cell::Alive
    } else {
        Cell::Dead
    }
}

/// The state of a cell in the next generation, given its state now and the
/// number of its live neighbours: birth on exactly three, survival on two or
/// three, death otherwise.
pub open spec fn next_state(c: Cell, neighbours: int) -> Cell {
    match c {
        Cell::Dead => if neighbours == 3 { Cell::Alive } else { Cell::Dead },
        Cell::Alive => if neighbours == 2 || neighbours == 3 { Cell::Alive } else { Cell::Dead },
    }
}

impl From<bool> for Cell {
    fn from(b: bool) -> (r: Cell)
        ensures
            r == cell_of(b),
    {
        if b {
            Cell::Alive
        } else {
            Cell::Dead
        }
    }
}

impl vstd::std_specs::convert::FromSpecImpl<bool> for Cell {
    open spec fn obeys_from_spec() -> bool {
        true
    }

    open spec fn from_spec(v: bool) -> Cell {
        cell_of(v)
    }
}

} // verus!
