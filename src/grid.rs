//! Grid coordinates and board bounds.
use vstd::prelude::*;

verus! {

/// Inclusive upper corner of a board whose cells run from `(0, 0)` to
/// `(max_x, max_y)`.
#[derive(Clone, Copy, Debug, PartialEq, Eq)]
pub struct Bounds {
    pub max_x: i32,
    pub max_y: i32,
}

/// Whether `(x, y)` lies off the board.
pub open spec fn spec_out_of_bounds(b: Bounds, x: int, y: int) -> bool {
    x < 0 || y < 0 || x > b.max_x || y > b.max_y
}

/// Whether `(x, y)` lies off the board.
pub fn out_of_bounds(bounds: &Bounds, x: i32, y: i32) -> (r: bool)
    ensures
        r == spec_out_of_bounds(*bounds, x as int, y as int),
{
    let lowest = if x < y {
        x
    } else {
        y
    };
    lowest < 0 || x > bounds.max_x || y > bounds.max_y
}

/// Whether the list of obstructed cells holds `(x, y)`.
pub open spec fn spec_is_obstructed(walls: Seq<[i32; 2]>, x: int, y: int) -> bool {
    exists|j: int| 0 <= j < walls.len() && walls[j][0] == x && walls[j][1] == y
}

/// Looks `(x, y)` up in the list of obstructed cells.
pub fn is_obstructed(walls: &Vec<[i32; 2]>, x: i32, y: i32) -> (r: bool)
    ensures
        r == spec_is_obstructed(walls@, x as int, y as int),
{
    let mut i: usize = 0;
    while i < walls.len()
        invariant
            0 <= i <= walls.len(),
            forall|j: int| 0 <= j < i ==> !(walls@[j][0] == x && walls@[j][1] == y),
        decreases walls.len() - i,
    {
        if walls[i][0] == x && walls[i][1] == y {
            return true;
        }
        i += 1;
    }
    false
}

} // verus!
