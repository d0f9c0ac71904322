use vstd::prelude::*;

verus! {

/// A compass label for a wall. Only `Top` and `Left` are ever produced by the
/// engine; `Bottom` and `Right` complete the vocabulary for consumers.
#[derive(Debug, Clone, Copy, PartialEq, Eq, Structural)]
pub enum Direction {
    Top,
    Bottom,
    Left,
    Right,
}

/// A wall between cell `(x, y)` and its neighbour in `direction`.
#[derive(Debug, Clone, Copy, PartialEq, Eq, Structural)]
pub struct Edge {
    pub x: usize,
    pub y: usize,
    pub direction: Direction,
}

/// Flattened index of cell `(x, y)` in a grid of the given height.
pub open spec fn cell_index(x: int, y: int, height: int) -> int {
    x * height + y
}

/// The cell on the other side of a wall pointing `direction` from `(x, y)`.
pub open spec fn neighbour(x: int, y: int, direction: Direction) -> (int, int) {
    match direction {
        Direction::Top => (x, y - 1),
        Direction::Left => (x - 1, y),
        _ => (x, y),
    }
}

/// An internal wall of a `width` by `height` grid, in the backward-pointing
/// form the engine materialises: `Left` walls for `x > 0`, `Top` walls for `y > 0`.
pub open spec fn is_candidate(e: Edge, width: int, height: int) -> bool {
    &&& e.x < width
    &&& e.y < height
    &&& (e.direction == Direction::Left && e.x > 0) || (e.direction == Direction::Top && e.y > 0)
}

/// Coordinates of the neighbouring cell across a wall. A `Top` wall needs
/// `y > 0` and a `Left` wall `x > 0`.
pub fn opposite(x: usize, y: usize, direction: Direction) -> (r: (usize, usize))
    requires
        direction == Direction::Top ==> y > 0,
        direction == Direction::Left ==> x > 0,
    ensures
        (r.0 as int, r.1 as int) == neighbour(x as int, y as int, direction),
{
    match direction {
        Direction::Top => (x, y - 1),
        Direction::Left => (x - 1, y),
        _ => (x, y),
    }
}

} // verus!
