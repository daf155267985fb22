//! The temple's floor plan: a fixed grid of tiles and the cells from which
//! the bell, the censer, the tree and the cat can be reached.

use vstd::prelude::*;

verus! {

/// Width of the grid, in cells.
pub const W: usize = 9;

/// Height of the grid, in cells: seven rows of hall, five of plaza, six of courtyard.
pub const H: usize = 18;

/// A cell of the grid, as (row, column).
pub type Cell = (usize, usize);

/// Where the bell hangs; it is struck from its left, its right or the cell below it.
pub const BELL_AT: Cell = (0, 4);

/// Where the censer stands; incense is burnt from the cell right below it.
pub const CENSER_AT: Cell = (7, 4);

/// Where a newcomer is placed when that cell is free.
pub const START_AT: Cell = (9, 4);

/// Where the old tree stands.
pub const TREE_AT: Cell = (14, 4);

/// Where the cat starts.
pub const CAT_START: Cell = (10, 6);

/// First row outside the hall (plaza and courtyard); the cat and the cart stay at or below it.
pub const PLAZA_TOP: usize = 7;

/// First and last rows in which the daily cart is put down.
pub const COURTYARD_FIRST: usize = 9;
pub const COURTYARD_LAST: usize = 14;

/// The tile at (r, c):
/// 'B' bell, 'F' censer, 'T' tree, '+' lattice wall, 'f' flower hedge, '.' open floor.
/// The top row is open on both sides; the censer row is open at both ends;
/// the hall door and the courtyard gate are the three middle cells of rows 6 and 17.
pub open spec fn tile_at(r: int, c: int) -> char {
    if r == 0 {
        if c == 4 { 'B' } else { '.' }
    } else if 1 <= r <= 5 {
        if c == 0 || c == 8 { '+' } else { '.' }
    } else if r == 6 {
        if c <= 2 || c >= 6 { '+' } else { '.' }
    } else if r == 7 {
        if c == 4 { 'F' } else { '.' }
    } else if 8 <= r <= 16 {
        if c == 0 || c == 8 { 'f' } else if r == 14 && c == 4 { 'T' } else { '.' }
    } else {
        if c <= 2 || c >= 6 { 'f' } else { '.' }
    }
}

/// Whether (r, c) lies on the grid.
pub open spec fn in_bounds(at: Cell) -> bool {
    at.0 < H && at.1 < W
}

/// The tile of the floor plan at (r, c).
pub fn map_tile(r: usize, c: usize) -> (t: char)
    requires
        r < H,
        c < W,
    ensures
        t == tile_at(r as int, c as int),
{
    if r == 0 {
        if c == 4 { 'B' } else { '.' }
    } else if r <= 5 {
        if c == 0 || c == 8 { '+' } else { '.' }
    } else if r == 6 {
        if c <= 2 || c >= 6 { '+' } else { '.' }
    } else if r == 7 {
        if c == 4 { 'F' } else { '.' }
    } else if r <= 16 {
        if c == 0 || c == 8 { 'f' } else if r == 14 && c == 4 { 'T' } else { '.' }
    } else {
        if c <= 2 || c >= 6 { 'f' } else { '.' }
    }
}

/// Whether two cells are the same.
pub fn same_cell(a: Cell, b: Cell) -> (r: bool)
    ensures
        r == (a == b),
{
    a.0 == b.0 && a.1 == b.1
}

/// Manhattan distance between two cells.
pub open spec fn dist(a: Cell, b: Cell) -> int {
    (if a.0 >= b.0 { a.0 - b.0 } else { b.0 - a.0 }) + (if a.1 >= b.1 { a.1 - b.1 } else { b.1 - a.1 })
}

/// Manhattan distance between two cells.
pub fn cell_dist(a: Cell, b: Cell) -> (d: usize)
    requires
        a.0 < H && a.1 < W && b.0 < H && b.1 < W,
    ensures
        d == dist(a, b),
{
    (if a.0 >= b.0 { a.0 - b.0 } else { b.0 - a.0 }) + (if a.1 >= b.1 { a.1 - b.1 } else { b.1 - a.1 })
}

pub open spec fn min_int(a: int, b: int) -> int {
    if a <= b { a } else { b }
}

/// How far `c` is from the nearest cell from which one step leaves the temple:
/// both ends of the top row and of the censer row, and the courtyard gate.
pub open spec fn exit_gap(c: Cell) -> int {
    min_int(
        min_int(min_int(dist(c, (0, 0)), dist(c, (0, 8))), min_int(dist(c, (7, 0)), dist(c, (7, 8)))),
        min_int(min_int(dist(c, (17, 3)), dist(c, (17, 4))), dist(c, (17, 5))),
    )
}

fn min_of(a: usize, b: usize) -> (m: usize)
    ensures
        m == min_int(a as int, b as int),
{
    if a <= b { a } else { b }
}

/// How far `c` is from the nearest exit (see `exit_gap`).
pub fn exit_gap_of(c: Cell) -> (g: usize)
    requires
        in_bounds(c),
    ensures
        g == exit_gap(c),
{
    min_of(
        min_of(min_of(cell_dist(c, (0, 0)), cell_dist(c, (0, 8))), min_of(cell_dist(c, (7, 0)), cell_dist(c, (7, 8)))),
        min_of(min_of(cell_dist(c, (17, 3)), cell_dist(c, (17, 4))), cell_dist(c, (17, 5))),
    )
}

/// Where a cart or the cat shoved out beside the censer comes back: two cells below the tree.
pub const BELOW_TREE: Cell = (16, 4);

/// Where the cat shoved out of the courtyard gate comes back: three cells left
/// or right of the censer.
pub const CENSER_LEFT: Cell = (7, 1);
pub const CENSER_RIGHT: Cell = (7, 7);

/// Whether two cells share an edge.
pub open spec fn adjacent(a: Cell, b: Cell) -> bool {
    dist(a, b) == 1
}

/// Whether two cells share an edge.
pub fn is_adjacent(a: Cell, b: Cell) -> (r: bool)
    ensures
        r == adjacent(a, b),
{
    let dr = if a.0 >= b.0 { a.0 - b.0 } else { b.0 - a.0 };
    let dc = if a.1 >= b.1 { a.1 - b.1 } else { b.1 - a.1 };
    (dr == 1 && dc == 0) || (dr == 0 && dc == 1)
}

/// The bell can be struck from the cell to its left, to its right or right below it.
pub open spec fn ringable(at: Cell) -> bool {
    at == (0usize, 3usize) || at == (0usize, 5usize) || at == (1usize, 4usize)
}

pub fn can_ring(at: Cell) -> (r: bool)
    ensures
        r == ringable(at),
{
    (at.0 == BELL_AT.0 && at.1 == BELL_AT.1 - 1) || (at.0 == BELL_AT.0 && at.1 == BELL_AT.1 + 1)
        || (at.0 == BELL_AT.0 + 1 && at.1 == BELL_AT.1)
}

/// Incense is burnt from the cell right below the censer.
pub open spec fn burnable(at: Cell) -> bool {
    at == (8usize, 4usize)
}

pub fn can_burn(at: Cell) -> (r: bool)
    ensures
        r == burnable(at),
{
    at.0 == CENSER_AT.0 + 1 && at.1 == CENSER_AT.1
}

/// The cat can be petted from any cell next to it.
pub fn can_pet(at: Cell, cat: Cell) -> (r: bool)
    ensures
        r == adjacent(at, cat),
{
    is_adjacent(at, cat)
}

/// The tree can be looked at from any cell next to it.
pub fn can_tree(at: Cell) -> (r: bool)
    ensures
        r == adjacent(at, TREE_AT),
{
    is_adjacent(at, TREE_AT)
}

} // verus!
