use std::cmp::Ordering;

use vstd::prelude::*;

verus! {

/// Width and height of the square grid that backs every board.
pub const GRID: usize = 9;

/// Number of cells in the backing grid.
pub const CELLS: usize = 81;

/// A set of the four primitive grid moves; a hex neighbour is one move or a
/// combination of two.
#[derive(Clone, Copy, PartialEq, Eq, Structural, Debug)]
pub struct Direction {
    pub bits: u8,
}

impl Direction {
    pub fn left() -> (r: Direction)
        ensures
            r.bits == 0x1,
    {
        Direction { bits: 0x1 }
    }

    pub fn right() -> (r: Direction)
        ensures
            r.bits == 0x2,
    {
        Direction { bits: 0x2 }
    }

    pub fn up() -> (r: Direction)
        ensures
            r.bits == 0x4,
    {
        Direction { bits: 0x4 }
    }

    pub fn down() -> (r: Direction)
        ensures
            r.bits == 0x8,
    {
        Direction { bits: 0x8 }
    }

    pub open spec fn has_left(self) -> bool {
        self.bits & 0x1 == 0x1
    }

    pub open spec fn has_right(self) -> bool {
        self.bits & 0x2 == 0x2
    }

    pub open spec fn has_up(self) -> bool {
        self.bits & 0x4 == 0x4
    }

    pub open spec fn has_down(self) -> bool {
        self.bits & 0x8 == 0x8
    }

    /// Whether every primitive move of `other` is in `self`.
    pub fn contains(self, other: Direction) -> (r: bool)
        ensures
            r == (self.bits & other.bits == other.bits),
    {
        self.bits & other.bits == other.bits
    }

    /// The combination of the moves of both directions.
    pub fn union(self, other: Direction) -> (r: Direction)
        ensures
            r.bits == self.bits | other.bits,
            r.has_left() == (self.has_left() || other.has_left()),
            r.has_right() == (self.has_right() || other.has_right()),
            r.has_up() == (self.has_up() || other.has_up()),
            r.has_down() == (self.has_down() || other.has_down()),
    {
        let a = self.bits;
        let b = other.bits;
        assert((a | b) & 0x1 == 0x1 <==> (a & 0x1 == 0x1 || b & 0x1 == 0x1)) by (bit_vector);
        assert((a | b) & 0x2 == 0x2 <==> (a & 0x2 == 0x2 || b & 0x2 == 0x2)) by (bit_vector);
        assert((a | b) & 0x4 == 0x4 <==> (a & 0x4 == 0x4 || b & 0x4 == 0x4)) by (bit_vector);
        assert((a | b) & 0x8 == 0x8 <==> (a & 0x8 == 0x8 || b & 0x8 == 0x8)) by (bit_vector);
        Direction { bits: a | b }
    }
}

/// A grid position, ordered by row (`y`) first and then by column (`x`).
#[derive(Clone, Copy, PartialEq, Eq, Structural, Debug, Default, Hash)]
pub struct Coordinate {
    pub x: usize,
    pub y: usize,
}

/// Coordinates compare by row first, then by column.
pub open spec fn coord_order(a: Coordinate, b: Coordinate) -> Ordering {
    if a.y < b.y {
        Ordering::Less
    } else if a.y > b.y {
        Ordering::Greater
    } else if a.x < b.x {
        Ordering::Less
    } else if a.x > b.x {
        Ordering::Greater
    } else {
        Ordering::Equal
    }
}

impl PartialOrd for Coordinate {
    fn partial_cmp(&self, other: &Coordinate) -> (r: Option<Ordering>)
        ensures
            r == Some(coord_order(*self, *other)),
    {
        if self.y < other.y {
            Some(Ordering::Less)
        } else if self.y > other.y {
            Some(Ordering::Greater)
        } else if self.x < other.x {
            Some(Ordering::Less)
        } else if self.x > other.x {
            Some(Ordering::Greater)
        } else {
            Some(Ordering::Equal)
        }
    }
}

impl vstd::std_specs::cmp::PartialOrdSpecImpl for Coordinate {
    open spec fn obeys_partial_cmp_spec() -> bool {
        true
    }

    open spec fn partial_cmp_spec(&self, other: &Coordinate) -> Option<Ordering> {
        Some(coord_order(*self, *other))
    }
}

/// The column reached from `x` by the moves of `d`, as an integer.
pub open spec fn moved_x(x: int, d: Direction) -> int {
    x - (if d.has_left() { 1int } else { 0 }) + (if d.has_right() { 1int } else { 0 })
}

/// The row reached from `y` by the moves of `d`, as an integer.
pub open spec fn moved_y(y: int, d: Direction) -> int {
    y + (if d.has_up() { 1int } else { 0 }) - (if d.has_down() { 1int } else { 0 })
}

/// Whether the checked neighbour computation fails: a move to the left from
/// column zero, a move down that would leave row zero, or a move right or up
/// past the largest `usize`.
pub open spec fn moves_out_of_range(c: Coordinate, d: Direction) -> bool {
    (d.has_left() && c.x == 0) || (d.has_right() && !d.has_left() && c.x == usize::MAX) || (
    d.has_up() && c.y == usize::MAX) || (d.has_down() && !d.has_up() && c.y == 0)
}

/// The neighbour of `c` in direction `d`, or `None` where a move leaves the
/// range of `usize`.
pub open spec fn adjacent_spec(c: Coordinate, d: Direction) -> Option<Coordinate> {
    if moves_out_of_range(c, d) {
        None
    } else {
        Some(Coordinate { x: moved_x(c.x as int, d) as usize, y: moved_y(c.y as int, d) as usize })
    }
}

/// The cell index of a coordinate of the grid.
pub open spec fn index_of(c: Coordinate) -> int {
    c.x + GRID * c.y
}

/// The coordinate of a cell index.
pub open spec fn coord_of(i: int) -> Coordinate {
    Coordinate { x: (i % GRID as int) as usize, y: (i / GRID as int) as usize }
}

/// Whether a coordinate lies in the backing grid.
pub open spec fn in_grid(c: Coordinate) -> bool {
    c.x < GRID && c.y < GRID
}

impl Coordinate {
    pub fn new(x: usize, y: usize) -> (r: Self)
        ensures
            r.x == x,
            r.y == y,
    {
        Coordinate { x, y }
    }

    /// The neighbour in `direction`, for a caller that knows no move goes
    /// below zero.
    pub fn raw_adjacent(self, direction: Direction) -> (r: Self)
        requires
            !moves_out_of_range(self, direction),
        ensures
            Some(r) == adjacent_spec(self, direction),
    {
        let mut output = self;
        if direction.contains(Direction::left()) {
            output.x = output.x - 1;
        }
        if direction.contains(Direction::right()) {
            output.x = output.x + 1;
        }
        if direction.contains(Direction::up()) {
            output.y = output.y + 1;
        }
        if direction.contains(Direction::down()) {
            output.y = output.y - 1;
        }
        output
    }

    /// The neighbour in `direction`, or `None` where a move goes below zero
    /// or past the largest `usize`.
    pub fn adjacent(self, direction: Direction) -> (r: Option<Self>)
        ensures
            r == adjacent_spec(self, direction),
    {
        let mut output = self;
        if direction.contains(Direction::left()) {
            if output.x == 0 {
                return None;
            }
            output.x = output.x - 1;
        }
        if direction.contains(Direction::right()) {
            if output.x == usize::MAX {
                return None;
            }
            output.x = output.x + 1;
        }
        if direction.contains(Direction::up()) {
            if output.y == usize::MAX {
                return None;
            }
            output.y = output.y + 1;
        }
        if direction.contains(Direction::down()) {
            if output.y == 0 {
                return None;
            }
            output.y = output.y - 1;
        }
        Some(output)
    }
}

/// The grid coordinate `(x, y)` of a cell index.
pub fn usize_to_coord(n: usize) -> (r: (usize, usize))
    ensures
        r.0 == n % GRID,
        r.1 == n / GRID,
{
    (n % GRID, n / GRID)
}

/// Walks every coordinate of the grid, row by row from `(0, 0)` to `(8, 8)`.
pub struct CoordinateIter {
    current: Coordinate,
}

impl CoordinateIter {
    /// How many coordinates have been handed out so far.
    pub closed spec fn position(&self) -> int {
        if self.current.y >= GRID {
            CELLS as int
        } else {
            index_of(self.current)
        }
    }

    pub closed spec fn wf(&self) -> bool {
        (self.current.x < GRID && self.current.y < GRID) || (self.current.x == 0 && self.current.y
            == GRID)
    }

    pub fn new() -> (r: Self)
        ensures
            r.wf(),
            r.position() == 0,
    {
        CoordinateIter { current: Coordinate { x: 0, y: 0 } }
    }

    /// The next coordinate in row order, or `None` once all 81 are out.
    pub fn next(&mut self) -> (r: Option<Coordinate>)
        requires
            old(self).wf(),
        ensures
            final(self).wf(),
            old(self).position() < CELLS ==> r == Some(coord_of(old(self).position()))
                && final(self).position() == old(self).position() + 1,
            old(self).position() >= CELLS ==> r.is_none() && final(self).position()
                == old(self).position(),
    {
        if self.current.y >= GRID {
            return None;
        }
        let output = self.current;
        if self.current.x >= GRID - 1 {
            self.current = Coordinate { x: 0, y: self.current.y + 1 };
        } else {
            self.current = Coordinate { x: self.current.x + 1, y: self.current.y };
        }
        Some(output)
    }
}

} // verus!

verus! {

pub open spec fn dir_left() -> Direction {
    Direction { bits: 0x1 }
}

pub open spec fn dir_right() -> Direction {
    Direction { bits: 0x2 }
}

pub open spec fn dir_up() -> Direction {
    Direction { bits: 0x4 }
}

pub open spec fn dir_down() -> Direction {
    Direction { bits: 0x8 }
}

pub open spec fn dir_up_right() -> Direction {
    Direction { bits: 0x6 }
}

pub open spec fn dir_left_down() -> Direction {
    Direction { bits: 0x9 }
}

/// Which primitive moves each of the six hex directions is made of.
pub proof fn lemma_direction_moves()
    ensures
        dir_left().has_left() && !dir_left().has_right() && !dir_left().has_up()
            && !dir_left().has_down(),
        !dir_right().has_left() && dir_right().has_right() && !dir_right().has_up()
            && !dir_right().has_down(),
        !dir_up().has_left() && !dir_up().has_right() && dir_up().has_up() && !dir_up().has_down(),
        !dir_down().has_left() && !dir_down().has_right() && !dir_down().has_up()
            && dir_down().has_down(),
        !dir_up_right().has_left() && dir_up_right().has_right() && dir_up_right().has_up()
            && !dir_up_right().has_down(),
        dir_left_down().has_left() && !dir_left_down().has_right() && !dir_left_down().has_up()
            && dir_left_down().has_down(),
{
    assert(0x1u8 & 0x1 == 0x1 && 0x1u8 & 0x2 != 0x2 && 0x1u8 & 0x4 != 0x4 && 0x1u8 & 0x8 != 0x8)
        by (bit_vector);
    assert(0x2u8 & 0x1 != 0x1 && 0x2u8 & 0x2 == 0x2 && 0x2u8 & 0x4 != 0x4 && 0x2u8 & 0x8 != 0x8)
        by (bit_vector);
    assert(0x4u8 & 0x1 != 0x1 && 0x4u8 & 0x2 != 0x2 && 0x4u8 & 0x4 == 0x4 && 0x4u8 & 0x8 != 0x8)
        by (bit_vector);
    assert(0x8u8 & 0x1 != 0x1 && 0x8u8 & 0x2 != 0x2 && 0x8u8 & 0x4 != 0x4 && 0x8u8 & 0x8 == 0x8)
        by (bit_vector);
    assert(0x6u8 & 0x1 != 0x1 && 0x6u8 & 0x2 == 0x2 && 0x6u8 & 0x4 == 0x4 && 0x6u8 & 0x8 != 0x8)
        by (bit_vector);
    assert(0x9u8 & 0x1 == 0x1 && 0x9u8 & 0x2 != 0x2 && 0x9u8 & 0x4 != 0x4 && 0x9u8 & 0x8 == 0x8)
        by (bit_vector);
}

impl Direction {
    /// Up and to the right: one step up and one step right on the grid.
    pub fn up_right() -> (r: Direction)
        ensures
            r == dir_up_right(),
    {
        let r = Direction::up().union(Direction::right());
        assert(0x4u8 | 0x2u8 == 0x6u8) by (bit_vector);
        r
    }

    /// Left and down: one step left and one step down on the grid.
    pub fn left_down() -> (r: Direction)
        ensures
            r == dir_left_down(),
    {
        let r = Direction::left().union(Direction::down());
        assert(0x1u8 | 0x8u8 == 0x9u8) by (bit_vector);
        r
    }
}

} // verus!
