use vstd::prelude::*;

use crate::coordinate::{coord_of, in_grid, index_of, Coordinate, CELLS, GRID};

verus! {

/// The colour of a marble.
#[derive(Clone, Copy, PartialEq, Eq, Structural, Debug)]
pub enum Marble {
    White,
    Gray,
    Black,
}

/// The state of one cell: no ring (never placed or removed), an empty ring,
/// or a ring holding a marble.
#[derive(Clone, Copy, PartialEq, Eq, Structural, Debug)]
pub enum Ring {
    Empty,
    Vacant,
    Occupied(Marble),
}

impl Ring {
    /// Whether a ring stands in the cell (vacant or occupied).
    pub fn is_present(&self) -> (r: bool)
        ensures
            r == !(*self is Empty),
    {
        !matches!(self, Ring::Empty)
    }
}

/// The board shapes, named by their number of rings.
#[derive(Clone, Copy, PartialEq, Eq, Structural, Debug)]
pub enum BoardKind {
    Rings37,
    Rings40,
    Rings43,
    Rings44,
    Rings48,
    Rings61,
}

/// Each shape is the part of the grid with `x <= max_x`, `y <= max_y`,
/// `x - y <= right_skew` and `y - x <= up_skew`.
pub open spec fn shape_bounds(kind: BoardKind) -> (int, int, int, int) {
    match kind {
        BoardKind::Rings37 => (6, 6, 3, 3),
        BoardKind::Rings40 => (6, 7, 3, 3),
        BoardKind::Rings43 => (7, 7, 2, 4),
        BoardKind::Rings44 => (6, 7, 3, 4),
        BoardKind::Rings48 => (7, 7, 3, 4),
        BoardKind::Rings61 => (8, 8, 4, 4),
    }
}

/// Whether the shape of `kind` holds a ring at `c` when the game starts.
pub open spec fn in_shape(kind: BoardKind, c: Coordinate) -> bool {
    let (mx, my, rs, us) = shape_bounds(kind);
    c.x <= mx && c.y <= my && c.x <= c.y + rs && c.y <= c.x + us
}

/// The coordinate that stands for everything outside the board; no shape
/// holds a ring there.
pub open spec fn outside_coord() -> Coordinate {
    Coordinate { x: 8, y: 0 }
}

impl BoardKind {
    /// The board kind with `n` rings.
    pub fn from_ring_count(n: u8) -> (r: Option<BoardKind>)
        ensures
            r == (if n == 37 {
                Some(BoardKind::Rings37)
            } else if n == 40 {
                Some(BoardKind::Rings40)
            } else if n == 43 {
                Some(BoardKind::Rings43)
            } else if n == 44 {
                Some(BoardKind::Rings44)
            } else if n == 48 {
                Some(BoardKind::Rings48)
            } else if n == 61 {
                Some(BoardKind::Rings61)
            } else {
                None
            }),
    {
        match n {
            37 => Some(BoardKind::Rings37),
            40 => Some(BoardKind::Rings40),
            43 => Some(BoardKind::Rings43),
            44 => Some(BoardKind::Rings44),
            48 => Some(BoardKind::Rings48),
            61 => Some(BoardKind::Rings61),
            _ => None,
        }
    }

    fn bounds(self) -> (r: (usize, usize, usize, usize))
        ensures
            (r.0 as int, r.1 as int, r.2 as int, r.3 as int) == shape_bounds(self),
    {
        match self {
            BoardKind::Rings37 => (6, 6, 3, 3),
            BoardKind::Rings40 => (6, 7, 3, 3),
            BoardKind::Rings43 => (7, 7, 2, 4),
            BoardKind::Rings44 => (6, 7, 3, 4),
            BoardKind::Rings48 => (7, 7, 3, 4),
            BoardKind::Rings61 => (8, 8, 4, 4),
        }
    }

    /// Whether the shape holds a ring at `c` when the game starts.
    pub fn contains(self, c: Coordinate) -> (r: bool)
        requires
            in_grid(c),
        ensures
            r == in_shape(self, c),
    {
        let (mx, my, rs, us) = self.bounds();
        c.x <= mx && c.y <= my && c.x <= c.y + rs && c.y <= c.x + us
    }
}

/// The grid of cells, with the shape it was created from.
#[derive(Clone, Copy, Debug)]
pub struct Board {
    pub kind: BoardKind,
    pub data: [Ring; 81],
}

/// The cell of `b` at `c`.
pub open spec fn cell(b: Seq<Ring>, c: Coordinate) -> Ring {
    b[index_of(c)]
}

/// The cell at `c`, or `None` where `c` lies outside the grid.
pub open spec fn lookup(b: Seq<Ring>, c: Coordinate) -> Option<Ring> {
    if in_grid(c) {
        Some(cell(b, c))
    } else {
        None
    }
}

/// A board just created from `kind`: rings exactly where the shape has them.
pub open spec fn fresh_cells(kind: BoardKind, b: Seq<Ring>) -> bool {
    b.len() == CELLS && forall|i: int|
        0 <= i < CELLS ==> #[trigger] b[i] == if in_shape(kind, coord_of(i)) {
            Ring::Vacant
        } else {
            Ring::Empty
        }
}

pub proof fn lemma_index_coord(i: int)
    requires
        0 <= i < CELLS,
    ensures
        in_grid(coord_of(i)),
        index_of(coord_of(i)) == i,
{
}

pub proof fn lemma_coord_index(c: Coordinate)
    requires
        in_grid(c),
    ensures
        0 <= index_of(c) < CELLS,
        coord_of(index_of(c)) == c,
{
    assert(0 <= c.x + 9 * c.y < 81) by (nonlinear_arith)
        requires
            c.x < 9,
            c.y < 9,
    ;
    assert((c.x + 9 * c.y) % 9 == c.x && (c.x + 9 * c.y) / 9 == c.y) by (nonlinear_arith)
        requires
            c.x < 9,
            c.y < 9,
    ;
}

impl Board {
    pub open spec fn view(&self) -> Seq<Ring> {
        self.data@
    }

    /// A board of `kind`: a vacant ring on every cell of the shape, no ring
    /// elsewhere.
    pub fn new(kind: BoardKind) -> (r: Self)
        ensures
            r.kind == kind,
            fresh_cells(kind, r@),
    {
        let mut data = [Ring::Empty; 81];
        let mut i: usize = 0;
        while i < CELLS
            invariant
                i <= CELLS,
                data@.len() == CELLS,
                forall|j: int|
                    0 <= j < i ==> #[trigger] data@[j] == if in_shape(kind, coord_of(j)) {
                        Ring::Vacant
                    } else {
                        Ring::Empty
                    },
            decreases CELLS - i,
        {
            proof {
                lemma_index_coord(i as int);
            }
            let c = Coordinate { x: i % GRID, y: i / GRID };
            if kind.contains(c) {
                data[i] = Ring::Vacant;
            } else {
                data[i] = Ring::Empty;
            }
            i = i + 1;
        }
        Board { kind, data }
    }

    /// The cell at `coord`, or `None` where `coord` lies outside the grid.
    pub fn get(&self, coord: Coordinate) -> (r: Option<&Ring>)
        ensures
            match r {
                Some(ring) => lookup(self@, coord) == Some(*ring),
                None => lookup(self@, coord) is None,
            },
    {
        if coord.x >= GRID || coord.y >= GRID {
            return None;
        }
        Some(&self.data[coord.x + GRID * coord.y])
    }

    /// `get` for a coordinate that may itself be missing.
    pub fn get_option(&self, coord: Option<Coordinate>) -> (r: Option<&Ring>)
        ensures
            match coord {
                Some(c) => match r {
                    Some(ring) => lookup(self@, c) == Some(*ring),
                    None => lookup(self@, c) is None,
                },
                None => r is None,
            },
    {
        if let Some(coord) = coord {
            self.get(coord)
        } else {
            None
        }
    }

    /// The cell at a coordinate of the grid.
    pub fn at(&self, coord: Coordinate) -> (r: Ring)
        requires
            in_grid(coord),
        ensures
            r == cell(self@, coord),
    {
        self.data[coord.x + GRID * coord.y]
    }

    /// Replaces the cell at a coordinate of the grid.
    pub fn set(&mut self, coord: Coordinate, ring: Ring)
        requires
            in_grid(coord),
        ensures
            final(self).kind == old(self).kind,
            final(self)@ == old(self)@.update(index_of(coord), ring),
    {
        self.data[coord.x + GRID * coord.y] = ring;
    }

    /// Whether both boards hold the same ring in every cell.
    pub fn same_cells(&self, other: &Board) -> (r: bool)
        ensures
            r == (self@ == other@),
    {
        let mut i: usize = 0;
        while i < CELLS
            invariant
                i <= CELLS,
                self@.len() == CELLS,
                other@.len() == CELLS,
                forall|j: int| 0 <= j < i ==> self@[j] == other@[j],
            decreases CELLS - i,
        {
            if self.data[i] != other.data[i] {
                return false;
            }
            i = i + 1;
        }
        assert(self@ =~= other@);
        true
    }
}

} // verus!
