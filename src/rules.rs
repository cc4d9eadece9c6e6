use vstd::prelude::*;

use crate::board::{cell, lookup, Marble, Ring};
use crate::coordinate::{
    adjacent_spec, coord_of, dir_down, dir_left, dir_left_down, dir_right, dir_up, dir_up_right,
    in_grid, Coordinate, Direction, CELLS,
};

verus! {

/// Marbles of each colour: the shared pool, or what a player has captured.
#[derive(Clone, Copy, PartialEq, Eq, Structural, Debug, Default)]
pub struct MarbleCount {
    pub white_count: usize,
    pub gray_count: usize,
    pub black_count: usize,
}

/// How many marbles of `m` the count holds.
pub open spec fn count_of(c: MarbleCount, m: Marble) -> int {
    match m {
        Marble::White => c.white_count as int,
        Marble::Gray => c.gray_count as int,
        Marble::Black => c.black_count as int,
    }
}

/// The count with one marble of `m` more (`delta == 1`) or less (`delta == -1`).
pub open spec fn adjust(c: MarbleCount, m: Marble, delta: int) -> MarbleCount {
    match m {
        Marble::White => MarbleCount { white_count: (c.white_count + delta) as usize, ..c },
        Marble::Gray => MarbleCount { gray_count: (c.gray_count + delta) as usize, ..c },
        Marble::Black => MarbleCount { black_count: (c.black_count + delta) as usize, ..c },
    }
}

pub proof fn lemma_adjust(c: MarbleCount, m: Marble, delta: int, x: Marble)
    requires
        0 <= count_of(c, m) + delta <= usize::MAX,
    ensures
        count_of(adjust(c, m, delta), x) == count_of(c, x) + if x == m {
            delta
        } else {
            0
        },
{
}

/// Four white, five gray, six black, or three of each colour.
pub open spec fn wins(c: MarbleCount) -> bool {
    c.white_count >= 4 || c.gray_count >= 5 || c.black_count >= 6 || (c.white_count >= 3
        && c.gray_count >= 3 && c.black_count >= 3)
}

/// The number of marbles of each colour in a full set.
pub open spec fn supply_of(m: Marble) -> int {
    match m {
        Marble::White => 6,
        Marble::Gray => 8,
        Marble::Black => 10,
    }
}

impl MarbleCount {
    /// The full set of marbles: six white, eight gray, ten black.
    pub fn full_supply() -> (r: MarbleCount)
        ensures
            forall|m: Marble| count_of(r, m) == supply_of(m),
    {
        MarbleCount { white_count: 6, gray_count: 8, black_count: 10 }
    }

    /// How many marbles of `marble` the count holds.
    pub fn get(&self, marble: Marble) -> (r: usize)
        ensures
            r == count_of(*self, marble),
    {
        match marble {
            Marble::White => self.white_count,
            Marble::Gray => self.gray_count,
            Marble::Black => self.black_count,
        }
    }

    /// Adds one marble of `marble`.
    pub fn inc(&mut self, marble: Marble)
        requires
            count_of(*old(self), marble) < usize::MAX,
        ensures
            *final(self) == adjust(*old(self), marble, 1),
    {
        match marble {
            Marble::White => self.white_count = self.white_count + 1,
            Marble::Gray => self.gray_count = self.gray_count + 1,
            Marble::Black => self.black_count = self.black_count + 1,
        }
    }

    /// Takes one marble of `marble` out; `false`, with nothing changed, when
    /// there is none.
    pub fn dec(&mut self, marble: Marble) -> (r: bool)
        ensures
            r == (count_of(*old(self), marble) > 0),
            r ==> *final(self) == adjust(*old(self), marble, -1),
            !r ==> *final(self) == *old(self),
    {
        match marble {
            Marble::White => {
                if self.white_count == 0 {
                    return false;
                }
                self.white_count = self.white_count - 1;
            },
            Marble::Gray => {
                if self.gray_count == 0 {
                    return false;
                }
                self.gray_count = self.gray_count - 1;
            },
            Marble::Black => {
                if self.black_count == 0 {
                    return false;
                }
                self.black_count = self.black_count - 1;
            },
        }
        true
    }

    /// Whether the count meets a winning threshold.
    pub fn is_win(&self) -> (r: bool)
        ensures
            r == wins(*self),
    {
        self.white_count >= 4 || self.gray_count >= 5 || self.black_count >= 6 || (self.white_count
            >= 3 && self.gray_count >= 3 && self.black_count >= 3)
    }
}

/// The two players, and `Tie` as the result of a drawn game.
#[derive(Clone, Copy, PartialEq, Eq, Structural, Debug)]
pub enum Player {
    Alice,
    Bob,
    Tie,
}

/// The other player; `Tie` stays `Tie`.
pub open spec fn opponent(p: Player) -> Player {
    match p {
        Player::Alice => Player::Bob,
        Player::Bob => Player::Alice,
        Player::Tie => Player::Tie,
    }
}

pub open spec fn player_index(p: Player) -> int {
    match p {
        Player::Alice => 0,
        Player::Bob => 1,
        Player::Tie => 2,
    }
}

impl Player {
    /// Passes the turn to the other player.
    pub fn change_player(&mut self)
        ensures
            *final(self) == opponent(*old(self)),
    {
        match self {
            Player::Alice => *self = Player::Bob,
            Player::Bob => *self = Player::Alice,
            Player::Tie => {},
        }
    }

    /// 0 for `Alice`, 1 for `Bob`, 2 for `Tie`.
    pub fn index(self) -> (r: usize)
        ensures
            r == player_index(self),
    {
        match self {
            Player::Alice => 0,
            Player::Bob => 1,
            Player::Tie => 2,
        }
    }
}

/// One jump: the marble at `start_coord` leaps over `catched_coord` and lands
/// on `marble_land_coord`.
#[derive(Clone, Copy, PartialEq, Eq, Structural, Debug)]
pub struct CatchableMove {
    pub start_coord: Coordinate,
    pub catched_coord: Coordinate,
    pub marble_land_coord: Coordinate,
}

/// Where the game stands, and what it waits for.
#[derive(Clone, Copy, PartialEq, Eq, Structural, Debug)]
pub enum GameState {
    /// Captures must be looked for before the next move.
    CheckIsCatchable,
    /// The player to move places a marble and removes a ring.
    PutMarble,
    /// The player to move must make one of the offered jumps.
    CatchMarble,
    /// The game is over, with its winner or `Tie`.
    GameEnd(Player),
}

/// Whether a neighbour is missing: off the grid, or a cell without a ring.
pub open spec fn is_outside(b: Seq<Ring>, c: Option<Coordinate>) -> bool {
    match c {
        None => true,
        Some(c) => match lookup(b, c) {
            None => true,
            Some(r) => r is Empty,
        },
    }
}

/// Whether two neighbours of `c` that are next to each other on the hex
/// compass are both missing.
pub open spec fn on_edge(b: Seq<Ring>, c: Coordinate) -> bool {
    let up_right = is_outside(b, adjacent_spec(c, dir_up_right()));
    let up = is_outside(b, adjacent_spec(c, dir_up()));
    let left = is_outside(b, adjacent_spec(c, dir_left()));
    let left_down = is_outside(b, adjacent_spec(c, dir_left_down()));
    let down = is_outside(b, adjacent_spec(c, dir_down()));
    let right = is_outside(b, adjacent_spec(c, dir_right()));
    (up_right && up) || (left && up) || (left && left_down) || (down && left_down) || (down
        && right) || (up_right && right)
}

/// A vacant ring on the edge of the board.
pub open spec fn removable(b: Seq<Ring>, c: Coordinate) -> bool {
    in_grid(c) && cell(b, c) == Ring::Vacant && on_edge(b, c)
}

/// The removable coordinates among the first `k` cells, in cell order.
pub open spec fn removable_upto(b: Seq<Ring>, k: int) -> Seq<Coordinate>
    decreases k,
{
    if k <= 0 {
        Seq::empty()
    } else if removable(b, coord_of(k - 1)) {
        removable_upto(b, k - 1).push(coord_of(k - 1))
    } else {
        removable_upto(b, k - 1)
    }
}

/// All removable coordinates of the board, in cell order.
pub open spec fn removable_rings(b: Seq<Ring>) -> Seq<Coordinate> {
    removable_upto(b, CELLS as int)
}

/// The jump from `c` in direction `d`: the neighbour holds a marble and the
/// cell beyond it is a vacant ring.
pub open spec fn jump(b: Seq<Ring>, c: Coordinate, d: Direction) -> Option<CatchableMove> {
    match adjacent_spec(c, d) {
        None => None,
        Some(over) => match adjacent_spec(over, d) {
            None => None,
            Some(land) => if lookup(b, over) matches Some(Ring::Occupied(_)) && lookup(b, land)
                == Some(Ring::Vacant) {
                Some(CatchableMove { start_coord: c, catched_coord: over, marble_land_coord: land })
            } else {
                None
            },
        },
    }
}

pub open spec fn opt_seq(o: Option<CatchableMove>) -> Seq<CatchableMove> {
    match o {
        Some(m) => seq![m],
        None => Seq::empty(),
    }
}

/// The jumps from `c`, tried up-right, up, left, left-down, down, right.
pub open spec fn catchable(b: Seq<Ring>, c: Coordinate) -> Seq<CatchableMove> {
    opt_seq(jump(b, c, dir_up_right())) + opt_seq(jump(b, c, dir_up())) + opt_seq(
        jump(b, c, dir_left()),
    ) + opt_seq(jump(b, c, dir_left_down())) + opt_seq(jump(b, c, dir_down())) + opt_seq(
        jump(b, c, dir_right()),
    )
}

/// The jumps of every marble among the first `k` cells, in cell order.
pub open spec fn catchable_upto(b: Seq<Ring>, k: int) -> Seq<CatchableMove>
    decreases k,
{
    if k <= 0 {
        Seq::empty()
    } else if b[k - 1] is Occupied {
        catchable_upto(b, k - 1) + catchable(b, coord_of(k - 1))
    } else {
        catchable_upto(b, k - 1)
    }
}

/// The jumps of every marble on the board.
pub open spec fn all_catchable(b: Seq<Ring>) -> Seq<CatchableMove> {
    catchable_upto(b, CELLS as int)
}

/// The number of marbles of `m` among the first `k` cells.
pub open spec fn count_upto(b: Seq<Ring>, m: Marble, k: int) -> int
    decreases k,
{
    if k <= 0 {
        0
    } else {
        count_upto(b, m, k - 1) + if b[k - 1] == Ring::Occupied(m) {
            1int
        } else {
            0
        }
    }
}

/// The number of marbles of `m` on the board.
pub open spec fn on_board(b: Seq<Ring>, m: Marble) -> int {
    count_upto(b, m, CELLS as int)
}

pub proof fn lemma_count_bounds(b: Seq<Ring>, m: Marble, k: int)
    requires
        0 <= k,
    ensures
        0 <= count_upto(b, m, k) <= k,
    decreases k,
{
    if k > 0 {
        lemma_count_bounds(b, m, k - 1);
    }
}

/// A board without marbles counts none of any colour.
pub proof fn lemma_count_none(b: Seq<Ring>, m: Marble, k: int)
    requires
        0 <= k <= b.len(),
        forall|i: int| 0 <= i < k ==> !(#[trigger] b[i] is Occupied),
    ensures
        count_upto(b, m, k) == 0,
    decreases k,
{
    if k > 0 {
        lemma_count_none(b, m, k - 1);
    }
}

/// Writing `v` into cell `i` changes each colour's count by what left and
/// what came in.
pub proof fn lemma_count_update(b: Seq<Ring>, i: int, v: Ring, m: Marble, k: int)
    requires
        0 <= i < b.len(),
        0 <= k <= b.len(),
    ensures
        count_upto(b.update(i, v), m, k) == count_upto(b, m, k) - (if i < k && b[i]
            == Ring::Occupied(m) {
            1int
        } else {
            0
        }) + (if i < k && v == Ring::Occupied(m) {
            1int
        } else {
            0
        }),
    decreases k,
{
    if k > 0 {
        lemma_count_update(b, i, v, m, k - 1);
    }
}

} // verus!
