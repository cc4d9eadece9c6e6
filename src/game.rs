use vstd::prelude::*;

use crate::board::{
    cell, fresh_cells, lemma_coord_index, lemma_index_coord, Board, BoardKind, Marble, Ring,
};
use crate::connectivity::{
    above, above_right, closed, components_of, edge_step, join, lemma_rings_closed,
    lemma_sweep_respects, outside_index, respects, right_of, rings_of, singleton_classes,
    sweep_upto, Classes,
};
use crate::coordinate::{
    coord_of, dir_down, dir_left, dir_left_down, dir_right, dir_up, dir_up_right,
    in_grid, index_of, lemma_direction_moves, Coordinate, Direction, CELLS, GRID,
};
use crate::error::ZertzError;
use crate::rules::{
    adjust, lemma_adjust, all_catchable, catchable, catchable_upto, count_of, is_outside, jump, lemma_count_bounds,
    count_upto, lemma_count_none, lemma_count_update, on_board, opponent, opt_seq, player_index, removable, removable_rings,
    removable_upto, supply_of, wins, CatchableMove, GameState, MarbleCount, Player,
};
use crate::union_find::{is_partition, lemma_roots_upto, UnionFind};

verus! {

/// The cell index that stands for the outside of the board.
pub const OUTSIDE: usize = 8;

/// The whole state of a match: the board, the connectivity of its cells,
/// the marbles in the pool and those each player captured, whose turn it is,
/// and what the game waits for.
pub struct Game {
    pub(crate) board: Board,
    pub(crate) board_replace_history: Vec<Board>,
    pub(crate) components: UnionFind,
    pub(crate) current_player: Player,
    pub(crate) game_state: GameState,
    pub(crate) players_score: [MarbleCount; 2],
    pub(crate) repeat_count: usize,
    pub(crate) total_marble: MarbleCount,
    pub(crate) catch_options: Vec<CatchableMove>,
}

/// A board that lost no marble: for each colour, what is in the pool, on the
/// board and with both players makes up the full set.
pub open spec fn conserved(
    b: Seq<Ring>,
    pool: MarbleCount,
    first: MarbleCount,
    second: MarbleCount,
) -> bool {
    forall|m: Marble|
        #![trigger count_of(pool, m)]
        count_of(pool, m) + on_board(b, m) + count_of(first, m) + count_of(second, m) == supply_of(
            m,
        )
}

/// A well-formed position: the outside cell holds no ring, an actual player
/// is to move, and marbles are conserved.
pub open spec fn position_ok(b: Seq<Ring>, player: Player, scores: Seq<MarbleCount>, pool: MarbleCount) -> bool {
    &&& b.len() == CELLS
    &&& b[outside_index()] is Empty
    &&& player != Player::Tie
    &&& scores.len() == 2
    &&& conserved(b, pool, scores[0], scores[1])
}

/// The first player, `first` or the other, whose captures meet a winning
/// threshold.
pub open spec fn score_winner(scores: Seq<MarbleCount>, first: Player) -> Option<Player> {
    if wins(scores[player_index(first)]) {
        Some(first)
    } else if wins(scores[player_index(opponent(first))]) {
        Some(opponent(first))
    } else {
        None
    }
}

/// Whether all cells of the class rooted at `r` hold marbles.
pub open spec fn all_occupied(b: Seq<Ring>, rep: Seq<int>, r: int) -> bool {
    forall|j: int| 0 <= j < CELLS && #[trigger] rep[j] == r ==> b[j] is Occupied
}

/// The board once every class made only of marbles has been taken off.
pub open spec fn sealed_off(b: Seq<Ring>, rep: Seq<int>) -> Seq<Ring> {
    Seq::new(
        CELLS as nat,
        |i: int|
            if all_occupied(b, rep, rep[i]) {
                Ring::Empty
            } else {
                b[i]
            },
    )
}

/// The count `after` is `before` with, for each colour, the marbles that
/// left the board from `b_before` to `b_after` added.
pub open spec fn gained(
    after: MarbleCount,
    before: MarbleCount,
    b_before: Seq<Ring>,
    b_after: Seq<Ring>,
) -> bool {
    forall|m: Marble|
        #![trigger count_of(after, m)]
        count_of(after, m) == count_of(before, m) + on_board(b_before, m) - on_board(b_after, m)
}

impl Game {
    pub closed spec fn cells(&self) -> Seq<Ring> {
        self.board@
    }

    pub closed spec fn kind(&self) -> BoardKind {
        self.board.kind
    }

    pub closed spec fn player(&self) -> Player {
        self.current_player
    }

    pub closed spec fn state(&self) -> GameState {
        self.game_state
    }

    pub closed spec fn scores(&self) -> Seq<MarbleCount> {
        self.players_score@
    }

    pub closed spec fn pool(&self) -> MarbleCount {
        self.total_marble
    }

    /// The boards recorded after each jump since the last ring removal.
    pub closed spec fn history(&self) -> Seq<Seq<Ring>> {
        self.board_replace_history@.map_values(|b: Board| b@)
    }

    /// How many jumps since the last ring removal repeated a recorded board.
    pub closed spec fn repeats(&self) -> int {
        self.repeat_count as int
    }

    /// The jumps offered to the player to move.
    pub closed spec fn options(&self) -> Seq<CatchableMove> {
        self.catch_options@
    }

    /// The classes of the connectivity structure.
    pub closed spec fn classes(&self) -> Classes {
        (self.components.reps(), self.components.ranks())
    }

    /// The connectivity structure holds one slot per cell, the slot of
    /// cell `i` being `i`.
    pub closed spec fn uf_ok(&self) -> bool {
        &&& self.components.wf()
        &&& self.components.elements().len() == CELLS
        &&& forall|i: int|
            0 <= i < CELLS ==> #[trigger] self.components.has(i as usize)
                && self.components.slot(i as usize) == i
    }

    pub closed spec fn wf(&self) -> bool {
        &&& position_ok(self.cells(), self.current_player, self.scores(), self.total_marble)
        &&& self.uf_ok()
        &&& self.repeat_count <= 3
        &&& (self.game_state == GameState::CatchMarble ==> self.catch_options@.len() > 0)
        &&& (self.game_state != GameState::CatchMarble ==> self.catch_options@.len() == 0)
        &&& forall|k: int|
            0 <= k < self.catch_options@.len() ==> valid_option(
                self.cells(),
                #[trigger] self.catch_options@[k],
            )
    }
}

/// A jump that can be made on the board: its marble stands at the start and
/// the jump is one of those from there.
pub open spec fn valid_option(b: Seq<Ring>, m: CatchableMove) -> bool {
    in_grid(m.start_coord) && cell(b, m.start_coord) is Occupied && catchable(b, m.start_coord).contains(m)
}

fn push_option(v: &mut Vec<CatchableMove>, o: Option<CatchableMove>)
    ensures
        final(v)@ == old(v)@ + opt_seq(o),
{
    if let Some(m) = o {
        v.push(m);
    }
    proof {
        assert(final(v)@ =~= old(v)@ + opt_seq(o));
    }
}

impl Game {
    /// The jump from `coord` in `direction`, if the neighbour holds a marble
    /// and the cell beyond it is a vacant ring.
    fn try_jump(&self, coord: Coordinate, direction: Direction) -> (r: Option<CatchableMove>)
        ensures
            r == jump(self.cells(), coord, direction),
    {
        let catched_coord = match coord.adjacent(direction) {
            Some(c) => c,
            None => return None,
        };
        let marble_land_coord = match catched_coord.adjacent(direction) {
            Some(c) => c,
            None => return None,
        };
        if let Some(Ring::Occupied(_)) = self.board.get(catched_coord) {
            if let Some(Ring::Vacant) = self.board.get(marble_land_coord) {
                return Some(CatchableMove { start_coord: coord, catched_coord, marble_land_coord });
            }
        }
        None
    }

    /// The jumps from `coord`, tried up-right, up, left, left-down, down and
    /// right.
    pub fn list_catchable(&self, coord: Coordinate) -> (r: Vec<CatchableMove>)
        ensures
            r@ == catchable(self.cells(), coord),
    {
        let mut output: Vec<CatchableMove> = Vec::with_capacity(6);
        let ghost start = output@;
        push_option(&mut output, self.try_jump(coord, Direction::up_right()));
        push_option(&mut output, self.try_jump(coord, Direction::up()));
        push_option(&mut output, self.try_jump(coord, Direction::left()));
        push_option(&mut output, self.try_jump(coord, Direction::left_down()));
        push_option(&mut output, self.try_jump(coord, Direction::down()));
        push_option(&mut output, self.try_jump(coord, Direction::right()));
        proof {
            assert(start + opt_seq(jump(self.cells(), coord, dir_up_right())) =~= opt_seq(
                jump(self.cells(), coord, dir_up_right()),
            ));
        }
        output
    }

    /// The jumps of every marble on the board, marble by marble in cell
    /// order.
    pub fn list_all_catchable(&self) -> (r: Vec<CatchableMove>)
        ensures
            r@ == all_catchable(self.cells()),
    {
        let mut output: Vec<CatchableMove> = Vec::with_capacity(CELLS);
        let mut i: usize = 0;
        while i < CELLS
            invariant
                i <= CELLS,
                self.cells().len() == CELLS,
                output@ == catchable_upto(self.cells(), i as int),
            decreases CELLS - i,
        {
            proof {
                lemma_index_coord(i as int);
            }
            if let Ring::Occupied(_) = self.board.data[i] {
                let mut found = self.list_catchable(Coordinate { x: i % GRID, y: i / GRID });
                output.append(&mut found);
            }
            i = i + 1;
        }
        output
    }

    /// Whether the neighbour at `coord` is missing: off the grid or without
    /// a ring.
    fn is_outside_at(&self, coord: Option<Coordinate>) -> (r: bool)
        ensures
            r == is_outside(self.cells(), coord),
    {
        match self.board.get_option(coord) {
            None => true,
            Some(ring) => matches!(ring, Ring::Empty),
        }
    }

    /// Whether `coord` is a vacant ring with two missing neighbours next to
    /// each other on the hex compass.
    pub fn valid_to_remove_ring(&self, coord: Coordinate) -> (r: bool)
        ensures
            r == removable(self.cells(), coord),
    {
        if coord.x >= GRID || coord.y >= GRID {
            return false;
        }
        if self.board.at(coord) != Ring::Vacant {
            return false;
        }
        let up_right = self.is_outside_at(coord.adjacent(Direction::up_right()));
        let up = self.is_outside_at(coord.adjacent(Direction::up()));
        let left = self.is_outside_at(coord.adjacent(Direction::left()));
        let left_down = self.is_outside_at(coord.adjacent(Direction::left_down()));
        let down = self.is_outside_at(coord.adjacent(Direction::down()));
        let right = self.is_outside_at(coord.adjacent(Direction::right()));
        (up_right && up) || (left && up) || (left && left_down) || (down && left_down) || (down
            && right) || (up_right && right)
    }

    /// Every removable ring, in cell order.
    pub fn collect_removable_rings(&self) -> (r: Vec<Coordinate>)
        ensures
            r@ == removable_rings(self.cells()),
    {
        let mut output: Vec<Coordinate> = Vec::with_capacity(CELLS);
        let mut i: usize = 0;
        while i < CELLS
            invariant
                i <= CELLS,
                output@ == removable_upto(self.cells(), i as int),
            decreases CELLS - i,
        {
            let coord = Coordinate { x: i % GRID, y: i / GRID };
            if self.valid_to_remove_ring(coord) {
                output.push(coord);
            }
            i = i + 1;
        }
        output
    }
}

proof fn lemma_identity_slots_kept(a: &UnionFind, b: &UnionFind)
    requires
        a.slots() == b.slots(),
        forall|i: int|
            0 <= i < CELLS ==> #[trigger] a.has(i as usize) && a.slot(i as usize) == i,
    ensures
        forall|i: int|
            0 <= i < CELLS ==> #[trigger] b.has(i as usize) && b.slot(i as usize) == i,
{
    assert forall|i: int| 0 <= i < CELLS implies #[trigger] b.has(i as usize) && b.slot(i as usize) == i by {
        assert(a.has(i as usize));
    }
}

impl Game {
    proof fn lemma_slot(&self, i: int)
        requires
            self.uf_ok(),
            0 <= i < CELLS,
        ensures
            self.components.has(i as usize),
            self.components.slot(i as usize) == i,
    {
        assert(self.components.has(i as usize));
    }

    /// The union the sweep makes for the edge from cell `k` to its neighbour
    /// `n`.
    fn join_edge(&mut self, k: usize, n: Coordinate)
        requires
            old(self).uf_ok(),
            k < CELLS,
            n == right_of(coord_of(k as int)) || n == above(coord_of(k as int)) || n == above_right(
                coord_of(k as int),
            ),
        ensures
            final(self).uf_ok(),
            final(self).classes() == edge_step(old(self).cells(), old(self).classes(), k as int, n),
            final(self).components.slots() == old(self).components.slots(),
            final(self).board == old(self).board,
            final(self).board_replace_history == old(self).board_replace_history,
            final(self).current_player == old(self).current_player,
            final(self).game_state == old(self).game_state,
            final(self).players_score == old(self).players_score,
            final(self).repeat_count == old(self).repeat_count,
            final(self).total_marble == old(self).total_marble,
            final(self).catch_options == old(self).catch_options,
    {
        proof {
            lemma_index_coord(k as int);
        }
        match self.board.get(n) {
            Some(Ring::Empty) => {
                proof {
                    lemma_coord_index(n);
                    self.lemma_slot(index_of(n));
                    self.lemma_slot(outside_index());
                }
                let j = n.x + GRID * n.y;
                self.components.union(&j, &OUTSIDE);
            },
            Some(_) => {
                proof {
                    lemma_coord_index(n);
                    self.lemma_slot(index_of(n));
                    self.lemma_slot(k as int);
                }
                if self.board.data[k].is_present() {
                    let j = n.x + GRID * n.y;
                    self.components.union(&k, &j);
                }
            },
            None => {},
        }
        proof {
            lemma_identity_slots_kept(&old(self).components, &self.components);
        }
    }

    /// Rebuilds the connectivity structure from the board: every cell
    /// without a ring joins the outside, and every two neighbouring rings
    /// join each other.
    pub fn calculate_components(&mut self)
        requires
            old(self).wf(),
        ensures
            final(self).wf(),
            final(self).classes() == components_of(old(self).cells()),
            final(self).cells() == old(self).cells(),
            final(self).kind() == old(self).kind(),
            final(self).player() == old(self).player(),
            final(self).state() == old(self).state(),
            final(self).scores() == old(self).scores(),
            final(self).pool() == old(self).pool(),
            final(self).history() == old(self).history(),
            final(self).repeats() == old(self).repeats(),
            final(self).options() == old(self).options(),
    {
        self.components.clear();
        proof {
            lemma_identity_slots_kept(&old(self).components, &self.components);
            assert(self.classes().0 =~= singleton_classes().0);
            assert(self.classes().1 =~= singleton_classes().1);
        }
        let mut i: usize = 0;
        while i < CELLS
            invariant
                i <= CELLS,
                self.uf_ok(),
                self.components.slots() == old(self).components.slots(),
                self.classes() == sweep_upto(self.cells(), i as int),
                self.board == old(self).board,
                self.board_replace_history == old(self).board_replace_history,
                self.current_player == old(self).current_player,
                self.game_state == old(self).game_state,
                self.players_score == old(self).players_score,
                self.repeat_count == old(self).repeat_count,
                self.total_marble == old(self).total_marble,
                self.catch_options == old(self).catch_options,
            decreases CELLS - i,
        {
            proof {
                lemma_index_coord(i as int);
            }
            let coord = Coordinate { x: i % GRID, y: i / GRID };
            if !self.board.data[i].is_present() {
                proof {
                    self.lemma_slot(i as int);
                    self.lemma_slot(outside_index());
                }
                let ghost pre = self.components;
                self.components.union(&i, &OUTSIDE);
                proof {
                    lemma_identity_slots_kept(&pre, &self.components);
                }
            }
            proof {
                lemma_direction_moves();
            }
            let right_coord = coord.raw_adjacent(Direction::right());
            let up_coord = coord.raw_adjacent(Direction::up());
            let up_right_coord = coord.raw_adjacent(Direction::up_right());
            self.join_edge(i, right_coord);
            self.join_edge(i, up_coord);
            self.join_edge(i, up_right_coord);
            i = i + 1;
        }
    }
}

/// The cell indices `0..81`, in order.
fn all_cells() -> (r: Vec<usize>)
    ensures
        r@.len() == CELLS,
        forall|i: int| 0 <= i < CELLS ==> #[trigger] r@[i] == i,
{
    let mut v: Vec<usize> = Vec::with_capacity(CELLS);
    let mut i: usize = 0;
    while i < CELLS
        invariant
            i <= CELLS,
            v@.len() == i,
            forall|j: int| 0 <= j < i ==> #[trigger] v@[j] == j,
        decreases CELLS - i,
    {
        v.push(i);
        i = i + 1;
    }
    v
}

impl Game {
    /// A new match on a board of `kind`: no marble placed, the full set in
    /// the pool, nothing captured, Alice to move, captures to be looked for.
    pub fn new(kind: BoardKind) -> (r: Self)
        ensures
            r.wf(),
            fresh_game(kind, r@),
            r.classes() == components_of(r.cells()),
    {
        let board = Board::new(kind);
        let cells = all_cells();
        let ghost elems = cells@;
        let components = UnionFind::from_elements(cells);
        let zero = MarbleCount { white_count: 0, gray_count: 0, black_count: 0 };
        let mut output = Game {
            board,
            board_replace_history: Vec::with_capacity(20),
            components,
            current_player: Player::Alice,
            game_state: GameState::CheckIsCatchable,
            players_score: [zero, zero],
            repeat_count: 0,
            total_marble: MarbleCount::full_supply(),
            catch_options: Vec::new(),
        };
        proof {
            assert forall|i: int| 0 <= i < CELLS implies #[trigger] output.components.has(i as usize)
                && output.components.slot(i as usize) == i by {
                assert(elems[i] == i);
                assert(elems.contains(i as usize));
                assert forall|j: int| i < j < elems.len() implies elems[j] != elems[i] by {
                    assert(elems[j] == j);
                }
            }
            let b = output.cells();
            lemma_index_coord(outside_index());
            assert(b[outside_index()] is Empty);
            assert forall|m: Marble| #![trigger count_of(output.total_marble, m)]
                count_of(output.total_marble, m) + on_board(b, m) + count_of(zero, m) + count_of(zero, m)
                    == supply_of(m) by {
                assert forall|i: int| 0 <= i < CELLS implies !(#[trigger] b[i] is Occupied) by {}
                lemma_count_none(b, m, CELLS as int);
            }
            assert(output.scores() =~= seq![zero; 2]);
            assert(output.history() =~= Seq::empty());
            assert(output.options() =~= Seq::empty());
        }
        output.calculate_components();
        output
    }
}

/// A game as it starts on a board of `kind`: a vacant ring on every cell of
/// the shape, the full set in the pool, nothing captured, Alice to move, and
/// captures to be looked for first; no board recorded, no jump offered.
pub open spec fn fresh_game(kind: BoardKind, v: GameView) -> bool {
    &&& v.kind == kind
    &&& fresh_cells(kind, v.cells)
    &&& v.player == Player::Alice
    &&& v.state == GameState::CheckIsCatchable
    &&& v.scores == seq![MarbleCount { white_count: 0, gray_count: 0, black_count: 0 }; 2]
    &&& forall|m: Marble| count_of(v.pool, m) == supply_of(m)
    &&& v.history == Seq::<Seq<Ring>>::empty()
    &&& v.repeats == 0
    &&& v.options == Seq::<CatchableMove>::empty()
}

/// Conserved marbles bound each player's captures by the full set.
pub proof fn lemma_conserved_bounds(b: Seq<Ring>, pool: MarbleCount, first: MarbleCount, second: MarbleCount)
    requires
        b.len() == CELLS,
        conserved(b, pool, first, second),
    ensures
        forall|m: Marble| #[trigger] count_of(first, m) <= supply_of(m),
        forall|m: Marble| #[trigger] count_of(second, m) <= supply_of(m),
        forall|m: Marble| 0 <= #[trigger] on_board(b, m) <= supply_of(m),
{
    assert forall|m: Marble| #[trigger] count_of(first, m) <= supply_of(m) by {
        lemma_count_bounds(b, m, CELLS as int);
        assert(count_of(pool, m) >= 0);
    }
    assert forall|m: Marble| #[trigger] count_of(second, m) <= supply_of(m) by {
        lemma_count_bounds(b, m, CELLS as int);
        assert(count_of(pool, m) >= 0);
    }
    assert forall|m: Marble| 0 <= #[trigger] on_board(b, m) <= supply_of(m) by {
        lemma_count_bounds(b, m, CELLS as int);
        assert(count_of(pool, m) >= 0);
    }
}

impl Game {
    /// The cells of the class of cell `r`, and whether none of them is a
    /// vacant ring.
    fn class_members(&mut self, r: usize) -> (res: (Vec<usize>, bool))
        requires
            old(self).uf_ok(),
            r < CELLS,
        ensures
            final(self).uf_ok(),
            final(self).classes() == old(self).classes(),
            final(self).components.slots() == old(self).components.slots(),
            final(self).board == old(self).board,
            final(self).board_replace_history == old(self).board_replace_history,
            final(self).current_player == old(self).current_player,
            final(self).game_state == old(self).game_state,
            final(self).players_score == old(self).players_score,
            final(self).repeat_count == old(self).repeat_count,
            final(self).total_marble == old(self).total_marble,
            final(self).catch_options == old(self).catch_options,
            forall|j: usize| #[trigger]
                res.0@.contains(j) <==> (j < CELLS && old(self).classes().0[j as int]
                    == old(self).classes().0[r as int]),
            res.1 <==> forall|j: int|
                0 <= j < CELLS && #[trigger] old(self).classes().0[j] == old(self).classes().0[r as int]
                    ==> old(self).cells()[j] != Ring::Vacant,
    {
        proof {
            self.lemma_slot(r as int);
        }
        let ghost pre0 = self.components;
        let root = self.components.find(&r);
        proof {
            lemma_identity_slots_kept(&pre0, &self.components);
            self.components.lemma_wf();
        }
        let ghost rep = self.classes().0;
        let mut members: Vec<usize> = Vec::new();
        let mut sealed = true;
        let mut i: usize = 0;
        while i < CELLS
            invariant
                i <= CELLS,
                r < CELLS,
                root == rep[r as int],
                self.uf_ok(),
                self.classes() == old(self).classes(),
                rep == old(self).classes().0,
                self.components.slots() == old(self).components.slots(),
                self.board == old(self).board,
                self.board_replace_history == old(self).board_replace_history,
                self.current_player == old(self).current_player,
                self.game_state == old(self).game_state,
                self.players_score == old(self).players_score,
                self.repeat_count == old(self).repeat_count,
                self.total_marble == old(self).total_marble,
                self.catch_options == old(self).catch_options,
                forall|j: usize| #[trigger]
                    members@.contains(j) <==> (j < i && rep[j as int] == rep[r as int]),
                sealed <==> forall|j: int|
                    0 <= j < i && #[trigger] rep[j] == rep[r as int] ==> self.cells()[j]
                        != Ring::Vacant,
            decreases CELLS - i,
        {
            proof {
                self.lemma_slot(i as int);
            }
            let ghost pre = self.components;
            let found = self.components.find(&i);
            proof {
                lemma_identity_slots_kept(&pre, &self.components);
            }
            if found == root {
                if self.board.data[i] == Ring::Vacant {
                    sealed = false;
                }
                let ghost before = members@;
                members.push(i);
                proof {
                    assert forall|j: usize| #[trigger]
                        members@.contains(j) <==> (j < i + 1 && rep[j as int] == rep[r as int]) by {
                        if j == i {
                            assert(members@[before.len() as int] == j);
                        } else if members@.contains(j) {
                            let w = choose|w: int| 0 <= w < members@.len() && members@[w] == j;
                            assert(w < before.len());
                            assert(before[w] == j);
                            assert(before.contains(j));
                        } else if j < i + 1 && rep[j as int] == rep[r as int] {
                            assert(before.contains(j));
                            let w = choose|w: int| 0 <= w < before.len() && before[w] == j;
                            assert(members@[w] == j);
                        }
                    }
                }
            }
            i = i + 1;
        }
        (members, sealed)
    }

    /// Takes the marbles at `members` off the board, ring and all, and
    /// credits them to the player to move.
    fn capture_members(&mut self, members: &Vec<usize>)
        requires
            position_ok(old(self).cells(), old(self).current_player, old(self).scores(), old(self).total_marble),
            forall|k: int| 0 <= k < members@.len() ==> #[trigger] members@[k] < CELLS,
        ensures
            final(self).cells() == Seq::new(
                CELLS as nat,
                |i: int|
                    if members@.contains(i as usize) {
                        Ring::Empty
                    } else {
                        old(self).cells()[i]
                    },
            ),
            final(self).board.kind == old(self).board.kind,
            gained(
                final(self).scores()[player_index(old(self).current_player)],
                old(self).scores()[player_index(old(self).current_player)],
                old(self).cells(),
                final(self).cells(),
            ),
            final(self).scores()[1 - player_index(old(self).current_player)] == old(self).scores()[1
                - player_index(old(self).current_player)],
            position_ok(final(self).cells(), final(self).current_player, final(self).scores(), final(self).total_marble),
            final(self).components == old(self).components,
            final(self).board_replace_history == old(self).board_replace_history,
            final(self).current_player == old(self).current_player,
            final(self).game_state == old(self).game_state,
            final(self).repeat_count == old(self).repeat_count,
            final(self).total_marble == old(self).total_marble,
            final(self).catch_options == old(self).catch_options,
    {
        let pi = self.current_player.index();
        let ghost b0 = self.cells();
        let ghost s0 = self.scores();
        let mut u: usize = 0;
        while u < members.len()
            invariant
                u <= members@.len(),
                pi == player_index(self.current_player),
                pi < 2,
                forall|k: int| 0 <= k < members@.len() ==> #[trigger] members@[k] < CELLS,
                self.cells() == Seq::new(
                    CELLS as nat,
                    |i: int|
                        if members@.subrange(0, u as int).contains(i as usize) {
                            Ring::Empty
                        } else {
                            b0[i]
                        },
                ),
                self.board.kind == old(self).board.kind,
                s0 == old(self).scores(),
                b0 == old(self).cells(),
                gained(self.scores()[pi as int], s0[pi as int], b0, self.cells()),
                self.scores()[1 - pi] == s0[1 - pi],
                position_ok(self.cells(), self.current_player, self.scores(), self.total_marble),
                self.components == old(self).components,
                self.board_replace_history == old(self).board_replace_history,
                self.current_player == old(self).current_player,
                self.game_state == old(self).game_state,
                self.repeat_count == old(self).repeat_count,
                self.total_marble == old(self).total_marble,
                self.catch_options == old(self).catch_options,
            decreases members@.len() - u,
        {
            let m = members[u];
            let ghost cur = self.cells();
            let ghost sc = self.scores();
            proof {
                lemma_conserved_bounds(cur, self.total_marble, sc[0], sc[1]);
            }
            if let Ring::Occupied(marble) = self.board.data[m] {
                let mut score = self.players_score[pi];
                score.inc(marble);
                self.players_score[pi] = score;
            }
            self.board.data[m] = Ring::Empty;
            proof {
                let nb = self.cells();
                assert(nb == cur.update(m as int, Ring::Empty));
                assert forall|x: Marble| #![trigger count_of(self.scores()[pi as int], x)]
                    count_of(self.scores()[pi as int], x) == count_of(sc[pi as int], x) + on_board(cur, x) - on_board(nb, x) by {
                    lemma_count_update(cur, m as int, Ring::Empty, x, CELLS as int);
                }
                assert(self.scores()[1 - pi] == sc[1 - pi]);
                assert(gained(self.scores()[pi as int], s0[pi as int], b0, nb));
                let s = self.scores();
                assert forall|x: Marble| #![trigger count_of(self.total_marble, x)]
                    count_of(self.total_marble, x) + on_board(nb, x) + count_of(s[0], x) + count_of(s[1], x)
                        == supply_of(x) by {
                    assert(count_of(self.total_marble, x) + on_board(cur, x) + count_of(sc[0], x) + count_of(sc[1], x) == supply_of(x));
                }
                assert(members@.subrange(0, u + 1 as int) == members@.subrange(0, u as int).push(m));
                assert(nb =~= Seq::new(
                    CELLS as nat,
                    |i: int|
                        if members@.subrange(0, u + 1 as int).contains(i as usize) {
                            Ring::Empty
                        } else {
                            b0[i]
                        },
                )) by {
                    assert forall|i: int| 0 <= i < CELLS implies nb[i] == (if members@.subrange(0, u + 1 as int).contains(i as usize) {
                            Ring::Empty
                        } else {
                            b0[i]
                        }) by {
                        let pre = members@.subrange(0, u as int);
                        let post = members@.subrange(0, u + 1 as int);
                        if post.contains(i as usize) && i != m {
                            let w = choose|w: int| 0 <= w < post.len() && post[w] == i as usize;
                            assert(w < pre.len());
                            assert(pre[w] == i as usize);
                        }
                        if pre.contains(i as usize) {
                            let w = choose|w: int| 0 <= w < pre.len() && pre[w] == i as usize;
                            assert(post[w] == i as usize);
                        }
                        if i == m {
                            assert(post[u as int] == m);
                        }
                    }
                }
            }
            u = u + 1;
        }
        proof {
            assert(members@.subrange(0, members@.len() as int) == members@);
        }
    }
}

/// Whether the class rooted at `g` is among the first `t` roots handled and
/// is made only of marbles, so that the seal pass has taken it.
pub open spec fn taken(roots: Seq<usize>, t: int, b0: Seq<Ring>, rep0: Seq<int>, g: int) -> bool {
    roots.subrange(0, t).contains(g as usize) && all_occupied(b0, rep0, g)
}

proof fn lemma_taken_step(roots: Seq<usize>, t: int, b0: Seq<Ring>, rep0: Seq<int>, g: int)
    requires
        0 <= t < roots.len(),
        0 <= g,
    ensures
        taken(roots, t + 1, b0, rep0, g) == (taken(roots, t, b0, rep0, g) || (g as usize
            == roots[t] && all_occupied(b0, rep0, g))),
{
    let pre = roots.subrange(0, t);
    let post = roots.subrange(0, t + 1);
    assert(post == pre.push(roots[t]));
    if post.contains(g as usize) && g as usize != roots[t] {
        let w = choose|w: int| 0 <= w < post.len() && post[w] == g as usize;
        assert(pre[w] == g as usize);
    }
    if pre.contains(g as usize) {
        let w = choose|w: int| 0 <= w < pre.len() && pre[w] == g as usize;
        assert(post[w] == g as usize);
    }
    if g as usize == roots[t] {
        assert(post[t] == roots[t]);
    }
}

impl Game {
    /// Takes off the board every class of rings made only of marbles, and
    /// credits its marbles to the player to move.
    fn remove_isolated_island(&mut self)
        requires
            old(self).wf(),
            old(self).options().len() == 0,
            old(self).classes() == components_of(old(self).cells()),
        ensures
            final(self).wf(),
            final(self).cells() == sealed_off(old(self).cells(), old(self).classes().0),
            gained(
                final(self).scores()[player_index(old(self).player())],
                old(self).scores()[player_index(old(self).player())],
                old(self).cells(),
                final(self).cells(),
            ),
            final(self).scores()[1 - player_index(old(self).player())] == old(self).scores()[1
                - player_index(old(self).player())],
            final(self).kind() == old(self).kind(),
            final(self).player() == old(self).player(),
            final(self).state() == old(self).state(),
            final(self).pool() == old(self).pool(),
            final(self).history() == old(self).history(),
            final(self).repeats() == old(self).repeats(),
            final(self).options() == old(self).options(),
    {
        let roots = self.components.components();
        let pi = self.current_player.index();
        let ghost b0 = self.cells();
        let ghost rep0 = self.classes().0;
        let ghost s0 = self.scores();
        proof {
            self.components.lemma_wf();
            assert forall|j: int| 0 <= j < self.components.elements().len() implies #[trigger] self.components.elements()[j] == j by {
                self.lemma_slot(j);
            }
            lemma_roots_upto(rep0, self.components.elements(), CELLS as int);
            lemma_rings_closed(b0);
            lemma_sweep_respects(b0, CELLS as int, rings_of(b0));
            assert(roots@.subrange(0, 0) =~= Seq::<usize>::empty());
            assert(self.cells() =~= Seq::new(
                CELLS as nat,
                |i: int| if taken(roots@, 0, b0, rep0, rep0[i]) { Ring::Empty } else { b0[i] },
            ));
        }
        let mut t: usize = 0;
        while t < roots.len()
            invariant
                t <= roots@.len(),
                pi == player_index(self.current_player),
                pi < 2,
                b0 == old(self).cells(),
                rep0 == old(self).classes().0,
                s0 == old(self).scores(),
                rep0 == components_of(b0).0,
                b0[outside_index()] is Empty,
                is_partition(rep0),
                rep0.len() == CELLS,
                respects(rep0, rings_of(b0)),
                forall|x: usize| #[trigger] roots@.contains(x) <==> (x < CELLS && rep0[x as int] == x),
                position_ok(self.cells(), self.current_player, self.scores(), self.total_marble),
                self.uf_ok(),
                self.components.slots() == old(self).components.slots(),
                self.board.kind == old(self).board.kind,
                self.board_replace_history == old(self).board_replace_history,
                self.current_player == old(self).current_player,
                self.game_state == old(self).game_state,
                self.repeat_count == old(self).repeat_count,
                self.total_marble == old(self).total_marble,
                self.catch_options == old(self).catch_options,
                self.cells() == Seq::new(
                    CELLS as nat,
                    |i: int| if taken(roots@, t as int, b0, rep0, rep0[i]) { Ring::Empty } else { b0[i] },
                ),
                forall|i: int|
                    0 <= i < CELLS ==> #[trigger] self.classes().0[i] == if taken(roots@, t as int, b0, rep0, rep0[i])
                        || rep0[i] == rep0[outside_index()] {
                        self.classes().0[outside_index()]
                    } else {
                        rep0[i]
                    },
                self.classes().0[outside_index()] == rep0[outside_index()] || taken(
                    roots@,
                    t as int,
                    b0,
                    rep0,
                    self.classes().0[outside_index()],
                ),
                gained(self.scores()[pi as int], s0[pi as int], b0, self.cells()),
                self.scores()[1 - pi] == s0[1 - pi],
            decreases roots@.len() - t,
        {
            let r = roots[t];
            proof {
                assert(roots@.contains(r));
                assert forall|g: int| 0 <= g implies taken(roots@, t + 1, b0, rep0, g) == (taken(roots@, t as int, b0, rep0, g) || (g as usize
                    == roots@[t as int] && all_occupied(b0, rep0, g))) by {
                    lemma_taken_step(roots@, t as int, b0, rep0, g);
                }
                self.components.lemma_wf();
            }
            if self.board.data[r].is_present() {
                let ghost cur = self.cells();
                let ghost reps = self.classes().0;
                proof {
                    assert(!taken(roots@, t as int, b0, rep0, r as int));
                    assert(!(b0[r as int] is Empty));
                    assert(rings_of(b0).contains(r as int));
                    assert(!rings_of(b0).contains(outside_index()));
                    assert(rep0[outside_index()] != r);
                    assert(reps[r as int] == r);
                    assert forall|j: int| 0 <= j < CELLS implies (#[trigger] reps[j] == reps[r as int]) == (rep0[j] == r) by {
                        if rep0[j] == r {
                            assert(!taken(roots@, t as int, b0, rep0, rep0[j]));
                        }
                    }
                }
                let (members, sealed) = self.class_members(r);
                proof {
                    assert forall|j: int| 0 <= j < CELLS && rep0[j] == r implies rings_of(b0).contains(j) by {
                        assert(rep0[j] == rep0[r as int]);
                    }
                    if sealed {
                        assert forall|j: int| 0 <= j < CELLS && #[trigger] rep0[j] == r implies b0[j] is Occupied by {
                            assert(reps[j] == reps[r as int]);
                            assert(cur[j] != Ring::Vacant);
                            assert(!taken(roots@, t as int, b0, rep0, rep0[j]));
                            assert(cur[j] == b0[j]);
                            assert(rings_of(b0).contains(j));
                        }
                    }
                    if all_occupied(b0, rep0, r as int) {
                        assert forall|j: int| 0 <= j < CELLS && #[trigger] reps[j] == reps[r as int] implies cur[j] != Ring::Vacant by {
                            assert(rep0[j] == r);
                            assert(!taken(roots@, t as int, b0, rep0, rep0[j]));
                            assert(cur[j] == b0[j]);
                        }
                    }
                    assert(sealed == all_occupied(b0, rep0, r as int));
                }
                if sealed {
                    proof {
                        assert forall|k: int| 0 <= k < members@.len() implies #[trigger] members@[k] < CELLS by {
                            assert(members@.contains(members@[k]));
                        }
                    }
                    self.capture_members(&members);
                    proof {
                        assert forall|i: int| 0 <= i < CELLS implies self.cells()[i] == (if taken(roots@, t + 1, b0, rep0, rep0[i]) { Ring::Empty } else { b0[i] }) by {
                            assert(members@.contains(i as usize) == (rep0[i] == r));
                        }
                        assert(self.cells() =~= Seq::new(
                            CELLS as nat,
                            |i: int| if taken(roots@, t + 1, b0, rep0, rep0[i]) { Ring::Empty } else { b0[i] },
                        ));
                        self.lemma_slot(r as int);
                        self.lemma_slot(outside_index());
                    }
                    let ghost pre = self.components;
                    let ghost reps1 = self.classes().0;
                    self.components.union(&r, &OUTSIDE);
                    proof {
                        lemma_identity_slots_kept(&pre, &self.components);
                        let ra = reps1[r as int];
                        let rb = reps1[outside_index()];
                        assert(ra == r);
                        assert(ra != rb);
                        let nr = self.classes().0;
                        assert(nr[outside_index()] == ra || nr[outside_index()] == rb);
                        assert forall|i: int| 0 <= i < CELLS implies #[trigger] nr[i] == if taken(roots@, t + 1, b0, rep0, rep0[i])
                            || rep0[i] == rep0[outside_index()] {
                            nr[outside_index()]
                        } else {
                            rep0[i]
                        } by {
                            if taken(roots@, t as int, b0, rep0, rep0[i]) || rep0[i] == rep0[outside_index()] {
                                assert(reps1[i] == rb);
                            } else if rep0[i] == r {
                                assert(reps1[i] == ra);
                            } else {
                                assert(reps1[i] == rep0[i]);
                                assert(rep0[i] != ra);
                                if rep0[i] == rb {
                                    assert(taken(roots@, t as int, b0, rep0, rb));
                                }
                            }
                        }
                    }
                }
            }
            t = t + 1;
        }
        proof {
            assert(roots@.subrange(0, roots@.len() as int) == roots@);
            assert forall|i: int| 0 <= i < CELLS implies self.cells()[i] == sealed_off(b0, rep0)[i] by {
                assert(roots@.contains(rep0[i] as usize));
            }
            assert(self.cells() =~= sealed_off(b0, rep0));
        }
    }
}

/// What a game is, as the rules see it.
pub struct GameView {
    pub cells: Seq<Ring>,
    pub kind: BoardKind,
    pub player: Player,
    pub state: GameState,
    pub scores: Seq<MarbleCount>,
    pub pool: MarbleCount,
    pub history: Seq<Seq<Ring>>,
    pub repeats: int,
    pub options: Seq<CatchableMove>,
}

impl Game {
    pub open spec fn view(&self) -> GameView {
        GameView {
            cells: self.cells(),
            kind: self.kind(),
            player: self.player(),
            state: self.state(),
            scores: self.scores(),
            pool: self.pool(),
            history: self.history(),
            repeats: self.repeats(),
            options: self.options(),
        }
    }
}

/// The count with, for each colour, the marbles that left the board from
/// `before` to `after` added.
pub open spec fn credit(c: MarbleCount, before: Seq<Ring>, after: Seq<Ring>) -> MarbleCount {
    MarbleCount {
        white_count: (c.white_count + on_board(before, Marble::White) - on_board(
            after,
            Marble::White,
        )) as usize,
        gray_count: (c.gray_count + on_board(before, Marble::Gray) - on_board(
            after,
            Marble::Gray,
        )) as usize,
        black_count: (c.black_count + on_board(before, Marble::Black) - on_board(
            after,
            Marble::Black,
        )) as usize,
    }
}

/// The state after a placement: the game ends when a player's captures
/// win, the mover's first; otherwise captures are looked for.
pub open spec fn after_placement_state(scores: Seq<MarbleCount>, mover: Player) -> GameState {
    match score_winner(scores, mover) {
        Some(w) => GameState::GameEnd(w),
        None => GameState::CheckIsCatchable,
    }
}

/// A placement of `m` at `put` with the removal of the ring at `remove`:
/// the new game and the result.
///
/// The marble comes from the pool, or from the mover's captures when the
/// pool has none of that colour. When some ring can be removed the one at
/// `remove` must be one of them; it goes, the repetition record is
/// cleared, and every class of rings made only of marbles is taken off and
/// credited to the mover. When no ring can be removed, none is.
pub open spec fn put_spec(v: GameView, put: Coordinate, remove: Coordinate, m: Marble) -> (
    GameView,
    Result<(), ZertzError>,
) {
    let pi = player_index(v.player);
    if v.state != GameState::PutMarble {
        (v, Err(ZertzError::InvalidInputData))
    } else if !in_grid(put) || cell(v.cells, put) != Ring::Vacant {
        (v, Err(ZertzError::InvalidPuttingMarble))
    } else if count_of(v.pool, m) == 0 && count_of(v.scores[pi], m) == 0 {
        (v, Err(ZertzError::InvalidPuttingMarble))
    } else {
        let b1 = v.cells.update(index_of(put), Ring::Occupied(m));
        if removable_rings(b1).len() > 0 && !removable(b1, remove) {
            (v, Err(ZertzError::InvalidRingToRemove))
        } else {
            (placement(v, put, remove, m), Ok(()))
        }
    }
}

/// The game after a placement that passed every check.
pub open spec fn placement(v: GameView, put: Coordinate, remove: Coordinate, m: Marble) -> GameView {
    let pi = player_index(v.player);
    let b1 = v.cells.update(index_of(put), Ring::Occupied(m));
    let any = removable_rings(b1).len() > 0;
    let from_pool = count_of(v.pool, m) > 0;
    let pool = if from_pool {
        adjust(v.pool, m, -1)
    } else {
        v.pool
    };
    let paid = if from_pool {
        v.scores[pi]
    } else {
        adjust(v.scores[pi], m, -1)
    };
    let b2 = if any {
        b1.update(index_of(remove), Ring::Empty)
    } else {
        b1
    };
    let b3 = if any {
        sealed_off(b2, components_of(b2).0)
    } else {
        b2
    };
    let scores = v.scores.update(pi, credit(paid, b2, b3));
    GameView {
        cells: b3,
        kind: v.kind,
        player: opponent(v.player),
        state: after_placement_state(scores, v.player),
        scores,
        pool,
        history: if any {
            Seq::empty()
        } else {
            v.history
        },
        repeats: if any {
            0
        } else {
            v.repeats
        },
        options: Seq::empty(),
    }
}

/// The game with the ring at `put` vacant again.
pub open spec fn before_placing(v: GameView, put: Coordinate) -> GameView {
    GameView { cells: v.cells.update(index_of(put), Ring::Vacant), ..v }
}

proof fn lemma_credit(c: MarbleCount, paid: MarbleCount, before: Seq<Ring>, after: Seq<Ring>)
    requires
        gained(c, paid, before, after),
    ensures
        c == credit(paid, before, after),
{
    assert(count_of(c, Marble::White) == count_of(paid, Marble::White) + on_board(before, Marble::White) - on_board(after, Marble::White));
    assert(count_of(c, Marble::Gray) == count_of(paid, Marble::Gray) + on_board(before, Marble::Gray) - on_board(after, Marble::Gray));
    assert(count_of(c, Marble::Black) == count_of(paid, Marble::Black) + on_board(before, Marble::Black) - on_board(after, Marble::Black));
}

impl Game {
    /// The first player, `first` or the other, whose captures win.
    fn score_winner_of(&self, first: Player) -> (r: Option<Player>)
        requires
            self.players_score@.len() == 2,
            first != Player::Tie,
        ensures
            r == score_winner(self.scores(), first),
    {
        let fi = first.index();
        let mut other = first;
        other.change_player();
        let oi = other.index();
        if self.players_score[fi].is_win() {
            Some(first)
        } else if self.players_score[oi].is_win() {
            Some(other)
        } else {
            None
        }
    }

    /// Places `marble` on the vacant ring at `put_coord` and, when some ring
    /// can be removed, removes the ring at `remove_coord` and takes off every
    /// class of rings made only of marbles; then passes the turn. See
    /// `put_spec`. On an error nothing changes.
    pub fn put_marble(&mut self, put_coord: Coordinate, remove_coord: Coordinate, marble: Marble) -> (r: Result<(), ZertzError>)
        requires
            old(self).wf(),
        ensures
            final(self).wf(),
            (final(self)@, r) == put_spec(old(self)@, put_coord, remove_coord, marble),
    {
        if self.game_state != GameState::PutMarble {
            return Err(ZertzError::InvalidInputData);
        }
        if put_coord.x >= GRID || put_coord.y >= GRID {
            return Err(ZertzError::InvalidPuttingMarble);
        }
        if self.board.at(put_coord) != Ring::Vacant {
            return Err(ZertzError::InvalidPuttingMarble);
        }
        let pi = self.current_player.index();
        if self.total_marble.get(marble) == 0 && self.players_score[pi].get(marble) == 0 {
            return Err(ZertzError::InvalidPuttingMarble);
        }
        let ghost v = self@;
        proof {
            lemma_coord_index(put_coord);
        }
        self.board.set(put_coord, Ring::Occupied(marble));
        let removable = self.collect_removable_rings();
        let any = removable.len() > 0;
        if any && !self.valid_to_remove_ring(remove_coord) {
            self.board.set(put_coord, Ring::Vacant);
            proof {
                assert(self.cells() =~= v.cells);
            }
            return Err(ZertzError::InvalidRingToRemove);
        }
        proof {
            assert(self.cells().update(index_of(put_coord), Ring::Vacant) =~= v.cells);
            assert(before_placing(self@, put_coord) == v);
        }
        self.commit_placement(put_coord, remove_coord, marble, any);
        Ok(())
    }

    /// The placement once every check passed: pays for the marble, removes
    /// the ring and takes off sealed classes when `any`, and passes the turn.
    #[verifier::rlimit(50)]
    fn commit_placement(&mut self, put_coord: Coordinate, remove_coord: Coordinate, marble: Marble, any: bool)
        requires
            in_grid(put_coord),
            old(self).uf_ok(),
            old(self).game_state == GameState::PutMarble,
            old(self).catch_options@.len() == 0,
            old(self).repeat_count <= 3,
            cell(old(self).cells(), put_coord) == Ring::Occupied(marble),
            cell(before_placing(old(self)@, put_coord).cells, put_coord) == Ring::Vacant,
            position_ok(
                before_placing(old(self)@, put_coord).cells,
                old(self).current_player,
                old(self).scores(),
                old(self).total_marble,
            ),
            count_of(old(self).pool(), marble) > 0 || count_of(
                old(self).scores()[player_index(old(self).player())],
                marble,
            ) > 0,
            any == (removable_rings(old(self).cells()).len() > 0),
            any ==> removable(old(self).cells(), remove_coord),
        ensures
            final(self).wf(),
            final(self)@ == placement(before_placing(old(self)@, put_coord), put_coord, remove_coord, marble),
    {
        let ghost v = before_placing(self@, put_coord);
        let ghost b = v.cells;
        let ghost b1 = self.cells();
        let pi = self.current_player.index();
        proof {
            lemma_coord_index(put_coord);
            assert(b1 =~= b.update(index_of(put_coord), Ring::Occupied(marble)));
        }
        let ghost sc = self.scores();
        let ghost pool0 = self.total_marble;
        proof {
            lemma_conserved_bounds(b, self.total_marble, sc[0], sc[1]);
        }
        if !self.total_marble.dec(marble) {
            let mut paid = self.players_score[pi];
            paid.dec(marble);
            self.players_score[pi] = paid;
        }
        proof {
            let s = self.scores();
            assert forall|x: Marble| #![trigger count_of(self.total_marble, x)]
                count_of(self.total_marble, x) + on_board(b1, x) + count_of(s[0], x) + count_of(s[1], x)
                    == supply_of(x) by {
                lemma_count_update(b, index_of(put_coord), Ring::Occupied(marble), x, CELLS as int);
                assert(count_of(pool0, x) + on_board(b, x) + count_of(sc[0], x) + count_of(sc[1], x) == supply_of(x));
                if count_of(pool0, marble) > 0 {
                    lemma_adjust(pool0, marble, -1, x);
                } else {
                    lemma_adjust(sc[pi as int], marble, -1, x);
                }
            }
            assert(b1[outside_index()] is Empty);
            assert(self.wf());
        }
        let ghost paid_scores = self.scores();
        let ghost pool1 = self.total_marble;
        if any {
            self.board_replace_history.clear();
            self.repeat_count = 0;
            proof {
                lemma_coord_index(remove_coord);
            }
            self.board.set(remove_coord, Ring::Empty);
            let ghost b2 = self.cells();
            proof {
                let s = self.scores();
                assert forall|x: Marble| #![trigger count_of(self.total_marble, x)]
                    count_of(self.total_marble, x) + on_board(b2, x) + count_of(s[0], x) + count_of(s[1], x)
                        == supply_of(x) by {
                    lemma_count_update(b1, index_of(remove_coord), Ring::Empty, x, CELLS as int);
                }
                assert(self.history() =~= Seq::empty());
            }
            self.calculate_components();
            self.remove_isolated_island();
            proof {
                lemma_credit(self.scores()[pi as int], paid_scores[pi as int], b2, self.cells());
                assert(self.scores() =~= paid_scores.update(pi as int, credit(paid_scores[pi as int], b2, self.cells())));
            }
        } else {
            proof {
                assert(credit(paid_scores[pi as int], b1, b1) == paid_scores[pi as int]);
                assert(self.scores() =~= paid_scores.update(pi as int, credit(paid_scores[pi as int], b1, b1)));
            }
        }
        let mover = self.current_player;
        let winner = self.score_winner_of(mover);
        self.current_player.change_player();
        self.game_state = match winner {
            Some(w) => GameState::GameEnd(w),
            None => GameState::CheckIsCatchable,
        };
        proof {
            assert(self.options() =~= Seq::empty());
            let pv = placement(v, put_coord, remove_coord, marble);
            assert(self.cells() == pv.cells);
            assert(self.scores() == pv.scores);
            assert(self.pool() == pv.pool);
            assert(self.history() == pv.history);
            assert(self.state() == pv.state);
        }
    }
}

/// What a listed jump guarantees about the board.
pub open spec fn jump_facts(b: Seq<Ring>, m: CatchableMove) -> bool {
    &&& in_grid(m.catched_coord)
    &&& in_grid(m.marble_land_coord)
    &&& cell(b, m.catched_coord) is Occupied
    &&& cell(b, m.marble_land_coord) == Ring::Vacant
    &&& m.start_coord != m.catched_coord
}

proof fn lemma_jump_facts(b: Seq<Ring>, c: Coordinate, d: Direction)
    requires
        d == dir_up_right() || d == dir_up() || d == dir_left() || d == dir_left_down() || d
            == dir_down() || d == dir_right(),
        jump(b, c, d) is Some,
    ensures
        jump(b, c, d)->Some_0.start_coord == c,
        jump_facts(b, jump(b, c, d)->Some_0),
{
    lemma_direction_moves();
}

/// Every jump in `s` starts at `c` and jumps a marble onto a vacant ring.
pub open spec fn jumps_from(b: Seq<Ring>, c: Coordinate, s: Seq<CatchableMove>) -> bool {
    forall|k: int| 0 <= k < s.len() ==> (#[trigger] s[k]).start_coord == c && jump_facts(b, s[k])
}

proof fn lemma_jumps_from_concat(b: Seq<Ring>, c: Coordinate, s: Seq<CatchableMove>, t: Seq<CatchableMove>)
    requires
        jumps_from(b, c, s),
        jumps_from(b, c, t),
    ensures
        jumps_from(b, c, s + t),
{
    assert forall|k: int| 0 <= k < (s + t).len() implies (#[trigger] (s + t)[k]).start_coord == c
        && jump_facts(b, (s + t)[k]) by {
        if k < s.len() {
            assert((s + t)[k] == s[k]);
        } else {
            assert((s + t)[k] == t[k - s.len()]);
        }
    }
}

proof fn lemma_jumps_from_one(b: Seq<Ring>, c: Coordinate, d: Direction)
    requires
        d == dir_up_right() || d == dir_up() || d == dir_left() || d == dir_left_down() || d
            == dir_down() || d == dir_right(),
    ensures
        jumps_from(b, c, opt_seq(jump(b, c, d))),
{
    if jump(b, c, d) is Some {
        lemma_jump_facts(b, c, d);
        let s = opt_seq(jump(b, c, d));
        assert(s.len() == 1);
        assert(s[0] == jump(b, c, d)->Some_0);
    } else {
        assert(opt_seq(jump(b, c, d)).len() == 0);
    }
}

/// Every jump listed from `c` starts at `c` and jumps a marble onto a vacant
/// ring.
pub proof fn lemma_catchable_facts(b: Seq<Ring>, c: Coordinate)
    ensures
        jumps_from(b, c, catchable(b, c)),
{
    let a0 = opt_seq(jump(b, c, dir_up_right()));
    let a1 = opt_seq(jump(b, c, dir_up()));
    let a2 = opt_seq(jump(b, c, dir_left()));
    let a3 = opt_seq(jump(b, c, dir_left_down()));
    let a4 = opt_seq(jump(b, c, dir_down()));
    let a5 = opt_seq(jump(b, c, dir_right()));
    lemma_jumps_from_one(b, c, dir_up_right());
    lemma_jumps_from_one(b, c, dir_up());
    lemma_jumps_from_one(b, c, dir_left());
    lemma_jumps_from_one(b, c, dir_left_down());
    lemma_jumps_from_one(b, c, dir_down());
    lemma_jumps_from_one(b, c, dir_right());
    lemma_jumps_from_concat(b, c, a0, a1);
    lemma_jumps_from_concat(b, c, a0 + a1, a2);
    lemma_jumps_from_concat(b, c, a0 + a1 + a2, a3);
    lemma_jumps_from_concat(b, c, a0 + a1 + a2 + a3, a4);
    lemma_jumps_from_concat(b, c, a0 + a1 + a2 + a3 + a4, a5);
}

/// Every jump of the whole-board list can be made.
pub proof fn lemma_catchable_upto_valid(b: Seq<Ring>, k: int)
    requires
        b.len() == CELLS,
        0 <= k <= CELLS,
    ensures
        forall|j: int|
            0 <= j < catchable_upto(b, k).len() ==> valid_option(b, #[trigger] catchable_upto(b, k)[j]),
    decreases k,
{
    if k > 0 {
        lemma_catchable_upto_valid(b, k - 1);
        if b[k - 1] is Occupied {
            let prev = catchable_upto(b, k - 1);
            let c = coord_of(k - 1);
            let here = catchable(b, c);
            lemma_catchable_facts(b, c);
            lemma_index_coord(k - 1);
            assert(catchable_upto(b, k) == prev + here);
            assert forall|j: int| 0 <= j < (prev + here).len() implies valid_option(b, #[trigger] (prev + here)[j]) by {
                if j < prev.len() {
                    assert((prev + here)[j] == prev[j]);
                } else {
                    let m = here[j - prev.len()];
                    assert((prev + here)[j] == m);
                    assert(here.contains(m));
                    assert(m.start_coord == c);
                }
            }
        } else {
            assert(catchable_upto(b, k) == catchable_upto(b, k - 1));
        }
    } else {
        assert(catchable_upto(b, k).len() == 0);
    }
}

/// The whole-board capture check: offers every jump on the board, and waits
/// for one of them when there is any, for a placement otherwise.
pub open spec fn check_spec(v: GameView) -> (GameView, Result<Seq<CatchableMove>, ZertzError>) {
    if v.state != GameState::CheckIsCatchable {
        (v, Err(ZertzError::InvalidInputData))
    } else {
        let all = all_catchable(v.cells);
        if all.len() == 0 {
            (GameView { state: GameState::PutMarble, options: Seq::empty(), ..v }, Ok(all))
        } else {
            (GameView { state: GameState::CatchMarble, options: all, ..v }, Ok(all))
        }
    }
}

pub(crate) fn copy_moves(v: &Vec<CatchableMove>) -> (r: Vec<CatchableMove>)
    ensures
        r@ == v@,
{
    let mut out: Vec<CatchableMove> = Vec::with_capacity(v.len());
    let mut i: usize = 0;
    while i < v.len()
        invariant
            i <= v@.len(),
            out@ == v@.subrange(0, i as int),
        decreases v@.len() - i,
    {
        out.push(v[i]);
        proof {
            assert(v@.subrange(0, i + 1 as int) =~= v@.subrange(0, i as int).push(v@[i as int]));
        }
        i = i + 1;
    }
    proof {
        assert(v@.subrange(0, v@.len() as int) =~= v@);
    }
    out
}

impl Game {
    /// Looks for captures: moves on to `CatchMarble` with every jump on the
    /// board offered when there is one, to `PutMarble` otherwise.
    pub fn check_catchable(&mut self) -> (r: Result<Vec<CatchableMove>, ZertzError>)
        requires
            old(self).wf(),
        ensures
            final(self).wf(),
            (final(self)@, match r {
                Ok(l) => Ok(l@),
                Err(e) => Err(e),
            }) == check_spec(old(self)@),
    {
        if self.game_state != GameState::CheckIsCatchable {
            return Err(ZertzError::InvalidInputData);
        }
        let all = self.list_all_catchable();
        proof {
            lemma_catchable_upto_valid(self.cells(), CELLS as int);
        }
        if all.len() == 0 {
            self.game_state = GameState::PutMarble;
            self.catch_options = Vec::new();
            proof {
                assert(self.options() =~= Seq::empty());
            }
        } else {
            self.game_state = GameState::CatchMarble;
            self.catch_options = copy_moves(&all);
        }
        Ok(all)
    }
}

/// The board after the jump `mv`: the jumping marble lands, and the start
/// and the jumped cell are left vacant.
pub open spec fn jumped(b: Seq<Ring>, mv: CatchableMove) -> Seq<Ring> {
    b.update(index_of(mv.marble_land_coord), cell(b, mv.start_coord)).update(
        index_of(mv.start_coord),
        Ring::Vacant,
    ).update(index_of(mv.catched_coord), Ring::Vacant)
}

/// A jump: `mv` must be one of the offered jumps. The jumped marble is
/// credited to the mover and the new board recorded. The game ends when a
/// player's captures win (the mover's first), or in a tie when this jump
/// gave a board already recorded and that makes three such jumps since the
/// last ring removal (the count stops at three). Otherwise the same player goes on with the jumps from the
/// landing cell, or, when there is none, the turn passes and a placement
/// follows. The result holds the jumps from the landing cell, if any.
pub open spec fn catch_spec(v: GameView, mv: CatchableMove) -> (
    GameView,
    Result<Option<Seq<CatchableMove>>, ZertzError>,
) {
    let pi = player_index(v.player);
    if v.state != GameState::CatchMarble || !v.options.contains(mv) {
        (v, Err(ZertzError::InvalidInputData))
    } else if !(cell(v.cells, mv.catched_coord) is Occupied) {
        (v, Err(ZertzError::FailedToCatchMarble))
    } else {
        let captured = cell(v.cells, mv.catched_coord)->Occupied_0;
        let b1 = jumped(v.cells, mv);
        let scores = v.scores.update(pi, adjust(v.scores[pi], captured, 1));
        let next = catchable(b1, mv.marble_land_coord);
        let winner = score_winner(scores, v.player);
        let matched = winner is None && v.history.contains(b1);
        let repeats = if matched && v.repeats < 3 {
            v.repeats + 1
        } else {
            v.repeats
        };
        let state = match winner {
            Some(w) => GameState::GameEnd(w),
            None => if matched && repeats >= 3 {
                GameState::GameEnd(Player::Tie)
            } else if next.len() == 0 {
                GameState::PutMarble
            } else {
                GameState::CatchMarble
            },
        };
        (
            GameView {
                cells: b1,
                player: if next.len() == 0 {
                    opponent(v.player)
                } else {
                    v.player
                },
                state,
                scores,
                history: v.history.push(b1),
                repeats,
                options: if state == GameState::CatchMarble {
                    next
                } else {
                    Seq::empty()
                },
                ..v
            },
            Ok(
                if next.len() == 0 {
                    None
                } else {
                    Some(next)
                },
            ),
        )
    }
}

impl Game {
    /// Whether the board was recorded since the last ring removal.
    fn history_contains(&self, board: &Board) -> (r: bool)
        ensures
            r == self.history().contains(board@),
    {
        let mut i: usize = 0;
        while i < self.board_replace_history.len()
            invariant
                i <= self.board_replace_history@.len(),
                forall|j: int| 0 <= j < i ==> self.history()[j] != board@,
            decreases self.board_replace_history@.len() - i,
        {
            if self.board_replace_history[i].same_cells(board) {
                proof {
                    assert(self.history()[i as int] == board@);
                }
                return true;
            }
            i = i + 1;
        }
        proof {
            if self.history().contains(board@) {
                let w = choose|w: int| 0 <= w < self.history().len() && self.history()[w] == board@;
                assert(self.history()[w] != board@);
            }
        }
        false
    }

    /// Whether `mv` is one of the offered jumps.
    fn is_offered(&self, mv: &CatchableMove) -> (r: bool)
        ensures
            r == self.options().contains(*mv),
    {
        let mut i: usize = 0;
        while i < self.catch_options.len()
            invariant
                i <= self.catch_options@.len(),
                forall|j: int| 0 <= j < i ==> self.catch_options@[j] != *mv,
            decreases self.catch_options@.len() - i,
        {
            if self.catch_options[i] == *mv {
                proof {
                    assert(self.options()[i as int] == *mv);
                }
                return true;
            }
            i = i + 1;
        }
        proof {
            if self.options().contains(*mv) {
                let w = choose|w: int| 0 <= w < self.options().len() && self.options()[w] == *mv;
                assert(self.catch_options@[w] != *mv);
            }
        }
        false
    }

    /// Moves the jumping marble, empties the start and the jumped cell, and
    /// credits the jumped marble to the mover.
    fn apply_jump(&mut self, mv: CatchableMove, captured: Marble)
        requires
            old(self).wf(),
            old(self).game_state == GameState::CatchMarble,
            in_grid(mv.start_coord),
            in_grid(mv.catched_coord),
            in_grid(mv.marble_land_coord),
            cell(old(self).cells(), mv.start_coord) is Occupied,
            cell(old(self).cells(), mv.catched_coord) == Ring::Occupied(captured),
            cell(old(self).cells(), mv.marble_land_coord) == Ring::Vacant,
            mv.start_coord != mv.catched_coord,
        ensures
            final(self).cells() == jumped(old(self).cells(), mv),
            final(self).scores() == old(self).scores().update(
                player_index(old(self).player()),
                adjust(old(self).scores()[player_index(old(self).player())], captured, 1),
            ),
            position_ok(final(self).cells(), final(self).current_player, final(self).scores(), final(self).total_marble),
            final(self).uf_ok(),
            final(self).board.kind == old(self).board.kind,
            final(self).components == old(self).components,
            final(self).board_replace_history == old(self).board_replace_history,
            final(self).current_player == old(self).current_player,
            final(self).game_state == old(self).game_state,
            final(self).repeat_count == old(self).repeat_count,
            final(self).total_marble == old(self).total_marble,
            final(self).catch_options == old(self).catch_options,
    {
        let start_coord = mv.start_coord;
        let catched_coord = mv.catched_coord;
        let marble_land_coord = mv.marble_land_coord;
        let ghost b = self.cells();
        proof {
            lemma_coord_index(start_coord);
            lemma_coord_index(catched_coord);
            lemma_coord_index(marble_land_coord);
        }
        let jumper = self.board.at(start_coord);
        let pi = self.current_player.index();
        let ghost sc = self.scores();
        proof {
            lemma_conserved_bounds(b, self.total_marble, sc[0], sc[1]);
        }
        let mut score = self.players_score[pi];
        score.inc(captured);
        self.players_score[pi] = score;
        self.board.set(marble_land_coord, jumper);
        self.board.set(start_coord, Ring::Vacant);
        self.board.set(catched_coord, Ring::Vacant);
        proof {
            let b1 = self.cells();
            let ba = b.update(index_of(marble_land_coord), jumper);
            let bb = ba.update(index_of(start_coord), Ring::Vacant);
            assert(b1 == bb.update(index_of(catched_coord), Ring::Vacant));
            let s = self.scores();
            assert(s =~= sc.update(pi as int, adjust(sc[pi as int], captured, 1)));
            assert forall|x: Marble| #![trigger count_of(self.total_marble, x)]
                count_of(self.total_marble, x) + on_board(b1, x) + count_of(s[0], x) + count_of(s[1], x)
                    == supply_of(x) by {
                lemma_count_update(b, index_of(marble_land_coord), jumper, x, CELLS as int);
                lemma_count_update(ba, index_of(start_coord), Ring::Vacant, x, CELLS as int);
                lemma_count_update(bb, index_of(catched_coord), Ring::Vacant, x, CELLS as int);
                lemma_adjust(sc[pi as int], captured, 1, x);
                assert(count_of(self.total_marble, x) + on_board(b, x) + count_of(sc[0], x) + count_of(sc[1], x) == supply_of(x));
            }
            assert(b1[outside_index()] is Empty);
        }
    }

    /// After a jump: offers the jumps from the landing cell, passes the turn
    /// when there is none, and decides whether the game ended.
    #[verifier::rlimit(40)]
    fn settle_after_jump(&mut self, land: Coordinate, repeated: bool) -> (next: Vec<CatchableMove>)
        requires
            position_ok(old(self).cells(), old(self).current_player, old(self).scores(), old(self).total_marble),
            old(self).uf_ok(),
            old(self).game_state == GameState::CatchMarble,
            old(self).repeat_count <= 3,
            in_grid(land),
            cell(old(self).cells(), land) is Occupied,
        ensures
            final(self).wf(),
            next@ == catchable(old(self).cells(), land),
            ({
                let winner = score_winner(old(self).scores(), old(self).player());
                let repeats = if winner is None && repeated && old(self).repeats() < 3 {
                    old(self).repeats() + 1
                } else {
                    old(self).repeats()
                };
                let state = match winner {
                    Some(w) => GameState::GameEnd(w),
                    None => if repeated && repeats >= 3 {
                        GameState::GameEnd(Player::Tie)
                    } else if next@.len() == 0 {
                        GameState::PutMarble
                    } else {
                        GameState::CatchMarble
                    },
                };
                &&& final(self).repeats() == repeats
                &&& final(self).state() == state
                &&& final(self).player() == if next@.len() == 0 {
                    opponent(old(self).player())
                } else {
                    old(self).player()
                }
                &&& final(self).options() == if state == GameState::CatchMarble {
                    next@
                } else {
                    Seq::empty()
                }
            }),
            final(self).cells() == old(self).cells(),
            final(self).kind() == old(self).kind(),
            final(self).scores() == old(self).scores(),
            final(self).pool() == old(self).pool(),
            final(self).history() == old(self).history(),
    {
        let next = self.list_catchable(land);
        proof {
            lemma_catchable_facts(self.cells(), land);
        }
        let mover = self.current_player;
        let winner = self.score_winner_of(mover);
        if next.len() == 0 {
            self.current_player.change_player();
        }
        match winner {
            Some(w) => {
                self.game_state = GameState::GameEnd(w);
            },
            None => {
                if repeated && self.repeat_count < 3 {
                    self.repeat_count = self.repeat_count + 1;
                }
                if repeated && self.repeat_count >= 3 {
                    self.game_state = GameState::GameEnd(Player::Tie);
                } else if next.len() == 0 {
                    self.game_state = GameState::PutMarble;
                } else {
                    self.game_state = GameState::CatchMarble;
                }
            },
        }
        if self.game_state == GameState::CatchMarble {
            self.catch_options = copy_moves(&next);
            proof {
                assert forall|k: int| 0 <= k < self.catch_options@.len() implies valid_option(
                    self.cells(),
                    #[trigger] self.catch_options@[k],
                ) by {
                    assert(next@.contains(next@[k]));
                }
            }
        } else {
            self.catch_options = Vec::new();
            proof {
                assert(self.options() =~= Seq::empty());
            }
        }
        proof {
            assert(self.uf_ok());
            assert(position_ok(self.cells(), self.current_player, self.scores(), self.total_marble));
            assert(self.repeat_count <= 3);
        }
        next
    }

    /// Makes the offered jump `catch_data`; see `catch_spec`. On an error
    /// nothing changes.
    #[verifier::rlimit(60)]
    pub fn catch_marble(&mut self, catch_data: CatchableMove) -> (r: Result<Option<Vec<CatchableMove>>, ZertzError>)
        requires
            old(self).wf(),
        ensures
            final(self).wf(),
            (final(self)@, match r {
                Ok(Some(l)) => Ok(Some(l@)),
                Ok(None) => Ok(None),
                Err(e) => Err(e),
            }) == catch_spec(old(self)@, catch_data),
    {
        if self.game_state != GameState::CatchMarble {
            return Err(ZertzError::InvalidInputData);
        }
        if !self.is_offered(&catch_data) {
            return Err(ZertzError::InvalidInputData);
        }
        let start_coord = catch_data.start_coord;
        let catched_coord = catch_data.catched_coord;
        let marble_land_coord = catch_data.marble_land_coord;
        let ghost v = self@;
        let ghost b = self.cells();
        proof {
            let w = choose|w: int| 0 <= w < v.options.len() && v.options[w] == catch_data;
            assert(valid_option(b, v.options[w]));
            lemma_catchable_facts(b, start_coord);
            let w2 = choose|w2: int| 0 <= w2 < catchable(b, start_coord).len() && catchable(b, start_coord)[w2] == catch_data;
            assert(jump_facts(b, catchable(b, start_coord)[w2]));
            lemma_coord_index(start_coord);
            lemma_coord_index(catched_coord);
            lemma_coord_index(marble_land_coord);
        }
        let captured = match self.board.at(catched_coord) {
            Ring::Occupied(m) => m,
            _ => return Err(ZertzError::FailedToCatchMarble),
        };
        self.apply_jump(catch_data, captured);
        proof {
            assert(self.cells() == jumped(b, catch_data));
        }
        let repeated = self.history_contains(&self.board);
        let current = self.board;
        self.board_replace_history.push(current);
        proof {
            assert(self.history() =~= v.history.push(self.cells()));
        }
        let next = self.settle_after_jump(marble_land_coord, repeated);
        if next.len() == 0 {
            Ok(None)
        } else {
            Ok(Some(next))
        }
    }
}

impl Game {
    /// Puts a recorded position back: board, player to move, captures and
    /// pool. The connectivity is rebuilt and captures are looked for next.
    pub fn restore(&mut self, board: Board, player: Player, scores: [MarbleCount; 2], pool: MarbleCount)
        requires
            old(self).wf(),
            position_ok(board@, player, scores@, pool),
            board.kind == old(self).kind(),
        ensures
            final(self).wf(),
            final(self)@ == (GameView {
                cells: board@,
                player,
                scores: scores@,
                pool,
                state: GameState::CheckIsCatchable,
                options: Seq::empty(),
                ..old(self)@
            }),
            final(self).classes() == components_of(board@),
    {
        self.board = board;
        self.current_player = player;
        self.players_score = scores;
        self.total_marble = pool;
        self.game_state = GameState::CheckIsCatchable;
        self.catch_options = Vec::new();
        proof {
            assert(self.options() =~= Seq::empty());
        }
        self.calculate_components();
    }

    /// Rebuilds the connectivity and goes back to looking for captures,
    /// with no jump offered.
    pub fn recheck(&mut self)
        requires
            old(self).wf(),
        ensures
            final(self).wf(),
            final(self)@ == (GameView {
                state: GameState::CheckIsCatchable,
                options: Seq::empty(),
                ..old(self)@
            }),
            final(self).classes() == components_of(old(self).cells()),
    {
        self.game_state = GameState::CheckIsCatchable;
        self.catch_options = Vec::new();
        proof {
            assert(self.options() =~= Seq::empty());
        }
        self.calculate_components();
    }

    /// The root slot of each cell's class, cell by cell; compresses paths
    /// but changes no class.
    pub fn component_roots(&mut self) -> (r: Vec<usize>)
        requires
            old(self).wf(),
        ensures
            final(self).wf(),
            final(self)@ == old(self)@,
            final(self).classes() == old(self).classes(),
            r@.len() == CELLS,
            forall|i: int| 0 <= i < CELLS ==> #[trigger] r@[i] == old(self).classes().0[i],
    {
        let mut out: Vec<usize> = Vec::with_capacity(CELLS);
        let mut i: usize = 0;
        while i < CELLS
            invariant
                i <= CELLS,
                self.wf(),
                self@ == old(self)@,
                self.classes() == old(self).classes(),
                self.components.slots() == old(self).components.slots(),
                out@.len() == i,
                forall|j: int| 0 <= j < i ==> #[trigger] out@[j] == old(self).classes().0[j],
            decreases CELLS - i,
        {
            proof {
                self.lemma_slot(i as int);
            }
            let ghost pre = self.components;
            let root = self.components.find(&i);
            proof {
                lemma_identity_slots_kept(&pre, &self.components);
            }
            out.push(root);
            i = i + 1;
        }
        out
    }

    /// A well-formed game holds a well-formed position.
    pub proof fn lemma_wf_position(&self)
        requires
            self.wf(),
        ensures
            position_ok(self.cells(), self.player(), self.scores(), self.pool()),
            self.repeats() <= 3,
            self.state() == GameState::CatchMarble <==> self.options().len() > 0,
            forall|k: int|
                0 <= k < self.options().len() ==> valid_option(self.cells(), #[trigger] self.options()[k]),
    {
    }

    pub fn get_game_state(&self) -> (r: GameState)
        ensures
            r == self.state(),
    {
        self.game_state
    }

    pub fn get_current_player(&self) -> (r: Player)
        ensures
            r == self.player(),
    {
        self.current_player
    }

    pub fn get_board(&self) -> (r: Board)
        ensures
            r@ == self.cells(),
            r.kind == self.kind(),
    {
        self.board
    }

    /// The marbles `player` has captured.
    pub fn get_score(&self, player: Player) -> (r: MarbleCount)
        requires
            self.wf(),
            player != Player::Tie,
        ensures
            r == self.scores()[player_index(player)],
    {
        self.players_score[player.index()]
    }

    /// The marbles left in the pool.
    pub fn get_pool(&self) -> (r: MarbleCount)
        ensures
            r == self.pool(),
    {
        self.total_marble
    }

    /// The jumps offered to the player to move.
    pub fn get_options(&self) -> (r: Vec<CatchableMove>)
        ensures
            r@ == self.options(),
    {
        copy_moves(&self.catch_options)
    }

    /// How many jumps since the last ring removal repeated a recorded board.
    pub fn get_repeat_count(&self) -> (r: usize)
        ensures
            r == self.repeats(),
    {
        self.repeat_count
    }

    /// Whether `mv` is a jump the board allows: its start holds a marble and
    /// it is one of the jumps from there.
    pub fn is_valid_option(&self, mv: CatchableMove) -> (r: bool)
        ensures
            r == valid_option(self.cells(), mv),
    {
        let start = mv.start_coord;
        if start.x >= GRID || start.y >= GRID {
            return false;
        }
        let ring = self.board.at(start);
        if !matches!(ring, Ring::Occupied(_)) {
            return false;
        }
        assert(cell(self.cells(), start) is Occupied);
        let list = self.list_catchable(start);
        let mut i: usize = 0;
        while i < list.len()
            invariant
                i <= list@.len(),
                start == mv.start_coord,
                in_grid(start),
                cell(self.cells(), start) is Occupied,
                list@ == catchable(self.cells(), start),
                forall|j: int| 0 <= j < i ==> list@[j] != mv,
            decreases list@.len() - i,
        {
            if list[i] == mv {
                proof {
                    assert(list@[i as int] == mv);
                    assert(list@.contains(mv));
                }
                return true;
            }
            i = i + 1;
        }
        proof {
            if list@.contains(mv) {
                let w = choose|w: int| 0 <= w < list@.len() && list@[w] == mv;
                assert(list@[w] != mv);
            }
        }
        false
    }

    /// Takes up a match where it stood: what it waits for, the jumps
    /// offered, and the boards recorded since the last ring removal with
    /// their repetition count. The board and the connectivity stay.
    pub fn resume_play(&mut self, state: GameState, options: Vec<CatchableMove>, boards: Vec<Board>, repeat_count: usize)
        requires
            old(self).wf(),
            repeat_count <= 3,
            (state == GameState::CatchMarble) == (options@.len() > 0),
            forall|k: int| 0 <= k < options@.len() ==> valid_option(old(self).cells(), #[trigger] options@[k]),
        ensures
            final(self).wf(),
            final(self)@ == (GameView {
                state,
                options: options@,
                history: boards@.map_values(|b: Board| b@),
                repeats: repeat_count as int,
                ..old(self)@
            }),
            final(self).classes() == old(self).classes(),
    {
        self.game_state = state;
        self.catch_options = options;
        self.board_replace_history = boards;
        self.repeat_count = repeat_count;
        proof {
            assert(old(self).uf_ok());
            assert(self.components == old(self).components);
            lemma_identity_slots_kept(&old(self).components, &self.components);
            assert(self.uf_ok());
            assert(position_ok(self.cells(), self.current_player, self.scores(), self.total_marble));
            assert forall|k: int| 0 <= k < self.catch_options@.len() implies valid_option(
                self.cells(),
                #[trigger] self.catch_options@[k],
            ) by {}
        }
    }

    /// The boards recorded since the last ring removal.
    pub fn get_recorded_boards(&self) -> (r: Vec<Board>)
        ensures
            r@.map_values(|b: Board| b@) == self.history(),
    {
        let mut out: Vec<Board> = Vec::with_capacity(self.board_replace_history.len());
        let mut i: usize = 0;
        while i < self.board_replace_history.len()
            invariant
                i <= self.board_replace_history@.len(),
                out@ == self.board_replace_history@.subrange(0, i as int),
            decreases self.board_replace_history@.len() - i,
        {
            out.push(self.board_replace_history[i]);
            proof {
                assert(self.board_replace_history@.subrange(0, i + 1 as int) =~= self.board_replace_history@.subrange(0, i as int).push(self.board_replace_history@[i as int]));
            }
            i = i + 1;
        }
        proof {
            assert(self.board_replace_history@.subrange(0, i as int) =~= self.board_replace_history@);
        }
        out
    }

    /// How many boards were recorded since the last ring removal.
    pub fn get_history_len(&self) -> (r: usize)
        ensures
            r == self.history().len(),
    {
        self.board_replace_history.len()
    }
}

/// The number of marbles of `marble` on the board.
pub fn count_marbles(board: &Board, marble: Marble) -> (r: usize)
    ensures
        r == on_board(board@, marble),
{
    let mut n: usize = 0;
    let mut i: usize = 0;
    while i < CELLS
        invariant
            i <= CELLS,
            board@.len() == CELLS,
            n == count_upto(board@, marble, i as int),
            n <= i,
        decreases CELLS - i,
    {
        if board.data[i] == Ring::Occupied(marble) {
            n = n + 1;
        }
        i = i + 1;
    }
    n
}

/// Whether a position can be played from: the outside cell holds no ring,
/// an actual player is to move, and no marble is missing or extra.
pub fn position_is_ok(board: &Board, player: Player, scores: &[MarbleCount; 2], pool: &MarbleCount) -> (r: bool)
    ensures
        r == position_ok(board@, player, scores@, *pool),
{
    if player == Player::Tie || board.data[OUTSIDE].is_present() {
        return false;
    }
    let ghost ok = position_ok(board@, player, scores@, *pool);
    let colours: [Marble; 3] = [Marble::White, Marble::Gray, Marble::Black];
    let supplies: [u128; 3] = [6, 8, 10];
    let mut k: usize = 0;
    while k < 3
        invariant
            k <= 3,
            colours@ == seq![Marble::White, Marble::Gray, Marble::Black],
            supplies@ == seq![6u128, 8, 10],
            scores@.len() == 2,
            forall|j: int| 0 <= j < k ==> #[trigger] count_of(*pool, colours@[j]) + on_board(board@, colours@[j])
                + count_of(scores@[0], colours@[j]) + count_of(scores@[1], colours@[j]) == supply_of(colours@[j]),
        decreases 3 - k,
    {
        let m = colours[k];
        let total = pool.get(m) as u128 + count_marbles(board, m) as u128 + scores[0].get(m) as u128
            + scores[1].get(m) as u128;
        if total != supplies[k] {
            return false;
        }
        k = k + 1;
    }
    proof {
        assert forall|m: Marble| #![trigger count_of(*pool, m)]
            count_of(*pool, m) + on_board(board@, m) + count_of(scores@[0], m) + count_of(scores@[1], m) == supply_of(m) by {
            match m {
                Marble::White => assert(colours@[0] == m),
                Marble::Gray => assert(colours@[1] == m),
                Marble::Black => assert(colours@[2] == m),
            }
        }
    }
    true
}

} // verus!
