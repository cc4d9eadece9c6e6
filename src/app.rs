use vstd::prelude::*;

use crate::board::{Board, BoardKind, Marble, Ring};
use crate::coordinate::Coordinate;
use crate::error::ZertzError;
use crate::connectivity::{components_of, Classes};
use crate::game::{
    catch_spec, fresh_game, valid_option, check_spec, copy_moves, position_is_ok, position_ok, put_spec, Game, GameView,
};
use crate::rules::{
    all_catchable, count_of, on_board, supply_of, CatchableMove, GameState, MarbleCount, Player,
};

verus! {

/// A request from the player: a placement, or a jump.
pub struct GameInputData {
    pub put_coord: Option<Coordinate>,
    pub remove_coord: Option<Coordinate>,
    pub marble: Option<Marble>,
    pub catch_data: Option<CatchableMove>,
}

impl GameInputData {
    /// A request to place `marble` at `put_coord` and remove the ring at
    /// `remove_coord`.
    pub fn put_marble_data(put_coord: Coordinate, remove_coord: Coordinate, marble: Marble) -> (r: Self)
        ensures
            r.put_coord == Some(put_coord),
            r.remove_coord == Some(remove_coord),
            r.marble == Some(marble),
            r.catch_data is None,
    {
        GameInputData {
            put_coord: Some(put_coord),
            remove_coord: Some(remove_coord),
            marble: Some(marble),
            catch_data: None,
        }
    }

    /// A request to make the jump `catch_data`.
    pub fn catch_marble_data(catch_data: CatchableMove) -> (r: Self)
        ensures
            r.put_coord is None,
            r.remove_coord is None,
            r.marble is None,
            r.catch_data == Some(catch_data),
    {
        GameInputData { put_coord: None, remove_coord: None, marble: None, catch_data: Some(catch_data) }
    }
}

/// The jumps the player to move may choose from.
pub struct GameOutputData {
    pub movable_list: Vec<CatchableMove>,
}

/// A recorded position: what a rewind puts back.
#[derive(Clone, Copy)]
pub struct History {
    pub board: Board,
    pub current_player: Player,
    pub players_score: [MarbleCount; 2],
    pub total_marble: MarbleCount,
}

/// The position recorded from a game.
pub open spec fn snapshot_of(v: GameView, h: History) -> bool {
    &&& h.board@ == v.cells
    &&& h.board.kind == v.kind
    &&& h.current_player == v.player
    &&& h.players_score@ == v.scores
    &&& h.total_marble == v.pool
}

/// A recorded position that can be put back into a game on a `kind` board.
pub open spec fn snapshot_ok(h: History, kind: BoardKind) -> bool {
    position_ok(h.board@, h.current_player, h.players_score@, h.total_marble) && h.board.kind == kind
}

/// The game with a recorded position put back.
pub open spec fn restored(v: GameView, h: History) -> GameView {
    GameView {
        cells: h.board@,
        player: h.current_player,
        scores: h.players_score@,
        pool: h.total_marble,
        state: GameState::CheckIsCatchable,
        options: Seq::empty(),
        ..v
    }
}

/// The placement a request asks for, if it is one.
pub open spec fn put_request(data: Option<GameInputData>) -> Option<(Coordinate, Coordinate, Marble)> {
    match data {
        Some(d) => match (d.put_coord, d.remove_coord, d.marble) {
            (Some(p), Some(r), Some(m)) => Some((p, r, m)),
            _ => None,
        },
        None => None,
    }
}

/// The jump a request asks for, if it is one.
pub open spec fn catch_request(data: Option<GameInputData>) -> Option<CatchableMove> {
    match data {
        Some(d) => d.catch_data,
        None => None,
    }
}

/// Where play stands beyond the position: what the game waits for, the
/// jumps offered, and the boards recorded since the last ring removal with
/// their repetition count.
pub struct PlayState {
    pub state: GameState,
    pub options: Vec<CatchableMove>,
    pub repeat_boards: Vec<Board>,
    pub repeat_count: usize,
}

/// The play state recorded from a game.
pub open spec fn play_of(v: GameView, p: PlayState) -> bool {
    &&& p.state == v.state
    &&& p.options@ == v.options
    &&& p.repeat_boards@.map_values(|b: Board| b@) == v.history
    &&& p.repeat_count == v.repeats
}

/// A play state that can be taken up on the board `b`: the count is at
/// most three, jumps are offered exactly when one is awaited, and each of
/// them can be made on `b`.
pub open spec fn play_ok(b: Seq<Ring>, p: PlayState) -> bool {
    &&& p.repeat_count <= 3
    &&& (p.state == GameState::CatchMarble) == (p.options@.len() > 0)
    &&& forall|k: int| 0 <= k < p.options@.len() ==> valid_option(b, #[trigger] p.options@[k])
}

/// A match with its record of positions, for taking moves back.
pub struct App {
    game: Game,
    game_history: Vec<History>,
    prev_game_history: Option<History>,
    output_data: Option<GameOutputData>,
}

impl App {
    pub closed spec fn game_view(&self) -> GameView {
        self.game@
    }

    /// The game being played.
    pub closed spec fn game_of(&self) -> Game {
        self.game
    }

    /// The classes of the game's connectivity structure.
    pub closed spec fn game_classes(&self) -> Classes {
        self.game.classes()
    }

    /// The positions recorded after each move, oldest first.
    pub closed spec fn snapshots(&self) -> Seq<History> {
        self.game_history@
    }

    /// The position a rewind went back to, until the next move.
    pub closed spec fn previous(&self) -> Option<History> {
        self.prev_game_history
    }

    /// The jumps last offered, if any.
    pub closed spec fn output(&self) -> Option<Seq<CatchableMove>> {
        match self.output_data {
            Some(o) => Some(o.movable_list@),
            None => None,
        }
    }

    pub closed spec fn wf(&self) -> bool {
        &&& self.game.wf()
        &&& forall|i: int|
            0 <= i < self.game_history@.len() ==> snapshot_ok(
                #[trigger] self.game_history@[i],
                self.game@.kind,
            )
        &&& (self.prev_game_history matches Some(h) ==> snapshot_ok(h, self.game@.kind))
    }

    /// What holds of the game of every well-formed match: a playable
    /// position, and marbles conserved.
    pub proof fn lemma_wf(&self)
        requires
            self.wf(),
        ensures
            self.game_of().wf(),
            self.game_of()@ == self.game_view(),
            position_ok(self.game_view().cells, self.game_view().player, self.game_view().scores, self.game_view().pool),
            forall|m: Marble| #![trigger count_of(self.game_view().pool, m)]
                count_of(self.game_view().pool, m) + on_board(self.game_view().cells, m) + count_of(
                    self.game_view().scores[0],
                    m,
                ) + count_of(self.game_view().scores[1], m) == supply_of(m),
            forall|i: int| 0 <= i < self.snapshots().len() ==> snapshot_ok(#[trigger] self.snapshots()[i], self.game_view().kind),
    {
        self.game.lemma_wf_position();
    }

    /// A new match on a board of `kind`, with nothing recorded.
    pub fn new(kind: BoardKind) -> (r: Self)
        ensures
            r.wf(),
            fresh_game(kind, r.game_view()),
            r.game_classes() == components_of(r.game_view().cells),
            r.snapshots().len() == 0,
            r.previous() is None,
            r.output() is None,
    {
        App {
            game: Game::new(kind),
            game_history: Vec::with_capacity(100),
            prev_game_history: None,
            output_data: None,
        }
    }

    fn record(&self) -> (h: History)
        requires
            self.game.wf(),
        ensures
            snapshot_of(self.game@, h),
            snapshot_ok(h, self.game@.kind),
    {
        let board = self.game.get_board();
        let current_player = self.game.get_current_player();
        let first = self.game.get_score(Player::Alice);
        let second = self.game.get_score(Player::Bob);
        let h = History {
            board,
            current_player,
            players_score: [first, second],
            total_marble: self.game.get_pool(),
        };
        proof {
            self.game.lemma_wf_position();
            assert(h.players_score@ =~= self.game@.scores);
        }
        h
    }

    /// Handles one request, as the game's state calls for: the capture
    /// check (the request is ignored), a placement, or a jump. A move that
    /// went through is recorded. In a finished game nothing happens.
    pub fn play(&mut self, data: Option<GameInputData>) -> (r: Result<(), ZertzError>)
        requires
            old(self).wf(),
        ensures
            final(self).wf(),
            match old(self).game_view().state {
                GameState::CheckIsCatchable => {
                    &&& r is Ok
                    &&& final(self).game_view() == check_spec(old(self).game_view()).0
                    &&& final(self).output() == Some(all_catchable(old(self).game_view().cells))
                    &&& final(self).snapshots() == old(self).snapshots()
                    &&& final(self).previous() == old(self).previous()
                },
                GameState::PutMarble => match put_request(data) {
                    None => {
                        &&& r == Err::<(), ZertzError>(ZertzError::InvalidInputData)
                        &&& final(self).game_view() == old(self).game_view()
                        &&& final(self).snapshots() == old(self).snapshots()
                        &&& final(self).previous() == old(self).previous()
                    },
                    Some((p, rm, m)) => {
                        &&& (final(self).game_view(), r) == put_spec(old(self).game_view(), p, rm, m)
                        &&& r is Ok ==> final(self).snapshots().len() == old(self).snapshots().len() + 1
                            && final(self).snapshots().drop_last() == old(self).snapshots()
                            && snapshot_of(final(self).game_view(), final(self).snapshots().last())
                            && final(self).previous() is None && final(self).output() is None
                        &&& r is Err ==> final(self).snapshots() == old(self).snapshots()
                            && final(self).previous() == old(self).previous()
                    },
                },
                GameState::CatchMarble => match catch_request(data) {
                    None => {
                        &&& r == Err::<(), ZertzError>(ZertzError::InvalidInputData)
                        &&& final(self).game_view() == old(self).game_view()
                        &&& final(self).snapshots() == old(self).snapshots()
                        &&& final(self).previous() == old(self).previous()
                    },
                    Some(mv) => {
                        let (v2, res) = catch_spec(old(self).game_view(), mv);
                        &&& final(self).game_view() == v2
                        &&& (r is Ok <==> res is Ok)
                        &&& (res matches Err(e) ==> r == Err::<(), ZertzError>(e))
                        &&& r is Ok ==> final(self).snapshots().len() == old(self).snapshots().len() + 1
                            && final(self).snapshots().drop_last() == old(self).snapshots()
                            && snapshot_of(final(self).game_view(), final(self).snapshots().last())
                            && final(self).previous() is None && final(self).output() == match res {
                            Ok(Some(l)) => Some(l),
                            _ => None,
                        }
                        &&& r is Err ==> final(self).snapshots() == old(self).snapshots()
                            && final(self).previous() == old(self).previous()
                    },
                },
                GameState::GameEnd(_) => {
                    &&& r is Ok
                    &&& final(self).game_view() == old(self).game_view()
                    &&& final(self).snapshots() == old(self).snapshots()
                    &&& final(self).previous() == old(self).previous()
                },
            },
    {
        match self.game.get_game_state() {
            GameState::CheckIsCatchable => {
                let list = match self.game.check_catchable() {
                    Ok(l) => l,
                    Err(e) => return Err(e),
                };
                self.output_data = Some(GameOutputData { movable_list: list });
                Ok(())
            },
            GameState::PutMarble => {
                let (put_coord, remove_coord, marble) = match data {
                    Some(
                        GameInputData {
                            put_coord: Some(put_coord),
                            remove_coord: Some(remove_coord),
                            marble: Some(marble),
                            ..
                        },
                    ) => (put_coord, remove_coord, marble),
                    _ => return Err(ZertzError::InvalidInputData),
                };
                match self.game.put_marble(put_coord, remove_coord, marble) {
                    Ok(()) => {},
                    Err(e) => return Err(e),
                }
                let h = self.record();
                self.game_history.push(h);
                proof {
                    assert(self.game_history@.drop_last() =~= old(self).game_history@);
                }
                self.prev_game_history = None;
                self.output_data = None;
                Ok(())
            },
            GameState::CatchMarble => {
                let catch_data = match data {
                    Some(GameInputData { catch_data: Some(catch_data), .. }) => catch_data,
                    _ => return Err(ZertzError::InvalidInputData),
                };
                let movable = match self.game.catch_marble(catch_data) {
                    Ok(m) => m,
                    Err(e) => return Err(e),
                };
                let h = self.record();
                self.game_history.push(h);
                proof {
                    assert(self.game_history@.drop_last() =~= old(self).game_history@);
                }
                self.prev_game_history = None;
                self.output_data = match movable {
                    Some(list) => Some(GameOutputData { movable_list: list }),
                    None => None,
                };
                Ok(())
            },
            GameState::GameEnd(_) => Ok(()),
        }
    }
}

impl App {
    fn put_back(&mut self, h: History)
        requires
            old(self).wf(),
            snapshot_ok(h, old(self).game@.kind),
        ensures
            final(self).wf(),
            final(self).game_view() == restored(old(self).game_view(), h),
            final(self).game_classes() == components_of(h.board@),
            final(self).game_history == old(self).game_history,
            final(self).prev_game_history == old(self).prev_game_history,
            final(self).output_data == old(self).output_data,
    {
        self.game.restore(h.board, h.current_player, h.players_score, h.total_marble);
    }

    /// Goes back one move: to the position a rewind already went back to,
    /// else to the last recorded one, which leaves the record. Captures
    /// are looked for next.
    pub fn rewind(&mut self)
        requires
            old(self).wf(),
        ensures
            final(self).wf(),
            final(self).game_classes() == components_of(final(self).game_view().cells),
            match old(self).previous() {
                Some(h) => {
                    &&& final(self).game_view() == restored(old(self).game_view(), h)
                    &&& final(self).snapshots() == old(self).snapshots()
                    &&& final(self).previous() == old(self).previous()
                },
                None => if old(self).snapshots().len() > 0 {
                    let h = old(self).snapshots().last();
                    &&& final(self).game_view() == restored(old(self).game_view(), h)
                    &&& final(self).snapshots() == old(self).snapshots().drop_last()
                    &&& final(self).previous() == Some(h)
                } else {
                    &&& final(self).game_view() == (GameView {
                        state: GameState::CheckIsCatchable,
                        options: Seq::empty(),
                        ..old(self).game_view()
                    })
                    &&& final(self).snapshots() == old(self).snapshots()
                    &&& final(self).previous() == old(self).previous()
                },
            },
    {
        if let Some(h) = self.prev_game_history {
            self.put_back(h);
        } else {
            self.force_rewind();
        }
    }

    /// Drops the last recorded move and goes back to the position it
    /// recorded. Captures are looked for next.
    pub fn force_rewind(&mut self)
        requires
            old(self).wf(),
        ensures
            final(self).wf(),
            final(self).game_classes() == components_of(final(self).game_view().cells),
            if old(self).snapshots().len() > 0 {
                let h = old(self).snapshots().last();
                &&& final(self).game_view() == restored(old(self).game_view(), h)
                &&& final(self).snapshots() == old(self).snapshots().drop_last()
                &&& final(self).previous() == Some(h)
            } else {
                &&& final(self).game_view() == (GameView {
                    state: GameState::CheckIsCatchable,
                    options: Seq::empty(),
                    ..old(self).game_view()
                })
                &&& final(self).snapshots() == old(self).snapshots()
                &&& final(self).previous() == old(self).previous()
            },
    {
        match self.game_history.pop() {
            Some(h) => {
                proof {
                    assert(h == old(self).game_history@[old(self).game_history@.len() - 1]);
                }
                self.put_back(h);
                self.prev_game_history = Some(h);
            },
            None => {
                self.game.recheck();
            },
        }
    }

    /// The jumps last offered, if any.
    pub fn get_output(&self) -> (r: Option<GameOutputData>)
        ensures
            match r {
                Some(o) => self.output() == Some(o.movable_list@),
                None => self.output() is None,
            },
    {
        match &self.output_data {
            Some(o) => Some(GameOutputData { movable_list: copy_moves(&o.movable_list) }),
            None => None,
        }
    }

    pub fn get_game_state(&self) -> (r: GameState)
        ensures
            r == self.game_view().state,
    {
        self.game.get_game_state()
    }

    pub fn get_current_board(&self) -> (r: Board)
        ensures
            r@ == self.game_view().cells,
            r.kind == self.game_view().kind,
    {
        self.game.get_board()
    }

    /// The game being played.
    pub fn get_game(&self) -> (r: &Game)
        ensures
            r@ == self.game_view(),
            *r == self.game_of(),
    {
        &self.game
    }
}

/// A copy of a record of positions.
fn copy_record(v: &Vec<History>) -> (r: Vec<History>)
    ensures
        r@ == v@,
{
    let mut out: Vec<History> = Vec::with_capacity(v.len());
    let mut i: usize = 0;
    while i < v.len()
        invariant
            i <= v@.len(),
            out@ == v@.subrange(0, i as int),
        decreases v@.len() - i,
    {
        out.push(v[i]);
        proof {
            assert(v@.subrange(0, i + 1 as int) =~= v@.subrange(0, i as int).push(v@[i as int]));
        }
        i = i + 1;
    }
    proof {
        assert(v@.subrange(0, v@.len() as int) =~= v@);
    }
    out
}

impl App {
    /// The position now, the record of positions, and where play stands,
    /// for saving.
    pub fn saved(&self) -> (r: (History, Vec<History>, PlayState))
        requires
            self.wf(),
        ensures
            snapshot_of(self.game_view(), r.0),
            r.1@ == self.snapshots(),
            play_of(self.game_view(), r.2),
    {
        let play = PlayState {
            state: self.game.get_game_state(),
            options: self.game.get_options(),
            repeat_boards: self.game.get_recorded_boards(),
            repeat_count: self.game.get_repeat_count(),
        };
        (self.record(), copy_record(&self.game_history), play)
    }

    /// A match taken up again from a saved position, record of positions
    /// and play state; the connectivity is rebuilt. Refused when a position
    /// cannot be played from or lies on another board, when the repetition
    /// count passes three, or when the offered jumps do not fit the state
    /// or the board.
    pub fn from_saved(current: History, record: Vec<History>, play: PlayState) -> (r: Result<App, ZertzError>)
        ensures
            r is Ok <==> {
                &&& snapshot_ok(current, current.board.kind)
                &&& forall|i: int|
                    0 <= i < record@.len() ==> snapshot_ok(#[trigger] record@[i], current.board.kind)
                &&& play_ok(current.board@, play)
            },
            r is Err ==> r == Err::<App, ZertzError>(ZertzError::InvalidPosition),
            r matches Ok(a) ==> {
                &&& a.wf()
                &&& a.game_view() == (GameView {
                    cells: current.board@,
                    kind: current.board.kind,
                    player: current.current_player,
                    scores: current.players_score@,
                    pool: current.total_marble,
                    state: play.state,
                    history: play.repeat_boards@.map_values(|b: Board| b@),
                    repeats: play.repeat_count as int,
                    options: play.options@,
                })
                &&& a.game_classes() == components_of(current.board@)
                &&& a.snapshots() == record@
                &&& a.previous() is None
                &&& a.output() is None
            },
    {
        let kind = current.board.kind;
        if !position_is_ok(&current.board, current.current_player, &current.players_score, &current.total_marble) {
            return Err(ZertzError::InvalidPosition);
        }
        let mut i: usize = 0;
        while i < record.len()
            invariant
                i <= record@.len(),
                kind == current.board.kind,
                forall|j: int| 0 <= j < i ==> snapshot_ok(#[trigger] record@[j], kind),
            decreases record@.len() - i,
        {
            let h = record[i];
            if h.board.kind != kind || !position_is_ok(&h.board, h.current_player, &h.players_score, &h.total_marble) {
                return Err(ZertzError::InvalidPosition);
            }
            i = i + 1;
        }
        let mut game = Game::new(kind);
        game.restore(current.board, current.current_player, current.players_score, current.total_marble);
        if play.repeat_count > 3 || (play.state == GameState::CatchMarble) != (play.options.len() > 0) {
            return Err(ZertzError::InvalidPosition);
        }
        let mut k: usize = 0;
        while k < play.options.len()
            invariant
                k <= play.options@.len(),
                game.wf(),
                game@.cells == current.board@,
                forall|j: int| 0 <= j < k ==> valid_option(current.board@, #[trigger] play.options@[j]),
            decreases play.options@.len() - k,
        {
            if !game.is_valid_option(play.options[k]) {
                return Err(ZertzError::InvalidPosition);
            }
            k = k + 1;
        }
        let PlayState { state, options, repeat_boards, repeat_count } = play;
        game.resume_play(state, options, repeat_boards, repeat_count);
        Ok(App { game, game_history: record, prev_game_history: None, output_data: None })
    }
}

} // verus!
