use vstd::prelude::*;

use crate::board::{Marble, Ring};
use crate::connectivity::{closed, components_of, lemma_sweep_respects, outside_index, Classes};
use std::cmp::Ordering;

use crate::board::{lemma_coord_index, lemma_index_coord};
use crate::coordinate::{coord_of, coord_order, in_grid, index_of, Coordinate, CELLS};
use crate::error::ZertzError;
use crate::game::{
    catch_spec, check_spec, credit, jump_facts, jumps_from, lemma_catchable_facts,
    lemma_conserved_bounds, position_ok, put_spec, sealed_off, valid_option, Game, GameView,
};
use crate::rules::{
    adjust, lemma_adjust, all_catchable, count_of, count_upto, lemma_count_bounds, on_board, player_index,
    catchable, removable, removable_rings, removable_upto, supply_of, CatchableMove, GameState,
};

verus! {

/// Marbles are conserved: in every well-formed game, and so after every
/// operation, for each colour the pool, the board and both players'
/// captures together hold the full set.
pub proof fn lemma_conservation(g: &Game, m: Marble)
    requires
        g.wf(),
    ensures
        count_of(g@.pool, m) + on_board(g@.cells, m) + count_of(g@.scores[0], m) + count_of(
            g@.scores[1],
            m,
        ) == supply_of(m),
{
    g.lemma_wf_position();
}

/// The removable rings are listed exactly: a coordinate is in the list if
/// and only if it is a vacant ring of the grid with two missing neighbours
/// next to each other, and the list is strictly increasing by row, then
/// column, so holds no coordinate twice.
pub proof fn lemma_removable_rings_exact(b: Seq<Ring>)
    requires
        b.len() == CELLS,
    ensures
        forall|c: Coordinate| #[trigger]
            removable_rings(b).contains(c) <==> (in_grid(c) && removable(b, c)),
        forall|j: int|
            0 <= j < removable_rings(b).len() - 1 ==> coord_order(
                #[trigger] removable_rings(b)[j],
                removable_rings(b)[j + 1],
            ) == Ordering::Less,
{
    lemma_removable_upto(b, CELLS as int);
    assert forall|c: Coordinate| #[trigger]
        removable_rings(b).contains(c) <==> (in_grid(c) && removable(b, c)) by {
        if in_grid(c) && removable(b, c) {
            lemma_coord_index(c);
        }
    }
    assert forall|j: int| 0 <= j < removable_rings(b).len() - 1 implies coord_order(
        #[trigger] removable_rings(b)[j],
        removable_rings(b)[j + 1],
    ) == Ordering::Less by {
        let r = removable_rings(b);
        lemma_coord_index(r[j]);
        lemma_coord_index(r[j + 1]);
        lemma_index_order(r[j], r[j + 1]);
    }
}

/// Row-major cell order is the coordinate order.
proof fn lemma_index_order(a: Coordinate, c: Coordinate)
    requires
        in_grid(a),
        in_grid(c),
        index_of(a) < index_of(c),
    ensures
        coord_order(a, c) == Ordering::Less,
{
    if a.y > c.y {
        assert(a.x + 9 * a.y >= 9 * c.y + 9) by (nonlinear_arith)
            requires
                a.y > c.y,
        ;
    }
}

proof fn lemma_removable_upto(b: Seq<Ring>, k: int)
    requires
        0 <= k <= CELLS,
    ensures
        forall|j: int| 0 <= j < removable_upto(b, k).len() ==> {
            let c = #[trigger] removable_upto(b, k)[j];
            in_grid(c) && index_of(c) < k && removable(b, c)
        },
        forall|j: int|
            0 <= j < removable_upto(b, k).len() - 1 ==> index_of(#[trigger] removable_upto(b, k)[j])
                < index_of(removable_upto(b, k)[j + 1]),
        forall|i: int| 0 <= i < k && removable(b, coord_of(i)) ==> removable_upto(b, k).contains(#[trigger] coord_of(i)),
    decreases k,
{
    if k > 0 {
        lemma_removable_upto(b, k - 1);
        lemma_index_coord(k - 1);
        let prev = removable_upto(b, k - 1);
        let cur = removable_upto(b, k);
        if removable(b, coord_of(k - 1)) {
            assert(cur == prev.push(coord_of(k - 1)));
            assert forall|i: int| 0 <= i < k && removable(b, coord_of(i)) implies cur.contains(#[trigger] coord_of(i)) by {
                if i == k - 1 {
                    assert(cur[prev.len() as int] == coord_of(i));
                } else {
                    let w = choose|w: int| 0 <= w < prev.len() && prev[w] == coord_of(i);
                    assert(cur[w] == coord_of(i));
                }
            }
        }
    }
}

/// Captures are compulsory: once the capture check found a jump, the game
/// waits for a jump and refuses every placement, unchanged; before the
/// check it refuses them too.
pub proof fn lemma_capture_is_mandatory(v: GameView, put: Coordinate, remove: Coordinate, m: Marble)
    requires
        v.state == GameState::CheckIsCatchable,
        all_catchable(v.cells).len() > 0,
    ensures
        check_spec(v).0.state == GameState::CatchMarble,
        check_spec(v).0.options == all_catchable(v.cells),
        put_spec(check_spec(v).0, put, remove, m) == (
            check_spec(v).0,
            Err::<(), ZertzError>(ZertzError::InvalidInputData),
        ),
        put_spec(v, put, remove, m) == (
            v,
            Err::<(), ZertzError>(ZertzError::InvalidInputData),
        ),
{
}

/// A sealed region is taken: when the board's connectivity is rebuilt, every
/// cell of a set of marbles with no ring next to it outside the set loses
/// its ring.
pub proof fn lemma_sealed_region_taken(b: Seq<Ring>, s: Set<int>)
    requires
        b.len() == CELLS,
        b[outside_index()] is Empty,
        closed(b, s),
        forall|i: int| #[trigger] s.contains(i) ==> b[i] is Occupied,
    ensures
        forall|i: int| #[trigger] s.contains(i) ==> sealed_off(b, components_of(b).0)[i] == Ring::Empty,
{
    lemma_sweep_respects(b, CELLS as int, s);
    let rep = components_of(b).0;
    assert forall|i: int| #[trigger] s.contains(i) implies sealed_off(b, rep)[i] == Ring::Empty by {
        assert forall|j: int| 0 <= j < CELLS && #[trigger] rep[j] == rep[i] implies b[j] is Occupied by {
            assert(s.contains(j));
        }
    }
}

/// A placement whose ring removal seals off a region takes it: every cell
/// of the region loses its ring, and the mover's captures grow, for each
/// colour, by the marbles that left the board.
pub proof fn lemma_placement_takes_sealed_region(
    v: GameView,
    put: Coordinate,
    remove: Coordinate,
    m: Marble,
    s: Set<int>,
)
    requires
        position_ok(v.cells, v.player, v.scores, v.pool),
        put_spec(v, put, remove, m).1 is Ok,
        removable_rings(v.cells.update(index_of(put), Ring::Occupied(m))).len() > 0,
        closed(
            v.cells.update(index_of(put), Ring::Occupied(m)).update(index_of(remove), Ring::Empty),
            s,
        ),
        forall|i: int| #[trigger]
            s.contains(i) ==> v.cells.update(index_of(put), Ring::Occupied(m)).update(
                index_of(remove),
                Ring::Empty,
            )[i] is Occupied,
    ensures
        forall|i: int| #[trigger] s.contains(i) ==> put_spec(v, put, remove, m).0.cells[i] == Ring::Empty,
        forall|c: Marble|
            #![trigger count_of(put_spec(v, put, remove, m).0.scores[player_index(v.player)], c)]
            count_of(put_spec(v, put, remove, m).0.scores[player_index(v.player)], c) == count_of(
                if count_of(v.pool, m) > 0 {
                    v.scores[player_index(v.player)]
                } else {
                    adjust(v.scores[player_index(v.player)], m, -1)
                },
                c,
            ) + on_board(
                v.cells.update(index_of(put), Ring::Occupied(m)).update(index_of(remove), Ring::Empty),
                c,
            ) - on_board(put_spec(v, put, remove, m).0.cells, c),
{
    let b1 = v.cells.update(index_of(put), Ring::Occupied(m));
    let b2 = b1.update(index_of(remove), Ring::Empty);
    lemma_coord_index(put);
    lemma_coord_index(remove);
    assert(b2[outside_index()] is Empty);
    lemma_sealed_region_taken(b2, s);
    let b3 = sealed_off(b2, components_of(b2).0);
    let pi = player_index(v.player);
    lemma_conserved_bounds(v.cells, v.pool, v.scores[0], v.scores[1]);
    let paid = if count_of(v.pool, m) > 0 {
        v.scores[pi]
    } else {
        adjust(v.scores[pi], m, -1)
    };
    assert forall|c: Marble| #![trigger count_of(put_spec(v, put, remove, m).0.scores[pi], c)]
        count_of(put_spec(v, put, remove, m).0.scores[pi], c) == count_of(paid, c) + on_board(b2, c)
            - on_board(put_spec(v, put, remove, m).0.cells, c) by {
        assert forall|i: int| 0 <= i < b2.len() implies #[trigger] b3[i] == b2[i] || b3[i] == Ring::Empty by {}
        lemma_count_taken(b2, b3, c, CELLS as int);
        lemma_count_bounds(b2, c, CELLS as int);
        lemma_count_bounds(b3, c, CELLS as int);
        if count_of(v.pool, m) == 0 {
            lemma_adjust(v.scores[pi], m, -1, c);
        }
        assert(0 <= count_of(paid, c) <= supply_of(c));
        assert(put_spec(v, put, remove, m).0.scores[pi] == credit(paid, b2, b3));
        assert(count_of(credit(paid, b2, b3), c) == count_of(paid, c) + on_board(b2, c) - on_board(b3, c));
    }
}

/// Taking rings off never adds a marble of any colour.
proof fn lemma_count_taken(before: Seq<Ring>, after: Seq<Ring>, c: Marble, k: int)
    requires
        0 <= k <= before.len(),
        after.len() == before.len(),
        forall|i: int| 0 <= i < before.len() ==> #[trigger] after[i] == before[i] || after[i] == Ring::Empty,
    ensures
        count_upto(after, c, k) <= count_upto(before, c, k),
    decreases k,
{
    if k > 0 {
        lemma_count_taken(before, after, c, k - 1);
    }
}

/// A jump never fails on its own account: every offered jump passes over a
/// marble, so in a well-formed game the engine's own fault cannot come out.
pub proof fn lemma_capture_never_fails(g: &Game, mv: CatchableMove)
    requires
        g.wf(),
    ensures
        catch_spec(g@, mv).1 != Err::<Option<Seq<CatchableMove>>, ZertzError>(
            ZertzError::FailedToCatchMarble,
        ),
{
    g.lemma_wf_position();
    if g@.state == GameState::CatchMarble && g@.options.contains(mv) {
        let w = choose|w: int| 0 <= w < g@.options.len() && g@.options[w] == mv;
        assert(valid_option(g@.cells, g@.options[w]));
        lemma_catchable_facts(g@.cells, mv.start_coord);
        let k = choose|k: int|
            0 <= k < catchable(g@.cells, mv.start_coord).len() && catchable(g@.cells, mv.start_coord)[k]
                == mv;
        assert(jumps_from(g@.cells, mv.start_coord, catchable(g@.cells, mv.start_coord)));
        assert(jump_facts(g@.cells, catchable(g@.cells, mv.start_coord)[k]));
    }
}

/// Rebuilding the connectivity twice from one board gives one partition:
/// the classes are a function of the board alone.
pub proof fn lemma_rebuild_idempotent(b: Seq<Ring>, first: Classes, second: Classes)
    requires
        first == components_of(b),
        second == components_of(b),
    ensures
        forall|i: int, j: int|
            0 <= i < CELLS && 0 <= j < CELLS ==> (first.0[i] == first.0[j] <==> second.0[i]
                == second.0[j]),
{
}

/// A ring removal clears the repetition record: after a placement that
/// removed a ring, no board is recorded and the repetition count is zero,
/// whatever they were before.
pub proof fn lemma_removal_resets_repetition(
    v: GameView,
    put: Coordinate,
    remove: Coordinate,
    m: Marble,
)
    requires
        put_spec(v, put, remove, m).1 is Ok,
        removable_rings(v.cells.update(index_of(put), Ring::Occupied(m))).len() > 0,
    ensures
        put_spec(v, put, remove, m).0.history.len() == 0,
        put_spec(v, put, remove, m).0.repeats == 0,
{
}

} // verus!
