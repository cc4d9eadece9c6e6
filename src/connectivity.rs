use vstd::prelude::*;

use crate::board::{cell, lemma_coord_index, lemma_index_coord, Ring};
use crate::coordinate::{coord_of, in_grid, index_of, Coordinate, CELLS};
use crate::union_find::{link, merged};

verus! {

/// The cell index of the coordinate that stands for the outside, `(8, 0)`.
pub open spec fn outside_index() -> int {
    8
}

/// A partition of the cells as the disjoint-set forest holds it: the root of
/// each cell's class, and the rank of each cell.
pub type Classes = (Seq<int>, Seq<usize>);

/// The classes after the union of cells `a` and `b`.
pub open spec fn join(st: Classes, a: int, b: int) -> Classes {
    link(st.0, st.1, st.0[a], st.0[b])
}

/// Every cell in a class of its own, every rank zero.
pub open spec fn singleton_classes() -> Classes {
    (Seq::new(CELLS as nat, |i: int| i), Seq::new(CELLS as nat, |i: int| 0usize))
}

/// The union the sweep makes for the edge from cell `k` to its neighbour
/// `n`: a neighbour without a ring joins the outside; two rings join each
/// other, vacant or not. A class of rings is then a group of rings cut off
/// from the rest, and it is sealed when all its rings hold marbles. Joining
/// only rings of one kind would make every group of marbles a class of its
/// own, and each would count as sealed.
pub open spec fn edge_step(b: Seq<Ring>, st: Classes, k: int, n: Coordinate) -> Classes {
    if !in_grid(n) {
        st
    } else if cell(b, n) is Empty {
        join(st, index_of(n), outside_index())
    } else if b[k] is Empty {
        st
    } else {
        join(st, k, index_of(n))
    }
}

/// The neighbours to the right, above, and above-right of a coordinate.
pub open spec fn right_of(c: Coordinate) -> Coordinate {
    Coordinate { x: (c.x + 1) as usize, y: c.y }
}

pub open spec fn above(c: Coordinate) -> Coordinate {
    Coordinate { x: c.x, y: (c.y + 1) as usize }
}

pub open spec fn above_right(c: Coordinate) -> Coordinate {
    Coordinate { x: (c.x + 1) as usize, y: (c.y + 1) as usize }
}

/// The unions the sweep makes at cell `k`: the cell joins the outside when it
/// has no ring, then each of its right, up and up-right edges is handled.
pub open spec fn cell_step(b: Seq<Ring>, st: Classes, k: int) -> Classes {
    let c = coord_of(k);
    let st1 = if b[k] is Empty {
        join(st, k, outside_index())
    } else {
        st
    };
    let st2 = edge_step(b, st1, k, right_of(c));
    let st3 = edge_step(b, st2, k, above(c));
    edge_step(b, st3, k, above_right(c))
}

/// The classes after the sweep has handled the first `k` cells.
pub open spec fn sweep_upto(b: Seq<Ring>, k: int) -> Classes
    decreases k,
{
    if k <= 0 {
        singleton_classes()
    } else {
        cell_step(b, sweep_upto(b, k - 1), k - 1)
    }
}

/// The classes of a board: the result of the full sweep.
pub open spec fn components_of(b: Seq<Ring>) -> Classes {
    sweep_upto(b, CELLS as int)
}

/// Cell `j` is the right, upper or upper-right neighbour of cell `i`.
pub open spec fn linked(i: int, j: int) -> bool {
    0 <= i < CELLS && 0 <= j < CELLS && {
        let c = coord_of(i);
        coord_of(j) == right_of(c) || coord_of(j) == above(c) || coord_of(j) == above_right(c)
    }
}

/// A set of rings with no ring next to it outside the set.
pub open spec fn closed(b: Seq<Ring>, s: Set<int>) -> bool {
    &&& forall|i: int| #[trigger] s.contains(i) ==> 0 <= i < CELLS && !(b[i] is Empty)
    &&& forall|i: int, j: int|
        #[trigger] linked(i, j) && !(b[i] is Empty) && !(b[j] is Empty) ==> (s.contains(i)
            <==> s.contains(j))
}

/// No class has members both inside and outside `s`.
pub open spec fn respects(rep: Seq<int>, s: Set<int>) -> bool {
    forall|i: int, j: int|
        0 <= i < rep.len() && 0 <= j < rep.len() && #[trigger] rep[i] == #[trigger] rep[j] ==> (
        s.contains(i) <==> s.contains(j))
}

/// The set of cells that hold a ring.
pub open spec fn rings_of(b: Seq<Ring>) -> Set<int> {
    Set::new(|i: int| 0 <= i < CELLS && !(b[i] is Empty))
}

proof fn lemma_join_respects(st: Classes, a: int, b: int, s: Set<int>)
    requires
        respects(st.0, s),
        0 <= a < st.0.len(),
        0 <= b < st.0.len(),
        s.contains(a) <==> s.contains(b),
    ensures
        respects(join(st, a, b).0, s),
        join(st, a, b).0.len() == st.0.len(),
{
    let rep = st.0;
    let ra = rep[a];
    let rb = rep[b];
    if ra != rb {
        let root = if st.1[ra] < st.1[rb] {
            rb
        } else {
            ra
        };
        let r2 = merged(rep, ra, rb, root);
        assert(join(st, a, b).0 == r2);
        assert forall|i: int, j: int|
            0 <= i < r2.len() && 0 <= j < r2.len() && #[trigger] r2[i] == #[trigger] r2[j] implies (
            s.contains(i) <==> s.contains(j)) by {
            if rep[i] == ra || rep[i] == rb {
                assert(rep[j] == ra || rep[j] == rb);
                assert(rep[i] == rep[a] || rep[i] == rep[b]);
            } else {
                assert(rep[i] == rep[j]);
            }
        }
    }
}

proof fn lemma_edge_respects(b: Seq<Ring>, st: Classes, k: int, n: Coordinate, s: Set<int>)
    requires
        b.len() == CELLS,
        st.0.len() == CELLS,
        0 <= k < CELLS,
        n == right_of(coord_of(k)) || n == above(coord_of(k)) || n == above_right(coord_of(k)),
        respects(st.0, s),
        closed(b, s),
        b[outside_index()] is Empty,
    ensures
        respects(edge_step(b, st, k, n).0, s),
        edge_step(b, st, k, n).0.len() == CELLS,
{
    if in_grid(n) {
        lemma_coord_index(n);
        lemma_index_coord(k);
        let j = index_of(n);
        if cell(b, n) is Empty {
            assert(!s.contains(j));
            assert(!s.contains(outside_index()));
            lemma_join_respects(st, j, outside_index(), s);
        } else if !(b[k] is Empty) {
            assert(linked(k, j));
            lemma_join_respects(st, k, j, s);
        }
    }
}

/// Every class of the sweep lies wholly inside or wholly outside a closed
/// set of rings.
pub proof fn lemma_sweep_respects(b: Seq<Ring>, k: int, s: Set<int>)
    requires
        b.len() == CELLS,
        0 <= k <= CELLS,
        closed(b, s),
        b[outside_index()] is Empty,
    ensures
        respects(sweep_upto(b, k).0, s),
        sweep_upto(b, k).0.len() == CELLS,
    decreases k,
{
    if k == 0 {
        let rep = sweep_upto(b, 0).0;
        assert forall|i: int, j: int|
            0 <= i < rep.len() && 0 <= j < rep.len() && #[trigger] rep[i] == #[trigger] rep[j] implies (
            s.contains(i) <==> s.contains(j)) by {}
    } else {
        lemma_sweep_respects(b, k - 1, s);
        let st = sweep_upto(b, k - 1);
        let c = coord_of(k - 1);
        let st1 = if b[k - 1] is Empty {
            join(st, k - 1, outside_index())
        } else {
            st
        };
        if b[k - 1] is Empty {
            assert(!s.contains(k - 1));
            assert(!s.contains(outside_index()));
            lemma_join_respects(st, k - 1, outside_index(), s);
        }
        lemma_edge_respects(b, st1, k - 1, right_of(c), s);
        let st2 = edge_step(b, st1, k - 1, right_of(c));
        lemma_edge_respects(b, st2, k - 1, above(c), s);
        let st3 = edge_step(b, st2, k - 1, above(c));
        lemma_edge_respects(b, st3, k - 1, above_right(c), s);
    }
}

/// The set of all rings is closed.
pub proof fn lemma_rings_closed(b: Seq<Ring>)
    requires
        b.len() == CELLS,
    ensures
        closed(b, rings_of(b)),
{
}

} // verus!
