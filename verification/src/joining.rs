//! Joining the end to the maze. The rooms of a grid lie in odd rows, so
//! where the height is even a row of walls is left between the last row
//! of rooms and the row of the end. The cell above the end is then carved
//! as well: the end hangs on the room two rows above it, and the maze
//! stays a tree.

use vstd::prelude::*;
use crate::carving::{
    joins_rooms,
    lemma_interior_neighbors,
    lemma_marks_keep_ranked,
    lemma_start_reaches_all,
    orderly,
    reachable,
    room,
    rooms_carved,
    with_marks,
};
use crate::census::{
    lemma_cell_above_end,
    lemma_marks_keep_count,
    open_cells,
    open_pairs,
    tree_count,
};
use crate::connectivity::{
    acyclic,
    adjacent,
    lemma_linked_opened,
    lemma_linked_step,
    lemma_ranked_acyclic,
    linked,
    opened,
    rankable,
    ranked,
};
use crate::direction::{lemma_direction_laws, Direction};
use crate::generator::{carved, interior, odd_place_in_row};
use crate::maze::{
    column_of,
    lemma_neighbor_in_grid,
    lemma_row_in_grid,
    row_of,
    MazeCellType,
    MazeView,
};

verus! {

/// The maze with the cell above its end carved, where that cell was a
/// wall.
pub open spec fn joined(m: MazeView) -> MazeView {
    let above = m.end - m.width;
    if m.kinds[above] == MazeCellType::Wall {
        MazeView { kinds: m.kinds.update(above, MazeCellType::Passage), ..m }
    } else {
        m
    }
}

/// The end is cut off: the cell above it is a wall between walls, not on
/// the edge of the grid, with a cell that is not a wall above it, and no
/// cell beside the end is a passage.
pub open spec fn end_apart(m: MazeView) -> bool {
    let above = m.end - m.width;
    &&& m.wf()
    &&& 0 <= m.end < m.len()
    &&& interior(m, above)
    &&& m.kinds[above] == MazeCellType::Wall
    &&& m.kinds[above - 1] == MazeCellType::Wall
    &&& m.kinds[above + 1] == MazeCellType::Wall
    &&& m.kinds[above - m.width] != MazeCellType::Wall
    &&& m.kinds[m.end] != MazeCellType::Wall
    &&& forall|x: Direction| (#[trigger] m.open_neighbor(m.end, x)) is None
}

/// The neighbour of `a` in direction `x` that is not a wall once the
/// cell above the end is carved: that cell has the cell above it and the
/// end, those two have that cell, and every other cell has the
/// neighbours it had.
pub open spec fn neighbor_after_join(m: MazeView, a: int, x: Direction) -> Option<int> {
    let above = m.end - m.width;
    if a == above {
        if x == Direction::North {
            Some(above - m.width)
        } else if x == Direction::South {
            Some(m.end)
        } else {
            None
        }
    } else if a == m.end && x == Direction::North {
        Some(above)
    } else if a == above - m.width && x == Direction::South {
        Some(above)
    } else {
        m.open_neighbor(a, x)
    }
}

/// See `neighbor_after_join`.
pub proof fn lemma_neighbor_after_join(m: MazeView, a: int, x: Direction)
    requires
        end_apart(m),
        0 <= a < m.len(),
        joined(m).kinds[a] != MazeCellType::Wall,
    ensures
        joined(m).open_neighbor(a, x) == neighbor_after_join(m, a, x),
        a != m.end - m.width && m.open_neighbor(a, x) is Some ==> m.open_neighbor(a, x)->0
            != m.end - m.width && m.open_neighbor(a, x)->0 != m.end && a != m.end,
{
    let w = m.width;
    let above = m.end - w;
    let n = joined(m);
    lemma_interior_neighbors(m, above);
    lemma_direction_laws(x);
    assert(n.kinds =~= m.kinds.update(above, MazeCellType::Passage));
    assert(m.open_neighbor(m.end, x) is None);
    if a != above && m.neighbor(a, x) is Some {
        let c = m.neighbor(a, x)->0;
        lemma_neighbor_in_grid(w, m.height, a, x);
        let back = x.spec_opposite();
        assert(m.neighbor(c, back) == Some(a));
        if c == above {
            assert(m.kinds[a] != MazeCellType::Wall);
        }
        if c == m.end && m.kinds[a] != MazeCellType::Wall {
            assert(m.open_neighbor(m.end, back) == Some(a));
        }
    }
}

/// Carving the cell above an end that is cut off keeps the cells ranked:
/// that cell ranks one above the cell above it, the end two above.
pub proof fn lemma_join_keeps_ranked(m: MazeView, depth: Seq<int>)
    requires
        end_apart(m),
        ranked(m, depth),
    ensures
        ranked(
            joined(m),
            depth.update(m.end - m.width, depth[m.end - 2 * m.width] + 1).update(
                m.end,
                depth[m.end - 2 * m.width] + 2,
            ),
        ),
{
    let w = m.width;
    let above = m.end - w;
    let over = m.end - 2 * w;
    let n = joined(m);
    let dp = depth.update(above, depth[over] + 1).update(m.end, depth[over] + 2);
    lemma_interior_neighbors(m, above);
    assert(over == above - w);
    assert(above != m.end && over != m.end && over != above);
    assert(dp.len() == n.len());
    assert(dp[above] == depth[over] + 1);
    assert(dp[m.end] == depth[over] + 2);
    assert(dp[over] == depth[over]);
    assert forall|a: int, x: Direction|
        0 <= a < n.len() && n.kinds[a] != MazeCellType::Wall && (#[trigger] n.open_neighbor(a, x))
            is Some implies dp[n.open_neighbor(a, x)->0] == dp[a] + 1 || dp[n.open_neighbor(
        a,
        x,
    )->0] == dp[a] - 1 by {
        lemma_neighbor_after_join(m, a, x);
        if a != above && a != m.end && !(a == over && x == Direction::South) {
            let b = m.open_neighbor(a, x)->0;
            assert(m.open_neighbor(a, x) is Some);
            lemma_neighbor_in_grid(w, m.height, a, x);
            assert(m.kinds[a] != MazeCellType::Wall);
            assert(depth[b] == depth[a] + 1 || depth[b] == depth[a] - 1);
            assert(dp[b] == depth[b]);
            assert(dp[a] == depth[a]);
        }
    }
    assert forall|a: int, x: Direction, y: Direction|
        0 <= a < n.len() && n.kinds[a] != MazeCellType::Wall && (#[trigger] n.open_neighbor(a, x))
            is Some && (#[trigger] n.open_neighbor(a, y)) is Some && dp[n.open_neighbor(a, x)->0]
            < dp[a] && dp[n.open_neighbor(a, y)->0] < dp[a] implies x == y by {
        lemma_neighbor_after_join(m, a, x);
        lemma_neighbor_after_join(m, a, y);
        if a != above && a != m.end {
            assert(m.kinds[a] != MazeCellType::Wall);
            assert(dp[a] == depth[a]);
            let hangs_x = a == over && x == Direction::South;
            let hangs_y = a == over && y == Direction::South;
            if !hangs_x && !hangs_y {
                let b = m.open_neighbor(a, x)->0;
                let c = m.open_neighbor(a, y)->0;
                assert(m.open_neighbor(a, x) is Some);
                assert(m.open_neighbor(a, y) is Some);
                lemma_neighbor_in_grid(w, m.height, a, x);
                lemma_neighbor_in_grid(w, m.height, a, y);
                assert(dp[b] == depth[b]);
                assert(dp[c] == depth[c]);
            }
        }
    }
}

/// Carving the cell above an end that is cut off adds one cell and two
/// pairs: that cell with the cell above it, and that cell with the end.
pub proof fn lemma_join_keeps_count(m: MazeView)
    requires
        end_apart(m),
        tree_count(m, 2),
    ensures
        tree_count(joined(m), 1),
{
    let w = m.width;
    let above = m.end - w;
    let over = m.end - 2 * w;
    let n = joined(m);
    lemma_interior_neighbors(m, above);
    assert(over == above - w);
    assert(n.kinds =~= m.kinds.update(above, MazeCellType::Passage));
    assert(open_cells(n) =~= open_cells(m).insert(above));
    let first = (over, Direction::South);
    let second = (above, Direction::South);
    let grown = open_pairs(m).insert(first).insert(second);
    assert forall|e: (int, Direction)| open_pairs(n).contains(e) == grown.contains(e) by {
        if 0 <= e.0 < n.len() && n.kinds[e.0] != MazeCellType::Wall {
            lemma_neighbor_after_join(m, e.0, e.1);
        }
    }
    assert(open_pairs(n) =~= grown);
    assert(!open_pairs(m).contains(first));
    assert(!open_pairs(m).contains(second));
    assert(first != second);
}

/// Every cell of the maze that is not a wall can be reached from the
/// start.
pub open spec fn all_reached(m: MazeView) -> bool {
    forall|p: int|
        0 <= p < m.len() && (#[trigger] m.kinds[p]) != MazeCellType::Wall ==> linked(
            m,
            m.start,
            p,
        )
}

/// Once the cell above an end that is cut off is carved, the end can be
/// reached from wherever the cell two above it can be reached, and so can
/// every cell that could be reached before.
pub proof fn lemma_join_links(m: MazeView)
    requires
        end_apart(m),
        forall|p: int|
            0 <= p < m.len() && (#[trigger] m.kinds[p]) != MazeCellType::Wall && p != m.end
                ==> linked(m, m.start, p),
    ensures
        all_reached(joined(m)),
{
    let w = m.width;
    let above = m.end - w;
    let over = m.end - 2 * w;
    let n = joined(m);
    lemma_interior_neighbors(m, above);
    assert(over == above - w);
    assert(n.kinds =~= m.kinds.update(above, MazeCellType::Passage));
    assert(opened(m, n));
    assert(m.kinds[over] != MazeCellType::Wall);
    lemma_linked_opened(m, n, m.start, over);
    assert(n.neighbor(above, Direction::North) == Some(over));
    assert(n.neighbor(over, Direction::South) == Some(above)) by {
        lemma_neighbor_in_grid(w, m.height, above, Direction::North);
    }
    assert(adjacent(n, over, above));
    lemma_linked_step(n, n.start, over, above);
    assert(n.neighbor(above, Direction::South) == Some(m.end));
    assert(adjacent(n, above, m.end));
    lemma_linked_step(n, n.start, above, m.end);
    assert forall|p: int|
        0 <= p < n.len() && (#[trigger] n.kinds[p]) != MazeCellType::Wall implies linked(
        n,
        n.start,
        p,
    ) by {
        if p != above && p != m.end {
            lemma_linked_opened(m, n, m.start, p);
        }
    }
}

/// The cell lies between two cells that are not walls, side by side or
/// one above the other.
pub open spec fn joins_cells(m: MazeView, p: int) -> bool {
    ||| {
        &&& column_of(m.width, p) % 2 == 0
        &&& row_of(m.width, p) % 2 == 1
        &&& m.kinds[p - 1] != MazeCellType::Wall
        &&& m.kinds[p + 1] != MazeCellType::Wall
    }
    ||| {
        &&& column_of(m.width, p) % 2 == 1
        &&& row_of(m.width, p) % 2 == 0
        &&& m.kinds[p - m.width] != MazeCellType::Wall
        &&& m.kinds[p + m.width] != MazeCellType::Wall
    }
}

/// Corridors lie one wall apart: every passage is a room, or lies between
/// two cells that are not walls, in a row of rooms or in a column of
/// rooms. No cell in an even row and an even column is a passage.
pub open spec fn corridors_apart(m: MazeView) -> bool {
    forall|p: int|
        0 <= p < m.len() && (#[trigger] m.kinds[p]) == MazeCellType::Passage ==> room(m, p)
            || joins_cells(m, p)
}

/// What holds of a carved grid once start and end are placed on it, where
/// the height of the grid is even: the end is cut off.
pub proof fn lemma_end_apart(cut: MazeView, start: int, end: int)
    requires
        cut.wf(),
        cut.width >= 3,
        cut.height >= 3,
        cut.height % 2 == 0,
        carved(cut),
        orderly(cut),
        rooms_carved(cut),
        odd_place_in_row(cut, start, 0),
        odd_place_in_row(cut, end, cut.height - 1),
    ensures
        end_apart(with_marks(cut, start, end)),
        with_marks(cut, start, end).end - 2 * cut.width != start,
{
    let w = cut.width;
    let h = cut.height;
    let m = with_marks(cut, start, end);
    let above = end - w;
    let over = end - 2 * w;
    lemma_cell_above_end(cut, start, end);
    lemma_interior_neighbors(cut, above);
    lemma_row_in_grid(w, h, start);
    lemma_row_in_grid(w, h, end);
    assert(row_of(w, above) == h - 2);
    assert(over == above - w);
    assert(row_of(w, over) == h - 3);
    assert(0 <= over);
    assert(over < cut.len());
    assert(interior(cut, over));
    assert(room(cut, over));
    assert(cut.kinds[over] == MazeCellType::Passage);
    assert(over != start && over != end);
    assert(cut.kinds[above - 1] == MazeCellType::Wall) by {
        if cut.kinds[above - 1] != MazeCellType::Wall {
            assert(cut.kinds[above - 1] == MazeCellType::Passage);
            assert(room(cut, above - 1) || joins_rooms(cut, above - 1));
        }
    }
    assert(cut.kinds[above + 1] == MazeCellType::Wall) by {
        if cut.kinds[above + 1] != MazeCellType::Wall {
            assert(cut.kinds[above + 1] == MazeCellType::Passage);
            assert(room(cut, above + 1) || joins_rooms(cut, above + 1));
        }
    }
    assert(above - 1 != start && above + 1 != start && above != start);
    assert(m.kinds[above] == MazeCellType::Wall);
    assert(m.kinds[above - 1] == MazeCellType::Wall);
    assert(m.kinds[above + 1] == MazeCellType::Wall);
    assert(m.kinds[over] == MazeCellType::Passage);
    assert forall|x: Direction| (#[trigger] m.open_neighbor(end, x)) is None by {
        crate::carving::lemma_neighbor_after_marks(cut, start, end, end, x);
    }
}

/// Start and end on a carved grid, and the cell above the end carved
/// where it was a wall, leave the corridors one wall apart.
pub proof fn lemma_corridors_stay_apart(cut: MazeView, start: int, end: int)
    requires
        cut.wf(),
        cut.width >= 3,
        cut.height >= 3,
        carved(cut),
        orderly(cut),
        rooms_carved(cut),
        odd_place_in_row(cut, start, 0),
        odd_place_in_row(cut, end, cut.height - 1),
    ensures
        corridors_apart(joined(with_marks(cut, start, end))),
{
    let w = cut.width;
    let m = with_marks(cut, start, end);
    let n = joined(m);
    let above = end - w;
    lemma_cell_above_end(cut, start, end);
    lemma_interior_neighbors(cut, above);
    assert forall|p: int|
        0 <= p < n.len() && (#[trigger] n.kinds[p]) == MazeCellType::Passage implies room(n, p)
        || joins_cells(n, p) by {
        if p == above && m.kinds[above] == MazeCellType::Wall {
            lemma_end_apart(cut, start, end);
            assert(n.kinds[above - w] != MazeCellType::Wall);
            assert(n.kinds[above + w] != MazeCellType::Wall);
            assert(row_of(w, above) % 2 == 0);
        } else {
            assert(cut.kinds[p] == MazeCellType::Passage);
            assert(room(cut, p) || joins_rooms(cut, p));
            assert(interior(cut, p));
            lemma_interior_neighbors(cut, p);
            if !room(cut, p) {
                if column_of(w, p) % 2 == 0 {
                    assert(n.kinds[p - 1] != MazeCellType::Wall);
                    assert(n.kinds[p + 1] != MazeCellType::Wall);
                } else {
                    assert(n.kinds[p - w] != MazeCellType::Wall);
                    assert(n.kinds[p + w] != MazeCellType::Wall);
                }
            }
        }
    }
}

/// The maze that is made from a carved grid by placing start and end and
/// joining the end: it has one start and one end, walls along its edge
/// but for those two, every room carved and the corridors one wall apart;
/// every cell that is not a wall can be reached from the start, and the
/// cells can be ranked, so that the maze is a tree.
pub open spec fn well_made(m: MazeView) -> bool {
    &&& m.has_start_and_end()
    &&& forall|i: int|
        0 <= i < m.len() ==> (m.kinds[i] == MazeCellType::Start <==> i == m.start)
    &&& forall|i: int| 0 <= i < m.len() ==> (m.kinds[i] == MazeCellType::End <==> i == m.end)
    &&& forall|i: int|
        0 <= i < m.len() && !interior(m, i) && i != m.start && i != m.end ==> m.kinds[i]
            == MazeCellType::Wall
    &&& rooms_carved(m)
    &&& corridors_apart(m)
    &&& all_reached(m)
    &&& rankable(m)
    &&& acyclic(m)
    &&& tree_count(m, 1)
}

/// Placing start and end on a carved grid and joining the end gives a
/// maze that is well made.
pub proof fn lemma_well_made(cut: MazeView, origin: int, depth: Seq<int>, start: int, end: int)
    requires
        cut.wf(),
        cut.width >= 3,
        cut.height >= 3,
        carved(cut),
        orderly(cut),
        rooms_carved(cut),
        reachable(cut, origin),
        room(cut, origin),
        cut.kinds[origin] == MazeCellType::Passage,
        ranked(cut, depth),
        tree_count(cut, 1),
        odd_place_in_row(cut, start, 0),
        odd_place_in_row(cut, end, cut.height - 1),
    ensures
        well_made(joined(with_marks(cut, start, end))),
{
    let w = cut.width;
    let m = with_marks(cut, start, end);
    let n = joined(m);
    let above = end - w;
    lemma_cell_above_end(cut, start, end);
    lemma_interior_neighbors(cut, above);
    lemma_row_in_grid(w, cut.height, start);
    lemma_row_in_grid(w, cut.height, end);
    lemma_start_reaches_all(cut, origin, m);
    lemma_marks_keep_ranked(cut, depth, start, end);
    lemma_marks_keep_count(cut, start, end);
    lemma_corridors_stay_apart(cut, start, end);
    let dp = depth.update(start, depth[start + w] + 1).update(end, depth[above] + 1);
    assert forall|i: int| 0 <= i < m.len() implies (m.kinds[i] == MazeCellType::Start <==> i
        == start) && (m.kinds[i] == MazeCellType::End <==> i == end) by {
        assert(cut.kinds[i] == MazeCellType::Wall || cut.kinds[i] == MazeCellType::Passage);
    }
    if cut.height % 2 == 0 {
        lemma_end_apart(cut, start, end);
        assert(n.kinds =~= m.kinds.update(above, MazeCellType::Passage));
        lemma_join_keeps_ranked(m, dp);
        let dq = dp.update(above, dp[end - 2 * w] + 1).update(end, dp[end - 2 * w] + 2);
        lemma_ranked_acyclic(n, dq);
        lemma_join_keeps_count(m);
        lemma_join_links(m);
    } else {
        assert(m.kinds[above] == MazeCellType::Passage);
        assert(n == m);
        assert(ranked(n, dp));
    }
    assert(n.kinds[end] == MazeCellType::End);
    assert(n.kinds[start] == MazeCellType::Start);
    assert(linked(n, n.start, n.end));
    assert forall|i: int| 0 <= i < n.len() implies (n.kinds[i] == MazeCellType::Start <==> i
        == n.start) && (n.kinds[i] == MazeCellType::End <==> i == n.end) by {
        assert(m.kinds[i] == MazeCellType::Start <==> i == start);
        assert(m.kinds[i] == MazeCellType::End <==> i == end);
    }
    assert forall|i: int| 0 <= i < n.len() && room(n, i) implies (#[trigger] n.kinds[i])
        == MazeCellType::Passage by {
        assert(room(cut, i));
        assert(cut.kinds[i] == MazeCellType::Passage);
    }
    assert forall|i: int|
        0 <= i < n.len() && !interior(n, i) && i != n.start && i != n.end implies n.kinds[i]
        == MazeCellType::Wall by {
        assert(!interior(cut, i));
        assert(cut.kinds[i] == MazeCellType::Wall);
    }
    assert forall|p: int|
        0 <= p < n.len() && (#[trigger] n.kinds[p]) != MazeCellType::Wall implies linked(
        n,
        n.start,
        p,
    ) by {
        if cut.height % 2 == 1 {
            if p != end {
                assert(m.kinds[p] == MazeCellType::Passage || p == start);
            }
        }
    }
}

} // verus!
