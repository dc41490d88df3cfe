//! Counting the cells and the pairs of neighbours of a maze. A maze
//! without round trips in which every cell can be reached from one cell has
//! one pair of neighbouring cells less than it has cells; the carving keeps
//! that count at every step.

use vstd::prelude::*;
use crate::carving::{
    after_dig,
    joins_rooms,
    lemma_interior_neighbors,
    lemma_neighbor_after_dig,
    lemma_neighbor_after_marks,
    lemma_two_steps,
    orderly,
    room,
    rooms_carved,
    with_marks,
};
use crate::connectivity::adjacent;
use crate::direction::{lemma_direction_laws, Direction};
use crate::generator::{
    carved,
    dig_check,
    dig_target,
    interior,
    lemma_dig_stays_inside,
    lemma_diggable,
    odd_place_in_row,
    DigCheck,
};
use crate::maze::{
    column_of,
    lemma_neighbor_in_grid,
    lemma_position_of,
    lemma_row_in_grid,
    MazeCellType,
    MazeView,
};

verus! {

/// The cells that are not walls.
pub open spec fn open_cells(m: MazeView) -> Set<int> {
    Set::new(|p: int| 0 <= p < m.len() && m.kinds[p] != MazeCellType::Wall)
}

/// The pairs of neighbouring cells that are not walls. Each pair is named
/// once: by its western cell and `East`, or by its northern cell and
/// `South`.
pub open spec fn open_pairs(m: MazeView) -> Set<(int, Direction)> {
    Set::new(
        |e: (int, Direction)|
            (e.1 == Direction::East || e.1 == Direction::South) && 0 <= e.0 < m.len()
                && m.kinds[e.0] != MazeCellType::Wall && m.open_neighbor(e.0, e.1) is Some,
    )
}

/// The maze has `parts` more cells that are not walls than it has pairs of
/// neighbouring cells that are not walls.
pub open spec fn tree_count(m: MazeView, parts: int) -> bool {
    &&& open_cells(m).finite()
    &&& open_pairs(m).finite()
    &&& open_pairs(m).len() + parts == open_cells(m).len()
}

/// Every pair of neighbouring cells that are not walls is named, and
/// named once: two such cells `a` and `b`, `a` before `b`, are neighbours
/// exactly when `b` lies east or south of `a` and the pair is among the
/// pairs under that direction; and `b` cannot lie both east and south.
pub proof fn lemma_pairs_named_once(m: MazeView, a: int, b: int)
    requires
        0 <= a < b < m.len(),
        m.kinds[a] != MazeCellType::Wall,
        m.kinds[b] != MazeCellType::Wall,
    ensures
        adjacent(m, a, b) <==> (open_pairs(m).contains((a, Direction::East)) && m.neighbor(
            a,
            Direction::East,
        ) == Some(b)) || (open_pairs(m).contains((a, Direction::South)) && m.neighbor(
            a,
            Direction::South,
        ) == Some(b)),
        !(m.neighbor(a, Direction::East) == Some(b) && m.neighbor(a, Direction::South) == Some(b)),
{
    if adjacent(m, a, b) {
        let d = choose|d: Direction| #[trigger] m.neighbor(a, d) == Some(b);
        assert(d == Direction::East || d == Direction::South);
        assert(m.open_neighbor(a, d) == Some(b));
    }
    if m.neighbor(a, Direction::East) == Some(b) && m.neighbor(a, Direction::South) == Some(b) {
        assert(m.width == 1);
        assert(a % 1 == 0);
    }
}

/// A grid with one cell that is not a wall has one cell and no pair.
pub proof fn lemma_count_begins(m: MazeView, origin: int)
    requires
        0 <= origin < m.len(),
        forall|a: int| 0 <= a < m.len() && a != origin ==> m.kinds[a] == MazeCellType::Wall,
        m.kinds[origin] != MazeCellType::Wall,
    ensures
        tree_count(m, 1),
{
    assert(open_cells(m) =~= Set::<int>::empty().insert(origin));
    assert forall|e: (int, Direction)| !open_pairs(m).contains(e) by {
        if 0 <= e.0 < m.len() && m.kinds[e.0] != MazeCellType::Wall && m.neighbor(e.0, e.1)
            is Some {
            lemma_neighbor_in_grid(m.width, m.height, e.0, e.1);
        }
    }
    assert(open_pairs(m) =~= Set::<(int, Direction)>::empty());
}

/// A digging adds two cells and two pairs: the room it was dug from with
/// the cell in between, and the cell in between with the room beyond.
#[verifier::rlimit(80)]
#[verifier::spinoff_prover]
pub proof fn lemma_dig_keeps_count(m: MazeView, v: int, d: Direction, parts: int)
    requires
        m.wf(),
        m.width >= 3,
        carved(m),
        orderly(m),
        room(m, v),
        m.kinds[v] == MazeCellType::Passage,
        dig_check(m, v, d) == DigCheck::Diggable,
        m.kinds[m.neighbor(v, d)->0] == MazeCellType::Wall,
        tree_count(m, parts),
    ensures
        tree_count(after_dig(m, v, d), parts),
{
    let mid = m.neighbor(v, d)->0;
    let r = dig_target(m, v, d)->0;
    let n = after_dig(m, v, d);
    lemma_diggable(m, v, d);
    lemma_dig_stays_inside(m, v, d);
    lemma_two_steps(m, v, d);
    lemma_direction_laws(d);
    assert(m.kinds[r] == MazeCellType::Wall);
    assert(n.kinds =~= m.kinds.update(mid, MazeCellType::Passage).update(
        r,
        MazeCellType::Passage,
    ));
    assert(mid != r && mid != v && r != v);
    let back = d.spec_opposite();
    let forward = d == Direction::East || d == Direction::South;
    let first = if forward {
        (v, d)
    } else {
        (mid, back)
    };
    let second = if forward {
        (mid, d)
    } else {
        (r, back)
    };
    assert(open_cells(n) =~= open_cells(m).insert(mid).insert(r));
    let grown = open_pairs(m).insert(first).insert(second);
    assert forall|e: (int, Direction)| open_pairs(n).contains(e) == grown.contains(e) by {
        if 0 <= e.0 < n.len() && n.kinds[e.0] != MazeCellType::Wall {
            lemma_neighbor_after_dig(m, v, d, e.0, e.1);
        }
    }
    assert(open_pairs(n) =~= grown);
    assert(!open_pairs(m).contains(first));
    assert(!open_pairs(m).contains(second));
    assert(first != second);
}

/// The cell above the end is the room above it where the height of the
/// grid is odd, and a wall where it is even. The cells where start and end
/// are placed are walls of the carved grid.
pub proof fn lemma_cell_above_end(cut: MazeView, start: int, end: int)
    requires
        cut.wf(),
        cut.width >= 3,
        cut.height >= 3,
        carved(cut),
        orderly(cut),
        rooms_carved(cut),
        odd_place_in_row(cut, start, 0),
        odd_place_in_row(cut, end, cut.height - 1),
    ensures
        interior(cut, end - cut.width),
        start != end,
        end - cut.width != start,
        cut.kinds[start] == MazeCellType::Wall,
        cut.kinds[end] == MazeCellType::Wall,
        cut.kinds[end - cut.width] == if cut.height % 2 == 1 {
            MazeCellType::Passage
        } else {
            MazeCellType::Wall
        },
{
    let w = cut.width;
    let h = cut.height;
    lemma_row_in_grid(w, h, start);
    lemma_row_in_grid(w, h, end);
    let xe = column_of(w, end);
    let above = end - w;
    assert(end == xe + (h - 1) * w);
    assert(above == xe + (h - 2) * w) by (nonlinear_arith)
        requires
            above == end - w,
            end == xe + (h - 1) * w,
    ;
    assert((h - 2) * w >= w) by (nonlinear_arith)
        requires
            h >= 3,
            w > 0,
    ;
    lemma_position_of(w, xe, h - 2);
    assert(!interior(cut, start));
    assert(!interior(cut, end));
    assert(interior(cut, above));
    if h % 2 == 1 {
        assert(room(cut, above));
    } else {
        if cut.kinds[above] != MazeCellType::Wall {
            assert(cut.kinds[above] == MazeCellType::Passage);
            assert(room(cut, above) || joins_rooms(cut, above));
            assert(cut.kinds[above + w] == MazeCellType::Wall);
        }
    }
}

/// Placing start and end adds two cells, the pair of the start and the
/// room below it, and, where the height of the grid is odd, the pair of
/// the end and the room above it. Where the height is even no cell next
/// to the end is a passage, and the maze has a part of its own for it.
#[verifier::rlimit(80)]
#[verifier::spinoff_prover]
pub proof fn lemma_marks_keep_count(cut: MazeView, start: int, end: int)
    requires
        cut.wf(),
        cut.width >= 3,
        cut.height >= 3,
        carved(cut),
        orderly(cut),
        rooms_carved(cut),
        odd_place_in_row(cut, start, 0),
        odd_place_in_row(cut, end, cut.height - 1),
        tree_count(cut, 1),
    ensures
        tree_count(
            with_marks(cut, start, end),
            if cut.height % 2 == 1 {
                1
            } else {
                2
            },
        ),
{
    let m = with_marks(cut, start, end);
    let above = end - cut.width;
    lemma_cell_above_end(cut, start, end);
    assert(open_cells(m) =~= open_cells(cut).insert(start).insert(end));
    let first = (start, Direction::South);
    let second = (above, Direction::South);
    let grown = if cut.height % 2 == 1 {
        open_pairs(cut).insert(first).insert(second)
    } else {
        open_pairs(cut).insert(first)
    };
    assert forall|e: (int, Direction)| open_pairs(m).contains(e) == grown.contains(e) by {
        if 0 <= e.0 < m.len() && m.kinds[e.0] != MazeCellType::Wall {
            lemma_neighbor_after_marks(cut, start, end, e.0, e.1);
        }
    }
    assert(open_pairs(m) =~= grown);
    assert(!open_pairs(cut).contains(first));
    assert(!open_pairs(cut).contains(second)) by {
        lemma_interior_neighbors(cut, above);
    }
    assert(first != second);
}

} // verus!
