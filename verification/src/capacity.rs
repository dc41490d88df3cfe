//! The open set is large enough for a small maze. In a maze whose cells
//! can be ranked the search takes note of every cell once at most, so the
//! closed list never holds more entries than the grid has cells, and the
//! open set never more candidates than the closed list has entries. A
//! search through a grid with no more cells than the open set has places
//! therefore never runs out of capacity.

use vstd::prelude::*;
use vstd::set_lib::{lemma_int_range, lemma_len_subset, set_int_range};
use crate::chain::{
    descent,
    hangs,
    lemma_descent_once,
    lemma_hangs_next,
    lemma_without_value_omits,
    on_descent,
    rooted,
};
use crate::connectivity::ranked;
use crate::direction::Direction;
use crate::maze::{lemma_neighbor_in_grid, lemma_row_in_grid, MazeCellType, MazeView};
use crate::open_set::{is_min_item, MAX_HEAP_SIZE};
use crate::solver::{
    expand,
    first_item,
    has_better_closed,
    has_better_open,
    has_position,
    lemma_successors_in_maze,
    lemma_without_value_keeps,
    offer,
    seeded,
    step,
    successors,
    without_value,
    ListItem,
    Progress,
    SearchState,
};

verus! {

/// A cell hangs on one cell only.
pub proof fn lemma_hangs_once(m: MazeView, depth: Seq<int>, x: int, y: int, z: int)
    requires
        ranked(m, depth),
        0 <= m.start < m.len(),
        m.kinds[m.start] != MazeCellType::Wall,
        hangs(m, depth, x, y),
        hangs(m, depth, x, z),
    ensures
        y == z,
{
    let down_y = exists|k: int|
        0 <= k && #[trigger] descent(m, depth, k) == Some(y) && descent(m, depth, k + 1) == Some(x);
    let down_z = exists|k: int|
        0 <= k && #[trigger] descent(m, depth, k) == Some(z) && descent(m, depth, k + 1) == Some(x);
    assert(descent(m, depth, 0) == Some(m.start));
    if down_y {
        let k = choose|k: int|
            0 <= k && #[trigger] descent(m, depth, k) == Some(y) && descent(m, depth, k + 1)
                == Some(x);
        assert(on_descent(m, depth, x));
        if x == m.start {
            lemma_descent_once(m, depth, 0, k + 1);
        }
        if down_z {
            let j = choose|j: int|
                0 <= j && #[trigger] descent(m, depth, j) == Some(z) && descent(m, depth, j + 1)
                    == Some(x);
            lemma_descent_once(m, depth, j + 1, k + 1);
        }
    } else if down_z {
        let j = choose|j: int|
            0 <= j && #[trigger] descent(m, depth, j) == Some(z) && descent(m, depth, j + 1)
                == Some(x);
        assert(on_descent(m, depth, x));
        if x == m.start {
            lemma_descent_once(m, depth, 0, j + 1);
        }
    } else {
        if x == m.start {
            assert(on_descent(m, depth, x));
        }
    }
}

/// No two entries of the closed list are for the same cell.
pub open spec fn listed_once(closed: Seq<ListItem>) -> bool {
    forall|i: int, j: int|
        0 <= i < j < closed.len() ==> (#[trigger] closed[i]).position != (#[trigger] closed[j]).position
}

/// A closed list with no two entries for the same cell, all of them for
/// cells of a grid of `n` cells, has `n` entries at most.
pub proof fn lemma_listed_once_bounded(closed: Seq<ListItem>, n: int)
    requires
        listed_once(closed),
        0 <= n,
        forall|i: int| 0 <= i < closed.len() ==> 0 <= (#[trigger] closed[i]).position < n,
    ensures
        closed.len() <= n,
{
    let cells = Seq::new(closed.len(), |i: int| closed[i].position as int);
    assert forall|i: int, j: int|
        0 <= i < cells.len() && 0 <= j < cells.len() && i != j implies cells[i] != cells[j] by {
        if i < j {
            assert(closed[i].position != closed[j].position);
        } else {
            assert(closed[j].position != closed[i].position);
        }
    }
    cells.unique_seq_to_set();
    lemma_int_range(0, n);
    assert forall|c: int| cells.to_set().contains(c) implies set_int_range(0, n).contains(c) by {
        let i = choose|i: int| 0 <= i < cells.len() && cells[i] == c;
        assert(0 <= closed[i].position < n);
    }
    lemma_len_subset(cells.to_set(), set_int_range(0, n));
}

/// The successors of a candidate are different cells.
pub proof fn lemma_successors_differ(m: MazeView, position: int, parent: int)
    requires
        m.wf(),
    ensures
        successors(m, position, parent).no_duplicates(),
{
    let all = m.open_neighbors(position);
    let north = crate::maze::option_seq(m.open_neighbor(position, Direction::North));
    let east = crate::maze::option_seq(m.open_neighbor(position, Direction::East));
    let west = crate::maze::option_seq(m.open_neighbor(position, Direction::West));
    let south = crate::maze::option_seq(m.open_neighbor(position, Direction::South));
    assert(all == north + east + west + south);
    assert forall|i: int, j: int|
        0 <= i < all.len() && 0 <= j < all.len() && i != j implies all[i] != all[j] by {
        if north.len() > 0 {
            assert(north[0] == position - m.width);
        }
        if east.len() > 0 {
            assert(east[0] == position + 1);
        }
        if west.len() > 0 {
            assert(west[0] == position - 1);
        }
        if south.len() > 0 {
            assert(south[0] == position + m.width);
        }
        if m.neighbor(position, Direction::East) is Some {
            assert(m.width >= 2);
        }
        if m.neighbor(position, Direction::West) is Some {
            assert(m.width >= 2);
        }
    }
    lemma_without_value_differ(all, parent);
}

/// Taking a value out of different values leaves different values.
pub proof fn lemma_without_value_differ(positions: Seq<int>, value: int)
    requires
        positions.no_duplicates(),
    ensures
        without_value(positions, value).no_duplicates(),
    decreases positions.len(),
{
    if positions.len() > 0 {
        let rest = positions.drop_last();
        let inner = without_value(rest, value);
        let out = without_value(positions, value);
        assert forall|i: int, j: int|
            0 <= i < rest.len() && 0 <= j < rest.len() && i != j implies rest[i] != rest[j] by {
            assert(rest[i] == positions[i] && rest[j] == positions[j]);
        }
        lemma_without_value_differ(rest, value);
        lemma_without_value_keeps(rest, value);
        if positions.last() != value {
            assert(out == inner.push(positions.last()));
            assert forall|i: int, j: int|
                0 <= i < out.len() && 0 <= j < out.len() && i != j implies out[i] != out[j] by {
                if i < inner.len() && j < inner.len() {
                    assert(out[i] == inner[i] && out[j] == inner[j]);
                } else {
                    let k = if i < inner.len() {
                        i
                    } else {
                        j
                    };
                    assert(out[k] == inner[k]);
                    assert(rest.contains(inner[k]));
                    let a = choose|a: int| 0 <= a < rest.len() && rest[a] == inner[k];
                    assert(positions[a] == inner[k]);
                    assert(positions[positions.len() - 1] == positions.last());
                }
            }
        }
    }
}

/// The closed list has the entry that the candidate `x` of the open set
/// was listed with.
pub open spec fn has_item(closed: Seq<ListItem>, x: (usize, usize, usize, usize)) -> bool {
    exists|i: int|
        0 <= i < closed.len() && (#[trigger] closed[i]).f == x.0 && closed[i].g == x.1
            && closed[i].position == x.2 && closed[i].parent == x.3
}

/// The search has taken note of every cell once at most. The closed list
/// begins with the start and has no two entries for one cell; the cost of
/// an entry is at most its place in the list, and the parent of every
/// entry but the first is listed before it. Every candidate of the open
/// set is there once, with its entry in the closed list, and no entry but
/// the first has the cell of a candidate as its parent: the candidates
/// have not been expanded. When the cell `busy` is being expanded the open
/// set has no candidate for it; otherwise `busy` is -1.
pub open spec fn sparing(m: MazeView, st: SearchState, busy: int) -> bool {
    &&& st.open.len() + (if busy >= 0 {
        1int
    } else {
        0int
    }) <= st.closed.len()
    &&& listed_once(st.closed)
    &&& st.closed.len() > 0 ==> st.closed[0].position == m.start
    &&& forall|i: int| 0 <= i < st.closed.len() ==> (#[trigger] st.closed[i]).g <= i
    &&& forall|i: int|
        1 <= i < st.closed.len() ==> has_position(st.closed, i, (#[trigger] st.closed[i]).parent as int)
    &&& forall|x: (usize, usize, usize, usize)|
        st.open.count(x) > 0 ==> st.open.count(x) == 1 && has_item(st.closed, x) && x.2 != busy
    &&& forall|x: (usize, usize, usize, usize), j: int|
        #![trigger st.open.count(x), st.closed[j]]
        st.open.count(x) > 0 && 1 <= j < st.closed.len() ==> st.closed[j].parent != x.2
}

/// Every entry of the closed list but the first that has `p` as its
/// parent is for one of the successors from place `count` on: those are
/// the successors of `p` that have been taken note of.
pub open spec fn noted_from(closed: Seq<ListItem>, p: int, succ: Seq<int>, count: int) -> bool {
    forall|j: int|
        1 <= j < closed.len() && (#[trigger] closed[j]).parent == p ==> exists|k: int|
            count <= k < succ.len() && succ[k] == closed[j].position
}

/// Taking note of a successor of the cell that is being expanded, in a
/// grid with no more cells than the open set has places, keeps the search
/// sparing and does not run out of capacity.
#[verifier::rlimit(60)]
#[verifier::spinoff_prover]
pub proof fn lemma_offer_spares(
    m: MazeView,
    depth: Seq<int>,
    st: SearchState,
    p: int,
    parent_g: int,
    succ: Seq<int>,
    count: int,
)
    requires
        m.wf(),
        m.len() <= MAX_HEAP_SIZE,
        0 <= m.end < m.len(),
        0 <= m.start < m.len(),
        m.kinds[m.start] != MazeCellType::Wall,
        ranked(m, depth),
        rooted(m, depth, st),
        sparing(m, st, p),
        noted_from(st.closed, p, succ, count),
        0 <= p < m.len(),
        exists|i: int| 0 <= i < st.closed.len() && (#[trigger] st.closed[i]).position == p
            && st.closed[i].g == parent_g,
        0 < count <= succ.len(),
        succ.no_duplicates(),
        forall|k: int|
            0 <= k < succ.len() ==> 0 <= #[trigger] succ[k] < m.len() && succ[k] != p && hangs(
                m,
                depth,
                succ[k],
                p,
            ),
    ensures
        ({
            let (next, progress) = offer(m, st, p, parent_g, succ[count - 1]);
            &&& progress != Progress::OutOfCapacity
            &&& progress == Progress::Continue ==> sparing(m, next, p) && noted_from(
                next.closed,
                p,
                succ,
                count - 1,
            )
            &&& progress == Progress::FoundEnd ==> sparing(m, next, -1)
            &&& exists|i: int| 0 <= i < next.closed.len() && (#[trigger] next.closed[i]).position == p
                && next.closed[i].g == parent_g
        }),
{
    let s = succ[count - 1];
    let n = st.closed.len() as int;
    let at = choose|i: int| 0 <= i < st.closed.len() && (#[trigger] st.closed[i]).position == p
        && st.closed[i].g == parent_g;
    assert(st.closed[at].g <= at);
    assert(hangs(m, depth, s, p));
    // The successor has no entry yet.
    assert forall|j: int| 0 <= j < n implies (#[trigger] st.closed[j]).position != s by {
        if st.closed[j].position == s {
            assert(hangs(m, depth, s, st.closed[j].parent as int));
            lemma_hangs_once(m, depth, s, p, st.closed[j].parent as int);
            if j == 0 {
                assert(hangs(m, depth, m.start, m.start));
                lemma_hangs_once(m, depth, s, p, m.start);
            } else {
                let k = choose|k: int| count <= k < succ.len() && succ[k] == st.closed[j].position;
                assert(succ[k] == succ[count - 1]);
            }
        }
    }
    let g = parent_g + 1;
    let h = m.manhattan_distance(s, m.end);
    let f = g + h;
    assert(m.width > 0 && m.height > 0 && m.width <= m.len() && m.height <= m.len())
        by (nonlinear_arith)
        requires
            m.width * m.height == m.len(),
            m.len() > 0,
            m.width >= 0,
            m.height >= 0,
    ;
    lemma_row_in_grid(m.width, m.height, s);
    lemma_row_in_grid(m.width, m.height, m.end);
    assert(0 <= h <= 2 * MAX_HEAP_SIZE);
    let entry = ListItem {
        position: s as usize,
        parent: p as usize,
        f: f as usize,
        g: g as usize,
        h: h as usize,
    };
    let grown = st.closed.push(entry);
    assert forall|i: int, j: int| 0 <= i < j < grown.len() implies (#[trigger] grown[i]).position
        != (#[trigger] grown[j]).position by {
        if j < n {
            assert(grown[i] == st.closed[i] && grown[j] == st.closed[j]);
        } else {
            assert(grown[i] == st.closed[i]);
        }
    }
    assert forall|i: int| 0 <= i < grown.len() implies 0 <= (#[trigger] grown[i]).position
        < m.len() by {
        if i < n {
            assert(grown[i] == st.closed[i]);
        }
    }
    lemma_listed_once_bounded(grown, m.len());
    assert(n + 1 <= m.len());
    assert(!has_better_closed(st.closed, s, f));
    assert forall|x: (usize, usize, usize, usize)| st.open.count(x) > 0 implies x.2 != s by {
        if x.2 == s {
            assert(has_item(st.closed, x));
        }
    }
    assert(!has_better_open(st.open, s, f));
    let (next, progress) = offer(m, st, p, parent_g, s);
    assert(progress != Progress::OutOfCapacity);
    assert(next.closed == grown);
    assert(grown[at] == st.closed[at]);
    assert forall|i: int| 0 <= i < grown.len() implies (#[trigger] grown[i]).g <= i by {
        if i < n {
            assert(grown[i] == st.closed[i]);
        }
    }
    assert forall|i: int| 1 <= i < grown.len() implies has_position(
        grown,
        i,
        (#[trigger] grown[i]).parent as int,
    ) by {
        if i < n {
            assert(grown[i] == st.closed[i]);
            let j = choose|j: int|
                0 <= j < i && j < st.closed.len() && (#[trigger] st.closed[j]).position
                    == st.closed[i].parent;
            assert(grown[j] == st.closed[j]);
        } else {
            assert(grown[at].position == p);
        }
    }
    assert(grown[0] == st.closed[0]);
    if progress == Progress::Continue {
        let x_new = (f as usize, g as usize, s as usize, p as usize);
        assert(next.open == st.open.insert(x_new));
        assert(st.open.count(x_new) == 0);
        assert forall|x: (usize, usize, usize, usize)| next.open.count(x) > 0 implies next.open.count(
            x,
        ) == 1 && has_item(grown, x) && x.2 != p by {
            if x == x_new {
                assert(grown[n].f == x.0 && grown[n].g == x.1 && grown[n].position == x.2
                    && grown[n].parent == x.3);
            } else {
                assert(st.open.count(x) > 0);
                let i = choose|i: int|
                    0 <= i < st.closed.len() && (#[trigger] st.closed[i]).f == x.0
                        && st.closed[i].g == x.1 && st.closed[i].position == x.2
                        && st.closed[i].parent == x.3;
                assert(grown[i] == st.closed[i]);
            }
        }
        assert forall|x: (usize, usize, usize, usize), j: int|
            #![trigger next.open.count(x), grown[j]]
            next.open.count(x) > 0 && 1 <= j < grown.len() implies grown[j].parent != x.2 by {
            if j < n {
                assert(grown[j] == st.closed[j]);
                if x == x_new {
                    if st.closed[j].parent == s {
                        assert(has_position(st.closed, j, st.closed[j].parent as int));
                    }
                } else {
                    assert(st.open.count(x) > 0);
                }
            } else {
                if x != x_new {
                    assert(st.open.count(x) > 0);
                }
            }
        }
        assert forall|j: int| 1 <= j < grown.len() && (#[trigger] grown[j]).parent == p implies exists|
            k: int,
        |
            count - 1 <= k < succ.len() && succ[k] == grown[j].position by {
            if j < n {
                assert(grown[j] == st.closed[j]);
                let k = choose|k: int| count <= k < succ.len() && succ[k] == st.closed[j].position;
                assert(count - 1 <= k < succ.len() && succ[k] == grown[j].position);
            } else {
                assert(succ[count - 1] == grown[j].position);
            }
        }
    }
}

/// Taking note of the successors of a cell, in a grid with no more cells
/// than the open set has places, keeps the search sparing and does not
/// run out of capacity.
pub proof fn lemma_expand_spares(
    m: MazeView,
    depth: Seq<int>,
    st: SearchState,
    p: int,
    parent_g: int,
    succ: Seq<int>,
    count: int,
)
    requires
        m.wf(),
        m.len() <= MAX_HEAP_SIZE,
        0 <= m.end < m.len(),
        0 <= m.start < m.len(),
        m.kinds[m.start] != MazeCellType::Wall,
        ranked(m, depth),
        rooted(m, depth, st),
        sparing(m, st, p),
        noted_from(st.closed, p, succ, count),
        0 <= p < m.len(),
        exists|i: int| 0 <= i < st.closed.len() && (#[trigger] st.closed[i]).position == p
            && st.closed[i].g == parent_g,
        0 <= count <= succ.len(),
        succ.no_duplicates(),
        forall|k: int|
            0 <= k < succ.len() ==> 0 <= #[trigger] succ[k] < m.len() && m.kinds[succ[k]]
                != MazeCellType::Wall && succ[k] != p && hangs(m, depth, succ[k], p),
    ensures
        expand(m, st, p, parent_g, succ, count).1 != Progress::OutOfCapacity,
        sparing(m, expand(m, st, p, parent_g, succ, count).0, -1),
    decreases count,
{
    if count > 0 {
        let (next, progress) = offer(m, st, p, parent_g, succ[count - 1]);
        lemma_offer_spares(m, depth, st, p, parent_g, succ, count);
        crate::chain::lemma_offer_keeps_rooted(m, depth, st, p, parent_g, succ[count - 1]);
        if progress == Progress::Continue {
            lemma_expand_spares(m, depth, next, p, parent_g, succ, count - 1);
        }
    }
}

/// One step of the search through a ranked maze, in a grid with no more
/// cells than the open set has places, keeps the search sparing and does
/// not run out of capacity.
pub proof fn lemma_step_spares(m: MazeView, depth: Seq<int>, st: SearchState)
    requires
        m.wf(),
        m.len() <= MAX_HEAP_SIZE,
        0 <= m.end < m.len(),
        0 <= m.start < m.len(),
        m.kinds[m.start] != MazeCellType::Wall,
        ranked(m, depth),
        rooted(m, depth, st),
        sparing(m, st, -1),
        is_min_item(st.open, first_item(st.open)),
    ensures
        step(m, st).1 != Progress::OutOfCapacity,
        sparing(m, step(m, st).0, -1),
{
    let item = first_item(st.open);
    let p = item.2 as int;
    let parent = item.3 as int;
    let popped = SearchState {
        visited: st.visited.update(p, true),
        open: st.open.remove(item),
        closed: st.closed,
    };
    let succ = successors(m, p, parent);
    assert(st.open.count(item) == 1);
    assert(has_item(st.closed, item));
    let at = choose|i: int|
        0 <= i < st.closed.len() && (#[trigger] st.closed[i]).f == item.0 && st.closed[i].g
            == item.1 && st.closed[i].position == item.2 && st.closed[i].parent == item.3;
    assert(hangs(m, depth, p, parent));
    assert(popped.open.count(item) == 0);
    assert forall|x: (usize, usize, usize, usize)| popped.open.count(x) > 0 implies st.open.count(
        x,
    ) > 0 && x != item by {}
    assert forall|x: (usize, usize, usize, usize)| popped.open.count(x) > 0 implies popped.open.count(
        x,
    ) == 1 && has_item(popped.closed, x) && x.2 != p by {
        assert(st.open.count(x) == 1);
        if x.2 == p {
            let i = choose|i: int|
                0 <= i < st.closed.len() && (#[trigger] st.closed[i]).f == x.0 && st.closed[i].g
                    == x.1 && st.closed[i].position == x.2 && st.closed[i].parent == x.3;
            if i < at {
                assert(st.closed[i].position != st.closed[at].position);
            } else if at < i {
                assert(st.closed[at].position != st.closed[i].position);
            }
        }
    }
    assert(sparing(m, popped, p));
    assert forall|j: int| 1 <= j < popped.closed.len() && (#[trigger] popped.closed[j]).parent
        == p implies exists|k: int| succ.len() <= k < succ.len() && succ[k]
        == popped.closed[j].position by {
        assert(st.open.count(item) > 0);
        assert(st.closed[j].parent != item.2);
    }
    assert(rooted(m, depth, popped));
    lemma_successors_in_maze(m, p, parent);
    lemma_successors_differ(m, p, parent);
    lemma_without_value_omits(m.open_neighbors(p), parent);
    assert forall|k: int| 0 <= k < succ.len() implies 0 <= #[trigger] succ[k] < m.len()
        && m.kinds[succ[k]] != MazeCellType::Wall && succ[k] != p && hangs(
        m,
        depth,
        succ[k],
        p,
    ) by {
        let d = choose|d: Direction| #[trigger] m.neighbor(p, d) == Some(succ[k]);
        lemma_neighbor_in_grid(m.width, m.height, p, d);
        assert(m.open_neighbor(p, d) == Some(succ[k]));
        lemma_hangs_next(m, depth, p, parent, succ[k], d);
    }
    assert(st.closed[at].position == p && st.closed[at].g == item.1);
    lemma_expand_spares(m, depth, popped, p, item.1 as int, succ, succ.len() as int);
}

/// A search that has not begun is sparing, and so is one that begins.
pub proof fn lemma_new_search_spares(m: MazeView, st: SearchState)
    requires
        0 <= m.start <= usize::MAX,
        st.open.len() == 0,
        st.closed.len() == 0,
    ensures
        sparing(m, st, -1),
        sparing(m, seeded(m, st, false), -1),
{
    let begun = seeded(m, st, false);
    let x = (0usize, 0usize, m.start as usize, m.start as usize);
    assert forall|y: (usize, usize, usize, usize)| st.open.count(y) > 0 implies false by {
        assert(st.open.count(y) <= st.open.len());
    }
    assert forall|y: (usize, usize, usize, usize)| begun.open.count(y) > 0 implies y == x by {}
    assert(begun.open.count(x) == 1);
    assert(begun.closed[0].f == x.0 && begun.closed[0].g == x.1 && begun.closed[0].position == x.2
        && begun.closed[0].parent == x.3);
    assert(has_item(begun.closed, x));
    assert(begun.open.len() == 1);
}

} // verus!
