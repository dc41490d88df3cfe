//! The search leaves nothing out. While it runs, every cell that it has
//! taken note of either waits in the open set or has all its neighbours
//! taken note of; so a search that ends with an empty open set has come to
//! the end wherever a way leads there from the start.

use vstd::prelude::*;
use vstd::multiset::Multiset;
use crate::connectivity::{is_path, linked};
use crate::direction::Direction;
use crate::maze::{grid_neighbor, MazeCellType, MazeView};
use crate::open_set::is_min_item;
use crate::solver::{
    expand,
    first_item,
    has_better_closed,
    has_better_open,
    has_position,
    lemma_successors_in_maze,
    offer,
    seeded,
    step,
    successors,
    without_value,
    ListItem,
    Progress,
    SearchState,
};

verus! {

/// The open set holds a candidate for `position`.
pub open spec fn waits(open: Multiset<(usize, usize, usize, usize)>, position: int) -> bool {
    exists|x: (usize, usize, usize, usize)| open.count(x) > 0 && x.2 == position
}

/// The closed list has an entry for every neighbour of `position` that is
/// not a wall.
pub open spec fn surrounded(m: MazeView, closed: Seq<ListItem>, position: int) -> bool {
    forall|d: Direction|
        match #[trigger] grid_neighbor(m.width, m.height, position, d) {
            Some(q) => m.kinds[q] != MazeCellType::Wall ==> has_position(
                closed,
                closed.len() as int,
                q,
            ),
            None => true,
        }
}

/// The closed list has an entry for an end cell.
pub open spec fn end_listed(m: MazeView, closed: Seq<ListItem>) -> bool {
    exists|i: int|
        0 <= i < closed.len() && m.kinds[(#[trigger] closed[i]).position as int]
            == MazeCellType::End
}

/// The cell that the end marker points at is the only end cell.
pub open spec fn single_end(m: MazeView) -> bool {
    forall|i: int| 0 <= i < m.len() && m.kinds[i] == MazeCellType::End ==> i == m.end
}

/// The search has left nothing out so far. Every end cell with an entry in
/// the closed list is marked as visited; the closed list has an entry for
/// each candidate of the open set and for its parent; and unless the closed
/// list has an entry for an end cell, every cell with an entry, but for the
/// cell `exempt`, waits in the open set or has all its neighbours listed.
/// `exempt` is the cell whose successors are being taken note of, or -1.
pub open spec fn thorough(m: MazeView, st: SearchState, exempt: int) -> bool {
    &&& st.visited.len() == m.len()
    &&& forall|i: int|
        0 <= i < st.closed.len() ==> 0 <= (#[trigger] st.closed[i]).position < m.len()
    &&& forall|i: int|
        0 <= i < st.closed.len() && m.kinds[(#[trigger] st.closed[i]).position as int]
            == MazeCellType::End ==> st.visited[st.closed[i].position as int]
    &&& forall|x: (usize, usize, usize, usize)|
        st.open.count(x) > 0 ==> has_position(st.closed, st.closed.len() as int, x.2 as int)
            && has_position(st.closed, st.closed.len() as int, x.3 as int)
    &&& end_listed(m, st.closed) || forall|i: int|
        0 <= i < st.closed.len() && (#[trigger] st.closed[i]).position != exempt ==> waits(
            st.open,
            st.closed[i].position as int,
        ) || surrounded(m, st.closed, st.closed[i].position as int)
}

/// What the closed list has an entry for, it has an entry for when it has
/// grown by one.
pub proof fn lemma_listed_stays(closed: Seq<ListItem>, entry: ListItem, position: int)
    requires
        has_position(closed, closed.len() as int, position),
    ensures
        has_position(closed.push(entry), closed.len() as int + 1, position),
{
    let j = choose|j: int|
        0 <= j < closed.len() && j < closed.len() && (#[trigger] closed[j]).position == position;
    assert(closed.push(entry)[j].position == position);
}

/// A cell whose neighbours are all listed stays so when the closed list
/// grows by one.
pub proof fn lemma_surrounded_stays(
    m: MazeView,
    closed: Seq<ListItem>,
    entry: ListItem,
    position: int,
)
    requires
        surrounded(m, closed, position),
    ensures
        surrounded(m, closed.push(entry), position),
{
    let grown = closed.push(entry);
    assert forall|d: Direction|
        match #[trigger] grid_neighbor(m.width, m.height, position, d) {
            Some(q) => m.kinds[q] != MazeCellType::Wall ==> has_position(
                grown,
                grown.len() as int,
                q,
            ),
            None => true,
        } by {
        match grid_neighbor(m.width, m.height, position, d) {
            Some(q) => {
                if m.kinds[q] != MazeCellType::Wall {
                    lemma_listed_stays(closed, entry, q);
                }
            },
            None => {},
        }
    }
}

/// Taking note of a successor of the cell `parent_position` leaves nothing
/// out, and the successor is listed afterwards.
pub proof fn lemma_offer_keeps_thorough(
    m: MazeView,
    st: SearchState,
    parent_position: int,
    parent_g: int,
    s: int,
)
    requires
        m.len() <= usize::MAX,
        thorough(m, st, parent_position),
        0 <= s < m.len(),
        0 <= parent_position < m.len(),
        s != parent_position,
        has_position(st.closed, st.closed.len() as int, parent_position),
    ensures
        ({
            let (next, progress) = offer(m, st, parent_position, parent_g, s);
            &&& progress != Progress::OutOfCapacity ==> {
                &&& thorough(m, next, parent_position)
                &&& has_position(next.closed, next.closed.len() as int, s)
                &&& next.closed.len() == st.closed.len() + 1
                &&& next.closed.drop_last() == st.closed
            }
            &&& progress == Progress::FoundEnd ==> thorough(m, next, -1)
        }),
{
    let (next, progress) = offer(m, st, parent_position, parent_g, s);
    if progress != Progress::OutOfCapacity {
        let entry = next.closed.last();
        let count = st.closed.len() as int;
        assert(next.closed == st.closed.push(entry));
        assert(next.closed.drop_last() =~= st.closed);
        assert(entry.position == s);
        assert(next.closed[count].position == s);
        assert forall|i: int| 0 <= i < next.closed.len() implies 0 <= (#[trigger] next.closed[i]).position
            < m.len() by {
            if i < count {
                assert(next.closed[i] == st.closed[i]);
            }
        }
        assert forall|i: int|
            0 <= i < next.closed.len() && m.kinds[(#[trigger] next.closed[i]).position as int]
                == MazeCellType::End implies next.visited[next.closed[i].position as int] by {
            if i < count {
                assert(next.closed[i] == st.closed[i]);
            }
        }
        assert forall|x: (usize, usize, usize, usize)| next.open.count(x) > 0 implies has_position(
            next.closed,
            next.closed.len() as int,
            x.2 as int,
        ) && has_position(next.closed, next.closed.len() as int, x.3 as int) by {
            if st.open.count(x) > 0 {
                lemma_listed_stays(st.closed, entry, x.2 as int);
                lemma_listed_stays(st.closed, entry, x.3 as int);
            } else {
                lemma_listed_stays(st.closed, entry, parent_position);
            }
        }
        if progress == Progress::FoundEnd || end_listed(m, st.closed) {
            if progress == Progress::FoundEnd {
                assert(m.kinds[next.closed[count].position as int] == MazeCellType::End);
            } else {
                let i = choose|i: int|
                    0 <= i < st.closed.len() && m.kinds[(#[trigger] st.closed[i]).position as int]
                        == MazeCellType::End;
                assert(next.closed[i] == st.closed[i]);
            }
            assert(end_listed(m, next.closed));
        } else {
            let f = parent_g + 1 + m.manhattan_distance(s, m.end);
            assert forall|i: int|
                0 <= i < next.closed.len() && (#[trigger] next.closed[i]).position
                    != parent_position implies waits(next.open, next.closed[i].position as int)
                || surrounded(m, next.closed, next.closed[i].position as int) by {
                let p = next.closed[i].position as int;
                if i < count {
                    assert(next.closed[i] == st.closed[i]);
                    lemma_settled_stays(m, st, next, entry, p);
                } else if has_better_open(st.open, s, f) {
                    let x = choose|x: (usize, usize, usize, usize)|
                        st.open.count(x) > 0 && x.2 == s && x.0 < f;
                    assert(next.open.count(x) > 0);
                } else if has_better_closed(st.closed, s, f) {
                    let j = choose|j: int|
                        0 <= j < st.closed.len() && st.closed[j].position == s && st.closed[j].f
                            < f;
                    assert(st.closed[j].position != parent_position);
                    lemma_settled_stays(m, st, next, entry, s);
                } else {
                    let x = (f as usize, (parent_g + 1) as usize, s as usize, parent_position as usize);
                    assert(next.open == st.open.insert(x));
                    assert(next.open.count(x) > 0);
                    assert(x.2 == s);
                }
            }
        }
    }
}

/// A cell that waits in the open set or has all its neighbours listed
/// stays so when the closed list grows by one and the open set loses
/// nothing.
pub proof fn lemma_settled_stays(
    m: MazeView,
    st: SearchState,
    next: SearchState,
    entry: ListItem,
    position: int,
)
    requires
        waits(st.open, position) || surrounded(m, st.closed, position),
        next.closed == st.closed.push(entry),
        forall|x: (usize, usize, usize, usize)| st.open.count(x) > 0 ==> next.open.count(x) > 0,
    ensures
        waits(next.open, position) || surrounded(m, next.closed, position),
{
    if waits(st.open, position) {
        let x = choose|x: (usize, usize, usize, usize)| st.open.count(x) > 0 && x.2 == position;
        assert(next.open.count(x) > 0);
    } else {
        lemma_surrounded_stays(m, st.closed, entry, position);
    }
}

/// Taking note of the successors of the cell `parent_position` leaves
/// nothing out, and every successor is listed afterwards.
pub proof fn lemma_expand_keeps_thorough(
    m: MazeView,
    st: SearchState,
    parent_position: int,
    parent_g: int,
    succ: Seq<int>,
    count: int,
)
    requires
        m.len() <= usize::MAX,
        thorough(m, st, parent_position),
        0 <= count <= succ.len(),
        0 <= parent_position < m.len(),
        forall|k: int| 0 <= k < succ.len() ==> 0 <= #[trigger] succ[k] < m.len() && succ[k] != parent_position,
        has_position(st.closed, st.closed.len() as int, parent_position),
        forall|k: int|
            count <= k < succ.len() ==> has_position(
                st.closed,
                st.closed.len() as int,
                #[trigger] succ[k],
            ),
    ensures
        ({
            let (next, progress) = expand(m, st, parent_position, parent_g, succ, count);
            &&& progress == Progress::Continue ==> {
                &&& thorough(m, next, parent_position)
                &&& has_position(next.closed, next.closed.len() as int, parent_position)
                &&& forall|k: int|
                    0 <= k < succ.len() ==> has_position(
                        next.closed,
                        next.closed.len() as int,
                        #[trigger] succ[k],
                    )
            }
            &&& progress == Progress::FoundEnd ==> thorough(m, next, -1)
        }),
    decreases count,
{
    if count > 0 {
        let (next, progress) = offer(m, st, parent_position, parent_g, succ[count - 1]);
        lemma_offer_keeps_thorough(m, st, parent_position, parent_g, succ[count - 1]);
        if progress == Progress::Continue {
            let entry = next.closed.last();
            assert(next.closed =~= st.closed.push(entry));
            lemma_listed_stays(st.closed, entry, parent_position);
            assert forall|k: int| count - 1 <= k < succ.len() implies has_position(
                next.closed,
                next.closed.len() as int,
                #[trigger] succ[k],
            ) by {
                if k >= count {
                    lemma_listed_stays(st.closed, entry, succ[k]);
                }
            }
            lemma_expand_keeps_thorough(m, next, parent_position, parent_g, succ, count - 1);
        }
    }
}

/// A value other than the one taken out is still there.
pub proof fn lemma_without_value_has(positions: Seq<int>, value: int, q: int)
    requires
        positions.contains(q),
        q != value,
    ensures
        without_value(positions, value).contains(q),
    decreases positions.len(),
{
    let rest = positions.drop_last();
    let j = choose|j: int| 0 <= j < positions.len() && positions[j] == q;
    if positions.last() == q {
        let out = without_value(positions, value);
        assert(out == without_value(rest, value).push(q));
        assert(out[out.len() - 1] == q);
    } else {
        assert(rest[j] == q);
        lemma_without_value_has(rest, value, q);
        let inner = without_value(rest, value);
        let k = choose|k: int| 0 <= k < inner.len() && inner[k] == q;
        let out = without_value(positions, value);
        if positions.last() != value {
            assert(out == inner.push(positions.last()));
            assert(out[k] == q);
        }
    }
}

/// A neighbour that is not a wall is among the neighbours that are not
/// walls.
pub proof fn lemma_open_neighbors_complete(m: MazeView, position: int, d: Direction)
    requires
        grid_neighbor(m.width, m.height, position, d) is Some,
        m.kinds[grid_neighbor(m.width, m.height, position, d)->0] != MazeCellType::Wall,
    ensures
        m.open_neighbors(position).contains(grid_neighbor(m.width, m.height, position, d)->0),
{
    let q = grid_neighbor(m.width, m.height, position, d)->0;
    let north = crate::maze::option_seq(m.open_neighbor(position, Direction::North));
    let east = crate::maze::option_seq(m.open_neighbor(position, Direction::East));
    let west = crate::maze::option_seq(m.open_neighbor(position, Direction::West));
    let south = crate::maze::option_seq(m.open_neighbor(position, Direction::South));
    let all = m.open_neighbors(position);
    assert(all == north + east + west + south);
    assert(m.open_neighbor(position, d) == Some(q));
    match d {
        Direction::North => {
            assert(north[0] == q);
            assert(all[0] == q);
        },
        Direction::East => {
            assert(east[0] == q);
            assert(all[north.len() as int] == q);
        },
        Direction::West => {
            assert(west[0] == q);
            assert(all[(north.len() + east.len()) as int] == q);
        },
        Direction::South => {
            assert(south[0] == q);
            assert(all[(north.len() + east.len() + west.len()) as int] == q);
        },
    }
}

/// One step of the search leaves nothing out.
pub proof fn lemma_step_keeps_thorough(m: MazeView, st: SearchState)
    requires
        m.len() <= usize::MAX,
        m.wf(),
        thorough(m, st, -1),
        is_min_item(st.open, first_item(st.open)),
    ensures
        step(m, st).1 != Progress::OutOfCapacity ==> thorough(m, step(m, st).0, -1),
{
    let item = first_item(st.open);
    let p = item.2 as int;
    let popped = SearchState {
        visited: st.visited.update(p, true),
        open: st.open.remove(item),
        closed: st.closed,
    };
    let succ = successors(m, p, item.3 as int);
    let (next, progress) = expand(m, popped, p, item.1 as int, succ, succ.len() as int);
    assert(st.open.count(item) > 0);
    assert(has_position(st.closed, st.closed.len() as int, p));
    assert(has_position(st.closed, st.closed.len() as int, item.3 as int));
    assert(0 <= p < m.len()) by {
        let j = choose|j: int|
            0 <= j < st.closed.len() && j < st.closed.len() && (#[trigger] st.closed[j]).position
                == p;
        assert(0 <= st.closed[j].position < m.len());
    }
    lemma_successors_in_maze(m, p, item.3 as int);
    assert forall|k: int| 0 <= k < succ.len() implies 0 <= #[trigger] succ[k] < m.len() && succ[k]
        != p by {
        let d = choose|d: Direction| #[trigger] m.neighbor(p, d) == Some(succ[k]);
        assert(grid_neighbor(m.width, m.height, p, d) == Some(succ[k]));
    }
    assert(thorough(m, popped, p)) by {
        assert forall|x: (usize, usize, usize, usize)| popped.open.count(x) > 0 implies st.open.count(
            x,
        ) > 0 by {}
        if !end_listed(m, st.closed) {
            assert forall|i: int|
                0 <= i < popped.closed.len() && (#[trigger] popped.closed[i]).position != p implies waits(
                popped.open,
                popped.closed[i].position as int,
            ) || surrounded(m, popped.closed, popped.closed[i].position as int) by {
                let c = st.closed[i].position as int;
                if waits(st.open, c) {
                    let x = choose|x: (usize, usize, usize, usize)| st.open.count(x) > 0 && x.2 == c;
                    assert(x != item);
                    assert(popped.open.count(x) > 0);
                }
            }
        }
    }
    lemma_expand_keeps_thorough(m, popped, p, item.1 as int, succ, succ.len() as int);
    if progress == Progress::Continue && !end_listed(m, next.closed) {
        assert(surrounded(m, next.closed, p)) by {
            assert forall|d: Direction|
                match #[trigger] grid_neighbor(m.width, m.height, p, d) {
                    Some(q) => m.kinds[q] != MazeCellType::Wall ==> has_position(
                        next.closed,
                        next.closed.len() as int,
                        q,
                    ),
                    None => true,
                } by {
                match grid_neighbor(m.width, m.height, p, d) {
                    Some(q) => {
                        if m.kinds[q] != MazeCellType::Wall {
                            lemma_open_neighbors_complete(m, p, d);
                            if q != item.3 as int {
                                lemma_without_value_has(m.open_neighbors(p), item.3 as int, q);
                                let k = choose|k: int| 0 <= k < succ.len() && succ[k] == q;
                                assert(has_position(
                                    next.closed,
                                    next.closed.len() as int,
                                    succ[k],
                                ));
                            } else {
                                lemma_expand_keeps_listed(
                                    m,
                                    popped,
                                    p,
                                    item.1 as int,
                                    succ,
                                    succ.len() as int,
                                    q,
                                );
                            }
                        }
                    },
                    None => {},
                }
            }
        }
    }
}

/// What the closed list has an entry for, it has an entry for after the
/// successors of a cell have been taken note of.
pub proof fn lemma_expand_keeps_listed(
    m: MazeView,
    st: SearchState,
    parent_position: int,
    parent_g: int,
    succ: Seq<int>,
    count: int,
    position: int,
)
    requires
        has_position(st.closed, st.closed.len() as int, position),
    ensures
        has_position(
            expand(m, st, parent_position, parent_g, succ, count).0.closed,
            expand(m, st, parent_position, parent_g, succ, count).0.closed.len() as int,
            position,
        ),
    decreases count,
{
    if count > 0 {
        let (next, progress) = offer(m, st, parent_position, parent_g, succ[count - 1]);
        if next.closed != st.closed {
            let entry = next.closed.last();
            assert(next.closed == st.closed.push(entry));
            lemma_listed_stays(st.closed, entry, position);
        }
        if progress == Progress::Continue {
            lemma_expand_keeps_listed(m, next, parent_position, parent_g, succ, count - 1, position);
        }
    }
}

/// A search that has not begun has left nothing out.
pub proof fn lemma_new_search_thorough(m: MazeView, st: SearchState)
    requires
        st.visited.len() == m.len(),
        st.open.len() == 0,
        st.closed.len() == 0,
    ensures
        thorough(m, st, -1),
{
    assert forall|x: (usize, usize, usize, usize)| st.open.count(x) > 0 implies false by {
        assert(st.open.count(x) <= st.open.len());
    }
}

/// A search that begins leaves nothing out: the start waits in the open set.
pub proof fn lemma_seeded_thorough(m: MazeView, st: SearchState)
    requires
        m.has_start_and_end(),
        m.len() <= usize::MAX,
        st.visited.len() == m.len(),
        st.open.len() == 0,
        st.closed.len() == 0,
    ensures
        thorough(m, seeded(m, st, false), -1),
{
    let begun = seeded(m, st, false);
    let x = (0usize, 0usize, m.start as usize, m.start as usize);
    assert(begun.closed[0].position == m.start);
    assert(has_position(begun.closed, begun.closed.len() as int, m.start));
    assert forall|y: (usize, usize, usize, usize)| begun.open.count(y) > 0 implies y == x by {
        assert(st.open.count(y) <= st.open.len());
    }
    assert(begun.open.count(x) > 0);
    assert(waits(begun.open, m.start));
}

/// Where the search has left nothing out, no candidate waits, and no end
/// cell is listed, every cell of a way from the first listed cell is listed.
pub proof fn lemma_way_listed(m: MazeView, st: SearchState, path: Seq<int>, k: int)
    requires
        thorough(m, st, -1),
        !end_listed(m, st.closed),
        st.open.len() == 0,
        st.closed.len() > 0,
        is_path(m, path),
        path[0] == st.closed[0].position,
        0 <= k < path.len(),
    ensures
        has_position(st.closed, st.closed.len() as int, path[k]),
    decreases k,
{
    if k == 0 {
        assert(st.closed[0].position == path[0]);
    } else {
        lemma_way_listed(m, st, path, k - 1);
        let j = choose|j: int|
            0 <= j < st.closed.len() && j < st.closed.len() && (#[trigger] st.closed[j]).position
                == path[k - 1];
        let c = st.closed[j].position as int;
        assert(c != -1);
        if waits(st.open, c) {
            let x = choose|x: (usize, usize, usize, usize)| st.open.count(x) > 0 && x.2 == c;
            assert(st.open.count(x) <= st.open.len());
        }
        assert(surrounded(m, st.closed, c));
        assert(crate::connectivity::adjacent(m, path[k - 1], path[k]));
        let d = choose|d: Direction| #[trigger] m.neighbor(path[k - 1], d) == Some(path[k]);
        assert(grid_neighbor(m.width, m.height, c, d) == Some(path[k]));
    }
}

/// A finished search that has left nothing out has come to the end
/// wherever a way leads there from the start: in a maze with one end cell
/// that is linked to the start, the end is marked as visited when no
/// candidate is left.
pub proof fn lemma_search_reaches_end(m: MazeView, st: SearchState)
    requires
        m.has_start_and_end(),
        single_end(m),
        linked(m, m.start, m.end),
        thorough(m, st, -1),
        st.open.len() == 0,
        st.closed.len() > 0,
        st.closed[0].position == m.start,
    ensures
        st.visited[m.end],
{
    if !end_listed(m, st.closed) {
        let path = choose|path: Seq<int>| #[trigger]
            is_path(m, path) && path[0] == m.start && path.last() == m.end;
        lemma_way_listed(m, st, path, path.len() - 1);
        let j = choose|j: int|
            0 <= j < st.closed.len() && j < st.closed.len() && (#[trigger] st.closed[j]).position
                == m.end;
        assert(m.kinds[st.closed[j].position as int] == MazeCellType::End);
    }
    let i = choose|i: int|
        0 <= i < st.closed.len() && m.kinds[(#[trigger] st.closed[i]).position as int]
            == MazeCellType::End;
    assert(st.closed[i].position == m.end);
}

} // verus!
