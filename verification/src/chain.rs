//! The route of a search through a maze without round trips is a chain:
//! no cell occurs twice on it, and no two cells of it are neighbours but
//! those that follow each other.
//!
//! Where the cells of a maze are ranked, every cell has at most one
//! neighbour below it. The search hangs each cell it takes note of on the
//! cell it came from; in a ranked maze that cell is fixed by the place of
//! the cell alone, so the search never goes back where it came from.

use vstd::prelude::*;
use crate::connectivity::{
    acyclic,
    adjacent,
    is_cycle,
    is_path,
    lemma_adjacent_symmetric,
    lemma_marked_along_first,
    lemma_ranked_acyclic,
    marked_along,
    rankable,
    ranked,
};
use crate::direction::{lemma_direction_laws, Direction};
use crate::maze::{lemma_neighbor_in_grid, MazeCellType, MazeView};
use crate::open_set::is_min_item;
use crate::solver::{
    expand,
    first_item,
    has_position,
    lemma_successors_in_maze,
    offer,
    seeded,
    step,
    successors,
    trace_marks,
    without_value,
    ListItem,
    Progress,
    SearchState,
};

verus! {

/// The neighbour of `x` in direction `d` is not a wall and ranks below `x`.
pub open spec fn lower_at(m: MazeView, depth: Seq<int>, x: int, d: Direction) -> bool {
    m.open_neighbor(x, d) is Some && depth[m.open_neighbor(x, d)->0] < depth[x]
}

/// The neighbour of `x` that ranks below it, if it has one.
pub open spec fn below_of(m: MazeView, depth: Seq<int>, x: int) -> Option<int> {
    if exists|d: Direction| lower_at(m, depth, x, d) {
        m.open_neighbor(x, choose|d: Direction| lower_at(m, depth, x, d))
    } else {
        None
    }
}

/// The cell `k` steps down from the start, each step to the neighbour
/// that ranks below.
pub open spec fn descent(m: MazeView, depth: Seq<int>, k: int) -> Option<int>
    decreases k,
{
    if k <= 0 {
        Some(m.start)
    } else {
        match descent(m, depth, k - 1) {
            Some(x) => below_of(m, depth, x),
            None => None,
        }
    }
}

/// The cell lies on the way down from the start.
pub open spec fn on_descent(m: MazeView, depth: Seq<int>, x: int) -> bool {
    exists|k: int| 0 <= k && #[trigger] descent(m, depth, k) == Some(x)
}

/// The cell `x` hangs on the cell `y`, as the search reaches it from the
/// start: the start hangs on itself, a cell on the way down from the start
/// on the cell before it on that way, and every other cell on the
/// neighbour that ranks below it.
pub open spec fn hangs(m: MazeView, depth: Seq<int>, x: int, y: int) -> bool {
    ||| x == m.start && y == m.start
    ||| exists|k: int|
        0 <= k && #[trigger] descent(m, depth, k) == Some(y) && descent(m, depth, k + 1) == Some(x)
    ||| !on_descent(m, depth, x) && below_of(m, depth, x) == Some(y)
}

/// Every candidate of the search is a cell that is not a wall and hangs
/// on its parent.
pub open spec fn rooted(m: MazeView, depth: Seq<int>, st: SearchState) -> bool {
    &&& forall|i: int|
        0 <= i < st.closed.len() ==> 0 <= (#[trigger] st.closed[i]).position < m.len()
            && m.kinds[st.closed[i].position as int] != MazeCellType::Wall && hangs(
            m,
            depth,
            st.closed[i].position as int,
            st.closed[i].parent as int,
        )
    &&& forall|x: (usize, usize, usize, usize)|
        st.open.count(x) > 0 ==> 0 <= x.2 < m.len() && m.kinds[x.2 as int] != MazeCellType::Wall
            && hangs(m, depth, x.2 as int, x.3 as int)
}

/// A neighbour that ranks below is the neighbour that ranks below: a
/// ranked cell has one at most.
pub proof fn lemma_below_unique(m: MazeView, depth: Seq<int>, x: int, d: Direction)
    requires
        ranked(m, depth),
        0 <= x < m.len(),
        m.kinds[x] != MazeCellType::Wall,
        lower_at(m, depth, x, d),
    ensures
        below_of(m, depth, x) == m.open_neighbor(x, d),
{
    let e = choose|e: Direction| lower_at(m, depth, x, e);
    assert(lower_at(m, depth, x, e));
    assert(m.open_neighbor(x, d) is Some && m.open_neighbor(x, e) is Some);
}

/// The neighbour that ranks below is a cell of the grid that is not a
/// wall, and ranks one below.
pub proof fn lemma_below_is_cell(m: MazeView, depth: Seq<int>, x: int)
    requires
        ranked(m, depth),
        0 <= x < m.len(),
        m.kinds[x] != MazeCellType::Wall,
        below_of(m, depth, x) is Some,
    ensures
        0 <= below_of(m, depth, x)->0 < m.len(),
        m.kinds[below_of(m, depth, x)->0] != MazeCellType::Wall,
        depth[below_of(m, depth, x)->0] == depth[x] - 1,
        adjacent(m, x, below_of(m, depth, x)->0),
{
    let e = choose|e: Direction| lower_at(m, depth, x, e);
    assert(lower_at(m, depth, x, e));
    assert(m.neighbor(x, e) is Some);
    lemma_neighbor_in_grid(m.width, m.height, x, e);
    assert(m.neighbor(x, e) == Some(below_of(m, depth, x)->0));
}

/// The cell `k` steps down from the start is a cell of the grid that is
/// not a wall, and ranks `k` below the start.
pub proof fn lemma_descent_depth(m: MazeView, depth: Seq<int>, k: int)
    requires
        ranked(m, depth),
        0 <= m.start < m.len(),
        m.kinds[m.start] != MazeCellType::Wall,
        0 <= k,
        descent(m, depth, k) is Some,
    ensures
        0 <= descent(m, depth, k)->0 < m.len(),
        m.kinds[descent(m, depth, k)->0] != MazeCellType::Wall,
        depth[descent(m, depth, k)->0] == depth[m.start] - k,
    decreases k,
{
    if k > 0 {
        lemma_descent_depth(m, depth, k - 1);
        lemma_below_is_cell(m, depth, descent(m, depth, k - 1)->0);
    }
}

/// A cell lies at one place of the way down from the start at most.
pub proof fn lemma_descent_once(m: MazeView, depth: Seq<int>, j: int, k: int)
    requires
        ranked(m, depth),
        0 <= m.start < m.len(),
        m.kinds[m.start] != MazeCellType::Wall,
        0 <= j,
        0 <= k,
        descent(m, depth, j) is Some,
        descent(m, depth, j) == descent(m, depth, k),
    ensures
        j == k,
{
    lemma_descent_depth(m, depth, j);
    lemma_descent_depth(m, depth, k);
}

/// A neighbour of a cell, other than the cell it hangs on, hangs on that
/// cell.
pub proof fn lemma_hangs_next(
    m: MazeView,
    depth: Seq<int>,
    p: int,
    parent: int,
    s: int,
    d: Direction,
)
    requires
        ranked(m, depth),
        0 <= m.start < m.len(),
        m.kinds[m.start] != MazeCellType::Wall,
        0 <= p < m.len(),
        m.kinds[p] != MazeCellType::Wall,
        hangs(m, depth, p, parent),
        m.open_neighbor(p, d) == Some(s),
        s != parent,
    ensures
        hangs(m, depth, s, p),
{
    lemma_neighbor_in_grid(m.width, m.height, p, d);
    lemma_direction_laws(d);
    let back = d.spec_opposite();
    assert(m.neighbor(s, back) == Some(p));
    assert(m.open_neighbor(s, back) == Some(p));
    assert(s != p);
    assert(depth[s] == depth[p] + 1 || depth[s] == depth[p] - 1);
    if depth[s] < depth[p] {
        assert(lower_at(m, depth, p, d));
        lemma_below_unique(m, depth, p, d);
        if p == m.start && parent == m.start {
            assert(descent(m, depth, 0) == Some(p));
            assert(descent(m, depth, 1) == Some(s));
        } else if exists|k: int|
            0 <= k && #[trigger] descent(m, depth, k) == Some(parent) && descent(m, depth, k + 1)
                == Some(p) {
            let k = choose|k: int|
                0 <= k && #[trigger] descent(m, depth, k) == Some(parent) && descent(
                    m,
                    depth,
                    k + 1,
                ) == Some(p);
            assert(descent(m, depth, k + 1) == Some(p));
            assert(descent(m, depth, k + 2) == Some(s));
        } else {
            assert(below_of(m, depth, p) == Some(parent));
        }
    } else {
        assert(lower_at(m, depth, s, back));
        lemma_below_unique(m, depth, s, back);
        if on_descent(m, depth, s) {
            let k = choose|k: int| 0 <= k && #[trigger] descent(m, depth, k) == Some(s);
            assert(descent(m, depth, k + 1) == Some(p));
            lemma_descent_depth(m, depth, k + 1);
            if p == m.start && parent == m.start {
                assert(descent(m, depth, 0) == Some(p));
                lemma_descent_once(m, depth, 0, k + 1);
            } else if exists|j: int|
                0 <= j && #[trigger] descent(m, depth, j) == Some(parent) && descent(
                    m,
                    depth,
                    j + 1,
                ) == Some(p) {
                let j = choose|j: int|
                    0 <= j && #[trigger] descent(m, depth, j) == Some(parent) && descent(
                        m,
                        depth,
                        j + 1,
                    ) == Some(p);
                lemma_descent_once(m, depth, j + 1, k + 1);
            } else {
                assert(on_descent(m, depth, p));
            }
        }
    }
}

/// Two different cells do not hang on each other.
pub proof fn lemma_no_mutual_hang(m: MazeView, depth: Seq<int>, x: int, y: int)
    requires
        ranked(m, depth),
        0 <= m.start < m.len(),
        m.kinds[m.start] != MazeCellType::Wall,
        0 <= x < m.len(),
        0 <= y < m.len(),
        m.kinds[x] != MazeCellType::Wall,
        m.kinds[y] != MazeCellType::Wall,
        x != y,
        hangs(m, depth, x, y),
    ensures
        !hangs(m, depth, y, x),
{
    if hangs(m, depth, y, x) {
        let x_down = exists|k: int|
            0 <= k && #[trigger] descent(m, depth, k) == Some(y) && descent(m, depth, k + 1)
                == Some(x);
        let y_down = exists|k: int|
            0 <= k && #[trigger] descent(m, depth, k) == Some(x) && descent(m, depth, k + 1)
                == Some(y);
        if x_down {
            let k = choose|k: int|
                0 <= k && #[trigger] descent(m, depth, k) == Some(y) && descent(m, depth, k + 1)
                    == Some(x);
            lemma_descent_depth(m, depth, k);
            lemma_descent_depth(m, depth, k + 1);
            assert(on_descent(m, depth, y));
            if y_down {
                let j = choose|j: int|
                    0 <= j && #[trigger] descent(m, depth, j) == Some(x) && descent(
                        m,
                        depth,
                        j + 1,
                    ) == Some(y);
                lemma_descent_depth(m, depth, j);
                lemma_descent_depth(m, depth, j + 1);
            }
        } else {
            lemma_below_is_cell(m, depth, x);
            if y_down {
                let j = choose|j: int|
                    0 <= j && #[trigger] descent(m, depth, j) == Some(x) && descent(
                        m,
                        depth,
                        j + 1,
                    ) == Some(y);
                assert(on_descent(m, depth, x));
            } else {
                lemma_below_is_cell(m, depth, y);
            }
        }
    }
}

/// No cell occurs twice on a way.
pub open spec fn simple(path: Seq<int>) -> bool {
    forall|i: int, j: int| 0 <= i < j < path.len() ==> path[i] != path[j]
}

/// The way never goes back to the cell it has just left.
pub open spec fn forward(path: Seq<int>) -> bool {
    forall|i: int| 0 <= i < path.len() - 2 ==> #[trigger] path[i] != path[i + 2]
}

/// On a way through a maze without round trips that never goes back to
/// the cell it has just left, two places hold different cells.
pub proof fn lemma_forward_way_differs(m: MazeView, path: Seq<int>, i: int, j: int)
    requires
        acyclic(m),
        is_path(m, path),
        forward(path),
        0 <= i < j < path.len(),
    ensures
        path[i] != path[j],
    decreases j - i,
{
    if path[i] == path[j] {
        if j == i + 1 {
            assert(adjacent(m, path[i], path[i + 1]));
            let d = choose|d: Direction| #[trigger] m.neighbor(path[i], d) == Some(path[i + 1]);
            lemma_neighbor_in_grid(m.width, m.height, path[i], d);
        } else if j == i + 2 {
            assert(path[i] != path[i + 2]);
        } else {
            let cycle = path.subrange(i, j);
            let n = j - i;
            assert(cycle.len() == n);
            assert forall|a: int| 0 <= a < cycle.len() implies 0 <= #[trigger] cycle[a] < m.len()
                && m.kinds[cycle[a]] != MazeCellType::Wall by {
                assert(cycle[a] == path[i + a]);
            }
            assert forall|a: int, b: int| 0 <= a < b < cycle.len() implies cycle[a] != cycle[b] by {
                assert(cycle[a] == path[i + a]);
                assert(cycle[b] == path[i + b]);
                lemma_forward_way_differs(m, path, i + a, i + b);
            }
            assert forall|a: int| 0 <= a < cycle.len() implies adjacent(
                m,
                #[trigger] cycle[a],
                cycle[(a + 1) % (cycle.len() as int)],
            ) by {
                let len = cycle.len() as int;
                assert(len == n);
                assert(cycle[a] == path[i + a]);
                assert(adjacent(m, path[i + a], path[i + a + 1]));
                if a + 1 < n {
                    vstd::arithmetic::div_mod::lemma_small_mod((a + 1) as nat, n as nat);
                    assert((a + 1) % len == a + 1);
                    assert(cycle[a + 1] == path[i + a + 1]);
                } else {
                    assert(a + 1 == n);
                    vstd::arithmetic::div_mod::lemma_mod_self_0(n);
                    assert((a + 1) % len == 0);
                    assert(cycle[0] == path[i]);
                    assert(path[i + a + 1] == path[j]);
                }
            }
            assert(is_cycle(m, cycle));
        }
    }
}

/// A way through a maze without round trips that never goes back to the
/// cell it has just left is simple.
pub proof fn lemma_forward_way_simple(m: MazeView, path: Seq<int>)
    requires
        acyclic(m),
        is_path(m, path),
        forward(path),
    ensures
        simple(path),
{
    assert forall|i: int, j: int| 0 <= i < j < path.len() implies path[i] != path[j] by {
        lemma_forward_way_differs(m, path, i, j);
    }
}

/// A simple way through a maze without round trips does not branch: two
/// of its cells are neighbours only where one follows the other.
pub proof fn lemma_chain_has_no_branch(m: MazeView, path: Seq<int>, i: int, j: int)
    requires
        acyclic(m),
        is_path(m, path),
        simple(path),
        0 <= i < j < path.len(),
        adjacent(m, path[j], path[i]),
    ensures
        j == i + 1,
{
    if j > i + 1 {
        let cycle = path.subrange(i, j + 1);
        let n = j + 1 - i;
        assert(cycle.len() == n);
        assert forall|a: int| 0 <= a < cycle.len() implies 0 <= #[trigger] cycle[a] < m.len()
            && m.kinds[cycle[a]] != MazeCellType::Wall by {
            assert(cycle[a] == path[i + a]);
        }
        assert forall|a: int, b: int| 0 <= a < b < cycle.len() implies cycle[a] != cycle[b] by {
            assert(cycle[a] == path[i + a]);
            assert(cycle[b] == path[i + b]);
        }
        assert forall|a: int| 0 <= a < cycle.len() implies adjacent(
            m,
            #[trigger] cycle[a],
            cycle[(a + 1) % (cycle.len() as int)],
        ) by {
            let len = cycle.len() as int;
            assert(len == n);
            assert(cycle[a] == path[i + a]);
            if a + 1 < n {
                vstd::arithmetic::div_mod::lemma_small_mod((a + 1) as nat, n as nat);
                assert((a + 1) % len == a + 1);
                assert(cycle[a + 1] == path[i + a + 1]);
                assert(adjacent(m, path[i + a], path[i + a + 1]));
            } else {
                assert(a + 1 == n);
                vstd::arithmetic::div_mod::lemma_mod_self_0(n);
                assert((a + 1) % len == 0);
                assert(cycle[0] == path[i]);
                assert(i + a == j);
                assert(adjacent(m, path[j], path[i]));
            }
        }
        assert(is_cycle(m, cycle));
    }
}

/// What is left after taking a value out does not hold the value.
pub proof fn lemma_without_value_omits(positions: Seq<int>, value: int)
    ensures
        forall|k: int|
            0 <= k < without_value(positions, value).len() ==> #[trigger] without_value(
                positions,
                value,
            )[k] != value,
    decreases positions.len(),
{
    if positions.len() > 0 {
        let rest = positions.drop_last();
        let inner = without_value(rest, value);
        let out = without_value(positions, value);
        lemma_without_value_omits(rest, value);
        assert forall|k: int| 0 <= k < out.len() implies #[trigger] out[k] != value by {
            if k < inner.len() {
                assert(out[k] == inner[k]);
            }
        }
    }
}

/// Taking note of a successor that hangs on the cell it is reached from
/// keeps every candidate hanging on its parent.
pub proof fn lemma_offer_keeps_rooted(
    m: MazeView,
    depth: Seq<int>,
    st: SearchState,
    parent_position: int,
    parent_g: int,
    s: int,
)
    requires
        m.len() <= usize::MAX,
        rooted(m, depth, st),
        0 <= s < m.len(),
        0 <= parent_position < m.len(),
        m.kinds[s] != MazeCellType::Wall,
        hangs(m, depth, s, parent_position),
    ensures
        rooted(m, depth, offer(m, st, parent_position, parent_g, s).0),
{
    let (next, progress) = offer(m, st, parent_position, parent_g, s);
    if next.closed != st.closed {
        let entry = next.closed.last();
        assert(next.closed == st.closed.push(entry));
        assert(entry.position == s && entry.parent == parent_position);
        assert forall|i: int| 0 <= i < next.closed.len() implies 0 <= (#[trigger] next.closed[i]).position
            < m.len() && m.kinds[next.closed[i].position as int] != MazeCellType::Wall && hangs(
            m,
            depth,
            next.closed[i].position as int,
            next.closed[i].parent as int,
        ) by {
            if i < st.closed.len() {
                assert(next.closed[i] == st.closed[i]);
            }
        }
    }
}

/// Taking note of successors that hang on the cell they are reached from
/// keeps every candidate hanging on its parent.
pub proof fn lemma_expand_keeps_rooted(
    m: MazeView,
    depth: Seq<int>,
    st: SearchState,
    parent_position: int,
    parent_g: int,
    succ: Seq<int>,
    count: int,
)
    requires
        m.len() <= usize::MAX,
        rooted(m, depth, st),
        0 <= count <= succ.len(),
        0 <= parent_position < m.len(),
        forall|k: int|
            0 <= k < succ.len() ==> 0 <= #[trigger] succ[k] < m.len() && m.kinds[succ[k]]
                != MazeCellType::Wall && hangs(m, depth, succ[k], parent_position),
    ensures
        rooted(m, depth, expand(m, st, parent_position, parent_g, succ, count).0),
    decreases count,
{
    if count > 0 {
        let (next, progress) = offer(m, st, parent_position, parent_g, succ[count - 1]);
        lemma_offer_keeps_rooted(m, depth, st, parent_position, parent_g, succ[count - 1]);
        if progress == Progress::Continue {
            lemma_expand_keeps_rooted(m, depth, next, parent_position, parent_g, succ, count - 1);
        }
    }
}

/// One step of the search through a ranked maze keeps every candidate
/// hanging on its parent.
pub proof fn lemma_step_keeps_rooted(m: MazeView, depth: Seq<int>, st: SearchState)
    requires
        m.wf(),
        m.len() <= usize::MAX,
        ranked(m, depth),
        0 <= m.start < m.len(),
        m.kinds[m.start] != MazeCellType::Wall,
        rooted(m, depth, st),
        is_min_item(st.open, first_item(st.open)),
    ensures
        rooted(m, depth, step(m, st).0),
{
    let item = first_item(st.open);
    let p = item.2 as int;
    let parent = item.3 as int;
    let popped = SearchState {
        visited: st.visited.update(p, true),
        open: st.open.remove(item),
        closed: st.closed,
    };
    let succ = successors(m, p, parent);
    assert(st.open.count(item) > 0);
    assert(hangs(m, depth, p, parent));
    assert forall|x: (usize, usize, usize, usize)| popped.open.count(x) > 0 implies st.open.count(
        x,
    ) > 0 by {}
    assert(rooted(m, depth, popped));
    lemma_successors_in_maze(m, p, parent);
    lemma_without_value_omits(m.open_neighbors(p), parent);
    assert forall|k: int| 0 <= k < succ.len() implies 0 <= #[trigger] succ[k] < m.len()
        && m.kinds[succ[k]] != MazeCellType::Wall && hangs(m, depth, succ[k], p) by {
        let d = choose|d: Direction| #[trigger] m.neighbor(p, d) == Some(succ[k]);
        assert(m.open_neighbor(p, d) == Some(succ[k]));
        lemma_hangs_next(m, depth, p, parent, succ[k], d);
    }
    lemma_expand_keeps_rooted(m, depth, popped, p, item.1 as int, succ, succ.len() as int);
}

/// A search that begins has the start as its only candidate, hanging on
/// itself.
pub proof fn lemma_seeded_rooted(m: MazeView, depth: Seq<int>, st: SearchState)
    requires
        m.len() <= usize::MAX,
        0 <= m.start < m.len(),
        m.kinds[m.start] != MazeCellType::Wall,
        st.open.len() == 0,
        st.closed.len() == 0,
    ensures
        rooted(m, depth, seeded(m, st, false)),
{
    let begun = seeded(m, st, false);
    let x = (0usize, 0usize, m.start as usize, m.start as usize);
    assert forall|y: (usize, usize, usize, usize)| begun.open.count(y) > 0 implies y == x by {
        assert(st.open.count(y) <= st.open.len());
    }
}

/// The cells that the route marks, in the order in which the closed list
/// gives them when it is followed backwards from its entry `count - 1`.
pub open spec fn trace_path(closed: Seq<ListItem>, count: int, target: usize) -> Seq<int>
    decreases count,
{
    if count <= 0 {
        Seq::empty()
    } else if closed[count - 1].position == target {
        seq![target as int] + trace_path(closed, count - 1, closed[count - 1].parent)
    } else {
        trace_path(closed, count - 1, target)
    }
}

/// The closed list has an entry for `x` with the parent `y`.
pub open spec fn entry_for(closed: Seq<ListItem>, x: int, y: int) -> bool {
    exists|j: int|
        0 <= j < closed.len() && (#[trigger] closed[j]).position == x && closed[j].parent == y
}

/// Each cell of the way but the last has an entry in the closed list with
/// the next cell as its parent.
pub open spec fn follows_entries(closed: Seq<ListItem>, path: Seq<int>) -> bool {
    forall|i: int| 0 <= i < path.len() - 1 ==> entry_for(closed, #[trigger] path[i], path[i + 1])
}

/// The route marks are the marks on the cells that the closed list gives
/// when it is followed backwards.
pub proof fn lemma_trace_path_marks(
    closed: Seq<ListItem>,
    count: int,
    target: usize,
    on_route: Seq<bool>,
)
    requires
        count <= closed.len(),
        forall|i: int| 0 <= i < closed.len() ==> (#[trigger] closed[i]).position < on_route.len(),
    ensures
        trace_marks(closed, count, target, on_route) == marked_along(
            on_route,
            trace_path(closed, count, target),
        ),
    decreases count,
{
    if count <= 0 {
        assert(on_route =~= marked_along(on_route, Seq::<int>::empty()));
    } else if closed[count - 1].position == target {
        let parent = closed[count - 1].parent;
        lemma_trace_path_marks(closed, count - 1, parent, on_route.update(target as int, true));
        lemma_marked_along_first(on_route, target as int, trace_path(closed, count - 1, parent));
    } else {
        lemma_trace_path_marks(closed, count - 1, target, on_route);
    }
}

/// Followed backwards from an entry, the closed list gives a way from
/// the position of that entry to the start, and each cell of the way has
/// an entry with the next cell as its parent.
pub proof fn lemma_trace_path_way(m: MazeView, closed: Seq<ListItem>, count: int, target: usize)
    requires
        0 < count <= closed.len(),
        has_position(closed, count, target as int),
        closed[0].position == m.start,
        forall|i: int|
            0 <= i < closed.len() ==> (#[trigger] closed[i]).position < m.len()
                && m.kinds[closed[i].position as int] != MazeCellType::Wall,
        forall|i: int|
            1 <= i < closed.len() ==> has_position(closed, i, (#[trigger] closed[i]).parent as int)
                && adjacent(m, closed[i].parent as int, closed[i].position as int),
    ensures
        trace_path(closed, count, target).len() >= 1,
        trace_path(closed, count, target)[0] == target,
        trace_path(closed, count, target).last() == m.start,
        is_path(m, trace_path(closed, count, target)),
        follows_entries(closed, trace_path(closed, count, target)),
    decreases count,
{
    let entry = closed[count - 1];
    let path = trace_path(closed, count, target);
    if entry.position == target {
        if count == 1 {
            assert(trace_path(closed, 0, entry.parent) =~= Seq::<int>::empty());
            assert(path =~= seq![target as int]);
        } else {
            lemma_trace_path_way(m, closed, count - 1, entry.parent);
            let rest = trace_path(closed, count - 1, entry.parent);
            assert(path == seq![target as int] + rest);
            assert(path.len() == rest.len() + 1);
            assert(path[0] == target);
            assert forall|i: int| 1 <= i < path.len() implies path[i] == rest[i - 1] by {}
            assert(path.last() == rest.last());
            lemma_adjacent_symmetric(m, entry.parent as int, entry.position as int);
            assert forall|i: int| 0 <= i < path.len() implies 0 <= #[trigger] path[i] < m.len()
                && m.kinds[path[i]] != MazeCellType::Wall by {
                if i > 0 {
                    assert(path[i] == rest[i - 1]);
                }
            }
            assert forall|i: int| 0 <= i < path.len() - 1 implies adjacent(
                m,
                #[trigger] path[i],
                path[i + 1],
            ) by {
                if i > 0 {
                    assert(path[i] == rest[i - 1]);
                    assert(path[i + 1] == rest[i]);
                    assert(adjacent(m, rest[i - 1], rest[i]));
                } else {
                    assert(path[1] == rest[0]);
                }
            }
            assert forall|i: int| 0 <= i < path.len() - 1 implies entry_for(
                closed,
                #[trigger] path[i],
                path[i + 1],
            ) by {
                if i > 0 {
                    assert(path[i] == rest[i - 1]);
                    assert(path[i + 1] == rest[i]);
                    assert(entry_for(closed, rest[i - 1], rest[i]));
                } else {
                    assert(path[1] == rest[0]);
                    assert(closed[count - 1].position == path[0] && closed[count - 1].parent
                        == path[1]);
                }
            }
        }
    } else {
        assert(has_position(closed, count - 1, target as int)) by {
            let j = choose|j: int|
                0 <= j < count && j < closed.len() && (#[trigger] closed[j]).position == target;
            assert(j != count - 1);
        }
        lemma_trace_path_way(m, closed, count - 1, target);
    }
}

/// A way through a ranked maze whose cells each have an entry with the
/// next cell as parent, among candidates that hang on their parents,
/// never goes back to the cell it has just left; so it is simple.
pub proof fn lemma_trace_path_simple(
    m: MazeView,
    depth: Seq<int>,
    st: SearchState,
    path: Seq<int>,
)
    requires
        ranked(m, depth),
        0 <= m.start < m.len(),
        m.kinds[m.start] != MazeCellType::Wall,
        rooted(m, depth, st),
        is_path(m, path),
        follows_entries(st.closed, path),
    ensures
        simple(path),
{
    assert forall|i: int| 0 <= i < path.len() - 2 implies #[trigger] path[i] != path[i + 2] by {
        assert(entry_for(st.closed, path[i], path[i + 1]));
        assert(entry_for(st.closed, path[i + 1], path[i + 2]));
        let a = choose|j: int|
            0 <= j < st.closed.len() && (#[trigger] st.closed[j]).position == path[i]
                && st.closed[j].parent == path[i + 1];
        let b = choose|j: int|
            0 <= j < st.closed.len() && (#[trigger] st.closed[j]).position == path[i + 1]
                && st.closed[j].parent == path[i + 2];
        assert(hangs(m, depth, st.closed[a].position as int, st.closed[a].parent as int));
        assert(hangs(m, depth, st.closed[b].position as int, st.closed[b].parent as int));
        assert(adjacent(m, path[i], path[i + 1]));
        let d = choose|d: Direction| #[trigger] m.neighbor(path[i], d) == Some(path[i + 1]);
        lemma_neighbor_in_grid(m.width, m.height, path[i], d);
        if path[i] == path[i + 2] {
            lemma_no_mutual_hang(m, depth, path[i], path[i + 1]);
        }
    }
    lemma_ranked_acyclic(m, depth);
    lemma_forward_way_simple(m, path);
}

/// The search goes through a ranked maze, and every candidate hangs on
/// its parent.
pub open spec fn tree_search(m: MazeView, st: SearchState) -> bool {
    exists|depth: Seq<int>| ranked(m, depth) && #[trigger] rooted(m, depth, st)
}

/// A search that has not begun, in a maze whose cells can be ranked, is a
/// search through a ranked maze in which every candidate hangs on its
/// parent.
pub proof fn lemma_new_search_rooted(m: MazeView, st: SearchState)
    requires
        rankable(m),
        st.open.len() == 0,
        st.closed.len() == 0,
    ensures
        tree_search(m, st),
{
    let depth = choose|depth: Seq<int>| ranked(m, depth);
    assert forall|x: (usize, usize, usize, usize)| st.open.count(x) > 0 implies false by {
        assert(st.open.count(x) <= st.open.len());
    }
    assert(rooted(m, depth, st));
}

/// The route marks are the marks that were there and a mark on every cell
/// of a simple way from the end to the start: the route is a chain that
/// joins start and end. In a maze without round trips no two cells of
/// such a way are neighbours but those that follow each other; see
/// `lemma_route_has_no_branch`.
pub open spec fn route_is_chain(m: MazeView, before: Seq<bool>, after: Seq<bool>) -> bool {
    exists|path: Seq<int>| #[trigger]
        is_path(m, path) && path[0] == m.end && path.last() == m.start && simple(path) && after
            == marked_along(before, path)
}

/// The neighbour of `p` in direction `d` is not a wall and carries a
/// mark.
pub open spec fn marked_at(m: MazeView, marks: Seq<bool>, p: int, d: Direction) -> bool {
    m.open_neighbor(p, d) is Some && marks[m.open_neighbor(p, d)->0]
}

/// The number of neighbours of `p` that are not walls and carry a mark.
pub open spec fn marked_beside(m: MazeView, marks: Seq<bool>, p: int) -> int {
    (if marked_at(m, marks, p, Direction::North) {
        1int
    } else {
        0int
    }) + (if marked_at(m, marks, p, Direction::East) {
        1int
    } else {
        0int
    }) + (if marked_at(m, marks, p, Direction::West) {
        1int
    } else {
        0int
    }) + (if marked_at(m, marks, p, Direction::South) {
        1int
    } else {
        0int
    })
}

/// A marked neighbour of a cell of a chain, where the marks are on the
/// cells of the chain and on no others, is the cell before it or the cell
/// after it on the chain.
pub proof fn lemma_marked_is_next(
    m: MazeView,
    path: Seq<int>,
    marks: Seq<bool>,
    i: int,
    d: Direction,
)
    requires
        acyclic(m),
        is_path(m, path),
        simple(path),
        0 <= i < path.len(),
        marks.len() == m.len(),
        forall|q: int| 0 <= q < m.len() ==> (marks[q] <==> path.contains(q)),
    ensures
        marked_at(m, marks, path[i], d) <==> (i > 0 && m.neighbor(path[i], d) == Some(path[i - 1]))
            || (i < path.len() - 1 && m.neighbor(path[i], d) == Some(path[i + 1])),
{
    let p = path[i];
    if marked_at(m, marks, p, d) {
        let q = m.open_neighbor(p, d)->0;
        lemma_neighbor_in_grid(m.width, m.height, p, d);
        assert(m.neighbor(p, d) == Some(q));
        assert(path.contains(q));
        let j = choose|j: int| 0 <= j < path.len() && path[j] == q;
        assert(adjacent(m, p, q));
        lemma_adjacent_symmetric(m, p, q);
        if j > i {
            lemma_chain_has_no_branch(m, path, i, j);
        } else if j < i {
            lemma_chain_has_no_branch(m, path, j, i);
        }
    }
    if i > 0 && m.neighbor(p, d) == Some(path[i - 1]) {
        assert(marks[path[i - 1]]);
    }
    if i < path.len() - 1 && m.neighbor(p, d) == Some(path[i + 1]) {
        assert(marks[path[i + 1]]);
    }
}

/// On a chain through a maze without round trips, marked on its cells and
/// on no others, each end of the chain has one marked neighbour and every
/// other cell of it has two: the marks do not branch and have no gap.
pub proof fn lemma_chain_marks_beside(m: MazeView, path: Seq<int>, marks: Seq<bool>, i: int)
    requires
        acyclic(m),
        is_path(m, path),
        simple(path),
        path.len() >= 2,
        0 <= i < path.len(),
        marks.len() == m.len(),
        forall|q: int| 0 <= q < m.len() ==> (marks[q] <==> path.contains(q)),
    ensures
        marked_beside(m, marks, path[i]) == if i == 0 || i == path.len() - 1 {
            1int
        } else {
            2int
        },
{
    let p = path[i];
    lemma_marked_is_next(m, path, marks, i, Direction::North);
    lemma_marked_is_next(m, path, marks, i, Direction::East);
    lemma_marked_is_next(m, path, marks, i, Direction::West);
    lemma_marked_is_next(m, path, marks, i, Direction::South);
    if i > 0 {
        lemma_adjacent_symmetric(m, path[i - 1], p);
        let back = choose|d: Direction| #[trigger] m.neighbor(p, d) == Some(path[i - 1]);
        assert(m.neighbor(p, back) == Some(path[i - 1]));
    }
    if i < path.len() - 1 {
        assert(adjacent(m, p, path[i + 1]));
        let on = choose|d: Direction| #[trigger] m.neighbor(p, d) == Some(path[i + 1]);
        assert(m.neighbor(p, on) == Some(path[i + 1]));
    }
    if 0 < i < path.len() - 1 {
        assert(path[i - 1] != path[i + 1]);
    }
}

/// A route that is a chain through a maze without round trips, marked on
/// a grid that carried no route marks, does not branch and has no gap:
/// the start and the end each have one neighbour on the route, and every
/// other cell of the route has two.
pub proof fn lemma_route_has_no_branch(m: MazeView, before: Seq<bool>, after: Seq<bool>, p: int)
    requires
        acyclic(m),
        m.start != m.end,
        before.len() == m.len(),
        forall|q: int| 0 <= q < before.len() ==> !before[q],
        route_is_chain(m, before, after),
        0 <= p < m.len(),
        after[p],
    ensures
        marked_beside(m, after, p) == if p == m.start || p == m.end {
            1int
        } else {
            2int
        },
{
    let path = choose|path: Seq<int>| #[trigger]
        is_path(m, path) && path[0] == m.end && path.last() == m.start && simple(path) && after
            == marked_along(before, path);
    assert forall|q: int| 0 <= q < m.len() implies (after[q] <==> path.contains(q)) by {}
    let i = choose|i: int| 0 <= i < path.len() && path[i] == p;
    assert(path[path.len() - 1] == m.start);
    lemma_chain_marks_beside(m, path, after, i);
}

} // verus!
