//! Ways through a maze: sequences of cells that are not walls, each next to
//! the one before it.

use vstd::prelude::*;
use crate::direction::Direction;
use crate::maze::{lemma_neighbor_in_grid, MazeCellType, MazeView};

verus! {

/// `b` is a neighbour of `a`.
pub open spec fn adjacent(m: MazeView, a: int, b: int) -> bool {
    exists|d: Direction| #[trigger] m.neighbor(a, d) == Some(b)
}

/// `path` is a way through the maze: its cells are cells of the grid that
/// are not walls, and each is a neighbour of the one before it.
pub open spec fn is_path(m: MazeView, path: Seq<int>) -> bool {
    &&& path.len() >= 1
    &&& forall|i: int|
        0 <= i < path.len() ==> 0 <= #[trigger] path[i] < m.len() && m.kinds[path[i]]
            != MazeCellType::Wall
    &&& forall|i: int| 0 <= i < path.len() - 1 ==> adjacent(m, #[trigger] path[i], path[i + 1])
}

/// There is a way through the maze from `a` to `b`.
pub open spec fn linked(m: MazeView, a: int, b: int) -> bool {
    exists|path: Seq<int>| #[trigger] is_path(m, path) && path[0] == a && path.last() == b
}

/// `after` has every passage that `before` has: the grids have the same
/// size, and what is not a wall in `before` is not a wall in `after`.
pub open spec fn opened(before: MazeView, after: MazeView) -> bool {
    &&& after.width == before.width
    &&& after.height == before.height
    &&& forall|i: int|
        0 <= i < before.len() && before.kinds[i] != MazeCellType::Wall
            ==> #[trigger] after.kinds[i] != MazeCellType::Wall
}

/// Being neighbours goes both ways.
pub proof fn lemma_adjacent_symmetric(m: MazeView, a: int, b: int)
    requires
        adjacent(m, a, b),
    ensures
        adjacent(m, b, a),
{
    let d = choose|d: Direction| #[trigger] m.neighbor(a, d) == Some(b);
    lemma_neighbor_in_grid(m.width, m.height, a, d);
    assert(m.neighbor(b, d.spec_opposite()) == Some(a));
}

/// A cell that is not a wall is linked to itself.
pub proof fn lemma_linked_self(m: MazeView, a: int)
    requires
        0 <= a < m.len(),
        m.kinds[a] != MazeCellType::Wall,
    ensures
        linked(m, a, a),
{
    let path = seq![a];
    assert(is_path(m, path));
    assert(path[0] == a && path.last() == a);
}

/// A way can be taken one step further.
pub proof fn lemma_linked_step(m: MazeView, a: int, b: int, c: int)
    requires
        linked(m, a, b),
        adjacent(m, b, c),
        0 <= c < m.len(),
        m.kinds[c] != MazeCellType::Wall,
    ensures
        linked(m, a, c),
{
    let path = choose|path: Seq<int>| #[trigger] is_path(m, path) && path[0] == a && path.last()
        == b;
    let longer = path.push(c);
    assert forall|i: int| 0 <= i < longer.len() - 1 implies adjacent(
        m,
        #[trigger] longer[i],
        longer[i + 1],
    ) by {
        if i < path.len() - 1 {
            assert(adjacent(m, path[i], path[i + 1]));
        }
    }
    assert(is_path(m, longer));
    assert(longer[0] == a && longer.last() == c);
}

/// A way stays a way when walls become passages.
pub proof fn lemma_linked_opened(before: MazeView, after: MazeView, a: int, b: int)
    requires
        linked(before, a, b),
        opened(before, after),
    ensures
        linked(after, a, b),
{
    let path = choose|path: Seq<int>| #[trigger]
        is_path(before, path) && path[0] == a && path.last() == b;
    assert forall|i: int| 0 <= i < path.len() - 1 implies adjacent(
        after,
        #[trigger] path[i],
        path[i + 1],
    ) by {
        assert(adjacent(before, path[i], path[i + 1]));
        let d = choose|d: Direction| #[trigger] before.neighbor(path[i], d) == Some(path[i + 1]);
        assert(after.neighbor(path[i], d) == Some(path[i + 1]));
    }
    assert forall|i: int| 0 <= i < path.len() implies 0 <= #[trigger] path[i] < after.len()
        && after.kinds[path[i]] != MazeCellType::Wall by {
        assert(before.kinds[path[i]] != MazeCellType::Wall);
    }
    assert(is_path(after, path));
}

/// A way can be walked backwards.
pub proof fn lemma_linked_symmetric(m: MazeView, a: int, b: int)
    requires
        linked(m, a, b),
    ensures
        linked(m, b, a),
{
    let path = choose|path: Seq<int>| #[trigger] is_path(m, path) && path[0] == a && path.last()
        == b;
    let back = path.reverse();
    assert forall|i: int| 0 <= i < back.len() - 1 implies adjacent(
        m,
        #[trigger] back[i],
        back[i + 1],
    ) by {
        let j = path.len() - 2 - i;
        assert(adjacent(m, path[j], path[j + 1]));
        lemma_adjacent_symmetric(m, path[j], path[j + 1]);
    }
    assert(is_path(m, back));
    assert(back[0] == b && back.last() == a);
}

/// Two ways that meet make one way.
pub proof fn lemma_linked_transitive(m: MazeView, a: int, b: int, c: int)
    requires
        linked(m, a, b),
        linked(m, b, c),
    ensures
        linked(m, a, c),
{
    let first = choose|path: Seq<int>| #[trigger] is_path(m, path) && path[0] == a && path.last()
        == b;
    let second = choose|path: Seq<int>| #[trigger]
        is_path(m, path) && path[0] == b && path.last() == c;
    let whole = first + second.drop_first();
    assert forall|i: int| 0 <= i < whole.len() implies 0 <= #[trigger] whole[i] < m.len()
        && m.kinds[whole[i]] != MazeCellType::Wall by {
        if i < first.len() {
            assert(whole[i] == first[i]);
        } else {
            assert(whole[i] == second[i - first.len() + 1]);
        }
    }
    assert forall|i: int| 0 <= i < whole.len() - 1 implies adjacent(
        m,
        #[trigger] whole[i],
        whole[i + 1],
    ) by {
        if i < first.len() - 1 {
            assert(adjacent(m, first[i], first[i + 1]));
        } else {
            let j = i - first.len() + 1;
            assert(adjacent(m, second[j], second[j + 1]));
            if i == first.len() - 1 {
                assert(whole[i] == first.last());
            } else {
                assert(whole[i] == second[j]);
            }
            assert(whole[i + 1] == second[j + 1]);
        }
    }
    assert(is_path(m, whole));
    assert(whole[0] == a);
    if second.len() == 1 {
        assert(whole =~= first);
    } else {
        assert(whole.last() == second.last());
    }
}

/// `cycle` is a round trip through the maze: three or more different cells
/// that are not walls, each next to the one before it, and the first next
/// to the last.
pub open spec fn is_cycle(m: MazeView, cycle: Seq<int>) -> bool {
    &&& cycle.len() >= 3
    &&& forall|i: int|
        0 <= i < cycle.len() ==> 0 <= #[trigger] cycle[i] < m.len() && m.kinds[cycle[i]]
            != MazeCellType::Wall
    &&& forall|i: int, j: int| 0 <= i < j < cycle.len() ==> cycle[i] != cycle[j]
    &&& forall|i: int|
        0 <= i < cycle.len() ==> adjacent(m, #[trigger] cycle[i], cycle[(i + 1) % (cycle.len() as int)])
}

/// The maze has no round trip.
pub open spec fn acyclic(m: MazeView) -> bool {
    forall|cycle: Seq<int>| !is_cycle(m, cycle)
}

/// The numbers `depth` rank the cells of the maze that are not walls:
/// neighbours differ by one, and no cell has two neighbours below it.
pub open spec fn ranked(m: MazeView, depth: Seq<int>) -> bool {
    &&& depth.len() == m.len()
    &&& forall|a: int, d: Direction|
        0 <= a < m.len() && m.kinds[a] != MazeCellType::Wall && (#[trigger] m.open_neighbor(a, d))
            is Some ==> depth[m.open_neighbor(a, d)->0] == depth[a] + 1 || depth[m.open_neighbor(
            a,
            d,
        )->0] == depth[a] - 1
    &&& forall|a: int, d: Direction, e: Direction|
        0 <= a < m.len() && m.kinds[a] != MazeCellType::Wall && (#[trigger] m.open_neighbor(a, d))
            is Some && (#[trigger] m.open_neighbor(a, e)) is Some && depth[m.open_neighbor(
            a,
            d,
        )->0] < depth[a] && depth[m.open_neighbor(a, e)->0] < depth[a] ==> d == e
}

/// The cells of the maze that are not walls can be ranked.
pub open spec fn rankable(m: MazeView) -> bool {
    exists|depth: Seq<int>| ranked(m, depth)
}

/// Among the first `n` cells of a sequence, one has the highest rank.
pub proof fn lemma_highest(depth: Seq<int>, cells: Seq<int>, n: int) -> (k: int)
    requires
        1 <= n <= cells.len(),
    ensures
        0 <= k < n,
        forall|i: int| 0 <= i < n ==> depth[cells[i]] <= depth[cells[k]],
    decreases n,
{
    if n == 1 {
        0
    } else {
        let k = lemma_highest(depth, cells, n - 1);
        if depth[cells[n - 1]] > depth[cells[k]] {
            n - 1
        } else {
            k
        }
    }
}

/// A maze whose cells can be ranked has no round trip: the highest cell of
/// a round trip would have two neighbours below it.
pub proof fn lemma_ranked_acyclic(m: MazeView, depth: Seq<int>)
    requires
        ranked(m, depth),
    ensures
        acyclic(m),
{
    assert forall|cycle: Seq<int>| !is_cycle(m, cycle) by {
        if is_cycle(m, cycle) {
            let n = cycle.len() as int;
            let k = lemma_highest(depth, cycle, n);
            let a = cycle[k];
            let after = if k + 1 < n {
                k + 1
            } else {
                0
            };
            let before = if k > 0 {
                k - 1
            } else {
                n - 1
            };
            assert((k + 1) % n == after) by (nonlinear_arith)
                requires
                    0 <= k < n,
                    after == if k + 1 < n {
                        k + 1
                    } else {
                        0int
                    },
            ;
            assert((before + 1) % n == k) by (nonlinear_arith)
                requires
                    0 <= k < n,
                    before == if k > 0 {
                        k - 1
                    } else {
                        n - 1
                    },
            ;
            let next = cycle[after];
            let prev = cycle[before];
            assert(adjacent(m, cycle[k], cycle[(k + 1) % n]));
            assert(adjacent(m, cycle[before], cycle[(before + 1) % n]));
            lemma_adjacent_symmetric(m, prev, a);
            let d = choose|d: Direction| #[trigger] m.neighbor(a, d) == Some(next);
            let e = choose|e: Direction| #[trigger] m.neighbor(a, e) == Some(prev);
            assert(m.open_neighbor(a, d) == Some(next));
            assert(m.open_neighbor(a, e) == Some(prev));
            assert(before != after);
            if before < after {
                assert(cycle[before] != cycle[after]);
            } else {
                assert(cycle[after] != cycle[before]);
            }
            assert(d != e);
            assert(depth[next] <= depth[a]);
            assert(depth[prev] <= depth[a]);
        }
    }
}

/// Every neighbour that is not a wall is a neighbour.
pub proof fn lemma_open_neighbors_adjacent(m: MazeView, position: int)
    ensures
        forall|k: int|
            0 <= k < m.open_neighbors(position).len() ==> adjacent(
                m,
                position,
                #[trigger] m.open_neighbors(position)[k],
            ),
{
    let all = m.open_neighbors(position);
    let north = m.open_neighbor(position, Direction::North);
    let east = m.open_neighbor(position, Direction::East);
    let west = m.open_neighbor(position, Direction::West);
    let south = m.open_neighbor(position, Direction::South);
    assert forall|k: int| 0 <= k < all.len() implies adjacent(m, position, #[trigger] all[k]) by {
        let c = all[k];
        assert(north == Some(c) || east == Some(c) || west == Some(c) || south == Some(c));
        if north == Some(c) {
            assert(m.neighbor(position, Direction::North) == Some(c));
        } else if east == Some(c) {
            assert(m.neighbor(position, Direction::East) == Some(c));
        } else if west == Some(c) {
            assert(m.neighbor(position, Direction::West) == Some(c));
        } else {
            assert(m.neighbor(position, Direction::South) == Some(c));
        }
    }
}

/// The marks `marks` with a mark on every cell of `path` besides.
pub open spec fn marked_along(marks: Seq<bool>, path: Seq<int>) -> Seq<bool> {
    Seq::new(marks.len(), |i: int| marks[i] || path.contains(i))
}

/// Whether two cells are neighbours depends on the size of the grid only.
pub proof fn lemma_adjacent_same_size(a: MazeView, b: MazeView, x: int, y: int)
    requires
        a.width == b.width,
        a.height == b.height,
    ensures
        adjacent(a, x, y) == adjacent(b, x, y),
{
    if adjacent(a, x, y) {
        let d = choose|d: Direction| #[trigger] a.neighbor(x, d) == Some(y);
        assert(b.neighbor(x, d) == Some(y));
    }
    if adjacent(b, x, y) {
        let d = choose|d: Direction| #[trigger] b.neighbor(x, d) == Some(y);
        assert(a.neighbor(x, d) == Some(y));
    }
}

/// A way through a maze is a way through every maze of the same size with
/// the same kinds of cells.
pub proof fn lemma_path_same_cells(a: MazeView, b: MazeView, path: Seq<int>)
    requires
        a.width == b.width,
        a.height == b.height,
        a.kinds == b.kinds,
        is_path(a, path),
    ensures
        is_path(b, path),
{
    assert forall|i: int| 0 <= i < path.len() - 1 implies adjacent(
        b,
        #[trigger] path[i],
        path[i + 1],
    ) by {
        assert(adjacent(a, path[i], path[i + 1]));
        lemma_adjacent_same_size(a, b, path[i], path[i + 1]);
    }
}

/// Cells that a way joins in a maze are joined in every maze of the same
/// size with the same kinds of cells.
pub proof fn lemma_linked_same_cells(a: MazeView, b: MazeView, x: int, y: int)
    requires
        a.width == b.width,
        a.height == b.height,
        a.kinds == b.kinds,
        linked(a, x, y),
    ensures
        linked(b, x, y),
{
    let path = choose|path: Seq<int>| #[trigger] is_path(a, path) && path[0] == x && path.last() == y;
    lemma_path_same_cells(a, b, path);
}

/// Numbers that rank the cells of a maze rank the cells of every maze of
/// the same size with the same kinds of cells.
pub proof fn lemma_ranked_same_cells(a: MazeView, b: MazeView, depth: Seq<int>)
    requires
        a.width == b.width,
        a.height == b.height,
        a.kinds == b.kinds,
        ranked(a, depth),
    ensures
        ranked(b, depth),
{
    assert forall|x: int, d: Direction| b.open_neighbor(x, d) == a.open_neighbor(x, d) by {}
    assert forall|x: int, d: Direction|
        0 <= x < b.len() && b.kinds[x] != MazeCellType::Wall && (#[trigger] b.open_neighbor(x, d))
            is Some implies depth[b.open_neighbor(x, d)->0] == depth[x] + 1 || depth[b.open_neighbor(
        x,
        d,
    )->0] == depth[x] - 1 by {
        assert(a.open_neighbor(x, d) is Some);
    }
    assert forall|x: int, d: Direction, e: Direction|
        0 <= x < b.len() && b.kinds[x] != MazeCellType::Wall && (#[trigger] b.open_neighbor(x, d))
            is Some && (#[trigger] b.open_neighbor(x, e)) is Some && depth[b.open_neighbor(
            x,
            d,
        )->0] < depth[x] && depth[b.open_neighbor(x, e)->0] < depth[x] implies d == e by {
        assert(a.open_neighbor(x, d) is Some);
        assert(a.open_neighbor(x, e) is Some);
    }
}

/// To mark a cell and then the cells of a way is to mark the cells of the
/// way that begins with that cell.
pub proof fn lemma_marked_along_first(marks: Seq<bool>, first: int, rest: Seq<int>)
    requires
        0 <= first < marks.len(),
    ensures
        marked_along(marks.update(first, true), rest) == marked_along(marks, seq![first] + rest),
{
    let path = seq![first] + rest;
    let left = marked_along(marks.update(first, true), rest);
    let right = marked_along(marks, path);
    assert forall|i: int| 0 <= i < left.len() implies left[i] == right[i] by {
        if i == first {
            assert(path[0] == i);
        }
        if rest.contains(i) {
            let j = choose|j: int| 0 <= j < rest.len() && rest[j] == i;
            assert(path[j + 1] == i);
        }
        if path.contains(i) {
            let j = choose|j: int| 0 <= j < path.len() && path[j] == i;
            if j > 0 {
                assert(rest[j - 1] == i);
            }
        }
    }
    assert(left =~= right);
}

} // verus!
