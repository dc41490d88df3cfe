//! What the carving keeps true of the grid, and what follows for the maze
//! it leaves: every room is carved, and every passage can be reached.
//!
//! A room is a cell in an odd column and an odd row that is not on the
//! edge of the grid. The carving digs from room to room; the cell between
//! two rooms joins them.

use vstd::prelude::*;
use crate::connectivity::{
    acyclic,
    adjacent,
    lemma_ranked_acyclic,
    ranked,
    lemma_linked_opened,
    lemma_linked_self,
    lemma_linked_step,
    lemma_linked_symmetric,
    lemma_linked_transitive,
    linked,
    opened,
};
use crate::direction::{all_directions, lemma_direction_laws, without_first, Direction};
use crate::generator::{
    carved,
    check_around,
    dig_check,
    dig_target,
    dug,
    has_frame,
    interior,
    lemma_dig_stays_inside,
    lemma_diggable,
    odd_place_in_row,
    sides_diggable,
    DigCheck,
};
use crate::maze::{
    column_of,
    lemma_neighbor_in_grid,
    lemma_position_of,
    lemma_row_in_grid,
    row_of,
    MazeCellType,
    MazeView,
};

verus! {

/// The cell is a room: in an odd column and an odd row, not on the edge.
pub open spec fn room(m: MazeView, p: int) -> bool {
    &&& interior(m, p)
    &&& column_of(m.width, p) % 2 == 1
    &&& row_of(m.width, p) % 2 == 1
}

/// The cell lies between two rooms, side by side or one above the other,
/// and both are passages.
pub open spec fn joins_rooms(m: MazeView, p: int) -> bool {
    ||| {
        &&& column_of(m.width, p) % 2 == 0
        &&& row_of(m.width, p) % 2 == 1
        &&& m.kinds[p - 1] == MazeCellType::Passage
        &&& m.kinds[p + 1] == MazeCellType::Passage
    }
    ||| {
        &&& column_of(m.width, p) % 2 == 1
        &&& row_of(m.width, p) % 2 == 0
        &&& m.kinds[p - m.width] == MazeCellType::Passage
        &&& m.kinds[p + m.width] == MazeCellType::Passage
    }
}

/// Every passage is a room or joins two rooms that are passages.
pub open spec fn orderly(m: MazeView) -> bool {
    forall|p: int|
        0 <= p < m.len() && (#[trigger] m.kinds[p]) == MazeCellType::Passage ==> room(m, p)
            || joins_rooms(m, p)
}

/// Every frame of the stack stands at a room that is a passage.
pub open spec fn frames_at_rooms(m: MazeView, stack: Seq<(usize, Direction)>) -> bool {
    forall|k: int|
        0 <= k < stack.len() ==> room(m, (#[trigger] stack[k]).0 as int) && m.kinds[stack[k].0 as int]
            == MazeCellType::Passage
}

/// From every room that is a passage, every room two steps away is a
/// passage too, or the stack still holds the frame to try it.
pub open spec fn explored(m: MazeView, stack: Seq<(usize, Direction)>) -> bool {
    forall|v: int, d: Direction|
        room(m, v) && m.kinds[v] == MazeCellType::Passage && (#[trigger] dig_target(m, v, d))
            is Some && interior(m, dig_target(m, v, d)->0) ==> m.kinds[dig_target(m, v, d)->0]
            == MazeCellType::Passage || stack.contains((v as usize, d))
}

/// Every passage can be reached from `origin`.
pub open spec fn reachable(m: MazeView, origin: int) -> bool {
    forall|p: int|
        0 <= p < m.len() && (#[trigger] m.kinds[p]) == MazeCellType::Passage ==> linked(
            m,
            origin,
            p,
        )
}

/// Every room is a passage.
pub open spec fn rooms_carved(m: MazeView) -> bool {
    forall|p: int| 0 <= p < m.len() && room(m, p) ==> (#[trigger] m.kinds[p])
        == MazeCellType::Passage
}

/// What holds of the grid, of the cell where the carving began and of the
/// stack while the carving goes on.
pub open spec fn carving(m: MazeView, origin: int, stack: Seq<(usize, Direction)>) -> bool {
    &&& m.wf()
    &&& m.len() <= usize::MAX
    &&& carved(m)
    &&& orderly(m)
    &&& frames_at_rooms(m, stack)
    &&& explored(m, stack)
    &&& reachable(m, origin)
    &&& room(m, origin)
    &&& row_of(m.width, origin) == 1
    &&& m.kinds[origin] == MazeCellType::Passage
}

/// A cell that is not on the edge has a neighbour on every side.
pub proof fn lemma_interior_neighbors(m: MazeView, p: int)
    requires
        m.wf(),
        interior(m, p),
    ensures
        m.neighbor(p, Direction::North) == Some(p - m.width),
        m.neighbor(p, Direction::South) == Some(p + m.width),
        m.neighbor(p, Direction::East) == Some(p + 1),
        m.neighbor(p, Direction::West) == Some(p - 1),
        column_of(m.width, p - m.width) == column_of(m.width, p),
        column_of(m.width, p + m.width) == column_of(m.width, p),
        column_of(m.width, p + 1) == column_of(m.width, p) + 1,
        column_of(m.width, p - 1) == column_of(m.width, p) - 1,
        row_of(m.width, p - m.width) == row_of(m.width, p) - 1,
        row_of(m.width, p + m.width) == row_of(m.width, p) + 1,
        row_of(m.width, p + 1) == row_of(m.width, p),
        row_of(m.width, p - 1) == row_of(m.width, p),
        0 <= p - m.width,
        p + m.width < m.len(),
{
    let w = m.width;
    let h = m.height;
    let c = column_of(w, p);
    let r = row_of(w, p);
    lemma_row_in_grid(w, h, p);
    assert(p == c + r * w);
    assert(r * w >= w) by (nonlinear_arith)
        requires
            r >= 1,
            w > 0,
    ;
    assert(r * w + w <= (h - 1) * w) by (nonlinear_arith)
        requires
            r <= h - 2,
            w > 0,
    ;
    assert((h - 1) * w + w == w * h) by (nonlinear_arith);
    lemma_neighbor_in_grid(w, h, p, Direction::North);
    lemma_neighbor_in_grid(w, h, p, Direction::South);
    lemma_neighbor_in_grid(w, h, p, Direction::East);
    lemma_neighbor_in_grid(w, h, p, Direction::West);
}

/// The cell two steps from a room, where the grid has one, lies in a
/// column and a row of rooms; if it is not on the edge it is a room.
pub proof fn lemma_two_steps(m: MazeView, v: int, d: Direction)
    requires
        m.wf(),
        room(m, v),
        dig_target(m, v, d) is Some,
    ensures
        column_of(m.width, dig_target(m, v, d)->0) % 2 == 1,
        row_of(m.width, dig_target(m, v, d)->0) % 2 == 1,
        0 <= dig_target(m, v, d)->0 < m.len(),
        interior(m, m.neighbor(v, d)->0),
        !room(m, m.neighbor(v, d)->0),
        m.neighbor(dig_target(m, v, d)->0, d.spec_opposite()) == Some(m.neighbor(v, d)->0),
        m.neighbor(m.neighbor(v, d)->0, d.spec_opposite()) == Some(v),
        d == Direction::East ==> m.neighbor(v, d)->0 == v + 1 && dig_target(m, v, d)->0 == v + 2,
        d == Direction::West ==> m.neighbor(v, d)->0 == v - 1 && dig_target(m, v, d)->0 == v - 2,
        d == Direction::North ==> m.neighbor(v, d)->0 == v - m.width && dig_target(m, v, d)->0
            == v - 2 * m.width,
        d == Direction::South ==> m.neighbor(v, d)->0 == v + m.width && dig_target(m, v, d)->0
            == v + 2 * m.width,
        (d == Direction::East || d == Direction::West) ==> column_of(m.width, m.neighbor(v, d)->0)
            % 2 == 0 && row_of(m.width, m.neighbor(v, d)->0) % 2 == 1,
        (d == Direction::North || d == Direction::South) ==> column_of(
            m.width,
            m.neighbor(v, d)->0,
        ) % 2 == 1 && row_of(m.width, m.neighbor(v, d)->0) % 2 == 0,
{
    let mid = m.neighbor(v, d)->0;
    let target = dig_target(m, v, d)->0;
    lemma_interior_neighbors(m, v);
    lemma_neighbor_in_grid(m.width, m.height, v, d);
    lemma_neighbor_in_grid(m.width, m.height, mid, d);
    lemma_row_in_grid(m.width, m.height, mid);
    lemma_row_in_grid(m.width, m.height, target);
}

/// A wall in the place of a room has walls all round it, so it can be dug
/// to from a room two steps away.
#[verifier::rlimit(80)]
#[verifier::spinoff_prover]
pub proof fn lemma_wall_room_is_diggable(m: MazeView, v: int, d: Direction)
    requires
        m.wf(),
        carved(m),
        orderly(m),
        room(m, v),
        dig_target(m, v, d) is Some,
        interior(m, dig_target(m, v, d)->0),
        m.kinds[dig_target(m, v, d)->0] == MazeCellType::Wall,
    ensures
        dig_check(m, v, d) == DigCheck::Diggable,
        m.kinds[m.neighbor(v, d)->0] == MazeCellType::Wall,
{
    let mid = m.neighbor(v, d)->0;
    let r = dig_target(m, v, d)->0;
    lemma_two_steps(m, v, d);
    lemma_interior_neighbors(m, r);
    lemma_direction_laws(d);
    let w = m.width;
    assert forall|e: Direction| (#[trigger] m.neighbor(r, e)) is Some && m.kinds[m.neighbor(
        r,
        e,
    )->0] == MazeCellType::Wall by {
        let n = m.neighbor(r, e)->0;
        lemma_neighbor_in_grid(m.width, m.height, r, e);
        if m.kinds[n] != MazeCellType::Wall {
            assert(m.kinds[n] == MazeCellType::Passage);
            assert(room(m, n) || joins_rooms(m, n));
            match e {
                Direction::East => {
                    assert(m.kinds[n - 1] == MazeCellType::Passage);
                },
                Direction::West => {
                    assert(m.kinds[n + 1] == MazeCellType::Passage);
                },
                Direction::North => {
                    assert(m.kinds[n + w] == MazeCellType::Passage);
                },
                Direction::South => {
                    assert(m.kinds[n - w] == MazeCellType::Passage);
                },
            }
        }
    }
    assert(m.neighbor(r, d.spec_opposite()) == Some(mid));
    assert(m.kinds[mid] == MazeCellType::Wall);
    assert(sides_diggable(m, r, d)) by {
        assert(m.neighbor(r, Direction::East) is Some);
        assert(m.neighbor(r, Direction::West) is Some);
        assert(m.neighbor(r, Direction::North) is Some);
        assert(m.neighbor(r, Direction::South) is Some);
    }
    let directions = without_first(all_directions(), d.spec_opposite());
    crate::direction::lemma_first_index_of(all_directions(), d.spec_opposite());
    lemma_direction_laws(d.spec_opposite());
    assert(all_directions().contains(d.spec_opposite())) by {
        assert(all_directions()[d.spec_opposite().spec_index()] == d.spec_opposite());
    }
    assert(directions.len() == 3);
    reveal_with_fuel(check_around, 4);
    assert(m.neighbor(r, directions[0]) is Some);
    assert(m.neighbor(r, directions[1]) is Some);
    assert(m.neighbor(r, directions[2]) is Some);
    assert(check_around(m, r, directions, 0) == DigCheck::Diggable);
}

/// The grid after a digging from the room `v` in direction `d`: the cell
/// in between and the room beyond are passages, and nothing else changed.
pub open spec fn after_dig(m: MazeView, v: int, d: Direction) -> MazeView {
    MazeView { kinds: dug(m.kinds, m.neighbor(v, d)->0, dig_target(m, v, d)->0), ..m }
}

/// A digging keeps the grid in order.
#[verifier::rlimit(80)]
#[verifier::spinoff_prover]
pub proof fn lemma_dig_keeps_order(m: MazeView, origin: int, v: int, d: Direction)
    requires
        m.wf(),
        carved(m),
        orderly(m),
        reachable(m, origin),
        room(m, v),
        m.kinds[v] == MazeCellType::Passage,
        dig_check(m, v, d) == DigCheck::Diggable,
        m.kinds[m.neighbor(v, d)->0] == MazeCellType::Wall,
    ensures
        after_dig(m, v, d).wf(),
        carved(after_dig(m, v, d)),
        orderly(after_dig(m, v, d)),
        reachable(after_dig(m, v, d), origin),
        opened(m, after_dig(m, v, d)),
        room(m, dig_target(m, v, d)->0),
        m.kinds[dig_target(m, v, d)->0] == MazeCellType::Wall,
        after_dig(m, v, d).kinds[dig_target(m, v, d)->0] == MazeCellType::Passage,
        after_dig(m, v, d).kinds[m.neighbor(v, d)->0] == MazeCellType::Passage,
        forall|i: int|
            0 <= i < m.len() && i != m.neighbor(v, d)->0 && i != dig_target(m, v, d)->0
                ==> #[trigger] after_dig(m, v, d).kinds[i] == m.kinds[i],
{
    let mid = m.neighbor(v, d)->0;
    let r = dig_target(m, v, d)->0;
    let n = after_dig(m, v, d);
    lemma_diggable(m, v, d);
    lemma_dig_stays_inside(m, v, d);
    lemma_two_steps(m, v, d);
    assert(m.kinds[r] == MazeCellType::Wall);
    assert(room(m, r));
    assert(n.kinds =~= m.kinds.update(mid, MazeCellType::Passage).update(
        r,
        MazeCellType::Passage,
    ));
    assert(n.len() == m.len());
    assert forall|i: int| 0 <= i < n.len() implies interior(n, i) == interior(m, i) by {}
    assert(carved(n)) by {
        assert forall|i: int| 0 <= i < n.len() implies (#[trigger] n.kinds[i])
            == MazeCellType::Wall || n.kinds[i] == MazeCellType::Passage by {
            assert(m.kinds[i] == MazeCellType::Wall || m.kinds[i] == MazeCellType::Passage);
        }
        assert forall|i: int| 0 <= i < n.len() && !interior(n, i) implies (#[trigger] n.kinds[i])
            == MazeCellType::Wall by {
            assert(m.kinds[i] == MazeCellType::Wall);
        }
    }
    assert(orderly(n)) by {
        assert forall|p: int|
            0 <= p < n.len() && (#[trigger] n.kinds[p]) == MazeCellType::Passage implies room(n, p)
            || joins_rooms(n, p) by {
            if p == r {
                assert(room(n, r));
            } else if p == mid {
                assert(joins_rooms(n, mid));
            } else {
                assert(m.kinds[p] == MazeCellType::Passage);
                assert(room(m, p) || joins_rooms(m, p));
                if room(m, p) {
                    assert(room(n, p));
                } else {
                    assert(interior(m, p));
                    lemma_interior_neighbors(m, p);
                    assert(joins_rooms(n, p));
                }
            }
        }
    }
    assert(opened(m, n));
    assert(reachable(n, origin)) by {
        assert(m.kinds[v] == MazeCellType::Passage);
        assert(linked(m, origin, v));
        lemma_linked_opened(m, n, origin, v);
        assert(n.neighbor(v, d) == Some(mid));
        assert(adjacent(n, v, mid));
        lemma_linked_step(n, origin, v, mid);
        assert(n.neighbor(mid, d) == Some(r));
        assert(adjacent(n, mid, r));
        lemma_linked_step(n, origin, mid, r);
        assert forall|p: int|
            0 <= p < n.len() && (#[trigger] n.kinds[p]) == MazeCellType::Passage implies linked(
            n,
            origin,
            p,
        ) by {
            if p != r && p != mid {
                assert(m.kinds[p] == MazeCellType::Passage);
                lemma_linked_opened(m, n, origin, p);
            }
        }
    }
}

/// After a digging, every room two steps from a carved room is carved or
/// still to be tried: the frames of the new room are all on the stack.
#[verifier::rlimit(80)]
#[verifier::spinoff_prover]
pub proof fn lemma_dig_keeps_explored(
    m: MazeView,
    origin: int,
    frames: Seq<(usize, Direction)>,
    stack: Seq<(usize, Direction)>,
)
    requires
        frames.len() > 0,
        carving(m, origin, frames),
        dig_check(m, frames.last().0 as int, frames.last().1) == DigCheck::Diggable,
        m.kinds[m.neighbor(frames.last().0 as int, frames.last().1)->0] == MazeCellType::Wall,
        stack.len() == frames.len() - 1 + 4,
        stack.subrange(0, frames.len() - 1) == frames.drop_last(),
        forall|k: int|
            frames.len() - 1 <= k < stack.len() ==> (#[trigger] stack[k]).0 == dig_target(
                m,
                frames.last().0 as int,
                frames.last().1,
            )->0,
        forall|e: Direction| #[trigger]
            has_frame(
                stack,
                frames.len() - 1,
                dig_target(m, frames.last().0 as int, frames.last().1)->0 as usize,
                e,
            ),
    ensures
        carving(after_dig(m, frames.last().0 as int, frames.last().1), origin, stack),
{
    let v = frames.last().0 as int;
    let d = frames.last().1;
    let mid = m.neighbor(v, d)->0;
    let r = dig_target(m, v, d)->0;
    let n = after_dig(m, v, d);
    assert(room(m, v) && m.kinds[v] == MazeCellType::Passage);
    lemma_dig_keeps_order(m, origin, v, d);
    lemma_two_steps(m, v, d);
    assert forall|i: int| 0 <= i < n.len() implies room(n, i) == room(m, i) by {}
    assert(frames_at_rooms(n, stack)) by {
        assert forall|k: int| 0 <= k < stack.len() implies room(n, (#[trigger] stack[k]).0 as int)
            && n.kinds[stack[k].0 as int] == MazeCellType::Passage by {
            if k < frames.len() - 1 {
                assert(stack[k] == stack.subrange(0, frames.len() - 1)[k]);
                assert(stack[k] == frames[k]);
                assert(room(m, frames[k].0 as int));
                assert(m.kinds[frames[k].0 as int] == MazeCellType::Passage);
            } else {
                assert(stack[k].0 == r);
            }
        }
    }
    assert(explored(n, stack)) by {
        assert forall|a: int, e: Direction|
            room(n, a) && n.kinds[a] == MazeCellType::Passage && (#[trigger] dig_target(n, a, e))
                is Some && interior(n, dig_target(n, a, e)->0) implies n.kinds[dig_target(
            n,
            a,
            e,
        )->0] == MazeCellType::Passage || stack.contains((a as usize, e)) by {
            let t = dig_target(n, a, e)->0;
            assert(dig_target(m, a, e) == dig_target(n, a, e));
            if n.kinds[t] != MazeCellType::Passage {
                if a == r {
                    assert(has_frame(stack, frames.len() - 1, r as usize, e));
                    let k = choose|k: int|
                        frames.len() - 1 <= k < stack.len() && #[trigger] stack[k] == (
                            r as usize,
                            e,
                        );
                    assert(stack.contains((a as usize, e)));
                } else {
                    assert(a != mid);
                    assert(m.kinds[a] == MazeCellType::Passage);
                    assert(room(m, a));
                    assert(m.kinds[t] != MazeCellType::Passage);
                    assert(frames.contains((a as usize, e)));
                    let j = choose|j: int| 0 <= j < frames.len() && frames[j] == (a as usize, e);
                    if j == frames.len() - 1 {
                        assert(a == v && e == d);
                        assert(t == r);
                    } else {
                        assert(stack.subrange(0, frames.len() - 1)[j] == frames.drop_last()[j]);
                        assert(stack[j] == (a as usize, e));
                    }
                }
            }
        }
    }
}

/// A frame that cannot be dug can be dropped: the room it leads to is a
/// passage already, or is no room.
pub proof fn lemma_skip_keeps_explored(
    m: MazeView,
    origin: int,
    frames: Seq<(usize, Direction)>,
)
    requires
        frames.len() > 0,
        carving(m, origin, frames),
        !(dig_check(m, frames.last().0 as int, frames.last().1) == DigCheck::Diggable && m.kinds[m.neighbor(
            frames.last().0 as int,
            frames.last().1,
        )->0] == MazeCellType::Wall),
    ensures
        carving(m, origin, frames.drop_last()),
{
    let v = frames.last().0 as int;
    let d = frames.last().1;
    let rest = frames.drop_last();
    assert(room(m, v) && m.kinds[v] == MazeCellType::Passage);
    assert(frames_at_rooms(m, rest)) by {
        assert forall|k: int| 0 <= k < rest.len() implies room(m, (#[trigger] rest[k]).0 as int)
            && m.kinds[rest[k].0 as int] == MazeCellType::Passage by {
            assert(rest[k] == frames[k]);
        }
    }
    assert(explored(m, rest)) by {
        assert forall|a: int, e: Direction|
            room(m, a) && m.kinds[a] == MazeCellType::Passage && (#[trigger] dig_target(m, a, e))
                is Some && interior(m, dig_target(m, a, e)->0) implies m.kinds[dig_target(
            m,
            a,
            e,
        )->0] == MazeCellType::Passage || rest.contains((a as usize, e)) by {
            let t = dig_target(m, a, e)->0;
            if m.kinds[t] != MazeCellType::Passage {
                assert(frames.contains((a as usize, e)));
                let j = choose|j: int| 0 <= j < frames.len() && frames[j] == (a as usize, e);
                if j == frames.len() - 1 {
                    assert(a == v && e == d);
                    assert(m.kinds[t] == MazeCellType::Wall);
                    lemma_wall_room_is_diggable(m, v, d);
                } else {
                    assert(rest[j] == (a as usize, e));
                }
            }
        }
    }
}

/// The grid with one room carved, and the frames for its four directions,
/// is where the carving begins.
pub proof fn lemma_carving_begins(
    blank: MazeView,
    m: MazeView,
    origin: int,
    stack: Seq<(usize, Direction)>,
)
    requires
        blank.wf(),
        blank.len() <= usize::MAX,
        blank.height >= 3,
        forall|i: int| 0 <= i < blank.len() ==> blank.kinds[i] == MazeCellType::Wall,
        odd_place_in_row(blank, origin, 1),
        m == (MazeView { kinds: blank.kinds.update(origin, MazeCellType::Passage), ..blank }),
        stack.len() == 4,
        forall|k: int| 0 <= k < stack.len() ==> (#[trigger] stack[k]).0 == origin,
        forall|e: Direction| #[trigger] has_frame(stack, 0, origin as usize, e),
    ensures
        carving(m, origin, stack),
{
    lemma_row_in_grid(blank.width, blank.height, origin);
    assert(room(m, origin));
    assert(m.kinds[origin] == MazeCellType::Passage);
    assert forall|p: int|
        0 <= p < m.len() && (#[trigger] m.kinds[p]) == MazeCellType::Passage implies p
        == origin by {
        if p != origin {
            assert(blank.kinds[p] == MazeCellType::Wall);
        }
    }
    assert(carved(m)) by {
        assert forall|i: int| 0 <= i < m.len() implies (#[trigger] m.kinds[i])
            == MazeCellType::Wall || m.kinds[i] == MazeCellType::Passage by {
            if i != origin {
                assert(blank.kinds[i] == MazeCellType::Wall);
            }
        }
        assert forall|i: int| 0 <= i < m.len() && !interior(m, i) implies (#[trigger] m.kinds[i])
            == MazeCellType::Wall by {
            assert(blank.kinds[i] == MazeCellType::Wall);
        }
    }
    lemma_linked_self(m, origin);
    assert(explored(m, stack)) by {
        assert forall|a: int, e: Direction|
            room(m, a) && m.kinds[a] == MazeCellType::Passage && (#[trigger] dig_target(m, a, e))
                is Some && interior(m, dig_target(m, a, e)->0) implies m.kinds[dig_target(
            m,
            a,
            e,
        )->0] == MazeCellType::Passage || stack.contains((a as usize, e)) by {
            assert(a == origin);
            assert(has_frame(stack, 0, origin as usize, e));
            let k = choose|k: int|
                0 <= k < stack.len() && #[trigger] stack[k] == (origin as usize, e);
            assert(stack.contains((a as usize, e)));
        }
    }
}

/// When no frame is left, the room in column `x` and row `y` is carved:
/// from the room where the carving began, every room of its row has been
/// reached, and from those every room of their columns.
#[verifier::rlimit(80)]
#[verifier::spinoff_prover]
pub proof fn lemma_room_carved(m: MazeView, origin: int, x: int, y: int)
    requires
        carving(m, origin, Seq::<(usize, Direction)>::empty()),
        1 <= x <= m.width - 2,
        1 <= y <= m.height - 2,
        x % 2 == 1,
        y % 2 == 1,
    ensures
        0 <= x + y * m.width < m.len(),
        room(m, x + y * m.width),
        m.kinds[x + y * m.width] == MazeCellType::Passage,
    decreases y, if x >= column_of(m.width, origin) {
        x - column_of(m.width, origin)
    } else {
        column_of(m.width, origin) - x
    },
{
    let w = m.width;
    let h = m.height;
    let p = x + y * w;
    let stack = Seq::<(usize, Direction)>::empty();
    lemma_position_of(w, x, y);
    crate::text::lemma_line_bounds(w, h, y);
    assert(0 <= p < m.len());
    assert(room(m, p));
    let x0 = column_of(w, origin);
    lemma_row_in_grid(w, h, origin);
    if y > 1 {
        let q = x + (y - 2) * w;
        lemma_room_carved(m, origin, x, y - 2);
        lemma_interior_neighbors(m, q);
        assert(q + w == x + (y - 1) * w) by (nonlinear_arith)
            requires
                q == x + (y - 2) * w,
        ;
        assert(q + w + w == p) by (nonlinear_arith)
            requires
                q == x + (y - 2) * w,
                p == x + y * w,
        ;
        lemma_position_of(w, x, y - 1);
        crate::text::lemma_line_bounds(w, h, y - 1);
        assert(interior(m, q + w));
        lemma_interior_neighbors(m, q + w);
        assert(dig_target(m, q, Direction::South) == Some(p));
        assert(!stack.contains((q as usize, Direction::South)));
    } else if x == x0 {
        assert(p == origin);
    } else if x > x0 {
        let q = p - 2;
        assert(q == (x - 2) + y * w);
        lemma_room_carved(m, origin, x - 2, y);
        lemma_interior_neighbors(m, q);
        lemma_position_of(w, x - 1, y);
        assert(interior(m, q + 1));
        lemma_interior_neighbors(m, q + 1);
        assert(dig_target(m, q, Direction::East) == Some(p));
        assert(!stack.contains((q as usize, Direction::East)));
    } else {
        let q = p + 2;
        assert(q == (x + 2) + y * w);
        lemma_room_carved(m, origin, x + 2, y);
        lemma_interior_neighbors(m, q);
        lemma_position_of(w, x + 1, y);
        assert(interior(m, q - 1));
        lemma_interior_neighbors(m, q - 1);
        assert(dig_target(m, q, Direction::West) == Some(p));
        assert(!stack.contains((q as usize, Direction::West)));
    }
}

/// When no frame is left, every room is carved.
pub proof fn lemma_all_rooms_carved(m: MazeView, origin: int)
    requires
        carving(m, origin, Seq::<(usize, Direction)>::empty()),
    ensures
        rooms_carved(m),
{
    assert forall|p: int| 0 <= p < m.len() && room(m, p) implies (#[trigger] m.kinds[p])
        == MazeCellType::Passage by {
        lemma_row_in_grid(m.width, m.height, p);
        lemma_room_carved(m, origin, column_of(m.width, p), row_of(m.width, p));
    }
}

/// Every passage of the maze, and its start, can be reached from the start.
pub open spec fn start_reaches_all(m: MazeView) -> bool {
    forall|p: int|
        0 <= p < m.len() && ((#[trigger] m.kinds[p]) == MazeCellType::Passage || p == m.start)
            ==> linked(m, m.start, p)
}

/// Once start and end are placed on a carved grid, every passage can be
/// reached from the start: the room under the start is carved. The end
/// can be reached where the height of the grid is odd, so that the cell
/// above the end is a room.
#[verifier::rlimit(80)]
#[verifier::spinoff_prover]
pub proof fn lemma_start_reaches_all(cut: MazeView, origin: int, m: MazeView)
    requires
        cut.wf(),
        cut.width >= 3,
        cut.height >= 3,
        carved(cut),
        rooms_carved(cut),
        reachable(cut, origin),
        room(cut, origin),
        cut.kinds[origin] == MazeCellType::Passage,
        odd_place_in_row(cut, m.start, 0),
        odd_place_in_row(cut, m.end, cut.height - 1),
        m == (MazeView {
            kinds: cut.kinds.update(m.start, MazeCellType::Start).update(
                m.end,
                MazeCellType::End,
            ),
            start: m.start,
            end: m.end,
            ..cut
        }),
    ensures
        start_reaches_all(m),
        m.height % 2 == 1 ==> linked(m, m.start, m.end),
{
    let w = cut.width;
    let h = cut.height;
    let s = m.start;
    let e = m.end;
    lemma_row_in_grid(w, h, s);
    lemma_row_in_grid(w, h, e);
    let xs = column_of(w, s);
    let xe = column_of(w, e);
    assert(s == xs);
    assert(e == xe + (h - 1) * w);
    let below = s + w;
    lemma_position_of(w, xs, 1);
    crate::text::lemma_line_bounds(w, h, 1);
    assert(below == xs + 1 * w);
    assert(room(cut, below));
    assert(cut.kinds[below] == MazeCellType::Passage);
    assert((h - 1) * w >= 2 * w) by (nonlinear_arith)
        requires
            h >= 3,
            w > 0,
    ;
    assert(below != e && below != s);
    assert(m.kinds[below] == MazeCellType::Passage);
    assert(m.kinds[s] == MazeCellType::Start);
    assert(opened(cut, m));
    lemma_linked_self(m, s);
    assert(m.neighbor(s, Direction::South) == Some(below));
    assert(adjacent(m, s, below));
    lemma_linked_step(m, s, s, below);
    lemma_linked_opened(cut, m, origin, below);
    lemma_linked_symmetric(m, origin, below);
    lemma_linked_transitive(m, s, below, origin);
    assert forall|p: int|
        0 <= p < m.len() && ((#[trigger] m.kinds[p]) == MazeCellType::Passage || p
            == m.start) implies linked(m, m.start, p) by {
        if p != s {
            assert(cut.kinds[p] == MazeCellType::Passage);
            lemma_linked_opened(cut, m, origin, p);
            lemma_linked_transitive(m, s, origin, p);
        }
    }
    if h % 2 == 1 {
        let above = e - w;
        assert(above == xe + (h - 2) * w) by (nonlinear_arith)
            requires
                above == e - w,
                e == xe + (h - 1) * w,
        ;
        lemma_position_of(w, xe, h - 2);
        crate::text::lemma_line_bounds(w, h, h - 2);
        assert(room(cut, above));
        assert(cut.kinds[above] == MazeCellType::Passage);
        assert(above != s && above != e);
        lemma_linked_opened(cut, m, origin, above);
        lemma_interior_neighbors(cut, above);
        assert(m.neighbor(above, Direction::South) == Some(e));
        assert(adjacent(m, above, e));
        lemma_linked_step(m, origin, above, e);
        lemma_linked_transitive(m, s, origin, e);
    }
}

/// The neighbour of `a` in direction `x` that is not a wall after a
/// digging from the room `v` in direction `d`: the cell in between has the
/// room it was dug from and the room beyond, the room beyond has the cell
/// in between, the room dug from has the cell in between as well, and
/// every other cell has the neighbours it had.
pub open spec fn neighbor_after_dig(m: MazeView, v: int, d: Direction, a: int, x: Direction)
    -> Option<int> {
    let mid = m.neighbor(v, d)->0;
    let r = dig_target(m, v, d)->0;
    if a == mid {
        if x == d {
            Some(r)
        } else if x == d.spec_opposite() {
            Some(v)
        } else {
            None
        }
    } else if a == r {
        if x == d.spec_opposite() {
            Some(mid)
        } else {
            None
        }
    } else if a == v && x == d {
        Some(mid)
    } else {
        m.open_neighbor(a, x)
    }
}

/// See `neighbor_after_dig`.
#[verifier::rlimit(80)]
#[verifier::spinoff_prover]
pub proof fn lemma_neighbor_after_dig(m: MazeView, v: int, d: Direction, a: int, x: Direction)
    requires
        m.wf(),
        m.width >= 3,
        carved(m),
        orderly(m),
        room(m, v),
        m.kinds[v] == MazeCellType::Passage,
        dig_check(m, v, d) == DigCheck::Diggable,
        m.kinds[m.neighbor(v, d)->0] == MazeCellType::Wall,
        0 <= a < m.len(),
        after_dig(m, v, d).kinds[a] != MazeCellType::Wall,
    ensures
        after_dig(m, v, d).open_neighbor(a, x) == neighbor_after_dig(m, v, d, a, x),
        a != m.neighbor(v, d)->0 && a != dig_target(m, v, d)->0 && m.open_neighbor(a, x) is Some
            ==> m.open_neighbor(a, x)->0 != m.neighbor(v, d)->0 && m.open_neighbor(a, x)->0
            != dig_target(m, v, d)->0,
{
    let mid = m.neighbor(v, d)->0;
    let r = dig_target(m, v, d)->0;
    let n = after_dig(m, v, d);
    lemma_diggable(m, v, d);
    lemma_dig_stays_inside(m, v, d);
    lemma_two_steps(m, v, d);
    lemma_direction_laws(d);
    lemma_direction_laws(x);
    assert(m.kinds[r] == MazeCellType::Wall);
    assert(n.kinds =~= m.kinds.update(mid, MazeCellType::Passage).update(
        r,
        MazeCellType::Passage,
    ));
    if a == mid {
        lemma_interior_neighbors(m, mid);
        if x != d && x != d.spec_opposite() {
            lemma_beside_corridor(m, v, d, x);
        }
    } else if a == r {
        lemma_interior_neighbors(m, r);
        if x != d.spec_opposite() {
            let c = m.neighbor(r, x)->0;
            assert(m.kinds[c] == MazeCellType::Wall);
        }
    } else if a == v {
        lemma_interior_neighbors(m, v);
    } else if m.neighbor(a, x) is Some {
        let c = m.neighbor(a, x)->0;
        lemma_neighbor_in_grid(m.width, m.height, a, x);
        let back = x.spec_opposite();
        lemma_direction_laws(back);
        if c == mid {
            assert(m.neighbor(mid, back) == Some(a));
            if back != d && back != d.spec_opposite() {
                lemma_beside_corridor(m, v, d, back);
            }
        }
        if c == r {
            assert(m.neighbor(r, back) == Some(a));
            if back != d.spec_opposite() {
                assert(m.kinds[m.neighbor(r, back)->0] == MazeCellType::Wall);
            }
        }
    }
}

/// The cells beside the cell between two rooms are walls: they lie in an
/// even column and an even row, where the carving never digs.
pub proof fn lemma_beside_corridor(m: MazeView, v: int, d: Direction, x: Direction)
    requires
        m.wf(),
        carved(m),
        orderly(m),
        room(m, v),
        dig_target(m, v, d) is Some,
        interior(m, m.neighbor(v, d)->0),
        x != d,
        x != d.spec_opposite(),
    ensures
        m.neighbor(m.neighbor(v, d)->0, x) is Some,
        m.kinds[m.neighbor(m.neighbor(v, d)->0, x)->0] == MazeCellType::Wall,
        m.neighbor(m.neighbor(v, d)->0, x)->0 != m.neighbor(v, d)->0,
        m.neighbor(m.neighbor(v, d)->0, x)->0 != dig_target(m, v, d)->0,
        m.neighbor(m.neighbor(v, d)->0, x)->0 != v,
{
    let mid = m.neighbor(v, d)->0;
    lemma_two_steps(m, v, d);
    lemma_interior_neighbors(m, mid);
    lemma_direction_laws(d);
    let c = m.neighbor(mid, x)->0;
    lemma_neighbor_in_grid(m.width, m.height, mid, x);
    if m.kinds[c] != MazeCellType::Wall {
        assert(m.kinds[c] == MazeCellType::Passage);
        assert(room(m, c) || joins_rooms(m, c));
    }
}

/// A digging keeps the cells ranked: the cell in between ranks one above
/// the room it was dug from, the room beyond two above.
#[verifier::rlimit(80)]
#[verifier::spinoff_prover]
pub proof fn lemma_dig_keeps_ranked(m: MazeView, depth: Seq<int>, v: int, d: Direction)
    requires
        m.wf(),
        m.width >= 3,
        carved(m),
        orderly(m),
        room(m, v),
        m.kinds[v] == MazeCellType::Passage,
        dig_check(m, v, d) == DigCheck::Diggable,
        m.kinds[m.neighbor(v, d)->0] == MazeCellType::Wall,
        ranked(m, depth),
    ensures
        ranked(
            after_dig(m, v, d),
            depth.update(m.neighbor(v, d)->0, depth[v] + 1).update(
                dig_target(m, v, d)->0,
                depth[v] + 2,
            ),
        ),
{
    let mid = m.neighbor(v, d)->0;
    let r = dig_target(m, v, d)->0;
    let n = after_dig(m, v, d);
    let dp = depth.update(mid, depth[v] + 1).update(r, depth[v] + 2);
    lemma_diggable(m, v, d);
    lemma_dig_stays_inside(m, v, d);
    lemma_two_steps(m, v, d);
    lemma_direction_laws(d);
    assert(m.kinds[r] == MazeCellType::Wall);
    assert(n.kinds =~= m.kinds.update(mid, MazeCellType::Passage).update(
        r,
        MazeCellType::Passage,
    ));
    assert(mid != r && mid != v && r != v);
    assert(dp.len() == n.len());
    assert(dp[mid] == depth[v] + 1);
    assert(dp[r] == depth[v] + 2);
    assert(dp[v] == depth[v]);
    assert forall|a: int, x: Direction|
        0 <= a < n.len() && n.kinds[a] != MazeCellType::Wall && (#[trigger] n.open_neighbor(a, x))
            is Some implies dp[n.open_neighbor(a, x)->0] == dp[a] + 1 || dp[n.open_neighbor(
        a,
        x,
    )->0] == dp[a] - 1 by {
        lemma_neighbor_after_dig(m, v, d, a, x);
        if a != mid && a != r && !(a == v && x == d) {
            let b = m.open_neighbor(a, x)->0;
            assert(m.open_neighbor(a, x) is Some);
            lemma_neighbor_in_grid(m.width, m.height, a, x);
            assert(m.kinds[a] != MazeCellType::Wall);
            assert(depth[b] == depth[a] + 1 || depth[b] == depth[a] - 1);
            assert(dp[b] == depth[b]);
            assert(dp[a] == depth[a]);
        }
    }
    assert forall|a: int, x: Direction, y: Direction|
        0 <= a < n.len() && n.kinds[a] != MazeCellType::Wall && (#[trigger] n.open_neighbor(a, x))
            is Some && (#[trigger] n.open_neighbor(a, y)) is Some && dp[n.open_neighbor(a, x)->0]
            < dp[a] && dp[n.open_neighbor(a, y)->0] < dp[a] implies x == y by {
        lemma_neighbor_after_dig(m, v, d, a, x);
        lemma_neighbor_after_dig(m, v, d, a, y);
        if a != mid && a != r {
            assert(m.kinds[a] != MazeCellType::Wall);
            assert(dp[a] == depth[a]);
            if !(a == v && x == d) && !(a == v && y == d) {
                let b = m.open_neighbor(a, x)->0;
                let c = m.open_neighbor(a, y)->0;
                assert(m.open_neighbor(a, x) is Some);
                assert(m.open_neighbor(a, y) is Some);
                lemma_neighbor_in_grid(m.width, m.height, a, x);
                lemma_neighbor_in_grid(m.width, m.height, a, y);
                assert(dp[b] == depth[b]);
                assert(dp[c] == depth[c]);
            }
        }
    }
}

/// The neighbour of `a` in direction `x` that is not a wall once start
/// and end are placed on the carved grid `cut`: the start has the room
/// below it, the end has the cell above it if that is a passage, those
/// two have the start and the end, and every other cell has the
/// neighbours it had.
pub open spec fn neighbor_after_marks(
    cut: MazeView,
    start: int,
    end: int,
    a: int,
    x: Direction,
) -> Option<int> {
    let below = start + cut.width;
    let above = end - cut.width;
    if a == start {
        if x == Direction::South {
            Some(below)
        } else {
            None
        }
    } else if a == end {
        if x == Direction::North && cut.kinds[above] == MazeCellType::Passage {
            Some(above)
        } else {
            None
        }
    } else if a == below && x == Direction::North {
        Some(start)
    } else if a == above && x == Direction::South {
        Some(end)
    } else {
        cut.open_neighbor(a, x)
    }
}

/// The grid `cut` with the start and the end placed.
pub open spec fn with_marks(cut: MazeView, start: int, end: int) -> MazeView {
    MazeView {
        kinds: cut.kinds.update(start, MazeCellType::Start).update(end, MazeCellType::End),
        start,
        end,
        ..cut
    }
}

/// See `neighbor_after_marks`.
#[verifier::rlimit(80)]
#[verifier::spinoff_prover]
pub proof fn lemma_neighbor_after_marks(
    cut: MazeView,
    start: int,
    end: int,
    a: int,
    x: Direction,
)
    requires
        cut.wf(),
        cut.width >= 3,
        cut.height >= 3,
        carved(cut),
        rooms_carved(cut),
        odd_place_in_row(cut, start, 0),
        odd_place_in_row(cut, end, cut.height - 1),
        0 <= a < cut.len(),
        with_marks(cut, start, end).kinds[a] != MazeCellType::Wall,
    ensures
        with_marks(cut, start, end).open_neighbor(a, x) == neighbor_after_marks(
            cut,
            start,
            end,
            a,
            x,
        ),
        a != start && a != end && cut.open_neighbor(a, x) is Some ==> cut.open_neighbor(a, x)->0
            != start && cut.open_neighbor(a, x)->0 != end,
        0 <= start + cut.width < cut.len(),
        0 <= end - cut.width < cut.len(),
        cut.kinds[start + cut.width] == MazeCellType::Passage,
        cut.kinds[start] == MazeCellType::Wall,
        cut.kinds[end] == MazeCellType::Wall,
        start != end,
        start + cut.width != end,
        start != end - cut.width,
{
    let w = cut.width;
    let h = cut.height;
    let m = with_marks(cut, start, end);
    let below = start + w;
    let above = end - w;
    lemma_row_in_grid(w, h, start);
    lemma_row_in_grid(w, h, end);
    lemma_row_in_grid(w, h, a);
    let xs = column_of(w, start);
    let xe = column_of(w, end);
    assert(start == xs);
    assert(end == xe + (h - 1) * w);
    lemma_position_of(w, xs, 1);
    crate::text::lemma_line_bounds(w, h, 1);
    assert(below == xs + 1 * w);
    assert(room(cut, below));
    assert(above == xe + (h - 2) * w) by (nonlinear_arith)
        requires
            above == end - w,
            end == xe + (h - 1) * w,
    ;
    lemma_position_of(w, xe, h - 2);
    crate::text::lemma_line_bounds(w, h, h - 2);
    assert((h - 1) * w >= 2 * w) by (nonlinear_arith)
        requires
            h >= 3,
            w > 0,
    ;
    assert(!interior(cut, start));
    assert(!interior(cut, end));
    lemma_direction_laws(x);
    if m.neighbor(a, x) is Some {
        let c = m.neighbor(a, x)->0;
        lemma_neighbor_in_grid(w, h, a, x);
        lemma_row_in_grid(w, h, c);
        if a == start {
            if x != Direction::South {
                assert(!interior(cut, c));
                assert(cut.kinds[c] == MazeCellType::Wall);
            }
        } else if a == end {
            if x != Direction::North {
                assert(!interior(cut, c));
                assert(cut.kinds[c] == MazeCellType::Wall);
            } else {
                assert(c == above);
                assert(cut.kinds[c] == MazeCellType::Wall || cut.kinds[c]
                    == MazeCellType::Passage);
            }
        } else {
            assert(cut.kinds[a] == MazeCellType::Passage || cut.kinds[a] == MazeCellType::Wall);
            assert(interior(cut, a));
            if c == start {
                assert(a == below && x == Direction::North);
            }
            if c == end {
                assert(a == above && x == Direction::South);
            }
        }
    }
}

/// Placing start and end keeps the cells ranked: each ranks one above the
/// cell it hangs on. So the maze has no round trip.
#[verifier::rlimit(80)]
#[verifier::spinoff_prover]
pub proof fn lemma_marks_keep_ranked(cut: MazeView, depth: Seq<int>, start: int, end: int)
    requires
        cut.wf(),
        cut.width >= 3,
        cut.height >= 3,
        carved(cut),
        rooms_carved(cut),
        odd_place_in_row(cut, start, 0),
        odd_place_in_row(cut, end, cut.height - 1),
        ranked(cut, depth),
    ensures
        ranked(
            with_marks(cut, start, end),
            depth.update(start, depth[start + cut.width] + 1).update(
                end,
                depth[end - cut.width] + 1,
            ),
        ),
        acyclic(with_marks(cut, start, end)),
{
    let m = with_marks(cut, start, end);
    let below = start + cut.width;
    let above = end - cut.width;
    let dp = depth.update(start, depth[below] + 1).update(end, depth[above] + 1);
    lemma_neighbor_after_marks(cut, start, end, start, Direction::South);
    assert(dp.len() == m.len());
    assert(dp[start] == depth[below] + 1);
    assert(dp[end] == depth[above] + 1);
    assert(dp[below] == depth[below]);
    assert(dp[above] == depth[above]);
    assert forall|a: int, x: Direction|
        0 <= a < m.len() && m.kinds[a] != MazeCellType::Wall && (#[trigger] m.open_neighbor(a, x))
            is Some implies dp[m.open_neighbor(a, x)->0] == dp[a] + 1 || dp[m.open_neighbor(
        a,
        x,
    )->0] == dp[a] - 1 by {
        lemma_neighbor_after_marks(cut, start, end, a, x);
        if a != start && a != end && !(a == below && x == Direction::North) && !(a == above && x
            == Direction::South) {
            let b = cut.open_neighbor(a, x)->0;
            assert(cut.open_neighbor(a, x) is Some);
            lemma_neighbor_in_grid(cut.width, cut.height, a, x);
            assert(cut.kinds[a] != MazeCellType::Wall);
            assert(depth[b] == depth[a] + 1 || depth[b] == depth[a] - 1);
            assert(dp[b] == depth[b]);
            assert(dp[a] == depth[a]);
        }
    }
    assert forall|a: int, x: Direction, y: Direction|
        0 <= a < m.len() && m.kinds[a] != MazeCellType::Wall && (#[trigger] m.open_neighbor(a, x))
            is Some && (#[trigger] m.open_neighbor(a, y)) is Some && dp[m.open_neighbor(a, x)->0]
            < dp[a] && dp[m.open_neighbor(a, y)->0] < dp[a] implies x == y by {
        lemma_neighbor_after_marks(cut, start, end, a, x);
        lemma_neighbor_after_marks(cut, start, end, a, y);
        if a != start && a != end {
            assert(cut.kinds[a] != MazeCellType::Wall);
            assert(dp[a] == depth[a]);
            let hangs_x = (a == below && x == Direction::North) || (a == above && x
                == Direction::South);
            let hangs_y = (a == below && y == Direction::North) || (a == above && y
                == Direction::South);
            if !hangs_x && !hangs_y {
                let b = cut.open_neighbor(a, x)->0;
                let c = cut.open_neighbor(a, y)->0;
                assert(cut.open_neighbor(a, x) is Some);
                assert(cut.open_neighbor(a, y) is Some);
                lemma_neighbor_in_grid(cut.width, cut.height, a, x);
                lemma_neighbor_in_grid(cut.width, cut.height, a, y);
                assert(dp[b] == depth[b]);
                assert(dp[c] == depth[c]);
            }
        }
    }
    lemma_ranked_acyclic(m, dp);
}

} // verus!
