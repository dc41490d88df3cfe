//! The topology graph leaves straight runs out: a passage along a straight
//! run, with its two neighbours on opposite sides and walls on the other
//! two, carries no graph link.

use vstd::prelude::*;
use crate::direction::{lemma_direction_laws, Direction};
use crate::maze::{lemma_neighbor_in_grid, MazeCellType, MazeView};
use crate::topology::{
    cleared_links,
    frames_at,
    free_slots,
    passage_info,
    possible_directions,
    record,
    steps_left,
    topo_run,
    topo_step,
    walk,
    GraphNodeType,
};

verus! {

/// The cell has neighbours that are not walls in direction `d` and
/// opposite to it, and in no other direction.
pub open spec fn runs_along(m: MazeView, q: int, d: Direction) -> bool {
    &&& m.open_neighbor(q, d) is Some
    &&& m.open_neighbor(q, d.spec_opposite()) is Some
    &&& forall|x: Direction|
        x != d && x != d.spec_opposite() ==> (#[trigger] m.open_neighbor(q, x)) is None
}

/// The cell is a passage along a straight run.
pub open spec fn straight_cell(m: MazeView, q: int) -> bool {
    &&& 0 <= q < m.len()
    &&& m.kinds[q] == MazeCellType::Passage
    &&& exists|d: Direction| runs_along(m, q, d)
}

/// The links of a cell without links.
pub open spec fn no_links() -> Seq<Option<usize>> {
    seq![None::<usize>, None, None, None]
}

/// A walk that ends at a node does not end at a passage along a straight
/// run; it ends at a cell of the grid that is not a wall.
pub proof fn lemma_walk_ends_at_node(m: MazeView, position: int, direction: Direction)
    requires
        0 <= position < m.len(),
        m.kinds[position] != MazeCellType::Wall,
        walk(m, position, direction).nodetype != GraphNodeType::NA,
        walk(m, position, direction).nodetype != GraphNodeType::Straight,
    ensures
        0 <= walk(m, position, direction).position < m.len(),
        m.kinds[walk(m, position, direction).position] != MazeCellType::Wall,
        !straight_cell(m, walk(m, position, direction).position),
    decreases steps_left(m, position, direction),
{
    let info = passage_info(m, position, direction);
    lemma_neighbor_in_grid(m.width, m.height, position, direction);
    lemma_direction_laws(direction);
    if info.nodetype == GraphNodeType::Straight && 0 <= steps_left(m, info.position, direction)
        < steps_left(m, position, direction) {
        lemma_walk_ends_at_node(m, info.position, direction);
    } else {
        let q = info.position;
        let back = direction.spec_opposite();
        assert(m.neighbor(position, direction) == Some(q));
        if m.kinds[q] == MazeCellType::Passage && straight_cell(m, q) {
            let d = choose|d: Direction| runs_along(m, q, d);
            lemma_direction_laws(d);
            assert(m.neighbor(q, back) == Some(position));
            assert(m.open_neighbor(q, back) is Some);
            assert(back == d || back == d.spec_opposite());
            assert(m.open_neighbor(q, direction) is Some);
            assert forall|x: Direction| x != direction && x != back implies (
            #[trigger] m.open_neighbor(q, x)) is None by {}
            let directions = possible_directions(m, q, back);
            assert(directions =~= seq![direction]);
        }
    }
}

/// Working off the frames of the stack leaves the passages along straight
/// runs without links, where they had none and no frame stands at one of
/// them.
pub proof fn lemma_run_spares_runs(
    m: MazeView,
    links: Seq<Seq<Option<usize>>>,
    stack: Seq<(usize, Direction)>,
)
    requires
        m.len() <= usize::MAX,
        links.len() == m.len(),
        forall|q: int| straight_cell(m, q) ==> #[trigger] links[q] == no_links(),
        forall|k: int|
            0 <= k < stack.len() ==> 0 <= (#[trigger] stack[k]).0 < m.len() && m.kinds[stack[k].0 as int]
                != MazeCellType::Wall && !straight_cell(m, stack[k].0 as int),
    ensures
        topo_run(m, links, stack).len() == m.len(),
        forall|q: int| straight_cell(m, q) ==> #[trigger] topo_run(m, links, stack)[q] == no_links(),
    decreases free_slots(links), stack.len(),
{
    if stack.len() > 0 {
        let from = stack.last().0;
        let direction = stack.last().1;
        let (next, pushed) = topo_step(m, links, from, direction);
        let rest = stack.drop_last();
        assert(stack[stack.len() - 1] == stack.last());
        assert forall|k: int| 0 <= k < rest.len() implies 0 <= (#[trigger] rest[k]).0 < m.len()
            && m.kinds[rest[k].0 as int] != MazeCellType::Wall && !straight_cell(
            m,
            rest[k].0 as int,
        ) by {
            assert(rest[k] == stack[k]);
        }
        if next != links {
            let found = walk(m, from as int, direction);
            lemma_walk_ends_at_node(m, from as int, direction);
            assert(next == record(links, from as int, direction, found.position));
            assert(next.len() == links.len());
            assert forall|q: int| straight_cell(m, q) implies #[trigger] next[q] == no_links() by {
                assert(q != from && q != found.position);
                assert(links[q] == no_links());
            }
            assert forall|k: int| 0 <= k < pushed.len() implies 0 <= (#[trigger] pushed[k]).0
                < m.len() && m.kinds[pushed[k].0 as int] != MazeCellType::Wall && !straight_cell(
                m,
                pushed[k].0 as int,
            ) by {
                assert(found.nodetype == GraphNodeType::Intersection);
                assert(pushed == frames_at(found.position as usize, found.directions));
                assert(pushed[k].0 == found.position as usize);
            }
        }
        if free_slots(next) < free_slots(links) {
            let onward = rest + pushed;
            assert forall|k: int| 0 <= k < onward.len() implies 0 <= (#[trigger] onward[k]).0
                < m.len() && m.kinds[onward[k].0 as int] != MazeCellType::Wall && !straight_cell(
                m,
                onward[k].0 as int,
            ) by {
                if k < rest.len() {
                    assert(onward[k] == rest[k]);
                } else {
                    assert(onward[k] == pushed[k - rest.len()]);
                    assert(next != links);
                }
            }
            lemma_run_spares_runs(m, next, onward);
        } else if next == links && pushed.len() == 0 {
            lemma_run_spares_runs(m, next, rest);
        }
    }
}

/// The topology graph of a maze leaves the straight runs out: no passage
/// along a straight run carries a graph link.
pub proof fn lemma_runs_carry_no_links(m: MazeView)
    requires
        m.wf(),
        m.len() <= usize::MAX,
        0 <= m.start < m.len(),
        m.kinds[m.start] == MazeCellType::Start,
    ensures
        forall|q: int| straight_cell(m.bare(), q) ==> #[trigger] m.topology_links()[q] == no_links(),
{
    let g = m.bare();
    let stack = seq![(m.start as usize, Direction::South)];
    assert(g.len() == m.len());
    assert(cleared_links(m.len()).len() == g.len());
    lemma_run_spares_runs(g, cleared_links(m.len()), stack);
}

} // verus!
