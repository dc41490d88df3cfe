//! The topology reducer: it walks the carved corridors from the start and
//! links the cells where a decision is taken (dead ends, corners, junctions,
//! the start and the end), leaving out the straight runs between them.

use vstd::prelude::*;
use crate::common::{AppError, ErrorKind};
use crate::direction::{all_directions, Direction, NUM_OF_DIRECTIONS};
use crate::maze::{
    lemma_neighbor_in_grid,
    link_in_range,
    Maze,
    MazeCell,
    MazeCellType,
    MazeView,
};

verus! {

/// What the walk finds one step further along a corridor.
#[derive(Clone, Copy, Debug, PartialEq, Eq, Structural)]
pub enum GraphNodeType {
    /// Nothing to walk on: a wall, the start, or the edge of the grid.
    NA,
    /// A passage that goes straight on and nowhere else.
    Straight,
    /// A corner or a junction.
    Intersection,
    /// A passage that goes nowhere.
    DeadEnd,
    /// The end of the maze.
    End,
}

/// What the walk finds one step further along a corridor: the cell, its
/// kind as a graph node, and the directions in which the walk can go on.
#[derive(Debug)]
pub struct GraphNodeInfo {
    pub position: usize,
    pub nodetype: GraphNodeType,
    pub directions: Vec<Direction>,
}

/// The model of a `GraphNodeInfo`.
pub struct NodeInfo {
    pub position: int,
    pub nodetype: GraphNodeType,
    pub directions: Seq<Direction>,
}

impl View for GraphNodeInfo {
    type V = NodeInfo;

    open spec fn view(&self) -> NodeInfo {
        NodeInfo {
            position: self.position as int,
            nodetype: self.nodetype,
            directions: self.directions@,
        }
    }
}

/// `direction`, if the walk can leave `position` that way: it is not the
/// excluded direction, and the neighbour there is not a wall.
pub open spec fn direction_if_usable(
    m: MazeView,
    position: int,
    excluded: Direction,
    direction: Direction,
) -> Seq<Direction> {
    if direction != excluded && m.open_neighbor(position, direction) is Some {
        seq![direction]
    } else {
        Seq::empty()
    }
}

/// The directions in which the walk can leave `position`, in canonical
/// order: all but the excluded one whose neighbour is not a wall.
pub open spec fn possible_directions(m: MazeView, position: int, excluded: Direction) -> Seq<
    Direction,
> {
    direction_if_usable(m, position, excluded, Direction::North) + direction_if_usable(
        m,
        position,
        excluded,
        Direction::East,
    ) + direction_if_usable(m, position, excluded, Direction::West) + direction_if_usable(
        m,
        position,
        excluded,
        Direction::South,
    )
}

/// What lies one step from `position` in `direction`.
pub open spec fn passage_info(m: MazeView, position: int, direction: Direction) -> NodeInfo {
    match m.neighbor(position, direction) {
        Some(q) => {
            if m.kinds[q] == MazeCellType::Passage {
                let directions = possible_directions(m, q, direction.spec_opposite());
                NodeInfo {
                    position: q,
                    nodetype: if directions.len() == 0 {
                        GraphNodeType::DeadEnd
                    } else if directions.len() == 1 && directions[0] == direction {
                        GraphNodeType::Straight
                    } else {
                        GraphNodeType::Intersection
                    },
                    directions,
                }
            } else if m.kinds[q] == MazeCellType::End {
                NodeInfo { position: q, nodetype: GraphNodeType::End, directions: Seq::empty() }
            } else {
                NodeInfo { position: 0, nodetype: GraphNodeType::NA, directions: Seq::empty() }
            }
        },
        None => NodeInfo { position: 0, nodetype: GraphNodeType::NA, directions: Seq::empty() },
    }
}

/// The number of steps that a walk from `position` in `direction` can take
/// at most before it leaves the grid.
pub open spec fn steps_left(m: MazeView, position: int, direction: Direction) -> int {
    match direction {
        Direction::North | Direction::West => position,
        Direction::East | Direction::South => m.len() - position,
    }
}

/// Where the walk from `position` in `direction` ends: the first cell that
/// is not a straight passage, or nothing to walk on.
pub open spec fn walk(m: MazeView, position: int, direction: Direction) -> NodeInfo
    decreases steps_left(m, position, direction),
{
    let info = passage_info(m, position, direction);
    if info.nodetype == GraphNodeType::Straight && 0 <= steps_left(m, info.position, direction)
        < steps_left(m, position, direction) {
        walk(m, info.position, direction)
    } else {
        info
    }
}

/// The links of a grid of `len` cells without any edge.
pub open spec fn cleared_links(len: int) -> Seq<Seq<Option<usize>>> {
    Seq::new(len as nat, |i: int| seq![None::<usize>, None, None, None])
}

/// The links after the edge from `from` in `direction` to `to` has been
/// recorded: two half-edges, one in each cell.
pub open spec fn record(
    links: Seq<Seq<Option<usize>>>,
    from: int,
    direction: Direction,
    to: int,
) -> Seq<Seq<Option<usize>>> {
    let first = links.update(from, links[from].update(direction.spec_index(), Some(to as usize)));
    first.update(
        to,
        first[to].update(direction.spec_opposite().spec_index(), Some(from as usize)),
    )
}

/// Every half-edge has its partner: where a cell has a link to another in
/// some direction, the other has a link back in the opposite direction.
pub open spec fn symmetric(links: Seq<Seq<Option<usize>>>) -> bool {
    forall|a: int, d: Direction|
        0 <= a < links.len() && (#[trigger] links[a][d.spec_index()]) is Some ==> {
            let b = links[a][d.spec_index()]->0;
            &&& b < links.len()
            &&& links[b as int][d.spec_opposite().spec_index()] == Some(a as usize)
        }
}

/// The number of slots of one cell that hold no link.
pub open spec fn free_in_cell(row: Seq<Option<usize>>) -> nat
    decreases row.len(),
{
    if row.len() == 0 {
        0
    } else {
        free_in_cell(row.drop_last()) + if row.last() is None {
            1nat
        } else {
            0nat
        }
    }
}

/// The number of slots of the grid that hold no link.
pub open spec fn free_slots(links: Seq<Seq<Option<usize>>>) -> nat
    decreases links.len(),
{
    if links.len() == 0 {
        0
    } else {
        free_slots(links.drop_last()) + free_in_cell(links.last())
    }
}

/// The frames that the walk pushes at a junction: one for each direction
/// in which it can go on.
pub open spec fn frames_at(position: usize, directions: Seq<Direction>) -> Seq<
    (usize, Direction),
> {
    Seq::new(directions.len(), |i: int| (position, directions[i]))
}

/// The walk works off one frame: from the node `from` it follows the
/// corridor in `direction` and records the edge to the node it finds. A
/// frame whose edge is already there, one that leads nowhere, and one whose
/// far end already has an edge from that side change nothing.
pub open spec fn topo_step(
    m: MazeView,
    links: Seq<Seq<Option<usize>>>,
    from: usize,
    direction: Direction,
) -> (Seq<Seq<Option<usize>>>, Seq<(usize, Direction)>) {
    if links[from as int][direction.spec_index()] is Some {
        (links, Seq::empty())
    } else {
        let found = walk(m, from as int, direction);
        if found.nodetype == GraphNodeType::NA || found.nodetype == GraphNodeType::Straight {
            (links, Seq::empty())
        } else if links[found.position][direction.spec_opposite().spec_index()] is Some {
            (links, Seq::empty())
        } else {
            (
                record(links, from as int, direction, found.position),
                if found.nodetype == GraphNodeType::Intersection {
                    frames_at(found.position as usize, found.directions)
                } else {
                    Seq::empty()
                },
            )
        }
    }
}

/// The walk works off the frames of the stack, the last one first, until
/// none is left.
pub open spec fn topo_run(
    m: MazeView,
    links: Seq<Seq<Option<usize>>>,
    stack: Seq<(usize, Direction)>,
) -> Seq<Seq<Option<usize>>>
    decreases free_slots(links), stack.len(),
{
    if stack.len() == 0 {
        links
    } else {
        let (next, pushed) = topo_step(m, links, stack.last().0, stack.last().1);
        if free_slots(next) < free_slots(links) {
            topo_run(m, next, stack.drop_last() + pushed)
        } else if next == links && pushed.len() == 0 {
            topo_run(m, next, stack.drop_last())
        } else {
            next
        }
    }
}


/// The corridor that leaves the node `a` in direction `d` ends at the
/// node `b`.
pub open spec fn spans(g: MazeView, a: int, d: Direction, b: int) -> bool {
    let found = walk(g, a, d);
    &&& found.nodetype != GraphNodeType::NA
    &&& found.nodetype != GraphNodeType::Straight
    &&& found.position == b
}

/// Every link joins the two ends of a corridor: the walk along the
/// corridor from one of the two cells ends at the other.
pub open spec fn follow_corridors(g: MazeView, links: Seq<Seq<Option<usize>>>) -> bool {
    forall|a: int, d: Direction|
        0 <= a < links.len() && (#[trigger] links[a][d.spec_index()]) is Some ==> spans(
            g,
            a,
            d,
            links[a][d.spec_index()]->0 as int,
        ) || spans(g, links[a][d.spec_index()]->0 as int, d.spec_opposite(), a)
}

/// The cell `a` has a link to the cell `b`.
pub open spec fn has_link(links: Seq<Seq<Option<usize>>>, a: int, b: int) -> bool {
    exists|d: Direction| (#[trigger] links[a][d.spec_index()]) == Some(b as usize)
}

/// `path` is a way over the links of the graph.
pub open spec fn is_link_path(links: Seq<Seq<Option<usize>>>, path: Seq<int>) -> bool {
    &&& path.len() >= 1
    &&& forall|i: int| 0 <= i < path.len() ==> 0 <= #[trigger] path[i] < links.len()
    &&& forall|i: int| 0 <= i < path.len() - 1 ==> has_link(links, #[trigger] path[i], path[i + 1])
}

/// The node `b` can be reached from `start` over the links of the graph.
pub open spec fn node_reachable(links: Seq<Seq<Option<usize>>>, start: int, b: int) -> bool {
    exists|path: Seq<int>| #[trigger]
        is_link_path(links, path) && path[0] == start && path.last() == b
}

/// Every cell that has a link can be reached from `start` over the links
/// of the graph.
pub open spec fn nodes_reachable(links: Seq<Seq<Option<usize>>>, start: int) -> bool {
    forall|a: int, d: Direction|
        0 <= a < links.len() && (#[trigger] links[a][d.spec_index()]) is Some ==> node_reachable(
            links,
            start,
            a,
        )
}

/// A way over the links stays a way when an edge is recorded between two
/// free slots.
pub proof fn lemma_record_keeps_path(
    links: Seq<Seq<Option<usize>>>,
    from: int,
    direction: Direction,
    to: int,
    start: int,
    b: int,
)
    requires
        0 <= from < links.len(),
        0 <= to < links.len(),
        forall|i: int| 0 <= i < links.len() ==> (#[trigger] links[i]).len() == NUM_OF_DIRECTIONS,
        links[from][direction.spec_index()] is None,
        links[to][direction.spec_opposite().spec_index()] is None,
        node_reachable(links, start, b),
    ensures
        node_reachable(record(links, from, direction, to), start, b),
{
    let after = record(links, from, direction, to);
    let path = choose|path: Seq<int>| #[trigger]
        is_link_path(links, path) && path[0] == start && path.last() == b;
    crate::direction::lemma_direction_laws(direction);
    assert forall|i: int| 0 <= i < path.len() - 1 implies has_link(
        after,
        #[trigger] path[i],
        path[i + 1],
    ) by {
        assert(has_link(links, path[i], path[i + 1]));
        let d = choose|d: Direction| (#[trigger] links[path[i]][d.spec_index()]) == Some(
            path[i + 1] as usize,
        );
        crate::direction::lemma_direction_laws(d);
        assert(after[path[i]][d.spec_index()] == Some(path[i + 1] as usize));
    }
    assert(is_link_path(after, path));
}

/// Recording the edge of a corridor that was walked from a node that can
/// be reached keeps every link on a corridor and every linked cell within
/// reach.
pub proof fn lemma_record_keeps_graph(
    g: MazeView,
    links: Seq<Seq<Option<usize>>>,
    from: int,
    direction: Direction,
    to: int,
    start: int,
)
    requires
        0 <= from < links.len(),
        0 <= to < links.len(),
        links.len() <= usize::MAX,
        forall|i: int| 0 <= i < links.len() ==> (#[trigger] links[i]).len() == NUM_OF_DIRECTIONS,
        links[from][direction.spec_index()] is None,
        links[to][direction.spec_opposite().spec_index()] is None,
        spans(g, from, direction, to),
        follow_corridors(g, links),
        nodes_reachable(links, start),
        node_reachable(links, start, from),
    ensures
        follow_corridors(g, record(links, from, direction, to)),
        nodes_reachable(record(links, from, direction, to), start),
        node_reachable(record(links, from, direction, to), start, to),
{
    let after = record(links, from, direction, to);
    crate::direction::lemma_direction_laws(direction);
    assert forall|a: int, d: Direction|
        0 <= a < after.len() && (#[trigger] after[a][d.spec_index()]) is Some implies spans(
        g,
        a,
        d,
        after[a][d.spec_index()]->0 as int,
    ) || spans(g, after[a][d.spec_index()]->0 as int, d.spec_opposite(), a) by {
        crate::direction::lemma_direction_laws(d);
        if a == from && d == direction {
        } else if a == to && d == direction.spec_opposite() {
        } else {
            assert(after[a][d.spec_index()] == links[a][d.spec_index()]);
        }
    }
    lemma_record_keeps_path(links, from, direction, to, start, from);
    let path = choose|path: Seq<int>| #[trigger]
        is_link_path(after, path) && path[0] == start && path.last() == from;
    let longer = path.push(to);
    assert forall|i: int| 0 <= i < longer.len() - 1 implies has_link(
        after,
        #[trigger] longer[i],
        longer[i + 1],
    ) by {
        if i < path.len() - 1 {
            assert(has_link(after, path[i], path[i + 1]));
        } else {
            assert(after[from][direction.spec_index()] == Some(to as usize));
        }
    }
    assert(is_link_path(after, longer));
    assert(longer[0] == start && longer.last() == to);
    assert forall|a: int, d: Direction|
        0 <= a < after.len() && (#[trigger] after[a][d.spec_index()]) is Some implies node_reachable(
        after,
        start,
        a,
    ) by {
        crate::direction::lemma_direction_laws(d);
        if a == from {
        } else if a == to {
        } else {
            assert(after[a][d.spec_index()] == links[a][d.spec_index()]);
            lemma_record_keeps_path(links, from, direction, to, start, a);
        }
    }
}

impl MazeView {
    /// The grid alone: size, kinds of cells and start, without the marks of
    /// the solver and without graph links.
    pub open spec fn bare(self) -> MazeView {
        MazeView {
            width: self.width,
            height: self.height,
            kinds: self.kinds,
            visited: Seq::empty(),
            on_route: Seq::empty(),
            links: Seq::empty(),
            start: self.start,
            end: 0,
            graph_created: false,
        }
    }

    /// The links of the topology graph of this grid: the walk starts at the
    /// start, southwards, with no edge recorded.
    pub open spec fn topology_links(self) -> Seq<Seq<Option<usize>>> {
        topo_run(
            self.bare(),
            cleared_links(self.len()),
            seq![(self.start as usize, Direction::South)],
        )
    }
}

/// A filled slot is a free slot less.
pub proof fn lemma_free_in_cell_set(row: Seq<Option<usize>>, d: int, target: usize)
    requires
        0 <= d < row.len(),
        row[d] is None,
    ensures
        free_in_cell(row.update(d, Some(target))) == free_in_cell(row) - 1,
    decreases row.len(),
{
    let updated = row.update(d, Some(target));
    if d == row.len() - 1 {
        assert(updated.drop_last() =~= row.drop_last());
    } else {
        assert(updated.drop_last() =~= row.drop_last().update(d, Some(target)));
        lemma_free_in_cell_set(row.drop_last(), d, target);
    }
}

/// The free slots of the grid change as those of the cell that changes.
pub proof fn lemma_free_slots_set(links: Seq<Seq<Option<usize>>>, i: int, row: Seq<Option<usize>>)
    requires
        0 <= i < links.len(),
    ensures
        free_slots(links.update(i, row)) == free_slots(links) - free_in_cell(links[i])
            + free_in_cell(row),
    decreases links.len(),
{
    let updated = links.update(i, row);
    if i == links.len() - 1 {
        assert(updated.drop_last() =~= links.drop_last());
    } else {
        assert(updated.drop_last() =~= links.drop_last().update(i, row));
        lemma_free_slots_set(links.drop_last(), i, row);
    }
}

/// Recording an edge between two free slots leaves fewer free slots and
/// keeps every half-edge paired.
pub proof fn lemma_record(
    links: Seq<Seq<Option<usize>>>,
    from: int,
    direction: Direction,
    to: int,
)
    requires
        0 <= from < links.len(),
        0 <= to < links.len(),
        links.len() <= usize::MAX,
        from != to,
        forall|i: int| 0 <= i < links.len() ==> (#[trigger] links[i]).len() == NUM_OF_DIRECTIONS,
        links[from][direction.spec_index()] is None,
        links[to][direction.spec_opposite().spec_index()] is None,
        symmetric(links),
    ensures
        free_slots(record(links, from, direction, to)) < free_slots(links),
        symmetric(record(links, from, direction, to)),
        record(links, from, direction, to).len() == links.len(),
        forall|i: int|
            0 <= i < links.len() ==> (#[trigger] record(links, from, direction, to)[i]).len()
                == NUM_OF_DIRECTIONS,
        forall|i: int, d: int|
            0 <= i < links.len() && 0 <= d < NUM_OF_DIRECTIONS && link_in_range(
                links[i][d],
                links.len() as int,
            ) ==> link_in_range(
                #[trigger] record(links, from, direction, to)[i][d],
                links.len() as int,
            ),
{
    let first = links.update(from, links[from].update(direction.spec_index(), Some(to as usize)));
    let second = record(links, from, direction, to);
    lemma_free_in_cell_set(links[from], direction.spec_index(), to as usize);
    lemma_free_slots_set(
        links,
        from,
        links[from].update(direction.spec_index(), Some(to as usize)),
    );
    lemma_free_in_cell_set(first[to], direction.spec_opposite().spec_index(), from as usize);
    lemma_free_slots_set(
        first,
        to,
        first[to].update(direction.spec_opposite().spec_index(), Some(from as usize)),
    );
    assert forall|a: int, d: Direction|
        0 <= a < second.len() && (#[trigger] second[a][d.spec_index()]) is Some implies {
        let b = second[a][d.spec_index()]->0;
        &&& b < second.len()
        &&& second[b as int][d.spec_opposite().spec_index()] == Some(a as usize)
    } by {
        crate::direction::lemma_direction_laws(d);
        crate::direction::lemma_direction_laws(direction);
        if a == from && d == direction {
        } else if a == to && d == direction.spec_opposite() {
        } else {
            assert(second[a][d.spec_index()] == links[a][d.spec_index()]);
            let b = links[a][d.spec_index()]->0;
            assert(links[b as int][d.spec_opposite().spec_index()] == Some(a as usize));
        }
    }
}

/// A walk ends on the grid, at a cell other than the one it began at.
pub proof fn lemma_walk_in_grid(m: MazeView, position: int, direction: Direction)
    requires
        walk(m, position, direction).nodetype != GraphNodeType::NA,
    ensures
        0 <= walk(m, position, direction).position < m.len(),
        walk(m, position, direction).position != position,
        steps_left(m, walk(m, position, direction).position, direction) < steps_left(
            m,
            position,
            direction,
        ),
        0 <= position < m.len(),
    decreases steps_left(m, position, direction),
{
    let info = passage_info(m, position, direction);
    lemma_neighbor_in_grid(m.width, m.height, position, direction);
    if info.nodetype == GraphNodeType::Straight && 0 <= steps_left(m, info.position, direction)
        < steps_left(m, position, direction) {
        lemma_walk_in_grid(m, info.position, direction);
    }
}

impl Maze {
    /// The graph link of the cell at `position` in `direction`.
    pub fn link(&self, position: usize, direction: Direction) -> (target: Option<usize>)
        requires
            self.wf(),
            position < self.cells.len(),
        ensures
            target == self@.links[position as int][direction.spec_index()],
            link_in_range(target, self@.len()),
    {
        assert(link_in_range(
            self@.links[position as int][direction.spec_index()],
            self@.len(),
        ));
        self.cells[position].nodes[direction.index()]
    }

    /// The directions in which a walk can leave `position`: all but
    /// `direction` whose neighbour is on the grid and not a wall, in
    /// canonical order.
    pub fn get_possible_directions(&self, position: usize, direction: Direction) -> (result: Vec<
        Direction,
    >)
        requires
            self.wf(),
        ensures
            result@ == possible_directions(self@.bare(), position as int, direction),
    {
        let directions = Direction::get_directions();
        let mut result: Vec<Direction> = Vec::new();
        let ghost g = self@.bare();
        let mut i: usize = 0;
        while i < NUM_OF_DIRECTIONS
            invariant
                i <= NUM_OF_DIRECTIONS,
                self.wf(),
                g == self@.bare(),
                directions@ == all_directions(),
                i == 0 ==> result@ == Seq::<Direction>::empty(),
                i == 1 ==> result@ == direction_if_usable(
                    g,
                    position as int,
                    direction,
                    Direction::North,
                ),
                i == 2 ==> result@ == direction_if_usable(
                    g,
                    position as int,
                    direction,
                    Direction::North,
                ) + direction_if_usable(g, position as int, direction, Direction::East),
                i == 3 ==> result@ == direction_if_usable(
                    g,
                    position as int,
                    direction,
                    Direction::North,
                ) + direction_if_usable(g, position as int, direction, Direction::East)
                    + direction_if_usable(g, position as int, direction, Direction::West),
                i == 4 ==> result@ == possible_directions(g, position as int, direction),
            decreases NUM_OF_DIRECTIONS - i,
        {
            let test_direction = directions[i];
            let ghost before = result@;
            if test_direction != direction {
                match self.neighbor(position, test_direction) {
                    Some(q) => {
                        if self.cells[q].celltype != MazeCellType::Wall {
                            result.push(test_direction);
                        }
                    },
                    None => {},
                }
            }
            assert(result@ =~= before + direction_if_usable(
                g,
                position as int,
                direction,
                test_direction,
            ));
            i += 1;
        }
        result
    }

    /// Looks one step from `position` in `direction` and says what is there.
    pub fn check_passage(&self, position: usize, direction: Direction) -> (info: GraphNodeInfo)
        requires
            self.wf(),
        ensures
            info@ == passage_info(self@.bare(), position as int, direction),
            info.nodetype != GraphNodeType::NA ==> info.position < self.cells.len(),
    {
        let mut info = GraphNodeInfo {
            position: 0,
            nodetype: GraphNodeType::NA,
            directions: Vec::new(),
        };
        match self.neighbor(position, direction) {
            Some(pos) => {
                if self.cells[pos].celltype == MazeCellType::Passage {
                    let opposite_direction = direction.get_opposite_direction();
                    info.directions = self.get_possible_directions(pos, opposite_direction);
                    let count: usize = info.directions.len();
                    if count == 0 {
                        info.nodetype = GraphNodeType::DeadEnd;
                    } else if count == 1 && info.directions[0] == direction {
                        info.nodetype = GraphNodeType::Straight;
                    } else {
                        info.nodetype = GraphNodeType::Intersection;
                    }
                    info.position = pos;
                } else if self.cells[pos].celltype == MazeCellType::End {
                    info.position = pos;
                    info.nodetype = GraphNodeType::End;
                }
            },
            None => {},
        }
        info
    }

    /// Follows the corridor from `position` in `direction` to the first cell
    /// that is not a straight passage.
    pub fn walk_corridor(&self, position: usize, direction: Direction) -> (info: GraphNodeInfo)
        requires
            self.wf(),
        ensures
            info@ == walk(self@.bare(), position as int, direction),
            info.nodetype != GraphNodeType::NA ==> info.position < self.cells.len(),
    {
        let ghost g = self@.bare();
        let mut info = self.check_passage(position, direction);
        let ghost mut at: int = position as int;
        while info.nodetype == GraphNodeType::Straight
            invariant
                self.wf(),
                g == self@.bare(),
                info@ == passage_info(g, at, direction),
                info.nodetype != GraphNodeType::NA ==> info.position < self.cells.len(),
                walk(g, position as int, direction) == walk(g, at, direction),
            decreases steps_left(g, at, direction),
        {
            proof {
                lemma_neighbor_in_grid(g.width, g.height, at, direction);
                at = info.position as int;
            }
            info = self.check_passage(info.position, direction);
        }
        info
    }

    /// Records the edge from `start` in `direction` to `end`: a half-edge in
    /// each of the two cells.
    pub fn add_topology_node(&mut self, start: usize, end: usize, direction: Direction)
        requires
            old(self).wf(),
            start < old(self).cells.len(),
            end < old(self).cells.len(),
        ensures
            final(self)@ == (MazeView {
                links: record(old(self)@.links, start as int, direction, end as int),
                ..old(self)@
            }),
            final(self).wf(),
    {
        let opposite = direction.get_opposite_direction();
        self.cells[start].nodes[direction.index()] = Some(end);
        let ghost mid = self@;
        proof {
            assert(mid.links[start as int] =~= old(self)@.links[start as int].update(
                direction.spec_index(),
                Some(end),
            ));
            assert(mid.links =~= old(self)@.links.update(
                start as int,
                old(self)@.links[start as int].update(direction.spec_index(), Some(end)),
            ));
        }
        self.cells[end].nodes[opposite.index()] = Some(start);
        proof {
            assert(self@.links[end as int] =~= mid.links[end as int].update(
                opposite.spec_index(),
                Some(start),
            ));
            assert(self@.links =~= record(
                old(self)@.links,
                start as int,
                direction,
                end as int,
            ));
            assert(self@.kinds =~= old(self)@.kinds);
            assert(self@.visited =~= old(self)@.visited);
            assert(self@.on_route =~= old(self)@.on_route);
        }
    }

    /// Takes every graph link off the grid.
    pub fn clear_topology_graph(&mut self)
        requires
            old(self).wf(),
        ensures
            final(self)@ == (MazeView {
                links: cleared_links(old(self)@.len()),
                graph_created: false,
                ..old(self)@
            }),
            final(self).wf(),
    {
        let n: usize = self.cells.len();
        let mut i: usize = 0;
        while i < n
            invariant
                i <= n,
                n == self.cells.len(),
                n == old(self).cells.len(),
                self.dimensions == old(self).dimensions,
                self.start == old(self).start,
                self.end == old(self).end,
                self.graph_created == old(self).graph_created,
                self@.kinds == old(self)@.kinds,
                self@.visited == old(self)@.visited,
                self@.on_route == old(self)@.on_route,
                forall|j: int|
                    0 <= j < i ==> (#[trigger] self@.links[j]) == seq![
                        None::<usize>,
                        None,
                        None,
                        None,
                    ],
            decreases n - i,
        {
            let ghost before = self@;
            self.cells[i].nodes = [None, None, None, None];
            proof {
                assert(self@.kinds =~= before.kinds);
                assert(self@.visited =~= before.visited);
                assert(self@.on_route =~= before.on_route);
                assert(self@.links[i as int] =~= seq![None::<usize>, None, None, None]);
                assert forall|j: int| 0 <= j < i implies (#[trigger] self@.links[j]) == seq![
                    None::<usize>,
                    None,
                    None,
                    None,
                ] by {
                    assert(self@.links[j] == before.links[j]);
                }
            }
            i += 1;
        }
        self.graph_created = false;
        assert(old(self)@.len() == n);
        assert(self@.links =~= cleared_links(old(self)@.len()));
    }

    /// Builds the topology graph of the maze. The graph links of the grid
    /// are cleared, then the corridors are walked from the start,
    /// southwards: each walk ends at the next node, the edge to it is
    /// recorded in both cells, and from a corner or junction the walk goes
    /// on in every direction but the one it came from. Fails with
    /// `StartNotFound`, and changes nothing, when the start marker does not
    /// point at a start cell.
    #[verifier::rlimit(60)]
    pub fn create_topology_graph(&mut self) -> (r: Result<(), AppError>)
        requires
            old(self).wf(),
        ensures
            final(self).wf(),
            match r {
                Ok(_) => {
                    &&& old(self)@.start < old(self)@.len()
                    &&& old(self)@.kinds[old(self)@.start] == MazeCellType::Start
                    &&& final(self)@ == (MazeView {
                        links: old(self)@.topology_links(),
                        graph_created: true,
                        ..old(self)@
                    })
                    &&& symmetric(final(self)@.links)
                    &&& follow_corridors(old(self)@.bare(), final(self)@.links)
                    &&& nodes_reachable(final(self)@.links, old(self)@.start)
                },
                Err(e) => {
                    &&& e.kind == ErrorKind::StartNotFound
                    &&& !(old(self)@.start < old(self)@.len() && old(self)@.kinds[old(self)@.start] == MazeCellType::Start)
                    &&& final(self)@ == old(self)@
                },
            },
    {
        if self.start >= self.cells.len() || self.cells[self.start].celltype
            != MazeCellType::Start {
            return Err(
                AppError::with_kind(ErrorKind::StartNotFound, "The maze has no start position"),
            );
        }
        let ghost g = self@.bare();
        let ghost m0 = self@;
        self.clear_topology_graph();
        let mut stack: Vec<(usize, Direction)> = Vec::new();
        stack.push((self.start, Direction::South));
        proof {
            assert(stack@ =~= seq![(m0.start as usize, Direction::South)]);
            let alone = seq![m0.start];
            assert(is_link_path(self@.links, alone));
            assert(alone[0] == m0.start && alone.last() == m0.start);
        }
        while stack.len() > 0
            invariant
                self.wf(),
                g == self@.bare(),
                g == m0.bare(),
                self@ == (MazeView { links: self@.links, graph_created: false, ..m0 }),
                symmetric(self@.links),
                follow_corridors(g, self@.links),
                nodes_reachable(self@.links, m0.start),
                forall|k: int|
                    0 <= k < stack.len() ==> (#[trigger] stack[k]).0 < self.cells.len()
                        && node_reachable(self@.links, m0.start, stack[k].0 as int),
                m0.topology_links() == topo_run(g, self@.links, stack@),
            decreases free_slots(self@.links), stack.len(),
        {
            let ghost links = self@.links;
            let ghost frames = stack@;
            let (from, direction) = stack.pop().unwrap();
            assert(stack@ == frames.drop_last());
            if self.cells[from].nodes[direction.index()].is_some() {
                continue ;
            }
            let found = self.walk_corridor(from, direction);
            if found.nodetype == GraphNodeType::NA || found.nodetype == GraphNodeType::Straight {
                continue ;
            }
            let opposite = direction.get_opposite_direction();
            if self.cells[found.position].nodes[opposite.index()].is_some() {
                continue ;
            }
            proof {
                lemma_walk_in_grid(g, from as int, direction);
                lemma_record(links, from as int, direction, found.position as int);
                assert(node_reachable(links, m0.start, from as int)) by {
                    assert(frames[frames.len() - 1].0 == from);
                }
                lemma_record_keeps_graph(
                    g,
                    links,
                    from as int,
                    direction,
                    found.position as int,
                    m0.start,
                );
                assert forall|k: int| 0 <= k < stack.len() implies node_reachable(
                    record(links, from as int, direction, found.position as int),
                    m0.start,
                    (#[trigger] stack[k]).0 as int,
                ) by {
                    assert(stack[k] == frames[k]);
                    lemma_record_keeps_path(
                        links,
                        from as int,
                        direction,
                        found.position as int,
                        m0.start,
                        stack[k].0 as int,
                    );
                }
            }
            self.add_topology_node(from, found.position, direction);
            if found.nodetype == GraphNodeType::Intersection {
                let ghost base = stack@;
                let mut i: usize = 0;
                while i < found.directions.len()
                    invariant
                        i <= found.directions.len(),
                        found.position < self.cells.len(),
                        node_reachable(self@.links, m0.start, found.position as int),
                        forall|k: int|
                            0 <= k < stack.len() ==> (#[trigger] stack[k]).0 < self.cells.len()
                                && node_reachable(self@.links, m0.start, stack[k].0 as int),
                        stack@ == base + frames_at(found.position, found.directions@.take(i as int)),
                    decreases found.directions.len() - i,
                {
                    stack.push((found.position, found.directions[i]));
                    assert(stack@ =~= base + frames_at(
                        found.position,
                        found.directions@.take(i as int + 1),
                    ));
                    i += 1;
                }
                assert(found.directions@.take(i as int) =~= found.directions@);
            } else {
                assert(stack@ =~= frames.drop_last() + Seq::<(usize, Direction)>::empty());
            }
        }
        self.graph_created = true;
        Ok(())
    }
}

/// Building the topology graph again on a maze whose cells have not changed
/// gives the graph that is already there: the graph depends on the size of
/// the grid, the kinds of its cells and the start only.
pub proof fn lemma_topology_graph_repeatable(first: MazeView, second: MazeView)
    requires
        second == (MazeView { links: first.topology_links(), graph_created: true, ..first }),
    ensures
        second.topology_links() == second.links,
{
    assert(second.bare() == first.bare());
}

/// The frame for `direction` at `position`, if the cell has a link there
/// and the direction is not the one to leave out.
pub open spec fn frame_if_linked(m: MazeView, position: int, back: Direction, direction: Direction)
    -> Seq<(usize, Direction)> {
    if m.links[position][direction.spec_index()] is Some && direction != back {
        seq![(position as usize, direction)]
    } else {
        Seq::empty()
    }
}

/// The frames for the edges that lead on from the node at `position`: one
/// for each link of the cell but the link in direction `back`, in
/// canonical order.
pub open spec fn onward_frames(m: MazeView, position: int, back: Direction) -> Seq<
    (usize, Direction),
> {
    frame_if_linked(m, position, back, Direction::North) + frame_if_linked(
        m,
        position,
        back,
        Direction::East,
    ) + frame_if_linked(m, position, back, Direction::West) + frame_if_linked(
        m,
        position,
        back,
        Direction::South,
    )
}

/// The first start cell in the first row of the grid, if there is one.
pub open spec fn start_in_first_row(m: MazeView, position: int) -> bool {
    &&& 0 <= position < m.width
    &&& position < m.len()
    &&& m.kinds[position] == MazeCellType::Start
    &&& forall|j: int| 0 <= j < position ==> m.kinds[j] != MazeCellType::Start
}

/// A walk over the edges of the topology graph, from the start onwards.
pub struct MazeGraphIterator<'a> {
    maze: &'a Maze,
    stack: Vec<(usize, Direction)>,
}

impl<'a> MazeGraphIterator<'a> {
    /// The maze that is walked over.
    pub closed spec fn maze(&self) -> Maze {
        *self.maze
    }

    /// The edges that the walk has yet to follow, the next one last: each
    /// as a node and the direction in which the edge leaves it.
    pub closed spec fn frames(&self) -> Seq<(usize, Direction)> {
        self.stack@
    }

    /// The maze is well formed, and the walk stands at cells of the maze.
    pub open spec fn wf(&self) -> bool {
        &&& self.maze().wf()
        &&& forall|k: int|
            0 <= k < self.frames().len() ==> (#[trigger] self.frames()[k]).0 < self.maze()@.len()
    }

    /// Follows the next edge. Returns column and row of the node where the
    /// edge begins, column and row of the node where it ends (0 and 0
    /// where the node has no link in that direction), and the cell where
    /// it begins. The edges that lead on from the far node, but for the
    /// one that leads back, are followed next. Returns `None` when no edge
    /// is left.
    pub fn next(&mut self) -> (r: Option<(usize, usize, usize, usize, &'a MazeCell)>)
        requires
            old(self).wf(),
        ensures
            final(self).wf(),
            final(self).maze() == old(self).maze(),
            match r {
                None => old(self).frames().len() == 0 && final(self).frames() == old(self).frames(),
                Some((prev_x, prev_y, x, y, cell)) => {
                    let m = old(self).maze()@;
                    let (position, direction) = old(self).frames().last();
                    let link = m.links[position as int][direction.spec_index()];
                    let far = match link {
                        Some(pos) => pos as int,
                        None => 0,
                    };
                    &&& old(self).frames().len() > 0
                    &&& prev_x == position as int % m.width
                    &&& prev_y == position as int / m.width
                    &&& x == far % m.width
                    &&& y == far / m.width
                    &&& *cell == old(self).maze().cells[position as int]
                    &&& final(self).frames() == old(self).frames().drop_last() + match link {
                        Some(pos) => onward_frames(m, pos as int, direction.spec_opposite()),
                        None => Seq::empty(),
                    }
                },
            },
    {
        let maze: &'a Maze = self.maze;
        let ghost m = maze@;
        let ghost frames = self.stack@;
        match self.stack.pop() {
            Some((position, direction)) => {
                let mut new_position: usize = 0;
                assert(frames[frames.len() - 1].0 < m.len());
                match maze.link(position, direction) {
                    Some(pos) => {
                        new_position = pos;
                        let directions = Direction::get_directions();
                        let back = direction.get_opposite_direction();
                        let ghost base = self.stack@;
                        let mut i: usize = 0;
                        while i < NUM_OF_DIRECTIONS
                            invariant
                                i <= NUM_OF_DIRECTIONS,
                                maze.wf(),
                                m == maze@,
                                self.maze() == *maze,
                                *maze == old(self).maze(),
                                pos < maze.cells.len(),
                                directions@ == all_directions(),
                                forall|k: int|
                                    0 <= k < self.stack@.len() ==> (#[trigger] self.stack@[k]).0
                                        < m.len(),
                                i == 0 ==> self.stack@ == base,
                                i == 1 ==> self.stack@ == base + frame_if_linked(
                                    m,
                                    pos as int,
                                    back,
                                    Direction::North,
                                ),
                                i == 2 ==> self.stack@ == base + (frame_if_linked(
                                    m,
                                    pos as int,
                                    back,
                                    Direction::North,
                                ) + frame_if_linked(m, pos as int, back, Direction::East)),
                                i == 3 ==> self.stack@ == base + (frame_if_linked(
                                    m,
                                    pos as int,
                                    back,
                                    Direction::North,
                                ) + frame_if_linked(m, pos as int, back, Direction::East)
                                    + frame_if_linked(m, pos as int, back, Direction::West)),
                                i == 4 ==> self.stack@ == base + onward_frames(m, pos as int, back),
                            decreases NUM_OF_DIRECTIONS - i,
                        {
                            let dir = directions[i];
                            let ghost before = self.stack@;
                            if maze.link(pos, dir).is_some() && dir != back {
                                self.stack.push((pos, dir));
                            }
                            assert(self.stack@ =~= before + frame_if_linked(
                                m,
                                pos as int,
                                back,
                                dir,
                            ));
                            i += 1;
                        }
                    },
                    None => {
                        assert(self.stack@ =~= frames.drop_last() + Seq::<
                            (usize, Direction),
                        >::empty());
                    },
                }
                assert(maze.dimensions.width > 0) by {
                    if maze.dimensions.width == 0 {
                        assert(m.len() == 0) by (nonlinear_arith)
                            requires
                                m.len() == m.width * m.height,
                                m.width == 0,
                        ;
                    }
                }
                let width: usize = maze.dimensions.width;
                let y: usize = new_position / width;
                let x: usize = new_position % width;
                let prev_y: usize = position / width;
                let prev_x: usize = position % width;
                Some((prev_x, prev_y, x, y, &maze.cells[position]))
            },
            None => None,
        }
    }
}

impl Maze {
    /// A walk over the edges of the topology graph. It begins at the first
    /// start cell of the first row, southwards; where the first row has no
    /// start cell, the walk is over before it begins.
    pub fn into_iter(&self) -> (iter: MazeGraphIterator<'_>)
        requires
            self.wf(),
        ensures
            iter.wf(),
            iter.maze() == *self,
            iter.frames().len() <= 1,
            iter.frames().len() == 1 ==> iter.frames()[0].1 == Direction::South
                && start_in_first_row(self@, iter.frames()[0].0 as int),
            iter.frames().len() == 0 ==> forall|j: int|
                0 <= j < self@.width && j < self@.len() ==> self@.kinds[j] != MazeCellType::Start,
    {
        let mut iter = MazeGraphIterator { maze: self, stack: Vec::new() };
        let mut i: usize = 0;
        while i < self.dimensions.width && i < self.cells.len()
            invariant
                iter.maze() == *self,
                iter.frames().len() == 0,
                self.wf(),
                forall|j: int| 0 <= j < i ==> self@.kinds[j] != MazeCellType::Start,
            decreases self.dimensions.width - i,
        {
            if self.cells[i].celltype == MazeCellType::Start {
                iter.stack.push((i, Direction::South));
                return iter;
            }
            i += 1;
        }
        iter
    }
}

} // verus!
