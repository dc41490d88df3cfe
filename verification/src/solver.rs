//! The A* solver. The search is stated as a function on a mathematical
//! model of its state; the executable search follows that function step
//! by step.

use vstd::prelude::*;
use vstd::multiset::Multiset;
use heapless::binary_heap::{BinaryHeap, Min};
use crate::common::{AppError, ErrorKind};
use crate::capacity::{lemma_new_search_spares, lemma_step_spares, sparing};
use crate::chain::{
    lemma_seeded_rooted,
    lemma_step_keeps_rooted,
    lemma_trace_path_marks,
    lemma_trace_path_simple,
    lemma_trace_path_way,
    rooted,
    route_is_chain,
    simple,
    trace_path,
    tree_search,
};
use crate::connectivity::{
    adjacent,
    is_path,
    linked,
    ranked,
    lemma_adjacent_same_size,
    lemma_open_neighbors_adjacent,
    lemma_path_same_cells,
    marked_along,
};
use crate::exploration::{
    lemma_search_reaches_end,
    lemma_seeded_thorough,
    lemma_step_keeps_thorough,
    single_end,
    thorough,
};
use crate::maze::{same_positions, Maze, MazeCellType, MazeView};
use crate::open_set::{
    heap_clear,
    heap_items,
    heap_len,
    heap_new,
    heap_pop,
    heap_push,
    heap_to_vec,
    is_min_item,
    lemma_min_item_unique,
    MAX_HEAP_SIZE,
};

verus! {

/// A candidate of the search: a position, the position it was reached from,
/// the cost `g` of the way to it, the estimate `h` of the way from it to the
/// end, and their sum `f`.
#[derive(Clone, Copy, Debug, PartialEq, Eq, Structural)]
pub struct ListItem {
    pub position: usize,
    pub parent: usize,
    pub f: usize,
    pub g: usize,
    pub h: usize,
}

/// The working state of one search: the open set and the closed list.
/// A session belongs to one maze from its first step to its last.
pub struct SolveSession {
    open: BinaryHeap<(usize, usize, usize, usize), Min, MAX_HEAP_SIZE>,
    closed: Vec<ListItem>,
    started: bool,
}

/// The model of a search in progress.
#[verifier::ext_equal]
pub struct SearchState {
    /// For each cell, whether the search has examined it.
    pub visited: Seq<bool>,
    /// The candidates that wait to be expanded, each as `(f, g, position, parent)`.
    pub open: Multiset<(usize, usize, usize, usize)>,
    /// Every candidate that was ever generated, in the order of generation.
    pub closed: Seq<ListItem>,
}

/// How a part of the search ended.
#[derive(Clone, Copy, Debug, PartialEq, Eq, Structural)]
pub enum Progress {
    /// The search goes on.
    Continue,
    /// The end was reached; the open set has been emptied.
    FoundEnd,
    /// The open set is full, or a cost does not fit the machine's integers.
    OutOfCapacity,
}

/// The open set holds a candidate for `position` with an `f` below the given one.
pub open spec fn has_better_open(
    open: Multiset<(usize, usize, usize, usize)>,
    position: int,
    f: int,
) -> bool {
    exists|x: (usize, usize, usize, usize)| open.count(x) > 0 && x.2 == position && x.0 < f
}

/// The closed list holds a candidate for `position` with an `f` below the given one.
pub open spec fn has_better_closed(closed: Seq<ListItem>, position: int, f: int) -> bool {
    exists|i: int| 0 <= i < closed.len() && closed[i].position == position && closed[i].f < f
}

/// `positions` without every occurrence of `value`.
pub open spec fn without_value(positions: Seq<int>, value: int) -> Seq<int>
    decreases positions.len(),
{
    if positions.len() == 0 {
        Seq::empty()
    } else if positions.last() != value {
        without_value(positions.drop_last(), value).push(positions.last())
    } else {
        without_value(positions.drop_last(), value)
    }
}

/// The successors of a candidate: the neighbours of its position that are
/// not walls, but for the position it was reached from.
pub open spec fn successors(m: MazeView, position: int, parent: int) -> Seq<int> {
    without_value(m.open_neighbors(position), parent)
}

/// The candidate that the open set gives up next.
pub open spec fn first_item(open: Multiset<(usize, usize, usize, usize)>) -> (
    usize,
    usize,
    usize,
    usize,
) {
    choose|x: (usize, usize, usize, usize)| is_min_item(open, x)
}

/// The search takes note of the successor `s` of the candidate at
/// `parent_position` with cost `parent_g`.
pub open spec fn offer(
    m: MazeView,
    st: SearchState,
    parent_position: int,
    parent_g: int,
    s: int,
) -> (SearchState, Progress) {
    let g = parent_g + 1;
    let h = m.manhattan_distance(s, m.end);
    let f = g + h;
    if f > usize::MAX || st.closed.len() >= usize::MAX {
        (st, Progress::OutOfCapacity)
    } else {
        let entry = ListItem {
            position: s as usize,
            parent: parent_position as usize,
            f: f as usize,
            g: g as usize,
            h: h as usize,
        };
        let closed = st.closed.push(entry);
        if m.kinds[s] == MazeCellType::End {
            (
                SearchState {
                    visited: st.visited.update(s, true),
                    open: Multiset::empty(),
                    closed,
                },
                Progress::FoundEnd,
            )
        } else if has_better_open(st.open, s, f) || has_better_closed(st.closed, s, f) {
            (SearchState { closed, ..st }, Progress::Continue)
        } else if st.open.len() >= MAX_HEAP_SIZE {
            (SearchState { closed, ..st }, Progress::OutOfCapacity)
        } else {
            (
                SearchState {
                    open: st.open.insert(
                        (f as usize, g as usize, s as usize, parent_position as usize),
                    ),
                    closed,
                    ..st
                },
                Progress::Continue,
            )
        }
    }
}

/// The search takes note of the first `count` of the successors `succ`,
/// the last of them first, and stops early when the end is found or the
/// capacity is used up.
pub open spec fn expand(
    m: MazeView,
    st: SearchState,
    parent_position: int,
    parent_g: int,
    succ: Seq<int>,
    count: int,
) -> (SearchState, Progress)
    decreases count,
{
    if count <= 0 {
        (st, Progress::Continue)
    } else {
        let (next, progress) = offer(m, st, parent_position, parent_g, succ[count - 1]);
        if progress == Progress::Continue {
            expand(m, next, parent_position, parent_g, succ, count - 1)
        } else {
            (next, progress)
        }
    }
}

/// One step of the search: the first candidate leaves the open set, its
/// cell is marked as visited, and its successors are taken note of.
pub open spec fn step(m: MazeView, st: SearchState) -> (SearchState, Progress) {
    let item = first_item(st.open);
    let popped = SearchState {
        visited: st.visited.update(item.2 as int, true),
        open: st.open.remove(item),
        closed: st.closed,
    };
    let succ = successors(m, item.2 as int, item.3 as int);
    expand(m, popped, item.2 as int, item.1 as int, succ, succ.len() as int)
}

/// A step brings the search nearer to its end: the closed list has grown,
/// or it is as long as before and the open set has shrunk.
pub open spec fn advanced(before: SearchState, after: SearchState) -> bool {
    &&& after.closed.len() <= usize::MAX
    &&& after.closed.len() >= before.closed.len()
    &&& after.closed.len() > before.closed.len() || after.open.len() < before.open.len()
}

/// The search runs until the open set is empty or the capacity is used up.
pub open spec fn run(m: MazeView, st: SearchState) -> (SearchState, Progress)
    decreases usize::MAX - st.closed.len(), st.open.len(),
{
    if st.open.len() == 0 || st.closed.len() > usize::MAX {
        (st, Progress::Continue)
    } else {
        let (next, progress) = step(m, st);
        if progress != Progress::OutOfCapacity && advanced(st, next) {
            run(m, next)
        } else {
            (next, progress)
        }
    }
}

/// The search as one call performs it: a single step where `single_step` is
/// set and there is a candidate to expand, the whole run otherwise.
pub open spec fn search(m: MazeView, st: SearchState, single_step: bool) -> (
    SearchState,
    Progress,
) {
    if single_step {
        if st.open.len() > 0 {
            step(m, st)
        } else {
            (st, Progress::Continue)
        }
    } else {
        run(m, st)
    }
}

/// The state of a search before its first step: the start is the only
/// candidate, with itself as parent and all costs 0.
pub open spec fn seeded(m: MazeView, st: SearchState, started: bool) -> SearchState {
    if started {
        st
    } else {
        SearchState {
            open: st.open.insert((0usize, 0usize, m.start as usize, m.start as usize)),
            closed: st.closed.push(
                ListItem {
                    position: m.start as usize,
                    parent: m.start as usize,
                    f: 0,
                    g: 0,
                    h: 0,
                },
            ),
            ..st
        }
    }
}

/// The route marks after the closed list has been followed backwards from
/// its entry `count - 1` down to its first: an entry for the position
/// looked for is marked, and its parent is looked for from there on.
pub open spec fn trace_marks(
    closed: Seq<ListItem>,
    count: int,
    target: usize,
    on_route: Seq<bool>,
) -> Seq<bool>
    decreases count,
{
    if count <= 0 {
        on_route
    } else if closed[count - 1].position == target {
        trace_marks(
            closed,
            count - 1,
            closed[count - 1].parent,
            on_route.update(target as int, true),
        )
    } else {
        trace_marks(closed, count - 1, target, on_route)
    }
}

/// The route marks of a finished search: the closed list is followed
/// backwards from its last entry.
pub open spec fn route_marks(closed: Seq<ListItem>, on_route: Seq<bool>) -> Seq<bool> {
    if closed.len() == 0 {
        on_route
    } else {
        trace_marks(closed, closed.len() as int, closed.last().position, on_route)
    }
}

/// One of the first `count` entries of the closed list is for `position`.
pub open spec fn has_position(closed: Seq<ListItem>, count: int, position: int) -> bool {
    exists|j: int| 0 <= j < count && j < closed.len() && (#[trigger] closed[j]).position == position
}

/// Every candidate of the state is a cell of the maze that is not a wall.
/// The closed list begins with the start; every later entry stands next to
/// its parent, and the closed list has an entry for the parent before it.
/// The closed list has an entry for every candidate of the open set.
pub open spec fn candidates_in_maze(m: MazeView, st: SearchState) -> bool {
    &&& st.visited == m.visited
    &&& forall|x: (usize, usize, usize, usize)|
        st.open.count(x) > 0 ==> x.2 < m.len() && m.kinds[x.2 as int] != MazeCellType::Wall
            && m.kinds[x.2 as int] != MazeCellType::End && has_position(
            st.closed,
            st.closed.len() as int,
            x.2 as int,
        )
    &&& forall|i: int|
        0 <= i < st.closed.len() ==> (#[trigger] st.closed[i]).position < m.len()
            && m.kinds[st.closed[i].position as int] != MazeCellType::Wall
    &&& st.closed.len() > 0 ==> st.closed[0].position == m.start
    &&& forall|i: int|
        1 <= i < st.closed.len() ==> has_position(st.closed, i, (#[trigger] st.closed[i]).parent as int)
            && adjacent(m, st.closed[i].parent as int, st.closed[i].position as int)
}

/// An end cell that the search has come to since the marks were as in
/// `before` is where the search stopped: the last entry of the closed list
/// is for that cell, and the open set is empty.
pub open spec fn stopped_at_end(m: MazeView, before: Seq<bool>, st: SearchState) -> bool {
    forall|e: int|
        0 <= e < m.len() && m.kinds[e] == MazeCellType::End && (#[trigger] st.visited[e])
            && !before[e] ==> st.open.len() == 0 && st.closed.len() > 0
            && st.closed.last().position == e
}

/// The route marks are the marks that were there and a mark on every cell
/// of a way from the position of the last entry of the closed list to the
/// start.
pub open spec fn route_is_way(
    m: MazeView,
    closed: Seq<ListItem>,
    before: Seq<bool>,
    after: Seq<bool>,
) -> bool {
    exists|path: Seq<int>| #[trigger]
        is_path(m, path) && path[0] == closed.last().position && path.last() == m.start && after
            == marked_along(before, path)
}

/// The route marks are the marks that were there and a mark on every cell
/// of a way from the end to the start: the route joins start and end.
pub open spec fn route_joins_ends(m: MazeView, before: Seq<bool>, after: Seq<bool>) -> bool {
    exists|path: Seq<int>| #[trigger]
        is_path(m, path) && path[0] == m.end && path.last() == m.start && after == marked_along(
            before,
            path,
        )
}

/// No mark was taken away, and no wall has got a mark.
pub open spec fn marks_grown(kinds: Seq<MazeCellType>, before: Seq<bool>, after: Seq<bool>)
    -> bool {
    &&& after.len() == before.len()
    &&& forall|i: int| 0 <= i < before.len() && before[i] ==> after[i]
    &&& forall|i: int|
        0 <= i < before.len() && after[i] && !before[i] ==> kinds[i] != MazeCellType::Wall
}

impl SolveSession {
    /// A session that has not started.
    pub fn new() -> (session: SolveSession)
        ensures
            !session.started(),
            session.open_items() == Multiset::<(usize, usize, usize, usize)>::empty(),
            session.closed_items() == Seq::<ListItem>::empty(),
    {
        SolveSession { open: heap_new(), closed: Vec::new(), started: false }
    }

    /// The candidates that wait to be expanded.
    pub closed spec fn open_items(&self) -> Multiset<(usize, usize, usize, usize)> {
        heap_items(self.open)
    }

    /// Every candidate that was ever generated, in the order of generation.
    pub closed spec fn closed_items(&self) -> Seq<ListItem> {
        self.closed@
    }

    /// Whether the search has been seeded.
    pub closed spec fn started(&self) -> bool {
        self.started
    }

    /// The model of the search that this session and the maze `m` hold.
    pub open spec fn state(&self, m: MazeView) -> SearchState {
        SearchState { visited: m.visited, open: self.open_items(), closed: self.closed_items() }
    }

    /// The session fits the maze: its candidates are cells of the maze that
    /// are not walls, and a session that has not started holds none.
    pub open spec fn wf(&self, m: MazeView) -> bool {
        &&& candidates_in_maze(m, self.state(m))
        &&& !self.started() ==> self.open_items().len() == 0 && self.closed_items().len() == 0
        &&& self.started() ==> self.closed_items().len() > 0
    }

    /// The closed list is a vector, and no vector is longer than the
    /// largest `usize`.
    pub proof fn lemma_closed_bounded(&self)
        ensures
            self.closed_items().len() <= usize::MAX,
    {
        assert(self.closed.len() == self.closed@.len());
    }

    /// The number of candidates that wait to be expanded.
    pub fn open_len(&self) -> (n: usize)
        ensures
            n == self.open_items().len(),
    {
        heap_len(&self.open)
    }

    /// The number of candidates that were ever generated.
    pub fn closed_len(&self) -> (n: usize)
        ensures
            n == self.closed_items().len(),
    {
        self.closed.len()
    }

    /// The candidate that was generated as number `index`.
    pub fn closed_item(&self, index: usize) -> (item: ListItem)
        requires
            index < self.closed_items().len(),
        ensures
            item == self.closed_items()[index as int],
    {
        self.closed[index]
    }

    /// Whether the open set holds a candidate for `position` with an `f`
    /// below the given one.
    fn open_has_better(&self, position: usize, f: usize) -> (better: bool)
        ensures
            better == has_better_open(self.open_items(), position as int, f as int),
    {
        let items = heap_to_vec(&self.open);
        let mut i: usize = 0;
        while i < items.len()
            invariant
                i <= items.len(),
                items@.to_multiset() == self.open_items(),
                forall|j: int| 0 <= j < i ==> !(items[j].2 == position && items[j].0 < f),
            decreases items.len() - i,
        {
            if items[i].2 == position && items[i].0 < f {
                proof {
                    items@.to_multiset_ensures();
                    assert(items@.contains(items[i as int]));
                    assert(self.open_items().count(items[i as int]) > 0);
                }
                return true;
            }
            i += 1;
        }
        assert forall|x: (usize, usize, usize, usize)|
            self.open_items().count(x) > 0 implies !(x.2 == position && x.0 < f) by {
            items@.to_multiset_ensures();
            assert(items@.contains(x));
        }
        false
    }

    /// Whether the closed list holds a candidate for `position` with an `f`
    /// below the given one.
    fn closed_has_better(&self, position: usize, f: usize) -> (better: bool)
        ensures
            better == has_better_closed(self.closed_items(), position as int, f as int),
    {
        let mut i: usize = 0;
        while i < self.closed.len()
            invariant
                i <= self.closed.len(),
                forall|j: int|
                    0 <= j < i ==> !(self.closed[j].position == position && self.closed[j].f < f),
            decreases self.closed.len() - i,
        {
            if self.closed[i].position == position && self.closed[i].f < f {
                return true;
            }
            i += 1;
        }
        false
    }
}

/// A neighbour that is not a wall is a cell of the grid.
pub proof fn lemma_successors_in_maze(m: MazeView, position: int, parent: int)
    requires
        m.wf(),
    ensures
        forall|k: int|
            0 <= k < successors(m, position, parent).len() ==> {
                &&& 0 <= (#[trigger] successors(m, position, parent)[k]) < m.len()
                &&& m.kinds[successors(m, position, parent)[k]] != MazeCellType::Wall
                &&& adjacent(m, position, successors(m, position, parent)[k])
            },
{
    let all = m.open_neighbors(position);
    let succ = successors(m, position, parent);
    crate::maze::lemma_open_neighbors_in_grid(m, position);
    lemma_open_neighbors_adjacent(m, position);
    lemma_without_value_keeps(all, parent);
    assert forall|k: int| 0 <= k < succ.len() implies {
        &&& 0 <= (#[trigger] succ[k]) < m.len()
        &&& m.kinds[succ[k]] != MazeCellType::Wall
        &&& adjacent(m, position, succ[k])
    } by {
        assert(all.contains(succ[k]));
        let j = choose|j: int| 0 <= j < all.len() && all[j] == succ[k];
        assert(adjacent(m, position, all[j]));
    }
}

/// What is left after taking a value out was there before.
pub proof fn lemma_without_value_keeps(positions: Seq<int>, value: int)
    ensures
        forall|k: int|
            0 <= k < without_value(positions, value).len() ==> positions.contains(
                #[trigger] without_value(positions, value)[k],
            ),
    decreases positions.len(),
{
    if positions.len() > 0 {
        let rest = positions.drop_last();
        lemma_without_value_keeps(rest, value);
        let out = without_value(positions, value);
        assert forall|k: int| 0 <= k < out.len() implies positions.contains(#[trigger] out[k]) by {
            if k < without_value(rest, value).len() {
                let v = without_value(rest, value)[k];
                assert(rest.contains(v));
                let j = choose|j: int| 0 <= j < rest.len() && rest[j] == v;
                assert(positions[j] == v);
            } else {
                assert(positions[positions.len() - 1] == out[k]);
            }
        }
    }
}

impl Maze {
    /// The successors of the candidate at `position` that was reached
    /// from `parent`.
    pub fn successors(&self, position: usize, parent: usize) -> (succ: Vec<usize>)
        requires
            self.wf(),
        ensures
            same_positions(succ@, successors(self@, position as int, parent as int)),
    {
        let neighbours = self.get_neighbours(position);
        let mut succ: Vec<usize> = Vec::new();
        let ghost all = self@.open_neighbors(position as int);
        let mut i: usize = 0;
        while i < neighbours.len()
            invariant
                i <= neighbours.len(),
                same_positions(neighbours@, all),
                same_positions(succ@, without_value(all.take(i as int), parent as int)),
            decreases neighbours.len() - i,
        {
            let p: usize = neighbours[i];
            proof {
                assert(all.take(i as int + 1).drop_last() =~= all.take(i as int));
                assert(all.take(i as int + 1).last() == p as int);
            }
            if p != parent {
                succ.push(p);
            }
            i += 1;
        }
        assert(all.take(i as int) =~= all);
        succ
    }

    /// Takes note of the successor `s` of the candidate at
    /// `parent_position` with cost `parent_g`.
    fn astar_offer(
        &mut self,
        session: &mut SolveSession,
        parent_position: usize,
        parent_g: usize,
        s: usize,
    ) -> (progress: Progress)
        requires
            old(self).wf(),
            old(self)@.has_start_and_end(),
            candidates_in_maze(old(self)@, old(session).state(old(self)@)),
            old(session).started(),
            s < old(self)@.len(),
            old(self)@.kinds[s as int] != MazeCellType::Wall,
            has_position(
                old(session).closed_items(),
                old(session).closed_items().len() as int,
                parent_position as int,
            ),
            adjacent(old(self)@, parent_position as int, s as int),
        ensures
            has_position(
                final(session).closed_items(),
                final(session).closed_items().len() as int,
                parent_position as int,
            ),
            (final(session).state(final(self)@), progress) == offer(
                old(self)@,
                old(session).state(old(self)@),
                parent_position as int,
                parent_g as int,
                s as int,
            ),
            final(self)@ == (MazeView { visited: final(self)@.visited, ..old(self)@ }),
            progress != Progress::FoundEnd ==> final(self)@.visited == old(self)@.visited,
            stopped_at_end(
                old(self)@,
                old(self)@.visited,
                final(session).state(final(self)@),
            ),
            marks_grown(old(self)@.kinds, old(self)@.visited, final(self)@.visited),
            candidates_in_maze(final(self)@, final(session).state(final(self)@)),
            final(session).started(),
            final(session).closed_items().len() >= old(session).closed_items().len(),
            final(session).closed_items().len() > old(session).closed_items().len() || final(session).state(final(self)@) == old(session).state(old(self)@),
            final(session).closed_items().len() <= usize::MAX,
    {
        let ghost m = self@;
        let ghost st = session.state(m);
        proof {
            session.lemma_closed_bounded();
            assert(self.cells.len() == m.len());
            assert(st.closed.len() > 0);
            lemma_offer_keeps_candidates(m, st, parent_position as int, parent_g as int, s as int);
        }
        let h: usize = self.manhattan_distance(s, self.end);
        let g: usize = match parent_g.checked_add(1) {
            Some(g) => g,
            None => {
                return Progress::OutOfCapacity;
            },
        };
        let f: usize = match g.checked_add(h) {
            Some(f) => f,
            None => {
                return Progress::OutOfCapacity;
            },
        };
        if session.closed.len() == usize::MAX {
            return Progress::OutOfCapacity;
        }
        let entry = ListItem { position: s, parent: parent_position, f, g, h };
        if self.cells[s].celltype == MazeCellType::End {
            self.mark_visited(s);
            session.closed.push(entry);
            heap_clear(&mut session.open);
            assert(session.state(self@) =~= offer(
                m,
                st,
                parent_position as int,
                parent_g as int,
                s as int,
            ).0);
            return Progress::FoundEnd;
        }
        let better: bool = session.open_has_better(s, f) || session.closed_has_better(s, f);
        session.closed.push(entry);
        if better {
            assert(session.state(self@) =~= offer(
                m,
                st,
                parent_position as int,
                parent_g as int,
                s as int,
            ).0);
            return Progress::Continue;
        }
        match heap_push(&mut session.open, (f, g, s, parent_position)) {
            Ok(_) => {
                assert(session.state(self@) =~= offer(
                    m,
                    st,
                    parent_position as int,
                    parent_g as int,
                    s as int,
                ).0);
                Progress::Continue
            },
            Err(_) => {
                assert(session.state(self@) =~= offer(
                    m,
                    st,
                    parent_position as int,
                    parent_g as int,
                    s as int,
                ).0);
                Progress::OutOfCapacity
            },
        }
    }

    /// Takes note of the successors `succ` of the candidate at
    /// `parent_position`, the last of them first.
    fn astar_expand(
        &mut self,
        session: &mut SolveSession,
        parent_position: usize,
        parent_g: usize,
        succ: &Vec<usize>,
        Ghost(model): Ghost<Seq<int>>,
    ) -> (progress: Progress)
        requires
            old(self).wf(),
            old(self)@.has_start_and_end(),
            candidates_in_maze(old(self)@, old(session).state(old(self)@)),
            old(session).started(),
            old(session).closed_items().len() <= usize::MAX,
            same_positions(succ@, model),
            forall|k: int|
                0 <= k < model.len() ==> 0 <= #[trigger] model[k] < old(self)@.len() && old(self)@.kinds[model[k]] != MazeCellType::Wall
                    && adjacent(old(self)@, parent_position as int, model[k]),
            has_position(
                old(session).closed_items(),
                old(session).closed_items().len() as int,
                parent_position as int,
            ),
        ensures
            (final(session).state(final(self)@), progress) == expand(
                old(self)@,
                old(session).state(old(self)@),
                parent_position as int,
                parent_g as int,
                model,
                model.len() as int,
            ),
            final(self)@ == (MazeView { visited: final(self)@.visited, ..old(self)@ }),
            progress != Progress::FoundEnd ==> final(self)@.visited == old(self)@.visited,
            stopped_at_end(
                old(self)@,
                old(self)@.visited,
                final(session).state(final(self)@),
            ),
            marks_grown(old(self)@.kinds, old(self)@.visited, final(self)@.visited),
            candidates_in_maze(final(self)@, final(session).state(final(self)@)),
            final(session).started(),
            final(session).closed_items().len() >= old(session).closed_items().len(),
            final(session).closed_items().len() <= usize::MAX,
            final(session).closed_items().len() > old(session).closed_items().len() || final(session).state(final(self)@) == old(session).state(old(self)@),
    {
        let ghost m = self@;
        let ghost st = session.state(m);
        let mut k: usize = succ.len();
        let mut progress = Progress::Continue;
        while k > 0 && progress == Progress::Continue
            invariant
                k <= succ.len(),
                same_positions(succ@, model),
                forall|j: int|
                    0 <= j < model.len() ==> 0 <= #[trigger] model[j] < m.len() && m.kinds[model[j]]
                        != MazeCellType::Wall && adjacent(m, parent_position as int, model[j]),
                has_position(
                    session.closed_items(),
                    session.closed_items().len() as int,
                    parent_position as int,
                ),
                m.wf(),
                m.has_start_and_end(),
                self@ == (MazeView { visited: self@.visited, ..m }),
                marks_grown(m.kinds, m.visited, self@.visited),
                progress != Progress::FoundEnd ==> self@.visited == m.visited,
                stopped_at_end(m, m.visited, session.state(self@)),
                candidates_in_maze(self@, session.state(self@)),
                session.started(),
                session.closed_items().len() >= st.closed.len(),
                session.closed_items().len() <= usize::MAX,
                session.closed_items().len() > st.closed.len() || session.state(self@) == st,
                k == succ.len() ==> progress == Progress::Continue,
                expand(m, st, parent_position as int, parent_g as int, model, model.len() as int)
                    == if progress == Progress::Continue {
                    expand(
                        m,
                        session.state(self@),
                        parent_position as int,
                        parent_g as int,
                        model,
                        k as int,
                    )
                } else {
                    (session.state(self@), progress)
                },
            decreases k,
        {
            let ghost before = self@;
            let s: usize = succ[k - 1];
            assert(s as int == model[k - 1]);
            proof {
                lemma_adjacent_same_size(m, before, parent_position as int, s as int);
            }
            progress = self.astar_offer(session, parent_position, parent_g, s);
            proof {
                assert(before == (MazeView { visited: before.visited, ..m }));
                assert(offer(
                    before,
                    session.state(before),
                    parent_position as int,
                    parent_g as int,
                    s as int,
                ) == offer(
                    m,
                    session.state(before),
                    parent_position as int,
                    parent_g as int,
                    s as int,
                ));
            }
            k -= 1;
        }
        progress
    }

    /// One step of the search.
    fn astar_step(&mut self, session: &mut SolveSession) -> (progress: Progress)
        requires
            old(self).wf(),
            old(self)@.has_start_and_end(),
            candidates_in_maze(old(self)@, old(session).state(old(self)@)),
            old(session).started(),
            old(session).open_items().len() > 0,
            old(session).closed_items().len() <= usize::MAX,
        ensures
            (final(session).state(final(self)@), progress) == step(
                old(self)@,
                old(session).state(old(self)@),
            ),
            final(self)@ == (MazeView { visited: final(self)@.visited, ..old(self)@ }),
            stopped_at_end(
                old(self)@,
                old(self)@.visited,
                final(session).state(final(self)@),
            ),
            marks_grown(old(self)@.kinds, old(self)@.visited, final(self)@.visited),
            candidates_in_maze(final(self)@, final(session).state(final(self)@)),
            final(session).started(),
            advanced(old(session).state(old(self)@), final(session).state(final(self)@)),
            is_min_item(old(session).open_items(), first_item(old(session).open_items())),
    {
        let ghost m = self@;
        let ghost st = session.state(m);
        let popped = heap_pop(&mut session.open);
        match popped {
            Some(item) => {
                proof {
                    lemma_min_item_unique(st.open, item, first_item(st.open));
                    lemma_successors_in_maze(m, item.2 as int, item.3 as int);
                }
                self.mark_visited(item.2);
                let succ = self.successors(item.2, item.3);
                let ghost model = successors(m, item.2 as int, item.3 as int);
                let ghost mid = self@;
                let ghost mid_state = session.state(mid);
                proof {
                    assert(mid == (MazeView { visited: mid.visited, ..m }));
                    assert(successors(mid, item.2 as int, item.3 as int) == model);
                    assert(mid_state.open.len() == st.open.len() - 1);
                    let popped_state = SearchState { open: st.open.remove(item), ..st };
                    assert(candidates_in_maze(m, popped_state));
                    lemma_candidates_same_cells(m, mid, popped_state);
                    assert(mid_state =~= SearchState { visited: mid.visited, ..popped_state });
                    assert forall|k: int| 0 <= k < model.len() implies adjacent(
                        mid,
                        item.2 as int,
                        #[trigger] model[k],
                    ) by {
                        lemma_adjacent_same_size(m, mid, item.2 as int, model[k]);
                    }
                }
                let progress = self.astar_expand(session, item.2, item.1, &succ, Ghost(model));
                proof {
                    lemma_expand_ignores_marks(
                        mid,
                        m,
                        mid_state,
                        item.2 as int,
                        item.1 as int,
                        model,
                        model.len() as int,
                    );
                }
                progress
            },
            None => {
                Progress::Continue
            },
        }
    }

    /// Marks the route of a finished search on the grid.
    fn mark_route(&mut self, session: &SolveSession)
        requires
            old(self).wf(),
            candidates_in_maze(old(self)@, session.state(old(self)@)),
        ensures
            final(self)@ == (MazeView {
                on_route: route_marks(session.closed_items(), old(self)@.on_route),
                ..old(self)@
            }),
            marks_grown(old(self)@.kinds, old(self)@.on_route, final(self)@.on_route),
            session.closed_items().len() > 0 ==> route_is_way(
                old(self)@,
                session.closed_items(),
                old(self)@.on_route,
                final(self)@.on_route,
            ),
    {
        let ghost m = self@;
        let n: usize = session.closed.len();
        if n == 0 {
            return ;
        }
        proof {
            let closed = session.closed_items();
            assert(has_position(closed, n as int, closed.last().position as int)) by {
                assert(closed[n - 1].position == closed.last().position);
            }
            lemma_trace_path_way(m, closed, n as int, closed.last().position);
            lemma_trace_path_marks(closed, n as int, closed.last().position, m.on_route);
            let path = trace_path(closed, n as int, closed.last().position);
            assert(is_path(m, path) && path[0] == closed.last().position && path.last() == m.start
                && route_marks(closed, m.on_route) == marked_along(m.on_route, path));
            assert(route_is_way(m, closed, m.on_route, route_marks(closed, m.on_route)));
        }
        let mut target: usize = session.closed[n - 1].position;
        let mut k: usize = n;
        while k > 0
            invariant
                k <= n,
                n == session.closed_items().len(),
                m.wf(),
                candidates_in_maze(m, session.state(m)),
                self@ == (MazeView { on_route: self@.on_route, ..m }),
                marks_grown(m.kinds, m.on_route, self@.on_route),
                route_marks(session.closed_items(), m.on_route) == trace_marks(
                    session.closed_items(),
                    k as int,
                    target,
                    self@.on_route,
                ),
            decreases k,
        {
            let entry = session.closed[k - 1];
            if entry.position == target {
                self.mark_on_route(target);
                target = entry.parent;
            }
            k -= 1;
        }
    }

    /// Runs the A* search on the grid, for one step where `step` is set and
    /// to its end otherwise. Every cell that the search examines is marked
    /// as visited. When no candidate is left the route is marked and the
    /// result is `true`; the result is `false` while candidates are left.
    /// The route is a way from the cell of the last candidate back to the
    /// start; where the search has come to an end cell, that cell is the
    /// cell of the last candidate, so that the route joins start and end
    /// where the search has come to the end. In a maze whose cells can be
    /// ranked, searched from a new session, no cell occurs twice on that
    /// way. A search that has left nothing out, as every search does that
    /// began with a new session, comes to the end of a maze with one end
    /// cell wherever a way leads there from the start. The search fails
    /// with `CapacityExceeded` when the open set is full or a cost does
    /// not fit a `usize`; it does not fail in a maze whose cells can be
    /// ranked, searched from a new session, on a grid with no more cells
    /// than the open set has places.
    pub fn run_a_star(&mut self, session: &mut SolveSession, step: bool) -> (r: Result<
        bool,
        AppError,
    >)
        requires
            old(self).wf(),
            old(self)@.has_start_and_end(),
            old(session).wf(old(self)@),
        ensures
            final(self).wf(),
            final(session).wf(final(self)@),
            final(session).started(),
            final(self)@ == (MazeView {
                visited: final(self)@.visited,
                on_route: final(self)@.on_route,
                ..old(self)@
            }),
            ({
                let begun = seeded(
                    old(self)@,
                    old(session).state(old(self)@),
                    old(session).started(),
                );
                let (found, progress) = search(old(self)@, begun, step);
                &&& final(session).state(final(self)@) == found
                &&& match r {
                    Ok(finished) => {
                        &&& progress != Progress::OutOfCapacity
                        &&& finished == (found.open.len() == 0)
                        &&& final(self)@.on_route == if finished {
                            route_marks(found.closed, old(self)@.on_route)
                        } else {
                            old(self)@.on_route
                        }
                    },
                    Err(e) => {
                        &&& progress == Progress::OutOfCapacity
                        &&& e.kind == ErrorKind::CapacityExceeded
                        &&& final(self)@.on_route == old(self)@.on_route
                    },
                }
            }),
            !step ==> (r matches Ok(finished) ==> finished),
            r matches Ok(finished) ==> finished ==> route_is_way(
                old(self)@,
                final(session).closed_items(),
                old(self)@.on_route,
                final(self)@.on_route,
            ),
            stopped_at_end(
                old(self)@,
                old(self)@.visited,
                final(session).state(final(self)@),
            ),
            r matches Ok(finished) ==> finished && final(self)@.visited[old(self)@.end]
                && !old(self)@.visited[old(self)@.end] ==> route_joins_ends(
                old(self)@,
                old(self)@.on_route,
                final(self)@.on_route,
            ),
            marks_grown(old(self)@.kinds, old(self)@.visited, final(self)@.visited),
            marks_grown(old(self)@.kinds, old(self)@.on_route, final(self)@.on_route),
            r is Ok && thorough(old(self)@, old(session).state(old(self)@), -1) ==> thorough(
                old(self)@,
                final(session).state(final(self)@),
                -1,
            ),
            tree_search(old(self)@, old(session).state(old(self)@)) ==> tree_search(
                old(self)@,
                final(session).state(final(self)@),
            ),
            r matches Ok(finished) ==> finished && tree_search(
                old(self)@,
                old(session).state(old(self)@),
            ) && final(self)@.visited[old(self)@.end] && !old(self)@.visited[old(self)@.end]
                ==> route_is_chain(old(self)@, old(self)@.on_route, final(self)@.on_route),
            tree_search(old(self)@, old(session).state(old(self)@)) && sparing(
                old(self)@,
                old(session).state(old(self)@),
                -1,
            ) && old(self)@.len() <= MAX_HEAP_SIZE ==> r is Ok && sparing(
                old(self)@,
                final(session).state(final(self)@),
                -1,
            ),
            r matches Ok(finished) ==> finished && thorough(
                old(self)@,
                old(session).state(old(self)@),
                -1,
            ) && single_end(old(self)@) && linked(old(self)@, old(self)@.start, old(self)@.end)
                ==> final(self)@.visited[old(self)@.end],
    {
        let ghost m = self@;
        let ghost begun = seeded(m, session.state(m), session.started());
        let ghost careful = thorough(m, session.state(m), -1);
        let ghost hanging = tree_search(m, session.state(m));
        let ghost depth = choose|depth: Seq<int>|
            ranked(m, depth) && #[trigger] rooted(m, depth, session.state(m));
        proof {
            session.lemma_closed_bounded();
            assert(m.len() == self.cells.len());
            if careful && !session.started() {
                lemma_seeded_thorough(m, session.state(m));
            }
            if hanging && !session.started() {
                lemma_seeded_rooted(m, depth, session.state(m));
            }
            if !session.started() {
                lemma_new_search_spares(m, session.state(m));
            }
        }
        let ghost roomy = hanging && sparing(m, session.state(m), -1) && m.len()
            <= MAX_HEAP_SIZE;
        if !session.started {
            let seed = ListItem { position: self.start, parent: self.start, f: 0, g: 0, h: 0 };
            match heap_push(&mut session.open, (0, 0, self.start, self.start)) {
                Ok(_) => {},
                Err(_) => {},
            }
            session.closed.push(seed);
            session.started = true;
            proof {
                session.lemma_closed_bounded();
                assert(session.state(m) =~= begun);
                assert(begun.closed[0].position == m.start);
                assert(has_position(begun.closed, 1, m.start));
            }
        }
        let mut progress = Progress::Continue;
        let mut stepped: bool = false;
        while heap_len(&session.open) > 0 && !stepped && progress != Progress::OutOfCapacity
            invariant
                m.wf(),
                m.has_start_and_end(),
                self@ == (MazeView { visited: self@.visited, ..m }),
                marks_grown(m.kinds, m.visited, self@.visited),
                stopped_at_end(m, m.visited, session.state(self@)),
                candidates_in_maze(self@, session.state(self@)),
                session.started(),
                session.closed_items().len() <= usize::MAX,
                session.closed_items().len() > 0,
                stepped ==> step,
                careful && progress != Progress::OutOfCapacity ==> thorough(
                    m,
                    session.state(self@),
                    -1,
                ),
                m.len() <= usize::MAX,
                hanging ==> ranked(m, depth) && rooted(m, depth, session.state(self@)),
                roomy ==> hanging && m.len() <= MAX_HEAP_SIZE && sparing(
                    m,
                    session.state(self@),
                    -1,
                ) && progress != Progress::OutOfCapacity,
                !step ==> run(m, begun) == if progress == Progress::OutOfCapacity {
                    (session.state(self@), progress)
                } else {
                    run(m, session.state(self@))
                },
                step && !stepped ==> session.state(self@) == begun && progress
                    == Progress::Continue,
                step && stepped ==> begun.open.len() > 0 && (session.state(self@), progress)
                    == crate::solver::step(m, begun),
            decreases
                    usize::MAX - session.closed_items().len(),
                    session.open_items().len(),
                    if stepped || progress == Progress::OutOfCapacity {
                        0int
                    } else {
                        1int
                    },
        {
            let ghost before = self@;
            let ghost before_state = session.state(before);
            progress = self.astar_step(session);
            proof {
                assert(before == (MazeView { visited: before.visited, ..m }));
                lemma_step_ignores_marks(before, m, before_state);
                if careful {
                    lemma_step_keeps_thorough(m, before_state);
                }
                if hanging {
                    lemma_step_keeps_rooted(m, depth, before_state);
                }
                if roomy {
                    lemma_step_spares(m, depth, before_state);
                }
            }
            if step {
                stepped = true;
            }
        }
        if progress == Progress::OutOfCapacity {
            return Err(
                AppError::with_kind(ErrorKind::CapacityExceeded, "The open set of the solver is full"),
            );
        }
        let finished: bool = heap_len(&session.open) == 0;
        if finished {
            let ghost searched = self@;
            let ghost found = session.state(searched);
            self.mark_route(session);
            proof {
                assert(self@.visited == searched.visited);
                lemma_candidates_same_cells(searched, self@, found);
                assert(session.state(self@) =~= SearchState { visited: self@.visited, ..found });
                assert(found.closed.len() > 0);
                let path = choose|path: Seq<int>| #[trigger]
                    is_path(searched, path) && path[0] == found.closed.last().position
                        && path.last() == searched.start && self@.on_route == marked_along(
                        searched.on_route,
                        path,
                    );
                lemma_path_same_cells(searched, m, path);
                if careful && single_end(m) && linked(m, m.start, m.end) {
                    lemma_search_reaches_end(m, found);
                }
                if self@.visited[m.end] && !m.visited[m.end] {
                    assert(found.visited[m.end]);
                    assert(found.closed.last().position == m.end);
                    assert(is_path(m, path) && path[0] == m.end && path.last() == m.start
                        && self@.on_route == marked_along(m.on_route, path));
                    if hanging {
                        let count = found.closed.len() as int;
                        let chain = trace_path(found.closed, count, found.closed.last().position);
                        assert(has_position(found.closed, count, found.closed.last().position as int))
                            by {
                            assert(found.closed[count - 1].position == found.closed.last().position);
                        }
                        lemma_trace_path_way(searched, found.closed, count, found.closed.last().position);
                        lemma_trace_path_marks(
                            found.closed,
                            count,
                            found.closed.last().position,
                            m.on_route,
                        );
                        lemma_path_same_cells(searched, m, chain);
                        lemma_trace_path_simple(m, depth, found, chain);
                        assert(is_path(m, chain) && chain[0] == m.end && chain.last() == m.start
                            && simple(chain) && self@.on_route == marked_along(m.on_route, chain));
                    }
                }
            }
        }
        Ok(finished)
    }
}

/// The marks on the grid do not decide what the search takes note of: only
/// the kinds of the cells, the size of the grid and the end do.
pub proof fn lemma_offer_ignores_marks(
    a: MazeView,
    b: MazeView,
    st: SearchState,
    parent_position: int,
    parent_g: int,
    s: int,
)
    requires
        a == (MazeView { visited: a.visited, on_route: a.on_route, ..b }),
    ensures
        offer(a, st, parent_position, parent_g, s) == offer(b, st, parent_position, parent_g, s),
{
}

/// See `lemma_offer_ignores_marks`.
pub proof fn lemma_expand_ignores_marks(
    a: MazeView,
    b: MazeView,
    st: SearchState,
    parent_position: int,
    parent_g: int,
    succ: Seq<int>,
    count: int,
)
    requires
        a == (MazeView { visited: a.visited, on_route: a.on_route, ..b }),
    ensures
        expand(a, st, parent_position, parent_g, succ, count) == expand(
            b,
            st,
            parent_position,
            parent_g,
            succ,
            count,
        ),
    decreases count,
{
    if count > 0 {
        lemma_offer_ignores_marks(a, b, st, parent_position, parent_g, succ[count - 1]);
        let (next, progress) = offer(a, st, parent_position, parent_g, succ[count - 1]);
        if progress == Progress::Continue {
            lemma_expand_ignores_marks(a, b, next, parent_position, parent_g, succ, count - 1);
        }
    }
}

/// See `lemma_offer_ignores_marks`.
pub proof fn lemma_step_ignores_marks(a: MazeView, b: MazeView, st: SearchState)
    requires
        a == (MazeView { visited: a.visited, on_route: a.on_route, ..b }),
    ensures
        step(a, st) == step(b, st),
{
    let item = first_item(st.open);
    let popped = SearchState {
        visited: st.visited.update(item.2 as int, true),
        open: st.open.remove(item),
        closed: st.closed,
    };
    let succ = successors(a, item.2 as int, item.3 as int);
    assert(successors(b, item.2 as int, item.3 as int) == succ);
    lemma_expand_ignores_marks(a, b, popped, item.2 as int, item.1 as int, succ, succ.len() as int);
}

/// What holds of the candidates of a search holds on every grid of the
/// same size with the same kinds of cells and the same start, whatever
/// its marks.
pub proof fn lemma_candidates_same_cells(a: MazeView, b: MazeView, st: SearchState)
    requires
        candidates_in_maze(a, st),
        b == (MazeView { visited: b.visited, on_route: b.on_route, ..a }),
    ensures
        candidates_in_maze(b, SearchState { visited: b.visited, ..st }),
{
    let st2 = SearchState { visited: b.visited, ..st };
    assert forall|i: int| 1 <= i < st2.closed.len() implies has_position(
        st2.closed,
        i,
        (#[trigger] st2.closed[i]).parent as int,
    ) && adjacent(b, st2.closed[i].parent as int, st2.closed[i].position as int) by {
        assert(adjacent(a, st.closed[i].parent as int, st.closed[i].position as int));
        lemma_adjacent_same_size(a, b, st.closed[i].parent as int, st.closed[i].position as int);
    }
}

/// An entry that the closed list has stays when the list grows.
pub proof fn lemma_has_position_push(
    closed: Seq<ListItem>,
    entry: ListItem,
    count: int,
    position: int,
)
    requires
        has_position(closed, count, position),
    ensures
        has_position(closed.push(entry), count, position),
        has_position(closed.push(entry), closed.len() as int + 1, entry.position as int),
{
    let j = choose|j: int|
        0 <= j < count && j < closed.len() && (#[trigger] closed[j]).position == position;
    assert(closed.push(entry)[j].position == position);
    assert(closed.push(entry)[closed.len() as int].position == entry.position);
}

/// Taking note of a successor keeps what holds of the candidates.
pub proof fn lemma_offer_keeps_candidates(
    m: MazeView,
    st: SearchState,
    parent_position: int,
    parent_g: int,
    s: int,
)
    requires
        candidates_in_maze(m, st),
        0 <= m.end < m.len(),
        0 <= s < m.len(),
        m.len() <= usize::MAX,
        0 <= parent_position <= usize::MAX,
        m.kinds[s] != MazeCellType::Wall,
        has_position(st.closed, st.closed.len() as int, parent_position),
        adjacent(m, parent_position, s),
        st.closed.len() > 0,
    ensures
        candidates_in_maze(
            MazeView { visited: offer(m, st, parent_position, parent_g, s).0.visited, ..m },
            offer(m, st, parent_position, parent_g, s).0,
        ),
        has_position(
            offer(m, st, parent_position, parent_g, s).0.closed,
            offer(m, st, parent_position, parent_g, s).0.closed.len() as int,
            parent_position,
        ),
{
    let (next, progress) = offer(m, st, parent_position, parent_g, s);
    let after = MazeView { visited: next.visited, ..m };
    if next != st {
        let entry = next.closed.last();
        assert(next.closed == st.closed.push(entry));
        assert(entry.position == s);
        assert(entry.parent == parent_position);
        lemma_has_position_push(st.closed, entry, st.closed.len() as int, parent_position);
        assert forall|x: (usize, usize, usize, usize)| next.open.count(x) > 0 implies x.2
            < after.len() && after.kinds[x.2 as int] != MazeCellType::Wall && after.kinds[x.2 as int]
            != MazeCellType::End && has_position(
            next.closed,
            next.closed.len() as int,
            x.2 as int,
        ) by {
            if st.open.count(x) > 0 {
                lemma_has_position_push(st.closed, entry, st.closed.len() as int, x.2 as int);
            }
        }
        assert forall|i: int| 0 <= i < next.closed.len() implies (#[trigger] next.closed[i]).position
            < after.len() && after.kinds[next.closed[i].position as int]
            != MazeCellType::Wall by {
            if i < st.closed.len() {
                assert(next.closed[i] == st.closed[i]);
            }
        }
        assert(next.closed[0] == st.closed[0]);
        assert forall|i: int| 1 <= i < next.closed.len() implies has_position(
            next.closed,
            i,
            (#[trigger] next.closed[i]).parent as int,
        ) && adjacent(after, next.closed[i].parent as int, next.closed[i].position as int) by {
            if i < st.closed.len() {
                assert(next.closed[i] == st.closed[i]);
                lemma_has_position_push(st.closed, entry, i, st.closed[i].parent as int);
                lemma_adjacent_same_size(
                    m,
                    after,
                    st.closed[i].parent as int,
                    st.closed[i].position as int,
                );
            } else {
                lemma_adjacent_same_size(m, after, parent_position, s);
            }
        }
    } else {
        lemma_candidates_same_cells(m, after, st);
        assert(after == m);
    }
}

} // verus!
