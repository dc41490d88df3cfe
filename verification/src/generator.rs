//! The generator: it carves passages into a grid of walls, two cells at a
//! time, so that corridors stay apart by one cell of wall.

use vstd::prelude::*;
use crate::common::{AppError, ErrorKind};
use crate::direction::{all_directions, without_first, Direction, NUM_OF_DIRECTIONS};
use crate::maze::{
    column_of,
    lemma_neighbor_in_grid,
    lemma_position_of,
    lemma_row_in_grid,
    row_of,
    Dimensions,
    Maze,
    MazeCellType,
    MazeView,
};
use crate::random::RandomSource;
use crate::carving::{
    lemma_dig_keeps_ranked,
    with_marks,
    after_dig,
    carving,
    lemma_all_rooms_carved,
    lemma_carving_begins,
    lemma_dig_keeps_explored,
    lemma_dig_keeps_order,
    lemma_skip_keeps_explored,
    orderly,
    reachable,
    room,
    rooms_carved,
};
use crate::census::{lemma_count_begins, lemma_dig_keeps_count, tree_count};
use crate::joining::{joined, lemma_well_made, well_made};
use crate::connectivity::{linked, rankable, ranked};

verus! {

/// What the test for digging finds.
#[derive(Clone, Copy, Debug, PartialEq, Eq, Structural)]
pub enum DigCheck {
    /// The two cells ahead can be carved.
    Diggable,
    /// A passage is in the way or too near.
    Blocked,
    /// The grid ends too near.
    OffGrid,
}

/// The cell two steps from `position` in `direction`.
pub open spec fn dig_target(m: MazeView, position: int, direction: Direction) -> Option<int> {
    match m.neighbor(position, direction) {
        Some(mid) => m.neighbor(mid, direction),
        None => None,
    }
}

/// The cell beside `position` in `direction` does not stand in the way:
/// it is a wall or the end, or the grid ends there.
pub open spec fn side_passes(m: MazeView, position: int, direction: Direction) -> bool {
    match m.neighbor(position, direction) {
        Some(q) => m.kinds[q].wall_or_end(),
        None => true,
    }
}

/// The cells on both sides of `position`, seen in `direction`, are walls
/// or the end, where the grid has cells there.
pub open spec fn sides_diggable(m: MazeView, position: int, direction: Direction) -> bool {
    if direction == Direction::North || direction == Direction::South {
        side_passes(m, position, Direction::East) && side_passes(m, position, Direction::West)
    } else {
        side_passes(m, position, Direction::North) && side_passes(m, position, Direction::South)
    }
}

/// The neighbours of `target` in the directions from number `k` on are
/// looked at in turn: the first that is off the grid or not a wall or the
/// end decides.
pub open spec fn check_around(m: MazeView, target: int, directions: Seq<Direction>, k: int)
    -> DigCheck
    decreases directions.len() - k,
{
    if k < 0 || k >= directions.len() {
        DigCheck::Diggable
    } else {
        match m.neighbor(target, directions[k]) {
            None => DigCheck::OffGrid,
            Some(q) => if m.kinds[q].wall_or_end() {
                check_around(m, target, directions, k + 1)
            } else {
                DigCheck::Blocked
            },
        }
    }
}

/// The test for digging from `position` in `direction`: the cell two steps
/// ahead must be on the grid and a wall or the end, and so must the cells
/// around it, but for the one that the digging comes through.
pub open spec fn dig_check(m: MazeView, position: int, direction: Direction) -> DigCheck {
    match dig_target(m, position, direction) {
        None => DigCheck::OffGrid,
        Some(target) => {
            if !m.kinds[target].wall_or_end() {
                DigCheck::Blocked
            } else if !sides_diggable(m, target, direction) {
                DigCheck::Blocked
            } else {
                check_around(
                    m,
                    target,
                    without_first(all_directions(), direction.spec_opposite()),
                    0,
                )
            }
        },
    }
}

/// The kinds of the cells after digging through `mid` to `target`: both
/// are passages, but an end stays the end.
pub open spec fn dug(kinds: Seq<MazeCellType>, mid: int, target: int) -> Seq<MazeCellType> {
    let first = kinds.update(mid, MazeCellType::Passage);
    if kinds[target] == MazeCellType::End {
        first
    } else {
        first.update(target, MazeCellType::Passage)
    }
}

/// The odd column that a drawn column stands for: itself, or the column
/// before it.
pub open spec fn odd_column(draw: int) -> int {
    if draw % 2 == 0 {
        draw - 1
    } else {
        draw
    }
}

/// `position` lies in row `row`, in an odd column that is not on the edge
/// of the grid.
pub open spec fn odd_place_in_row(m: MazeView, position: int, row: int) -> bool {
    &&& 0 <= position < m.len()
    &&& row_of(m.width, position) == row
    &&& column_of(m.width, position) % 2 == 1
    &&& 1 <= column_of(m.width, position) <= m.width - 2
}

/// The number of walls among the cells.
pub open spec fn wall_count(kinds: Seq<MazeCellType>) -> nat
    decreases kinds.len(),
{
    if kinds.len() == 0 {
        0
    } else {
        wall_count(kinds.drop_last()) + if kinds.last() == MazeCellType::Wall {
            1nat
        } else {
            0nat
        }
    }
}

/// A wall that becomes something else is a wall less.
pub proof fn lemma_wall_count_set(kinds: Seq<MazeCellType>, i: int, kind: MazeCellType)
    requires
        0 <= i < kinds.len(),
    ensures
        wall_count(kinds.update(i, kind)) == wall_count(kinds) - (if kinds[i]
            == MazeCellType::Wall {
            1int
        } else {
            0int
        }) + (if kind == MazeCellType::Wall {
            1int
        } else {
            0int
        }),
    decreases kinds.len(),
{
    let updated = kinds.update(i, kind);
    if i == kinds.len() - 1 {
        assert(updated.drop_last() =~= kinds.drop_last());
    } else {
        assert(updated.drop_last() =~= kinds.drop_last().update(i, kind));
        lemma_wall_count_set(kinds.drop_last(), i, kind);
    }
}

/// The cell is not on the edge of the grid.
pub open spec fn interior(m: MazeView, position: int) -> bool {
    &&& 0 <= position < m.len()
    &&& 1 <= column_of(m.width, position) <= m.width - 2
    &&& 1 <= row_of(m.width, position) <= m.height - 2
}

/// A cell with a neighbour on every side is not on the edge of the grid.
pub proof fn lemma_four_neighbors(m: MazeView, position: int)
    requires
        m.neighbor(position, Direction::North) is Some,
        m.neighbor(position, Direction::East) is Some,
        m.neighbor(position, Direction::West) is Some,
        m.neighbor(position, Direction::South) is Some,
    ensures
        interior(m, position),
{
    lemma_neighbor_in_grid(m.width, m.height, position, Direction::North);
    lemma_neighbor_in_grid(m.width, m.height, position, Direction::South);
    lemma_row_in_grid(m.width, m.height, position);
    lemma_row_in_grid(m.width, m.height, position - m.width);
    lemma_row_in_grid(m.width, m.height, position + m.width);
}

/// The test that finds the cells diggable has found the target on the
/// grid, a wall or the end, and the cells around it on the grid and walls
/// or the end.
pub proof fn lemma_diggable(m: MazeView, position: int, direction: Direction)
    requires
        dig_check(m, position, direction) == DigCheck::Diggable,
    ensures
        dig_target(m, position, direction) is Some,
        m.kinds[dig_target(m, position, direction)->0].wall_or_end(),
        forall|d: Direction|
            d != direction.spec_opposite() ==> {
                &&& (#[trigger] m.neighbor(dig_target(m, position, direction)->0, d)) is Some
                &&& m.kinds[m.neighbor(dig_target(m, position, direction)->0, d)->0].wall_or_end()
            },
{
    let target = dig_target(m, position, direction)->0;
    let directions = without_first(all_directions(), direction.spec_opposite());
    crate::direction::lemma_first_index_of(all_directions(), direction.spec_opposite());
    crate::direction::lemma_direction_laws(direction.spec_opposite());
    assert(all_directions().contains(direction.spec_opposite())) by {
        assert(all_directions()[direction.spec_opposite().spec_index()]
            == direction.spec_opposite());
    }
    assert(directions.len() == 3);
    reveal_with_fuel(check_around, 4);
    assert forall|d: Direction| d != direction.spec_opposite() implies {
        &&& (#[trigger] m.neighbor(target, d)) is Some
        &&& m.kinds[m.neighbor(target, d)->0].wall_or_end()
    } by {
        assert(directions[0] == d || directions[1] == d || directions[2] == d);
    }
}

impl Maze {
    /// Gives the cell at `position` the kind `kind`.
    pub fn set_kind(&mut self, position: usize, kind: MazeCellType)
        requires
            position < old(self).cells.len(),
        ensures
            final(self)@ == (MazeView {
                kinds: old(self)@.kinds.update(position as int, kind),
                ..old(self)@
            }),
    {
        self.cells[position].celltype = kind;
        assert(self@.kinds =~= old(self)@.kinds.update(position as int, kind));
        assert(self@.visited =~= old(self)@.visited);
        assert(self@.on_route =~= old(self)@.on_route);
        assert(self@.links =~= old(self)@.links);
    }

    /// Whether the cell beside `position` in `direction` is a wall or the
    /// end, or the grid ends there.
    pub fn side_passes(&self, position: usize, direction: Direction) -> (passes: bool)
        requires
            self.wf(),
        ensures
            passes == side_passes(self@, position as int, direction),
    {
        match self.neighbor(position, direction) {
            Some(pos) => self.is_wall_or_end_position(pos),
            None => true,
        }
    }

    /// Whether the cells on both sides of `position`, seen in `direction`,
    /// are walls or the end. A side where the grid ends does not stand in
    /// the way.
    pub fn are_sides_diggable(&self, position: usize, direction: Direction) -> (doable: bool)
        requires
            self.wf(),
        ensures
            doable == sides_diggable(self@, position as int, direction),
    {
        if direction == Direction::North || direction == Direction::South {
            self.side_passes(position, Direction::East) && self.side_passes(
                position,
                Direction::West,
            )
        } else {
            self.side_passes(position, Direction::North) && self.side_passes(
                position,
                Direction::South,
            )
        }
    }

    /// Tests whether a passage can be dug from `position` in `direction`.
    /// The cell two steps ahead must be a wall or the end, and so must
    /// every cell around it but the one the digging comes through. Fails
    /// with `InvalidPosition` where the grid ends before those cells.
    pub fn is_diggable(&self, position: usize, direction: Direction) -> (r: Result<
        bool,
        AppError,
    >)
        requires
            self.wf(),
        ensures
            match r {
                Ok(diggable) => dig_check(self@, position as int, direction) == if diggable {
                    DigCheck::Diggable
                } else {
                    DigCheck::Blocked
                },
                Err(e) => dig_check(self@, position as int, direction) == DigCheck::OffGrid
                    && e.kind == ErrorKind::InvalidPosition,
            },
    {
        let intermediate_position: usize = match self.get_neighboring_position(
            position,
            direction,
        ) {
            Ok(p) => p,
            Err(e) => {
                return Err(e);
            },
        };
        let new_position: usize = match self.get_neighboring_position(
            intermediate_position,
            direction,
        ) {
            Ok(p) => p,
            Err(e) => {
                return Err(e);
            },
        };
        if !self.is_wall_or_end_position(new_position) {
            return Ok(false);
        }
        let all = Direction::get_directions();
        let mut directions: Vec<Direction> = Vec::new();
        let mut n: usize = 0;
        while n < NUM_OF_DIRECTIONS
            invariant
                n <= NUM_OF_DIRECTIONS,
                all@ == all_directions(),
                directions@ == all_directions().take(n as int),
            decreases NUM_OF_DIRECTIONS - n,
        {
            directions.push(all[n]);
            assert(directions@ =~= all_directions().take(n as int + 1));
            n += 1;
        }
        assert(directions@ =~= all_directions());
        let opposite_direction = direction.get_opposite_direction();
        if !Direction::remove_direction(&mut directions, opposite_direction) {
            proof {
                crate::direction::lemma_direction_laws(opposite_direction);
                assert(all_directions()[opposite_direction.spec_index()] == opposite_direction);
            }
            return Err(
                AppError::with_kind(
                    ErrorKind::InvalidDirectionHandling,
                    "Error while handling directions",
                ),
            );
        }
        if self.are_sides_diggable(new_position, direction) {
            let mut k: usize = 0;
            while k < directions.len()
                invariant
                    k <= directions.len(),
                    self.wf(),
                    new_position < self.cells.len(),
                    dig_check(self@, position as int, direction) == check_around(
                        self@,
                        new_position as int,
                        directions@,
                        0,
                    ),
                    check_around(self@, new_position as int, directions@, 0) == check_around(
                        self@,
                        new_position as int,
                        directions@,
                        k as int,
                    ),
                decreases directions.len() - k,
            {
                let test_position: usize = match self.get_neighboring_position(
                    new_position,
                    directions[k],
                ) {
                    Ok(p) => p,
                    Err(e) => {
                        assert(check_around(self@, new_position as int, directions@, k as int)
                            == DigCheck::OffGrid);
                        return Err(e);
                    },
                };
                if !self.is_wall_or_end_position(test_position) {
                    assert(check_around(self@, new_position as int, directions@, k as int)
                        == DigCheck::Blocked);
                    return Ok(false);
                }
                assert(check_around(self@, new_position as int, directions@, k as int)
                    == check_around(self@, new_position as int, directions@, k as int + 1));
                k += 1;
            }
            return Ok(true);
        }
        Ok(false)
    }

    /// Digs a passage from `position` two cells in `direction`. The cell
    /// in between must be a wall and the cell beyond a wall or the end:
    /// both become passages, but an end stays the end. Returns the position
    /// of the cell beyond. Fails with `InvalidPosition` where the grid ends
    /// before it, and with `DigConflict` where the cells are not as they
    /// must be; a failure changes nothing.
    pub fn dig_passage(&mut self, position: usize, direction: Direction) -> (r: Result<
        usize,
        AppError,
    >)
        requires
            old(self).wf(),
        ensures
            final(self).wf(),
            match r {
                Ok(target) => {
                    let mid = old(self)@.neighbor(position as int, direction)->0;
                    &&& dig_target(old(self)@, position as int, direction) == Some(target as int)
                    &&& old(self)@.kinds[mid] == MazeCellType::Wall
                    &&& old(self)@.kinds[target as int].wall_or_end()
                    &&& final(self)@ == (MazeView {
                        kinds: dug(old(self)@.kinds, mid, target as int),
                        ..old(self)@
                    })
                },
                Err(e) => {
                    &&& final(self)@ == old(self)@
                    &&& match dig_target(old(self)@, position as int, direction) {
                        None => e.kind == ErrorKind::InvalidPosition,
                        Some(target) => {
                            let mid = old(self)@.neighbor(position as int, direction)->0;
                            &&& e.kind == ErrorKind::DigConflict
                            &&& !(old(self)@.kinds[mid] == MazeCellType::Wall && old(self)@.kinds[target].wall_or_end())
                        },
                    }
                },
            },
    {
        let intermediate_position: usize = match self.get_neighboring_position(
            position,
            direction,
        ) {
            Ok(p) => p,
            Err(e) => {
                return Err(e);
            },
        };
        let new_position: usize = match self.get_neighboring_position(
            intermediate_position,
            direction,
        ) {
            Ok(p) => p,
            Err(e) => {
                return Err(e);
            },
        };
        if self.cells[intermediate_position].celltype != MazeCellType::Wall
            || !self.is_wall_or_end_position(new_position) {
            return Err(
                AppError::with_kind(ErrorKind::DigConflict, "Trying to dig something foul"),
            );
        }
        self.set_kind(intermediate_position, MazeCellType::Passage);
        if self.cells[new_position].celltype != MazeCellType::End {
            self.set_kind(new_position, MazeCellType::Passage);
        }
        proof {
            lemma_neighbor_in_grid(
                old(self)@.width,
                old(self)@.height,
                intermediate_position as int,
                direction,
            );
            assert(self@.kinds =~= dug(
                old(self)@.kinds,
                intermediate_position as int,
                new_position as int,
            ));
        }
        Ok(new_position)
    }

    /// The position in row `row` that a drawn column stands for: the
    /// column itself if it is odd, the column before it otherwise.
    pub fn position_in_row(&self, draw: usize, row: usize) -> (position: usize)
        requires
            self.wf(),
            1 <= draw,
            draw + 1 < self.dimensions.width,
            row < self.dimensions.height,
        ensures
            position == odd_column(draw as int) + row * self.dimensions.width,
            odd_place_in_row(self@, position as int, row as int),
    {
        let mut column: usize = draw;
        if column % 2 == 0 {
            column = column - 1;
        }
        proof {
            crate::text::lemma_line_bounds(
                self.dimensions.width as int,
                self.dimensions.height as int,
                row as int,
            );
            lemma_position_of(self.dimensions.width as int, column as int, row as int);
        }
        column + row * self.dimensions.width
    }

    /// A random position in row `row`, in an odd column that is not on the
    /// edge of the grid.
    pub fn randomize_position_from_row(&self, rng: &mut RandomSource, row: usize) -> (position:
        usize)
        requires
            self.wf(),
            self.dimensions.width >= 3,
            row < self.dimensions.height,
        ensures
            odd_place_in_row(self@, position as int, row as int),
    {
        let draw: usize = rng.below(1, self.dimensions.width - 1);
        self.position_in_row(draw, row)
    }

    /// Picks the cell where the carving begins, in the second row, and
    /// makes it a passage. Returns its position.
    pub fn randomize_start_position(&mut self, rng: &mut RandomSource) -> (position: usize)
        requires
            old(self).wf(),
            old(self).dimensions.width >= 3,
            old(self).dimensions.height >= 2,
        ensures
            odd_place_in_row(old(self)@, position as int, 1),
            final(self)@ == (MazeView {
                kinds: old(self)@.kinds.update(position as int, MazeCellType::Passage),
                ..old(self)@
            }),
    {
        let position = self.randomize_position_from_row(rng, 1);
        self.set_kind(position, MazeCellType::Passage);
        position
    }

    /// Places the start in the first row and the end in the last row, each
    /// in a random odd column that is not on the edge, and sets the markers.
    /// Whatever was in those cells is overwritten.
    pub fn insert_start_and_end_positions(&mut self, rng: &mut RandomSource)
        requires
            old(self).wf(),
            old(self).dimensions.width >= 3,
            old(self).dimensions.height >= 1,
        ensures
            odd_place_in_row(old(self)@, final(self)@.start, 0),
            odd_place_in_row(old(self)@, final(self)@.end, old(self)@.height - 1),
            final(self)@ == (MazeView {
                kinds: old(self)@.kinds.update(final(self)@.start, MazeCellType::Start).update(
                    final(self)@.end,
                    MazeCellType::End,
                ),
                start: final(self)@.start,
                end: final(self)@.end,
                ..old(self)@
            }),
    {
        let start_pos = self.randomize_position_from_row(rng, 0);
        let end_pos = self.randomize_position_from_row(rng, self.dimensions.height - 1);
        self.set_kind(start_pos, MazeCellType::Start);
        self.set_kind(end_pos, MazeCellType::End);
        self.start = start_pos;
        self.end = end_pos;
    }
}

/// The stack holds, at place `from` or above, the frame for `direction`
/// at `position`.
pub open spec fn has_frame(
    stack: Seq<(usize, Direction)>,
    from: int,
    position: usize,
    direction: Direction,
) -> bool {
    exists|k: int| from <= k < stack.len() && #[trigger] stack[k] == (position, direction)
}

/// The grid while it is carved: passages and walls only, and walls
/// all along the edge.
pub open spec fn carved(m: MazeView) -> bool {
    &&& forall|i: int|
        0 <= i < m.len() ==> (#[trigger] m.kinds[i]) == MazeCellType::Wall || m.kinds[i]
            == MazeCellType::Passage
    &&& forall|i: int|
        0 <= i < m.len() && !interior(m, i) ==> (#[trigger] m.kinds[i]) == MazeCellType::Wall
}

/// The two cells that a digging carves are not on the edge of the grid.
pub proof fn lemma_dig_stays_inside(m: MazeView, position: int, direction: Direction)
    requires
        m.wf(),
        dig_check(m, position, direction) == DigCheck::Diggable,
    ensures
        interior(m, m.neighbor(position, direction)->0),
        interior(m, dig_target(m, position, direction)->0),
{
    let mid = m.neighbor(position, direction)->0;
    let target = dig_target(m, position, direction)->0;
    lemma_diggable(m, position, direction);
    lemma_neighbor_in_grid(m.width, m.height, position, direction);
    lemma_neighbor_in_grid(m.width, m.height, mid, direction);
    crate::direction::lemma_direction_laws(direction);
    assert(m.neighbor(target, direction.spec_opposite()) is Some);
    assert forall|d: Direction| (#[trigger] m.neighbor(target, d)) is Some by {
        if d == direction.spec_opposite() {
        }
    }
    lemma_four_neighbors(m, target);
    lemma_row_in_grid(m.width, m.height, mid);
    lemma_row_in_grid(m.width, m.height, position);
}

impl Maze {
    /// Pushes a frame for each of the four directions at `position`, in
    /// random order.
    fn push_shuffled(
        stack: &mut Vec<(usize, Direction)>,
        position: usize,
        rng: &mut RandomSource,
    )
        ensures
            final(stack)@.len() == old(stack)@.len() + NUM_OF_DIRECTIONS,
            final(stack)@.subrange(0, old(stack)@.len() as int) == old(stack)@,
            forall|k: int|
                old(stack)@.len() <= k < final(stack)@.len() ==> (#[trigger] final(stack)@[k]).0
                    == position,
            forall|d: Direction| #[trigger]
                has_frame(final(stack)@, old(stack)@.len() as int, position, d),
    {
        let all = Direction::get_directions();
        let mut directions: Vec<Direction> = Vec::new();
        let mut n: usize = 0;
        while n < NUM_OF_DIRECTIONS
            invariant
                n <= NUM_OF_DIRECTIONS,
                all@ == all_directions(),
                directions@ == all_directions().take(n as int),
            decreases NUM_OF_DIRECTIONS - n,
        {
            directions.push(all[n]);
            assert(directions@ =~= all_directions().take(n as int + 1));
            n += 1;
        }
        assert(directions@ =~= all_directions());
        rng.shuffle(&mut directions);
        proof {
            directions@.to_multiset_ensures();
            all_directions().to_multiset_ensures();
            assert(directions@.len() == 4);
        }
        let ghost base = stack@;
        let mut i: usize = 0;
        while i < directions.len()
            invariant
                i <= directions.len(),
                directions@.len() == 4,
                stack@.len() == base.len() + i,
                stack@.subrange(0, base.len() as int) == base,
                forall|k: int|
                    base.len() <= k < stack@.len() ==> #[trigger] stack@[k] == (
                        position,
                        directions@[k - base.len()],
                    ),
            decreases directions.len() - i,
        {
            stack.push((position, directions[i]));
            assert(stack@.subrange(0, base.len() as int) =~= base);
            i += 1;
        }
        proof {
            assert forall|d: Direction| #[trigger]
                has_frame(stack@, base.len() as int, position, d) by {
                crate::direction::lemma_direction_laws(d);
                assert(all_directions()[d.spec_index()] == d);
                assert(all_directions().contains(d));
                assert(directions@.to_multiset().count(d) > 0);
                assert(directions@.contains(d));
                let j = choose|j: int| 0 <= j < directions@.len() && directions@[j] == d;
                assert(stack@[base.len() + j] == (position, d));
            }
        }
    }

    /// Carves a maze into a grid of walls. The carving begins at a random
    /// cell of the second row. It keeps a stack of places and directions to
    /// try: where the two cells ahead can be dug, they become passages and
    /// the four directions at the new place go on the stack in random
    /// order; a direction that cannot be dug is dropped. Returns the cell
    /// where the carving began.
    pub fn carve(&mut self, rng: &mut RandomSource) -> (origin: usize)
        requires
            old(self).wf(),
            old(self).dimensions.valid(),
            forall|i: int|
                0 <= i < old(self)@.len() ==> old(self)@.kinds[i] == MazeCellType::Wall,
        ensures
            final(self).wf(),
            final(self)@ == (MazeView { kinds: final(self)@.kinds, ..old(self)@ }),
            carved(final(self)@),
            orderly(final(self)@),
            rooms_carved(final(self)@),
            reachable(final(self)@, origin as int),
            room(final(self)@, origin as int),
            odd_place_in_row(final(self)@, origin as int, 1),
            final(self)@.kinds[origin as int] == MazeCellType::Passage,
            rankable(final(self)@),
            tree_count(final(self)@, 1),
    {
        let ghost m0 = self@;
        let origin = self.randomize_start_position(rng);
        let mut stack: Vec<(usize, Direction)> = Vec::new();
        Self::push_shuffled(&mut stack, origin, rng);
        let ghost mut depth: Seq<int> = Seq::new(m0.len() as nat, |i: int| 0int);
        proof {
            assert(self.cells.len() == m0.len());
            assert(stack@.subrange(0, 0) =~= Seq::<(usize, Direction)>::empty());
            lemma_carving_begins(m0, self@, origin as int, stack@);
            assert forall|a: int, x: Direction|
                0 <= a < self@.len() && self@.kinds[a] != MazeCellType::Wall implies (
            #[trigger] self@.open_neighbor(a, x)) is None by {
                if self@.neighbor(a, x) is Some {
                    lemma_neighbor_in_grid(m0.width, m0.height, a, x);
                    assert(m0.kinds[self@.neighbor(a, x)->0] == MazeCellType::Wall);
                }
            }
            assert(ranked(self@, depth));
            lemma_count_begins(self@, origin as int);
        }
        while stack.len() > 0
            invariant
                self.wf(),
                tree_count(self@, 1),
                self@ == (MazeView { kinds: self@.kinds, ..m0 }),
                m0.width >= 3,
                carving(self@, origin as int, stack@),
                ranked(self@, depth),
                origin < self.cells.len(),
            decreases wall_count(self@.kinds), stack.len(),
        {
            let ghost before = self@;
            let ghost frames = stack@;
            let (position, direction) = stack.pop().unwrap();
            assert(stack@ == frames.drop_last());
            assert(frames.last() == (position, direction));
            let diggable: bool = match self.is_diggable(position, direction) {
                Ok(b) => b,
                Err(_) => false,
            };
            let mut dug_to: Option<usize> = None;
            if diggable {
                match self.dig_passage(position, direction) {
                    Ok(new_position) => {
                        dug_to = Some(new_position);
                    },
                    Err(_) => {
                        proof {
                            lemma_diggable(before, position as int, direction);
                        }
                    },
                }
            }
            match dug_to {
                Some(new_position) => {
                    proof {
                        let mid = before.neighbor(position as int, direction)->0;
                        lemma_dig_keeps_order(
                            before,
                            origin as int,
                            position as int,
                            direction,
                        );
                        lemma_wall_count_set(before.kinds, mid, MazeCellType::Passage);
                        lemma_wall_count_set(
                            before.kinds.update(mid, MazeCellType::Passage),
                            new_position as int,
                            MazeCellType::Passage,
                        );
                        assert(self@ == after_dig(before, position as int, direction));
                        lemma_dig_keeps_ranked(before, depth, position as int, direction);
                        lemma_dig_keeps_count(before, position as int, direction, 1);
                        depth = depth.update(mid, depth[position as int] + 1).update(
                            new_position as int,
                            depth[position as int] + 2,
                        );
                    }
                    Self::push_shuffled(&mut stack, new_position, rng);
                    proof {
                        lemma_dig_keeps_explored(before, origin as int, frames, stack@);
                    }
                },
                None => {
                    proof {
                        assert(self@ == before);
                        lemma_skip_keeps_explored(before, origin as int, frames);
                    }
                },
            }
        }
        proof {
            assert(stack@ =~= Seq::<(usize, Direction)>::empty());
            lemma_all_rooms_carved(self@, origin as int);
            lemma_row_in_grid(m0.width, m0.height, origin as int);
        }
        origin
    }

    /// Joins the end to the maze: where the cell above the end is a wall,
    /// it becomes a passage. The end must not lie in the first row.
    pub fn join_end(&mut self)
        requires
            old(self).wf(),
            old(self)@.width <= old(self)@.end < old(self)@.len(),
        ensures
            final(self).wf(),
            final(self)@ == joined(old(self)@),
    {
        assert(self@.len() == self.cells.len());
        let above: usize = self.end - self.dimensions.width;
        if self.cells[above].celltype == MazeCellType::Wall {
            self.set_kind(above, MazeCellType::Passage);
        }
    }

    /// Makes a new maze of the given size: the grid is cleared, passages
    /// are carved from room to room, the start and the end are placed in
    /// the first and in the last row, and the end is joined to the maze.
    /// The rooms lie in odd rows and columns; where the height is even, a
    /// row of walls lies between the last row of rooms and the end, and
    /// the cell above the end is carved too. The maze is a tree: it has
    /// one start and one end, every cell that is not a wall can be reached
    /// from the start, there is no round trip, and the pairs of
    /// neighbouring cells are one less than the cells that are not walls.
    pub fn generate(&mut self, dimensions: Dimensions, rng: &mut RandomSource)
        requires
            dimensions.valid(),
        ensures
            final(self).wf(),
            final(self).dimensions == dimensions,
            final(self)@.unmarked(),
            odd_place_in_row(final(self)@, final(self)@.start, 0),
            odd_place_in_row(final(self)@, final(self)@.end, final(self)@.height - 1),
            well_made(final(self)@),
            linked(final(self)@, final(self)@.start, final(self)@.end),
    {
        assert(dimensions.width * dimensions.height <= 10000 * 10000) by (nonlinear_arith)
            requires
                dimensions.width <= 10000,
                dimensions.height <= 10000,
        ;
        self.reset(dimensions);
        self.graph_created = false;
        let origin = self.carve(rng);
        let ghost cut = self@;
        self.insert_start_and_end_positions(rng);
        proof {
            let depth = choose|depth: Seq<int>| ranked(cut, depth);
            assert(self@ == with_marks(cut, self@.start, self@.end));
            lemma_well_made(cut, origin as int, depth, self@.start, self@.end);
            lemma_row_in_grid(cut.width, cut.height, self@.end);
            assert(self@.end >= cut.width) by (nonlinear_arith)
                requires
                    self@.end == column_of(cut.width, self@.end) + row_of(cut.width, self@.end)
                        * cut.width,
                    row_of(cut.width, self@.end) >= 1,
                    column_of(cut.width, self@.end) >= 0,
                    cut.width > 0,
            ;
        }
        self.join_end();
        proof {
            assert(well_made(self@));
            assert(self@.kinds[self@.end] != MazeCellType::Wall);
        }
    }
}

} // verus!
