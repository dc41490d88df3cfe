//! The grid: dimensions, cells, and addressing of neighbours.

use vstd::prelude::*;
use vstd::arithmetic::div_mod::{lemma_fundamental_div_mod, lemma_fundamental_div_mod_converse};
use vstd::arithmetic::mul::{lemma_mul_inequality, lemma_mul_is_commutative};
use crate::common::{AppError, ErrorKind};
use crate::direction::{Direction, NUM_OF_DIRECTIONS};

verus! {

pub const MAZE_DIMENSION_MIN: usize = 10;

pub const MAZE_DIMENSION_MAX: usize = 10000;

pub const MAZE_DIMENSION_DEFAULT: usize = 19;

/// Width and height of a maze, in cells.
#[derive(Debug, Clone, Copy, PartialEq, Eq, Structural)]
pub struct Dimensions {
    pub width: usize,
    pub height: usize,
}

impl Dimensions {
    /// Both sides lie within the accepted bounds.
    pub open spec fn valid(self) -> bool {
        &&& MAZE_DIMENSION_MIN <= self.width <= MAZE_DIMENSION_MAX
        &&& MAZE_DIMENSION_MIN <= self.height <= MAZE_DIMENSION_MAX
    }

    /// Whether both sides lie within the accepted bounds.
    pub fn is_valid(&self) -> (ok: bool)
        ensures
            ok == self.valid(),
    {
        MAZE_DIMENSION_MIN <= self.width && self.width <= MAZE_DIMENSION_MAX
            && MAZE_DIMENSION_MIN <= self.height && self.height <= MAZE_DIMENSION_MAX
    }
}

/// What a cell of the maze is.
#[derive(Debug, Clone, Copy, PartialEq, Eq, Structural)]
pub enum MazeCellType {
    Wall,
    Passage,
    Start,
    End,
}

impl MazeCellType {
    /// The character that stands for the cell in persisted text.
    pub open spec fn spec_glyph(self) -> char {
        match self {
            MazeCellType::Wall => '█',
            MazeCellType::Passage => ' ',
            MazeCellType::Start => 'S',
            MazeCellType::End => 'E',
        }
    }

    /// The kind of cell that a character stands for.
    pub open spec fn spec_from_glyph(c: char) -> Option<MazeCellType> {
        if c == '█' {
            Some(MazeCellType::Wall)
        } else if c == ' ' {
            Some(MazeCellType::Passage)
        } else if c == 'S' {
            Some(MazeCellType::Start)
        } else if c == 'E' {
            Some(MazeCellType::End)
        } else {
            None
        }
    }

    /// A cell that can be carved into: a wall, or the end.
    pub open spec fn wall_or_end(self) -> bool {
        self == MazeCellType::Wall || self == MazeCellType::End
    }

    /// The character that stands for the cell in persisted text.
    pub fn glyph(&self) -> (c: char)
        ensures
            c == self.spec_glyph(),
    {
        match self {
            MazeCellType::Wall => '█',
            MazeCellType::Passage => ' ',
            MazeCellType::Start => 'S',
            MazeCellType::End => 'E',
        }
    }

    /// The kind of cell that a character stands for, if it stands for one.
    pub fn from_glyph(c: char) -> (kind: Option<MazeCellType>)
        ensures
            kind == Self::spec_from_glyph(c),
    {
        if c == '█' {
            Some(MazeCellType::Wall)
        } else if c == ' ' {
            Some(MazeCellType::Passage)
        } else if c == 'S' {
            Some(MazeCellType::Start)
        } else if c == 'E' {
            Some(MazeCellType::End)
        } else {
            None
        }
    }
}

/// Each kind of cell has a glyph of its own, and reading a glyph gives the kind back.
pub proof fn lemma_glyph_roundtrip(kind: MazeCellType)
    ensures
        MazeCellType::spec_from_glyph(kind.spec_glyph()) == Some(kind),
{
}

/// One cell of a maze.
#[derive(Debug, Clone, Copy)]
pub struct MazeCell {
    pub celltype: MazeCellType,
    /// Set by the solver on every cell it has examined.
    pub visited: bool,
    /// Set by the solver on the cells of the route it found.
    pub on_route: bool,
    /// For each direction, the graph node that is reached by following the
    /// corridor in that direction, if this cell is a graph node with an edge there.
    pub nodes: [Option<usize>; NUM_OF_DIRECTIONS],
}

impl MazeCell {
    /// A wall that carries no annotation and no graph link.
    pub fn wall() -> (cell: MazeCell)
        ensures
            cell.is_blank_wall(),
    {
        MazeCell {
            celltype: MazeCellType::Wall,
            visited: false,
            on_route: false,
            nodes: [None, None, None, None],
        }
    }

    /// The cell is a wall that carries no annotation and no graph link.
    pub open spec fn is_blank_wall(self) -> bool {
        &&& self.celltype == MazeCellType::Wall
        &&& !self.visited
        &&& !self.on_route
        &&& self.nodes@ == seq![None::<usize>, None, None, None]
    }
}

/// The number of directions in which `links` holds an edge.
pub open spec fn link_count(links: Seq<Option<usize>>) -> nat
    decreases links.len(),
{
    if links.len() == 0 {
        0
    } else {
        link_count(links.drop_last()) + if links.last() is Some {
            1nat
        } else {
            0nat
        }
    }
}

/// The maze: a flat array of cells in row-major order.
#[derive(Debug, Clone)]
pub struct Maze {
    pub dimensions: Dimensions,
    pub cells: Vec<MazeCell>,
    /// The index of the start cell, once it has been placed.
    pub start: usize,
    /// The index of the end cell, once it has been placed.
    pub end: usize,
    /// Whether the topology graph has been built.
    pub graph_created: bool,
}

/// The mathematical model of a maze.
#[verifier::ext_equal]
pub struct MazeView {
    pub width: int,
    pub height: int,
    pub kinds: Seq<MazeCellType>,
    pub visited: Seq<bool>,
    pub on_route: Seq<bool>,
    /// `links[i][d]` is the graph link of cell `i` in the direction of slot `d`.
    pub links: Seq<Seq<Option<usize>>>,
    pub start: int,
    pub end: int,
    pub graph_created: bool,
}

/// The neighbour of `position` in `direction` on a grid of the given size,
/// if the grid has a cell there. Steps never wrap round the end of a row.
pub open spec fn grid_neighbor(width: int, height: int, position: int, direction: Direction)
    -> Option<int> {
    if 0 <= position < width * height && width > 0 {
        match direction {
            Direction::North => if position >= width {
                Some(position - width)
            } else {
                None
            },
            Direction::South => if position + width < width * height {
                Some(position + width)
            } else {
                None
            },
            Direction::East => if position % width + 1 < width {
                Some(position + 1)
            } else {
                None
            },
            Direction::West => if position % width > 0 {
                Some(position - 1)
            } else {
                None
            },
        }
    } else {
        None
    }
}

/// The column of a position.
pub open spec fn column_of(width: int, position: int) -> int {
    position % width
}

/// The row of a position.
pub open spec fn row_of(width: int, position: int) -> int {
    position / width
}

/// A position is its column plus its row times the width.
pub proof fn lemma_position_of(width: int, column: int, row: int)
    requires
        0 <= column < width,
    ensures
        column_of(width, column + row * width) == column,
        row_of(width, column + row * width) == row,
{
    lemma_fundamental_div_mod_converse(column + row * width, width, row, column);
}

/// A neighbour lies on the grid, one step away in the row or in the column,
/// and never on the other side of a row boundary.
pub proof fn lemma_neighbor_in_grid(width: int, height: int, position: int, direction: Direction)
    requires
        grid_neighbor(width, height, position, direction) is Some,
    ensures
        0 <= grid_neighbor(width, height, position, direction)->0 < width * height,
        0 <= position < width * height,
        direction == Direction::East ==> {
            &&& row_of(width, grid_neighbor(width, height, position, direction)->0) == row_of(
                width,
                position,
            )
            &&& column_of(width, grid_neighbor(width, height, position, direction)->0)
                == column_of(width, position) + 1
        },
        direction == Direction::West ==> {
            &&& row_of(width, grid_neighbor(width, height, position, direction)->0) == row_of(
                width,
                position,
            )
            &&& column_of(width, grid_neighbor(width, height, position, direction)->0)
                == column_of(width, position) - 1
        },
        direction == Direction::North ==> {
            &&& row_of(width, grid_neighbor(width, height, position, direction)->0) == row_of(
                width,
                position,
            ) - 1
            &&& column_of(width, grid_neighbor(width, height, position, direction)->0)
                == column_of(width, position)
        },
        direction == Direction::South ==> {
            &&& row_of(width, grid_neighbor(width, height, position, direction)->0) == row_of(
                width,
                position,
            ) + 1
            &&& column_of(width, grid_neighbor(width, height, position, direction)->0)
                == column_of(width, position)
        },
        grid_neighbor(
            width,
            height,
            grid_neighbor(width, height, position, direction)->0,
            direction.spec_opposite(),
        ) == Some(position),
{
    let row = position / width;
    let column = position % width;
    lemma_row_in_grid(width, height, position);
    assert(position == column + row * width);
    match direction {
        Direction::East => {
            lemma_position_of(width, column + 1, row);
            assert(row * width + width <= width * height) by (nonlinear_arith)
                requires
                    row + 1 <= height,
                    width > 0,
            ;
        },
        Direction::West => {
            lemma_position_of(width, column - 1, row);
        },
        Direction::North => {
            assert(column + (row - 1) * width == position - width) by (nonlinear_arith)
                requires
                    position == column + row * width,
            ;
            lemma_position_of(width, column, row - 1);
        },
        Direction::South => {
            assert(column + (row + 1) * width == position + width) by (nonlinear_arith)
                requires
                    position == column + row * width,
            ;
            lemma_position_of(width, column, row + 1);
        },
    }
}

/// A link that points at a cell of the grid, or no link.
pub open spec fn link_in_range(link: Option<usize>, len: int) -> bool {
    link matches Some(target) ==> target < len
}

impl View for Maze {
    type V = MazeView;

    open spec fn view(&self) -> MazeView {
        MazeView {
            width: self.dimensions.width as int,
            height: self.dimensions.height as int,
            kinds: Seq::new(self.cells.len() as nat, |i: int| self.cells[i].celltype),
            visited: Seq::new(self.cells.len() as nat, |i: int| self.cells[i].visited),
            on_route: Seq::new(self.cells.len() as nat, |i: int| self.cells[i].on_route),
            links: Seq::new(self.cells.len() as nat, |i: int| self.cells[i].nodes@),
            start: self.start as int,
            end: self.end as int,
            graph_created: self.graph_created,
        }
    }
}

impl MazeView {
    pub open spec fn len(self) -> int {
        self.width * self.height
    }

    /// The grid has a cell for every position, and every graph link
    /// points at a cell of the grid.
    pub open spec fn wf(self) -> bool {
        &&& 0 <= self.width
        &&& 0 <= self.height
        &&& self.kinds.len() == self.len()
        &&& self.visited.len() == self.len()
        &&& self.on_route.len() == self.len()
        &&& self.links.len() == self.len()
        &&& forall|i: int|
            0 <= i < self.len() ==> (#[trigger] self.links[i]).len() == NUM_OF_DIRECTIONS
        &&& forall|i: int, d: int|
            0 <= i < self.len() && 0 <= d < NUM_OF_DIRECTIONS ==> link_in_range(
                #[trigger] self.links[i][d],
                self.len(),
            )
    }

    pub open spec fn neighbor(self, position: int, direction: Direction) -> Option<int> {
        grid_neighbor(self.width, self.height, position, direction)
    }

    /// The markers of start and end point at a start cell and an end cell.
    pub open spec fn has_start_and_end(self) -> bool {
        &&& 0 <= self.start < self.len()
        &&& 0 <= self.end < self.len()
        &&& self.kinds[self.start] == MazeCellType::Start
        &&& self.kinds[self.end] == MazeCellType::End
    }

    /// The neighbour in `direction`, if there is one and it is not a wall.
    pub open spec fn open_neighbor(self, position: int, direction: Direction) -> Option<int> {
        match self.neighbor(position, direction) {
            Some(q) => if self.kinds[q] != MazeCellType::Wall {
                Some(q)
            } else {
                None
            },
            None => None,
        }
    }

    /// The neighbours that are not walls, in the canonical order of directions.
    pub open spec fn open_neighbors(self, position: int) -> Seq<int> {
        option_seq(self.open_neighbor(position, Direction::North)) + option_seq(
            self.open_neighbor(position, Direction::East),
        ) + option_seq(self.open_neighbor(position, Direction::West)) + option_seq(
            self.open_neighbor(position, Direction::South),
        )
    }

    /// The sum of the distances in columns and in rows between two positions.
    pub open spec fn manhattan_distance(self, a: int, b: int) -> int {
        abs_diff(column_of(self.width, a), column_of(self.width, b)) + abs_diff(
            row_of(self.width, a),
            row_of(self.width, b),
        )
    }

    /// Every cell is a wall without annotation or graph link.
    pub open spec fn blank(self) -> bool {
        &&& forall|i: int| 0 <= i < self.kinds.len() ==> self.kinds[i] == MazeCellType::Wall
        &&& forall|i: int| 0 <= i < self.visited.len() ==> !self.visited[i]
        &&& forall|i: int| 0 <= i < self.on_route.len() ==> !self.on_route[i]
        &&& forall|i: int|
            0 <= i < self.links.len() ==> #[trigger] self.links[i] == seq![
                None::<usize>,
                None,
                None,
                None,
            ]
    }
}

/// The two sequences hold the same positions in the same order.
pub open spec fn same_positions(v: Seq<usize>, s: Seq<int>) -> bool {
    &&& v.len() == s.len()
    &&& forall|k: int| 0 <= k < v.len() ==> v[k] as int == s[k]
}

/// The sequence of the value of an option: one element, or none.
pub open spec fn option_seq(o: Option<int>) -> Seq<int> {
    match o {
        Some(v) => seq![v],
        None => Seq::empty(),
    }
}

pub open spec fn abs_diff(a: int, b: int) -> int {
    if a >= b {
        a - b
    } else {
        b - a
    }
}

impl Maze {
    /// The grid has a cell for every position, and every graph link
    /// points at a cell of the grid.
    pub open spec fn wf(&self) -> bool {
        self@.wf()
    }

    /// Whether the maze is well formed.
    pub fn is_wf(&self) -> (ok: bool)
        ensures
            ok == self.wf(),
    {
        let width: usize = self.dimensions.width;
        let height: usize = self.dimensions.height;
        let len: usize = self.cells.len();
        let fits: bool = match width.checked_mul(height) {
            Some(n) => n == len,
            None => false,
        };
        if !fits {
            return false;
        }
        let mut i: usize = 0;
        while i < len
            invariant
                i <= len,
                len == self.cells.len(),
                len == self@.len(),
                forall|j: int, d: int|
                    0 <= j < i && 0 <= d < NUM_OF_DIRECTIONS ==> link_in_range(
                        #[trigger] self@.links[j][d],
                        len as int,
                    ),
            decreases len - i,
        {
            let mut d: usize = 0;
            while d < NUM_OF_DIRECTIONS
                invariant
                    i < len,
                    d <= NUM_OF_DIRECTIONS,
                    len == self.cells.len(),
                    len == self@.len(),
                    forall|k: int|
                        0 <= k < d ==> link_in_range(
                            #[trigger] self@.links[i as int][k],
                            len as int,
                        ),
                decreases NUM_OF_DIRECTIONS - d,
            {
                match self.cells[i].nodes[d] {
                    Some(target) => {
                        if target >= len {
                            assert(!link_in_range(self@.links[i as int][d as int], len as int));
                            return false;
                        }
                    },
                    None => {},
                }
                d += 1;
            }
            i += 1;
        }
        true
    }

    /// A blank maze of the default size.
    pub fn new() -> (maze: Maze)
        ensures
            maze.wf(),
            maze@.blank(),
            maze.dimensions == (Dimensions {
                width: MAZE_DIMENSION_DEFAULT,
                height: MAZE_DIMENSION_DEFAULT,
            }),
            maze.start == 0,
            maze.end == 0,
            !maze.graph_created,
    {
        let mut maze = Maze {
            dimensions: Dimensions { width: 0, height: 0 },
            cells: Vec::new(),
            start: 0,
            end: 0,
            graph_created: false,
        };
        maze.reset(
            Dimensions { width: MAZE_DIMENSION_DEFAULT, height: MAZE_DIMENSION_DEFAULT },
        );
        maze
    }

    /// Clears the maze and gives it the new dimensions: every cell becomes a
    /// wall without annotation or graph link. The markers of start and end
    /// and the flag of the graph keep their values.
    pub fn reset(&mut self, dimensions: Dimensions)
        requires
            dimensions.width * dimensions.height <= usize::MAX,
        ensures
            final(self).wf(),
            final(self)@.blank(),
            final(self).dimensions == dimensions,
            final(self).start == old(self).start,
            final(self).end == old(self).end,
            final(self).graph_created == old(self).graph_created,
    {
        let new_size: usize = dimensions.width * dimensions.height;
        self.dimensions = dimensions;
        if self.cells.len() != new_size {
            self.cells.clear();
            let mut n: usize = 0;
            while n < new_size
                invariant
                    n <= new_size,
                    self.cells.len() == n,
                    self.dimensions == dimensions,
                    self.start == old(self).start,
                    self.end == old(self).end,
                    self.graph_created == old(self).graph_created,
                decreases new_size - n,
            {
                self.cells.push(MazeCell::wall());
                n += 1;
            }
        }
        let mut i: usize = 0;
        while i < new_size
            invariant
                i <= new_size,
                self.cells.len() == new_size,
                self.dimensions == dimensions,
                self.start == old(self).start,
                self.end == old(self).end,
                self.graph_created == old(self).graph_created,
                forall|j: int| 0 <= j < i ==> (#[trigger] self.cells[j]).is_blank_wall(),
            decreases new_size - i,
        {
            self.cells[i] = MazeCell::wall();
            i += 1;
        }
        assert forall|j: int, d: int|
            0 <= j < self@.len() && 0 <= d < NUM_OF_DIRECTIONS implies link_in_range(
            #[trigger] self@.links[j][d],
            self@.len(),
        ) by {
            assert(self.cells[j].is_blank_wall());
        }
        assert forall|j: int| 0 <= j < self@.len() implies (#[trigger] self@.links[j]).len()
            == NUM_OF_DIRECTIONS by {
            assert(self.cells[j].is_blank_wall());
        }
        assert forall|j: int| 0 <= j < self@.links.len() implies #[trigger] self@.links[j]
            == seq![None::<usize>, None, None, None] by {
            assert(self.cells[j].is_blank_wall());
        }
    }

    /// The neighbour of `position` in `direction`, or `None` at an edge of
    /// the grid and for a position outside it.
    pub fn neighbor(&self, position: usize, direction: Direction) -> (r: Option<usize>)
        requires
            self.wf(),
        ensures
            match r {
                Some(q) => self@.neighbor(position as int, direction) == Some(q as int) && q
                    < self.cells.len(),
                None => self@.neighbor(position as int, direction) is None,
            },
            r matches Some(q) ==> match direction {
                Direction::East => row_of(self@.width, q as int) == row_of(
                    self@.width,
                    position as int,
                ) && column_of(self@.width, q as int) == column_of(self@.width, position as int)
                    + 1,
                Direction::West => row_of(self@.width, q as int) == row_of(
                    self@.width,
                    position as int,
                ) && column_of(self@.width, q as int) == column_of(self@.width, position as int)
                    - 1,
                Direction::North => column_of(self@.width, q as int) == column_of(
                    self@.width,
                    position as int,
                ) && row_of(self@.width, q as int) == row_of(self@.width, position as int) - 1,
                Direction::South => column_of(self@.width, q as int) == column_of(
                    self@.width,
                    position as int,
                ) && row_of(self@.width, q as int) == row_of(self@.width, position as int) + 1,
            },
    {
        let width: usize = self.dimensions.width;
        let len: usize = self.cells.len();
        if position >= len || width == 0 {
            return None;
        }
        proof {
            if self@.neighbor(position as int, direction) is Some {
                lemma_neighbor_in_grid(
                    width as int,
                    self.dimensions.height as int,
                    position as int,
                    direction,
                );
            }
        }
        match direction {
            Direction::North => {
                if position >= width {
                    Some(position - width)
                } else {
                    None
                }
            },
            Direction::East => {
                if position % width + 1 < width {
                    Some(position + 1)
                } else {
                    None
                }
            },
            Direction::West => {
                if position % width > 0 {
                    Some(position - 1)
                } else {
                    None
                }
            },
            Direction::South => {
                if width < len - position {
                    Some(position + width)
                } else {
                    None
                }
            },
        }
    }

    /// The neighbour of `position` in `direction`, or an `InvalidPosition`
    /// error where the grid has no cell there.
    pub fn get_neighboring_position(&self, position: usize, direction: Direction) -> (r: Result<
        usize,
        AppError,
    >)
        requires
            self.wf(),
        ensures
            match r {
                Ok(q) => self@.neighbor(position as int, direction) == Some(q as int) && q
                    < self.cells.len(),
                Err(e) => self@.neighbor(position as int, direction) is None && e.kind
                    == ErrorKind::InvalidPosition,
            },
    {
        match self.neighbor(position, direction) {
            Some(q) => Ok(q),
            None => Err(
                AppError::with_kind(
                    ErrorKind::InvalidPosition,
                    "Invalid maze position encountered",
                ),
            ),
        }
    }

    /// Whether the markers of start and end point at a start cell and an
    /// end cell.
    pub fn has_start_and_end(&self) -> (ok: bool)
        requires
            self.wf(),
        ensures
            ok == self@.has_start_and_end(),
    {
        self.start < self.cells.len() && self.end < self.cells.len()
            && self.cells[self.start].celltype == MazeCellType::Start
            && self.cells[self.end].celltype == MazeCellType::End
    }

    /// Marks the cell at `position` as examined by the solver.
    pub fn mark_visited(&mut self, position: usize)
        requires
            position < old(self).cells.len(),
        ensures
            final(self)@ == (MazeView {
                visited: old(self)@.visited.update(position as int, true),
                ..old(self)@
            }),
    {
        self.cells[position].visited = true;
        assert(self@.kinds =~= old(self)@.kinds);
        assert(self@.on_route =~= old(self)@.on_route);
        assert(self@.links =~= old(self)@.links);
        assert(self@.visited =~= old(self)@.visited.update(position as int, true));
    }

    /// Marks the cell at `position` as part of the route.
    pub fn mark_on_route(&mut self, position: usize)
        requires
            position < old(self).cells.len(),
        ensures
            final(self)@ == (MazeView {
                on_route: old(self)@.on_route.update(position as int, true),
                ..old(self)@
            }),
    {
        self.cells[position].on_route = true;
        assert(self@.kinds =~= old(self)@.kinds);
        assert(self@.visited =~= old(self)@.visited);
        assert(self@.links =~= old(self)@.links);
        assert(self@.on_route =~= old(self)@.on_route.update(position as int, true));
    }

    /// Whether the cell at `position` is a wall or the end.
    pub fn is_wall_or_end_position(&self, position: usize) -> (b: bool)
        requires
            position < self.cells.len(),
        ensures
            b == self@.kinds[position as int].wall_or_end(),
    {
        let kind = self.cells[position].celltype;
        kind == MazeCellType::Wall || kind == MazeCellType::End
    }

    /// The neighbours of `position` that are not walls, in the canonical
    /// order of directions.
    pub fn get_neighbours(&self, position: usize) -> (neighbours: Vec<usize>)
        requires
            self.wf(),
        ensures
            same_positions(neighbours@, self@.open_neighbors(position as int)),
            forall|k: int|
                0 <= k < neighbours.len() ==> neighbours[k] < self.cells.len()
                    && self@.kinds[neighbours[k] as int] != MazeCellType::Wall,
    {
        let directions = Direction::get_directions();
        let mut neighbours: Vec<usize> = Vec::new();
        let ghost mut acc: Seq<int> = Seq::empty();
        let mut i: usize = 0;
        while i < NUM_OF_DIRECTIONS
            invariant
                i <= NUM_OF_DIRECTIONS,
                self.wf(),
                directions@ == crate::direction::all_directions(),
                same_positions(neighbours@, acc),
                forall|k: int|
                    0 <= k < neighbours.len() ==> neighbours[k] < self.cells.len()
                        && self@.kinds[neighbours[k] as int] != MazeCellType::Wall,
                i == 0 ==> acc == Seq::<int>::empty(),
                i == 1 ==> acc == option_seq(
                    self@.open_neighbor(position as int, Direction::North),
                ),
                i == 2 ==> acc == option_seq(
                    self@.open_neighbor(position as int, Direction::North),
                ) + option_seq(self@.open_neighbor(position as int, Direction::East)),
                i == 3 ==> acc == option_seq(
                    self@.open_neighbor(position as int, Direction::North),
                ) + option_seq(self@.open_neighbor(position as int, Direction::East))
                    + option_seq(self@.open_neighbor(position as int, Direction::West)),
                i == 4 ==> acc == self@.open_neighbors(position as int),
            decreases NUM_OF_DIRECTIONS - i,
        {
            let direction = directions[i];
            match self.neighbor(position, direction) {
                Some(q) => {
                    if self.cells[q].celltype != MazeCellType::Wall {
                        neighbours.push(q);
                        proof {
                            acc = acc + seq![q as int];
                        }
                    } else {
                        proof {
                            acc = acc + Seq::<int>::empty();
                        }
                    }
                },
                None => {
                    proof {
                        acc = acc + Seq::<int>::empty();
                    }
                },
            }
            i += 1;
        }
        neighbours
    }

    /// The Manhattan distance between two cells of the grid: the distance in
    /// columns plus the distance in rows.
    pub fn manhattan_distance(&self, x: usize, y: usize) -> (distance: usize)
        requires
            self.wf(),
            x < self.cells.len(),
            y < self.cells.len(),
        ensures
            distance == self@.manhattan_distance(x as int, y as int),
            distance <= self.dimensions.width + self.dimensions.height,
    {
        let width: usize = self.dimensions.width;
        assert(width > 0) by {
            if width == 0 {
                assert(self@.len() == 0) by (nonlinear_arith)
                    requires
                        self@.len() == self@.width * self@.height,
                        self@.width == 0,
                ;
            }
        }
        let xc: usize = x % width;
        let yc: usize = y % width;
        let xr: usize = x / width;
        let yr: usize = y / width;
        proof {
            lemma_row_in_grid(width as int, self.dimensions.height as int, x as int);
            lemma_row_in_grid(width as int, self.dimensions.height as int, y as int);
        }
        let h: usize = if xc >= yc {
            xc - yc
        } else {
            yc - xc
        };
        let v: usize = if xr >= yr {
            xr - yr
        } else {
            yr - xr
        };
        assert(width + self.dimensions.height <= width * self.dimensions.height + 1)
            by (nonlinear_arith)
            requires
                width >= 1,
                self.dimensions.height >= 1,
        ;
        h + v
    }
}

/// The neighbours that are not walls are cells of the grid.
pub proof fn lemma_open_neighbors_in_grid(m: MazeView, position: int)
    ensures
        forall|k: int|
            0 <= k < m.open_neighbors(position).len() ==> {
                &&& 0 <= (#[trigger] m.open_neighbors(position)[k]) < m.len()
                &&& m.kinds[m.open_neighbors(position)[k]] != MazeCellType::Wall
            },
{
    let north = m.open_neighbor(position, Direction::North);
    let east = m.open_neighbor(position, Direction::East);
    let west = m.open_neighbor(position, Direction::West);
    let south = m.open_neighbor(position, Direction::South);
    if north is Some {
        lemma_neighbor_in_grid(m.width, m.height, position, Direction::North);
    }
    if east is Some {
        lemma_neighbor_in_grid(m.width, m.height, position, Direction::East);
    }
    if west is Some {
        lemma_neighbor_in_grid(m.width, m.height, position, Direction::West);
    }
    if south is Some {
        lemma_neighbor_in_grid(m.width, m.height, position, Direction::South);
    }
}

/// A position of the grid lies in one of its rows and one of its columns.
pub proof fn lemma_row_in_grid(width: int, height: int, position: int)
    requires
        0 <= position < width * height,
        0 < width,
    ensures
        0 <= row_of(width, position) < height,
        0 <= column_of(width, position) < width,
        position == column_of(width, position) + row_of(width, position) * width,
{
    lemma_fundamental_div_mod(position, width);
    let row = position / width;
    lemma_mul_is_commutative(width, row);
    if row >= height {
        lemma_mul_inequality(height, row, width);
        lemma_mul_is_commutative(width, height);
    }
    if row < 0 {
        assert(row * width <= -width) by (nonlinear_arith)
            requires
                row <= -1,
                width > 0,
        ;
    }
}

} // verus!
