//! The control logic: a state machine that takes the jobs of a front end,
//! works on the shared grid, and says what the front end is to be told.
//! Waiting for jobs, taking the lock of the grid and sending the requests
//! is left to the caller.

use vstd::prelude::*;
use vstd::multiset::Multiset;
use vstd::string::*;
use crate::common::{AppError, ErrorKind, Job, SolveMethod, UIRequest};
use crate::joining::well_made;
use crate::capacity::lemma_new_search_spares;
use crate::chain::{lemma_new_search_rooted, route_is_chain, simple};
use crate::open_set::MAX_HEAP_SIZE;
use crate::connectivity::{
    is_path,
    lemma_linked_same_cells,
    lemma_path_same_cells,
    lemma_ranked_same_cells,
    linked,
    marked_along,
    rankable,
    ranked,
};
use crate::exploration::{lemma_new_search_thorough, single_end};
use crate::generator::odd_place_in_row;
use crate::maze::{Dimensions, Maze, MazeView};
use crate::random::RandomSource;
use crate::simplifier::prune_from;
use crate::solver::{
    route_joins_ends,
    route_marks,
    run,
    seeded,
    ListItem,
    Progress,
    SearchState,
    SolveSession,
};

verus! {

/// Where the control logic stands.
#[derive(Clone, Copy, PartialEq, Eq, Structural, Debug)]
pub enum ControlState {
    /// No maze has been made, or the last job has failed.
    Idle,
    /// A job to make a maze has been taken and waits for the grid.
    Generating,
    /// A maze has been made.
    Ready,
    /// A job to solve the maze has been taken and waits for the grid.
    Solving,
    /// The maze has been solved.
    Done,
    /// No more jobs are taken.
    Stopped,
}

/// What the caller is to do with the grid for a job.
#[derive(Clone, Copy, PartialEq, Eq, Structural, Debug)]
pub enum Action {
    /// Nothing.
    Nothing,
    /// Take the lock of the grid and call `generate_maze`.
    Generate(Dimensions),
    /// Take the lock of the grid and call `solve_maze`.
    Solve(SolveMethod),
    /// Leave the loop that waits for jobs.
    Stop,
}

/// What follows from a job: a request for the front end, to be sent
/// first, and what to do with the grid.
#[derive(Debug)]
pub struct Step {
    pub notice: Option<UIRequest>,
    pub action: Action,
}

/// The control logic of the application.
#[derive(Debug)]
pub struct MazeControl {
    state: ControlState,
    save: bool,
}

/// The state of a search that has not begun, on a grid with these marks.
pub open spec fn fresh_search(visited: Seq<bool>) -> SearchState {
    SearchState {
        visited,
        open: Multiset::<(usize, usize, usize, usize)>::empty(),
        closed: Seq::<ListItem>::empty(),
    }
}

/// The maze after the graph steps of a method: with the topology graph,
/// pruned or not, or as it was.
pub open spec fn with_graph(m: MazeView, method: SolveMethod) -> MazeView {
    match method {
        SolveMethod::GraphOnly => MazeView {
            links: m.topology_links(),
            graph_created: true,
            ..m
        },
        SolveMethod::GraphElimination => MazeView {
            links: prune_from(m.kinds, m.topology_links(), 0),
            graph_created: true,
            ..m
        },
        SolveMethod::AStar => m,
    }
}

impl MazeControl {
    /// Control logic that has taken no job yet and does not ask for mazes
    /// to be saved.
    pub fn new() -> (control: MazeControl)
        ensures
            control.state() == ControlState::Idle,
            !control.saving(),
    {
        MazeControl { state: ControlState::Idle, save: false }
    }

    /// Where the control logic stands.
    pub closed spec fn state(&self) -> ControlState {
        self.state
    }

    /// Whether the front end is asked to save each new maze.
    pub closed spec fn saving(&self) -> bool {
        self.save
    }

    /// Where the control logic stands.
    pub fn current_state(&self) -> (state: ControlState)
        ensures
            state == self.state(),
    {
        self.state
    }

    /// Sets whether the front end is asked to save each new maze.
    pub fn set_saving(&mut self, save: bool)
        ensures
            final(self).saving() == save,
            final(self).state() == old(self).state(),
    {
        self.save = save;
    }

    /// Takes a job. Once stopped, the control logic takes no job. `Quit`
    /// stops it and has the front end told to quit. A job to make a maze
    /// is turned down with an error for the front end when the size is
    /// out of bounds; otherwise the front end is told that a maze is being
    /// made. A job to solve is always taken.
    pub fn accept(&mut self, job: Job) -> (step: Step)
        ensures
            old(self).state() == ControlState::Stopped ==> {
                &&& final(self).state() == ControlState::Stopped
                &&& step.action == Action::Nothing
                &&& step.notice is None
            },
            old(self).state() != ControlState::Stopped ==> match job {
                Job::Quit => {
                    &&& final(self).state() == ControlState::Stopped
                    &&& step.action == Action::Stop
                    &&& step.notice matches Some(UIRequest::Quit)
                },
                Job::GenerateMaze(dimensions) => if dimensions.valid() {
                    &&& final(self).state() == ControlState::Generating
                    &&& step.action == Action::Generate(dimensions)
                    &&& step.notice matches Some(UIRequest::ShowInfo(text)) && text@
                        == "Generating..."@
                } else {
                    &&& final(self).state() == old(self).state()
                    &&& step.action == Action::Nothing
                    &&& step.notice matches Some(UIRequest::ShowError(text)) && text@
                        == "Invalid maze dimensions"@
                },
                Job::SolveMaze(method) => {
                    &&& final(self).state() == ControlState::Solving
                    &&& step.action == Action::Solve(method)
                    &&& step.notice is None
                },
            },
            final(self).saving() == old(self).saving(),
    {
        if self.state == ControlState::Stopped {
            return Step { notice: None, action: Action::Nothing };
        }
        match job {
            Job::Quit => {
                self.state = ControlState::Stopped;
                Step { notice: Some(UIRequest::Quit), action: Action::Stop }
            },
            Job::GenerateMaze(dimensions) => {
                if dimensions.is_valid() {
                    self.state = ControlState::Generating;
                    Step {
                        notice: Some(UIRequest::ShowInfo(String::from_str("Generating..."))),
                        action: Action::Generate(dimensions),
                    }
                } else {
                    Step {
                        notice: Some(
                            UIRequest::ShowError(String::from_str("Invalid maze dimensions")),
                        ),
                        action: Action::Nothing,
                    }
                }
            },
            Job::SolveMaze(method) => {
                self.state = ControlState::Solving;
                Step { notice: None, action: Action::Solve(method) }
            },
        }
    }

    /// The job that was taken has failed before the grid could be worked
    /// on, as when the lock of the grid cannot be taken: the job is given
    /// up, and the front end is to be told the error.
    pub fn fail(&mut self, error: AppError) -> (notice: UIRequest)
        ensures
            final(self).state() == if old(self).state() == ControlState::Stopped {
                ControlState::Stopped
            } else {
                ControlState::Idle
            },
            final(self).saving() == old(self).saving(),
            notice matches UIRequest::ShowError(text) && text@ == error.details@,
    {
        if self.state != ControlState::Stopped {
            self.state = ControlState::Idle;
        }
        UIRequest::ShowError(error.details)
    }

    /// Makes a new maze of the given size on the grid. Afterwards a maze
    /// is ready, and the front end is to be asked to show it and, where
    /// saving is on, to save it. The maze is a tree with its corridors one
    /// wall apart: every cell that is not a wall can be reached from the
    /// start, the end among them, there is no round trip, and the pairs of
    /// neighbouring cells are one less than the cells that are not walls.
    pub fn generate_maze(
        &mut self,
        maze: &mut Maze,
        dimensions: Dimensions,
        rng: &mut RandomSource,
    ) -> (requests: Vec<UIRequest>)
        requires
            old(self).state() == ControlState::Generating,
            dimensions.valid(),
        ensures
            final(self).state() == ControlState::Ready,
            final(self).saving() == old(self).saving(),
            final(maze).wf(),
            final(maze).dimensions == dimensions,
            final(maze)@.unmarked(),
            odd_place_in_row(final(maze)@, final(maze)@.start, 0),
            odd_place_in_row(final(maze)@, final(maze)@.end, final(maze)@.height - 1),
            well_made(final(maze)@),
            linked(final(maze)@, final(maze)@.start, final(maze)@.end),
            requests@.len() == if old(self).saving() {
                2nat
            } else {
                1nat
            },
            requests@[0] is ShowMaze,
            old(self).saving() ==> requests@[1] is SaveMaze,
    {
        maze.generate(dimensions, rng);
        self.state = ControlState::Ready;
        let mut requests: Vec<UIRequest> = Vec::new();
        requests.push(UIRequest::ShowMaze);
        if self.save {
            requests.push(UIRequest::SaveMaze);
        }
        requests
    }

    /// Solves the maze on the grid by the given method. `GraphOnly` builds
    /// the topology graph first, `GraphElimination` builds it and prunes
    /// its dead ends, `AStar` builds none. Then the grid is searched from
    /// the start with A*, and the route is marked. Where the job succeeds
    /// the maze is done and the front end is to be asked to show it; where
    /// it fails the control logic is idle and the front end is to be told
    /// the error. The job fails, and changes nothing, when the maze has no
    /// start or no end; it fails after the graph steps when the open set
    /// of the search is full. Where the job succeeds on a maze with one
    /// end cell that a way joins to the start, the end is marked as
    /// visited, and the route joins start and end where the end had no
    /// such mark before. In a maze whose cells can be ranked, as in every
    /// maze that `generate_maze` makes, the route is then a chain: no cell
    /// occurs twice on it. In such a maze on a grid with no more cells
    /// than the open set has places, as on a grid of 10 by 10, the job
    /// succeeds.
    pub fn solve_maze(&mut self, maze: &mut Maze, method: SolveMethod) -> (request: UIRequest)
        requires
            old(self).state() == ControlState::Solving,
            old(maze).wf(),
        ensures
            final(maze).wf(),
            final(self).saving() == old(self).saving(),
            final(self).state() == if request is ShowMaze {
                ControlState::Done
            } else {
                ControlState::Idle
            },
            request is ShowMaze || request is ShowError,
            if old(maze)@.has_start_and_end() {
                let graphed = with_graph(old(maze)@, method);
                let (found, progress) = run(
                    graphed,
                    seeded(graphed, fresh_search(graphed.visited), false),
                );
                &&& request is ShowMaze <==> progress != Progress::OutOfCapacity
                &&& final(maze)@ == (MazeView {
                    visited: found.visited,
                    on_route: if progress != Progress::OutOfCapacity {
                        route_marks(found.closed, graphed.on_route)
                    } else {
                        graphed.on_route
                    },
                    ..graphed
                })
            } else {
                request is ShowError && final(maze)@ == old(maze)@
            },
            request is ShowMaze && single_end(old(maze)@) && linked(
                old(maze)@,
                old(maze)@.start,
                old(maze)@.end,
            ) ==> final(maze)@.visited[old(maze)@.end],
            request is ShowMaze && final(maze)@.visited[old(maze)@.end] && !old(maze)@.visited[old(maze)@.end]
                ==> route_joins_ends(old(maze)@, old(maze)@.on_route, final(maze)@.on_route),
            request is ShowMaze && rankable(old(maze)@) && final(maze)@.visited[old(maze)@.end]
                && !old(maze)@.visited[old(maze)@.end] ==> route_is_chain(
                old(maze)@,
                old(maze)@.on_route,
                final(maze)@.on_route,
            ),
            old(maze)@.has_start_and_end() && rankable(old(maze)@) && old(maze)@.len()
                <= MAX_HEAP_SIZE ==> request is ShowMaze,
    {
        if !maze.has_start_and_end() {
            self.state = ControlState::Idle;
            let e = AppError::with_kind(
                ErrorKind::StartNotFound,
                "The maze has no start or no end position",
            );
            return UIRequest::ShowError(e.details);
        }
        let graph: Result<(), AppError> = match method {
            SolveMethod::GraphOnly => maze.create_topology_graph(),
            SolveMethod::GraphElimination => {
                match maze.create_topology_graph() {
                    Ok(_) => {
                        maze.run_graph_elimination(false);
                        Ok(())
                    },
                    Err(e) => Err(e),
                }
            },
            SolveMethod::AStar => Ok(()),
        };
        let result: Result<bool, AppError> = match graph {
            Ok(_) => {
                assert(maze@ == with_graph(old(maze)@, method));
                let ghost graphed = maze@;
                let mut session = SolveSession::new();
                assert(session.state(maze@) =~= fresh_search(maze@.visited));
                proof {
                    if linked(old(maze)@, graphed.start, graphed.end) {
                        lemma_linked_same_cells(old(maze)@, graphed, graphed.start, graphed.end);
                    }
                    lemma_new_search_thorough(graphed, session.state(graphed));
                    lemma_new_search_spares(graphed, session.state(graphed));
                    if rankable(old(maze)@) {
                        let depth = choose|depth: Seq<int>| ranked(old(maze)@, depth);
                        lemma_ranked_same_cells(old(maze)@, graphed, depth);
                        lemma_new_search_rooted(graphed, session.state(graphed));
                    }
                }
                let searched = maze.run_a_star(&mut session, false);
                proof {
                    if route_joins_ends(graphed, graphed.on_route, maze@.on_route) {
                        let path = choose|path: Seq<int>| #[trigger]
                            is_path(graphed, path) && path[0] == graphed.end && path.last()
                                == graphed.start && maze@.on_route == marked_along(
                                graphed.on_route,
                                path,
                            );
                        lemma_path_same_cells(graphed, old(maze)@, path);
                    }
                    if route_is_chain(graphed, graphed.on_route, maze@.on_route) {
                        let path = choose|path: Seq<int>| #[trigger]
                            is_path(graphed, path) && path[0] == graphed.end && path.last()
                                == graphed.start && simple(path) && maze@.on_route == marked_along(
                                graphed.on_route,
                                path,
                            );
                        lemma_path_same_cells(graphed, old(maze)@, path);
                    }
                }
                searched
            },
            Err(e) => Err(e),
        };
        match result {
            Ok(_) => {
                self.state = ControlState::Done;
                UIRequest::ShowMaze
            },
            Err(e) => {
                self.state = ControlState::Idle;
                UIRequest::ShowError(e.details)
            },
        }
    }
}

} // verus!
