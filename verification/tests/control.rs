use mazetool::common::{AppError, ErrorKind, Job, SolveMethod, UIRequest};
use mazetool::control::{Action, ControlState, MazeControl};
use mazetool::maze::{Dimensions, Maze, MazeCellType};
use mazetool::random::RandomSource;

#[test]
fn new_control_is_idle() {
    let control = MazeControl::new();
    assert_eq!(control.current_state(), ControlState::Idle);
}

#[test]
fn a_job_to_make_a_maze_is_taken() {
    let mut control = MazeControl::new();
    let dimensions = Dimensions { width: 19, height: 21 };
    let step = control.accept(Job::GenerateMaze(dimensions));
    assert_eq!(step.action, Action::Generate(dimensions));
    assert!(matches!(step.notice, Some(UIRequest::ShowInfo(text)) if text == "Generating..."));
    assert_eq!(control.current_state(), ControlState::Generating);
}

#[test]
fn a_job_with_a_size_out_of_bounds_is_turned_down() {
    for dimensions in [
        Dimensions { width: 9, height: 19 },
        Dimensions { width: 19, height: 10001 },
        Dimensions { width: 0, height: 0 },
        Dimensions { width: 1, height: 19 },
    ] {
        let mut control = MazeControl::new();
        let step = control.accept(Job::GenerateMaze(dimensions));
        assert_eq!(step.action, Action::Nothing);
        assert!(
            matches!(step.notice, Some(UIRequest::ShowError(text)) if text == "Invalid maze dimensions")
        );
        assert_eq!(control.current_state(), ControlState::Idle);
    }
}

#[test]
fn a_job_to_solve_is_taken() {
    let mut control = MazeControl::new();
    let step = control.accept(Job::SolveMaze(SolveMethod::AStar));
    assert_eq!(step.action, Action::Solve(SolveMethod::AStar));
    assert!(step.notice.is_none());
    assert_eq!(control.current_state(), ControlState::Solving);
}

#[test]
fn quit_stops_the_control() {
    let mut control = MazeControl::new();
    let step = control.accept(Job::Quit);
    assert_eq!(step.action, Action::Stop);
    assert!(matches!(step.notice, Some(UIRequest::Quit)));
    assert_eq!(control.current_state(), ControlState::Stopped);
    for job in [
        Job::GenerateMaze(Dimensions { width: 19, height: 19 }),
        Job::SolveMaze(SolveMethod::GraphOnly),
        Job::Quit,
    ] {
        let step = control.accept(job);
        assert_eq!(step.action, Action::Nothing);
        assert!(step.notice.is_none());
        assert_eq!(control.current_state(), ControlState::Stopped);
    }
}

#[test]
fn generate_maze_makes_the_maze_and_asks_to_show_it() {
    let mut control = MazeControl::new();
    let mut maze = Maze::new();
    let mut rng = RandomSource::from_seed(3);
    let dimensions = Dimensions { width: 21, height: 13 };
    control.accept(Job::GenerateMaze(dimensions));
    let requests = control.generate_maze(&mut maze, dimensions, &mut rng);
    assert_eq!(requests.len(), 1);
    assert!(matches!(requests[0], UIRequest::ShowMaze));
    assert_eq!(control.current_state(), ControlState::Ready);
    assert_eq!(maze.dimensions, dimensions);
    assert_eq!(maze.cells.len(), 21 * 13);
    assert_eq!(maze.cells[maze.start].celltype, MazeCellType::Start);
    assert_eq!(maze.cells[maze.end].celltype, MazeCellType::End);
}

#[test]
fn generate_maze_asks_to_save_where_saving_is_on() {
    let mut control = MazeControl::new();
    control.set_saving(true);
    let mut maze = Maze::new();
    let mut rng = RandomSource::from_seed(3);
    let dimensions = Dimensions { width: 11, height: 11 };
    control.accept(Job::GenerateMaze(dimensions));
    let requests = control.generate_maze(&mut maze, dimensions, &mut rng);
    assert_eq!(requests.len(), 2);
    assert!(matches!(requests[0], UIRequest::ShowMaze));
    assert!(matches!(requests[1], UIRequest::SaveMaze));
}

#[test]
fn two_jobs_in_a_row_leave_the_maze_of_the_second() {
    let mut control = MazeControl::new();
    let mut maze = Maze::new();
    let mut rng = RandomSource::from_seed(8);
    let first = Dimensions { width: 31, height: 15 };
    let second = Dimensions { width: 12, height: 25 };
    control.accept(Job::GenerateMaze(first));
    control.generate_maze(&mut maze, first, &mut rng);
    control.accept(Job::GenerateMaze(second));
    control.generate_maze(&mut maze, second, &mut rng);
    assert_eq!(maze.dimensions, second);
    assert_eq!(maze.cells.len(), 12 * 25);
    assert!(maze.is_wf());
    let starts = maze.cells.iter().filter(|c| c.celltype == MazeCellType::Start).count();
    let ends = maze.cells.iter().filter(|c| c.celltype == MazeCellType::End).count();
    assert_eq!((starts, ends), (1, 1));
}

fn ready() -> (MazeControl, Maze) {
    let mut control = MazeControl::new();
    let mut maze = Maze::new();
    let mut rng = RandomSource::from_seed(5);
    let dimensions = Dimensions { width: 19, height: 19 };
    control.accept(Job::GenerateMaze(dimensions));
    control.generate_maze(&mut maze, dimensions, &mut rng);
    (control, maze)
}

#[test]
fn solve_maze_builds_the_graph() {
    let (mut control, mut maze) = ready();
    control.accept(Job::SolveMaze(SolveMethod::GraphOnly));
    let request = control.solve_maze(&mut maze, SolveMethod::GraphOnly);
    assert!(matches!(request, UIRequest::ShowMaze));
    assert_eq!(control.current_state(), ControlState::Done);
    assert!(maze.graph_created);
    assert!(maze.cells[maze.start].nodes[3].is_some());
    assert!(maze.cells[maze.start].on_route);
    assert!(maze.cells[maze.end].on_route);
    let leaves = (0..maze.cells.len())
        .filter(|&p| {
            maze.cells[p].celltype == MazeCellType::Passage
                && maze.get_num_of_graph_connections(p) == 1
        })
        .count();
    assert!(leaves > 0);
}

#[test]
fn solve_maze_builds_and_prunes_the_graph() {
    let (mut control, mut maze) = ready();
    control.accept(Job::SolveMaze(SolveMethod::GraphElimination));
    let request = control.solve_maze(&mut maze, SolveMethod::GraphElimination);
    assert!(matches!(request, UIRequest::ShowMaze));
    assert_eq!(control.current_state(), ControlState::Done);
    assert!(maze.graph_created);
    for p in 0..maze.cells.len() {
        if maze.cells[p].celltype == MazeCellType::Passage {
            assert_ne!(maze.get_num_of_graph_connections(p), 1);
        }
    }
    assert_eq!(maze.get_num_of_graph_connections(maze.start), 1);
    assert!(maze.cells[maze.start].on_route);
    assert!(maze.cells[maze.end].on_route);
    assert!(maze.cells[maze.end].visited);
}

#[test]
fn solve_maze_searches_the_route() {
    let (mut control, mut maze) = ready();
    control.accept(Job::SolveMaze(SolveMethod::AStar));
    let request = control.solve_maze(&mut maze, SolveMethod::AStar);
    assert!(matches!(request, UIRequest::ShowMaze));
    assert_eq!(control.current_state(), ControlState::Done);
    assert!(maze.cells[maze.start].on_route);
    assert!(maze.cells[maze.end].on_route);
    assert!(!maze.graph_created);
}

#[test]
fn solve_maze_without_a_maze_reports_an_error() {
    for method in [SolveMethod::GraphOnly, SolveMethod::GraphElimination, SolveMethod::AStar] {
        let mut control = MazeControl::new();
        let mut maze = Maze::new();
        control.accept(Job::SolveMaze(method));
        let request = control.solve_maze(&mut maze, method);
        assert!(matches!(request, UIRequest::ShowError(_)));
        assert_eq!(control.current_state(), ControlState::Idle);
        for cell in maze.cells.iter() {
            assert_eq!(cell.celltype, MazeCellType::Wall);
            assert!(!cell.visited);
            assert!(!cell.on_route);
            assert_eq!(cell.nodes, [None, None, None, None]);
        }
        let step = control.accept(Job::GenerateMaze(Dimensions { width: 19, height: 19 }));
        assert_eq!(step.action, Action::Generate(Dimensions { width: 19, height: 19 }));
    }
}

#[test]
fn a_failed_lock_gives_the_job_up() {
    let mut control = MazeControl::new();
    control.accept(Job::SolveMaze(SolveMethod::AStar));
    let notice = control.fail(AppError::with_kind(ErrorKind::LockFailure, "poisoned lock"));
    assert!(matches!(notice, UIRequest::ShowError(text) if text == "poisoned lock"));
    assert_eq!(control.current_state(), ControlState::Idle);
    control.accept(Job::Quit);
    control.fail(AppError::new("late"));
    assert_eq!(control.current_state(), ControlState::Stopped);
}

#[test]
fn run_and_quit_control() {
    let mut control = MazeControl::new();
    let step = control.accept(Job::Quit);
    assert_eq!(step.action, Action::Stop);
    assert_eq!(control.current_state(), ControlState::Stopped);
}

#[test]
fn solve_maze_marks_the_same_route_by_every_method() {
    let mut routes = Vec::new();
    for method in [SolveMethod::GraphOnly, SolveMethod::GraphElimination, SolveMethod::AStar] {
        let (mut control, mut maze) = ready();
        control.accept(Job::SolveMaze(method));
        let request = control.solve_maze(&mut maze, method);
        assert!(matches!(request, UIRequest::ShowMaze));
        let route: Vec<usize> =
            (0..maze.cells.len()).filter(|&p| maze.cells[p].on_route).collect();
        assert!(route.len() > 2);
        routes.push(route);
    }
    assert_eq!(routes[0], routes[1]);
    assert_eq!(routes[1], routes[2]);
}

#[test]
fn solve_maze_without_an_end_changes_nothing() {
    for method in [SolveMethod::GraphOnly, SolveMethod::GraphElimination, SolveMethod::AStar] {
        let (mut control, mut maze) = ready();
        let end = maze.end;
        maze.cells[end].celltype = MazeCellType::Wall;
        control.accept(Job::SolveMaze(method));
        let request = control.solve_maze(&mut maze, method);
        assert!(
            matches!(request, UIRequest::ShowError(text) if text == "The maze has no start or no end position")
        );
        assert_eq!(control.current_state(), ControlState::Idle);
        assert!(!maze.graph_created);
        for cell in maze.cells.iter() {
            assert!(!cell.visited);
            assert!(!cell.on_route);
            assert_eq!(cell.nodes, [None, None, None, None]);
        }
    }
}
