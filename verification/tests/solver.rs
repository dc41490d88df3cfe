use mazetool::common::ErrorKind;
use mazetool::maze::{Dimensions, Maze, MazeCell, MazeCellType};
use mazetool::random::RandomSource;
use mazetool::solver::{ListItem, SolveSession};

fn maze_from(rows: &[&str]) -> Maze {
    let height = rows.len();
    let width = rows[0].chars().count();
    let mut cells = Vec::new();
    let mut start = 0;
    let mut end = 0;
    for row in rows {
        for c in row.chars() {
            let kind = match c {
                '#' => MazeCellType::Wall,
                'S' => MazeCellType::Start,
                'E' => MazeCellType::End,
                _ => MazeCellType::Passage,
            };
            if kind == MazeCellType::Start {
                start = cells.len();
            }
            if kind == MazeCellType::End {
                end = cells.len();
            }
            let mut cell = MazeCell::wall();
            cell.celltype = kind;
            cells.push(cell);
        }
    }
    Maze { dimensions: Dimensions { width, height }, cells, start, end, graph_created: false }
}

fn sample() -> Maze {
    maze_from(&[
        "#S#####",
        "# #   #",
        "# # # #",
        "#   # #",
        "# ### #",
        "#   # #",
        "#####E#",
    ])
}

fn marked(maze: &Maze, on_route: bool) -> Vec<usize> {
    (0..maze.cells.len())
        .filter(|&i| if on_route { maze.cells[i].on_route } else { maze.cells[i].visited })
        .collect()
}

fn sample_route() -> Vec<usize> {
    vec![1, 8, 10, 11, 12, 15, 17, 19, 22, 23, 24, 26, 33, 40, 47]
}

#[test]
fn successors_leave_out_walls_and_the_parent() {
    let maze = sample();
    assert_eq!(maze.successors(22, 15), vec![23, 29]);
    assert_eq!(maze.successors(22, 23), vec![15, 29]);
    assert_eq!(maze.successors(22, 22), vec![15, 23, 29]);
    assert_eq!(maze.successors(1, 1), vec![8]);
    assert_eq!(maze.successors(38, 37), Vec::<usize>::new());
    assert_eq!(maze.successors(40, 33), vec![47]);
}

#[test]
fn a_new_session_holds_nothing() {
    let session = SolveSession::new();
    assert_eq!(session.open_len(), 0);
    assert_eq!(session.closed_len(), 0);
}

#[test]
fn a_star_marks_the_route_from_start_to_end() {
    let mut maze = sample();
    let mut session = SolveSession::new();
    assert_eq!(maze.run_a_star(&mut session, false).unwrap(), true);
    assert_eq!(marked(&maze, true), sample_route());
    assert_eq!(session.open_len(), 0);
    let last = session.closed_item(session.closed_len() - 1);
    assert_eq!(last.position, 47);
    assert_eq!(last.parent, 40);
    assert_eq!(last.g, 14);
    assert_eq!(last.h, 0);
    assert_eq!(last.f, 14);
    assert_eq!(
        session.closed_item(0),
        ListItem { position: 1, parent: 1, f: 0, g: 0, h: 0 }
    );
    assert_eq!(
        session.closed_item(1),
        ListItem { position: 8, parent: 1, f: 10, g: 1, h: 9 }
    );
}

#[test]
fn a_star_visits_cells_that_are_not_walls_only() {
    let mut maze = sample();
    let mut session = SolveSession::new();
    maze.run_a_star(&mut session, false).unwrap();
    let visited = marked(&maze, false);
    for &p in visited.iter() {
        assert_ne!(maze.cells[p].celltype, MazeCellType::Wall);
    }
    for p in sample_route() {
        if p != 40 {
            assert!(maze.cells[p].visited);
        }
    }
    assert!(maze.cells[47].visited);
    assert_eq!(maze.cells[1].celltype, MazeCellType::Start);
    assert_eq!(maze.cells[47].celltype, MazeCellType::End);
    assert!(!maze.graph_created);
    for cell in maze.cells.iter() {
        assert_eq!(cell.nodes, [None, None, None, None]);
    }
}

#[test]
fn a_star_in_steps_expands_one_candidate_at_a_time() {
    let mut maze = sample();
    let mut session = SolveSession::new();
    assert_eq!(maze.run_a_star(&mut session, true).unwrap(), false);
    assert_eq!(marked(&maze, false), vec![1]);
    assert_eq!(session.open_len(), 1);
    assert_eq!(session.closed_len(), 2);
    assert_eq!(maze.run_a_star(&mut session, true).unwrap(), false);
    assert_eq!(marked(&maze, false), vec![1, 8]);
    assert_eq!(session.closed_len(), 3);
    assert_eq!(session.closed_item(2), ListItem { position: 15, parent: 8, f: 10, g: 2, h: 8 });
    assert!(marked(&maze, true).is_empty());
    let mut steps = 2;
    loop {
        steps += 1;
        assert!(steps < 100);
        if maze.run_a_star(&mut session, true).unwrap() {
            break;
        }
        assert!(marked(&maze, true).is_empty());
    }
    assert_eq!(marked(&maze, true), sample_route());
    let mut whole = sample();
    let mut other = SolveSession::new();
    whole.run_a_star(&mut other, false).unwrap();
    assert_eq!(marked(&maze, false), marked(&whole, false));
    assert_eq!(session.closed_len(), other.closed_len());
    for i in 0..session.closed_len() {
        assert_eq!(session.closed_item(i), other.closed_item(i));
    }
}

#[test]
fn a_star_takes_the_candidate_with_the_lowest_f_first() {
    let mut maze = maze_from(&[
        "#S#####",
        "#     #",
        "# #####",
        "#     #",
        "#####E#",
    ]);
    let mut session = SolveSession::new();
    maze.run_a_star(&mut session, true).unwrap();
    maze.run_a_star(&mut session, true).unwrap();
    assert_eq!(session.closed_len(), 4);
    assert_eq!(session.closed_item(2), ListItem { position: 15, parent: 8, f: 8, g: 2, h: 6 });
    assert_eq!(session.closed_item(3), ListItem { position: 9, parent: 8, f: 8, g: 2, h: 6 });
    maze.run_a_star(&mut session, true).unwrap();
    assert_eq!(marked(&maze, false), vec![1, 8, 9]);
    maze.run_a_star(&mut session, true).unwrap();
    assert_eq!(marked(&maze, false), vec![1, 8, 9, 15]);
    assert_eq!(maze.run_a_star(&mut session, false).unwrap(), true);
    assert_eq!(marked(&maze, true), vec![1, 8, 15, 22, 23, 24, 25, 26, 33]);
}

#[test]
fn a_star_on_a_finished_session_changes_nothing() {
    let mut maze = sample();
    let mut session = SolveSession::new();
    maze.run_a_star(&mut session, false).unwrap();
    let visited = marked(&maze, false);
    let closed = session.closed_len();
    assert_eq!(maze.run_a_star(&mut session, false).unwrap(), true);
    assert_eq!(maze.run_a_star(&mut session, true).unwrap(), true);
    assert_eq!(marked(&maze, false), visited);
    assert_eq!(marked(&maze, true), sample_route());
    assert_eq!(session.closed_len(), closed);
}

#[test]
fn a_star_solves_generated_mazes_of_odd_height() {
    for (width, height, seed) in [(11, 11, 1), (19, 19, 2), (31, 21, 3)] {
        let mut maze = Maze::new();
        let mut rng = RandomSource::from_seed(seed);
        maze.generate(Dimensions { width, height }, &mut rng);
        let mut session = SolveSession::new();
        assert_eq!(maze.run_a_star(&mut session, false).unwrap(), true);
        let route = marked(&maze, true);
        assert!(maze.cells[maze.end].visited);
        assert!(maze.cells[maze.start].on_route);
        assert!(maze.cells[maze.end].on_route);
        for &p in route.iter() {
            assert_ne!(maze.cells[p].celltype, MazeCellType::Wall);
            let beside =
                maze.get_neighbours(p).into_iter().filter(|&q| maze.cells[q].on_route).count();
            if p == maze.start || p == maze.end {
                assert_eq!(beside, 1);
            } else {
                assert_eq!(beside, 2);
            }
        }
        let mut at = maze.start;
        let mut from = maze.start;
        let mut steps = 1;
        while at != maze.end {
            let next: Vec<usize> = maze
                .get_neighbours(at)
                .into_iter()
                .filter(|&q| maze.cells[q].on_route && q != from)
                .collect();
            assert_eq!(next.len(), 1);
            from = at;
            at = next[0];
            steps += 1;
        }
        assert_eq!(steps, route.len());
    }
}

#[test]
fn a_star_on_a_maze_of_ten_by_ten_reaches_the_end() {
    for seed in [4, 5, 6, 7] {
        let mut maze = Maze::new();
        let mut rng = RandomSource::from_seed(seed);
        maze.generate(Dimensions { width: 10, height: 10 }, &mut rng);
        let mut session = SolveSession::new();
        assert_eq!(maze.run_a_star(&mut session, false).unwrap(), true);
        assert_eq!(session.open_len(), 0);
        assert!(maze.cells[maze.end].visited);
        assert!(maze.cells[maze.end].on_route);
        assert!(maze.cells[maze.start].on_route);
        for p in 0..maze.cells.len() {
            if maze.cells[p].on_route || maze.cells[p].visited {
                assert_ne!(maze.cells[p].celltype, MazeCellType::Wall);
            }
            if maze.cells[p].on_route {
                let beside =
                    maze.get_neighbours(p).into_iter().filter(|&q| maze.cells[q].on_route).count();
                if p == maze.start || p == maze.end {
                    assert_eq!(beside, 1);
                } else {
                    assert_eq!(beside, 2);
                }
            }
        }
    }
}

#[test]
fn a_star_gives_up_when_the_open_set_is_full() {
    let mut maze = Maze::new();
    maze.reset(Dimensions { width: 150, height: 150 });
    for cell in maze.cells.iter_mut() {
        cell.celltype = MazeCellType::Passage;
    }
    maze.start = 0;
    maze.end = 150 * 150 - 1;
    maze.cells[maze.start].celltype = MazeCellType::Start;
    maze.cells[maze.end].celltype = MazeCellType::End;
    let mut session = SolveSession::new();
    let error = maze.run_a_star(&mut session, false).unwrap_err();
    assert_eq!(error.kind, ErrorKind::CapacityExceeded);
    assert_eq!(session.open_len(), 128);
    assert!(marked(&maze, true).is_empty());
    for p in marked(&maze, false) {
        assert_ne!(maze.cells[p].celltype, MazeCellType::Wall);
    }
}

#[test]
fn a_star_never_runs_out_of_places_on_a_small_maze() {
    for (width, height) in [(10, 10), (11, 11), (12, 10), (10, 12)] {
        for seed in 100..130 {
            let mut maze = Maze::new();
            let mut rng = RandomSource::from_seed(seed);
            maze.generate(Dimensions { width, height }, &mut rng);
            let mut session = SolveSession::new();
            assert_eq!(maze.run_a_star(&mut session, false).unwrap(), true);
            assert!(maze.cells[maze.end].visited);
            assert!(session.closed_len() <= width * height);
        }
    }
}
