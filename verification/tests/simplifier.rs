use mazetool::direction::Direction;
use mazetool::maze::{Dimensions, Maze, MazeCell, MazeCellType};
use mazetool::random::RandomSource;

fn maze_from(rows: &[&str]) -> Maze {
    let height = rows.len();
    let width = rows[0].chars().count();
    let mut cells = Vec::new();
    let mut start = 0;
    let mut end = 0;
    for row in rows {
        for c in row.chars() {
            let kind = match c {
                '#' => MazeCellType::Wall,
                'S' => MazeCellType::Start,
                'E' => MazeCellType::End,
                _ => MazeCellType::Passage,
            };
            if kind == MazeCellType::Start {
                start = cells.len();
            }
            if kind == MazeCellType::End {
                end = cells.len();
            }
            let mut cell = MazeCell::wall();
            cell.celltype = kind;
            cells.push(cell);
        }
    }
    Maze { dimensions: Dimensions { width, height }, cells, start, end, graph_created: false }
}

fn sample() -> Maze {
    let mut maze = maze_from(&[
        "#S#####",
        "# #   #",
        "# # # #",
        "#   # #",
        "# ### #",
        "#   # #",
        "#####E#",
    ]);
    maze.create_topology_graph().unwrap();
    maze
}

fn links_of(maze: &Maze) -> Vec<(usize, [Option<usize>; 4])> {
    maze.cells
        .iter()
        .enumerate()
        .filter(|(_, c)| c.nodes != [None, None, None, None])
        .map(|(i, c)| (i, c.nodes))
        .collect()
}

fn pruned_links() -> Vec<(usize, [Option<usize>; 4])> {
    vec![
        (1, [None, None, None, Some(22)]),
        (10, [None, Some(12), None, Some(24)]),
        (12, [None, None, Some(10), Some(47)]),
        (22, [Some(1), Some(24), None, None]),
        (24, [Some(10), None, Some(22), None]),
        (47, [Some(12), None, None, None]),
    ]
}

#[test]
fn graph_connections_are_counted() {
    let maze = sample();
    assert_eq!(maze.get_num_of_graph_connections(0), 0);
    assert_eq!(maze.get_num_of_graph_connections(1), 1);
    assert_eq!(maze.get_num_of_graph_connections(22), 3);
    assert_eq!(maze.get_num_of_graph_connections(24), 2);
    assert_eq!(maze.get_num_of_graph_connections(38), 1);
    assert_eq!(maze.get_num_of_graph_connections(8), 0);
    let mut full = maze_from(&["###", "###", "###"]);
    full.cells[4].nodes = [Some(1), Some(5), Some(3), Some(7)];
    assert_eq!(full.get_num_of_graph_connections(4), 4);
}

#[test]
fn remove_dead_end_takes_the_first_edge_off_both_cells() {
    let mut maze = sample();
    assert_eq!(maze.remove_dead_end(38), Some(36));
    assert_eq!(maze.cells[38].nodes, [None, None, None, None]);
    assert_eq!(maze.cells[36].nodes, [Some(22), None, None, None]);
    assert_eq!(maze.remove_dead_end(38), None);
    assert_eq!(maze.remove_dead_end(22), Some(1));
    assert_eq!(maze.cells[22].nodes, [None, Some(24), None, Some(36)]);
    assert_eq!(maze.cells[1].nodes, [None, None, None, None]);
    assert_eq!(maze.remove_dead_end(0), None);
}

#[test]
fn elimination_prunes_the_dead_end_branch() {
    let mut maze = sample();
    assert_eq!(maze.run_graph_elimination(false), false);
    assert_eq!(links_of(&maze), pruned_links());
    assert!(maze.graph_created);
}

#[test]
fn elimination_leaves_no_passage_with_a_single_link() {
    for (width, height, seed) in [(19, 19, 1), (11, 11, 2), (31, 15, 3), (10, 10, 4)] {
        let mut maze = Maze::new();
        let mut rng = RandomSource::from_seed(seed);
        maze.generate(Dimensions { width, height }, &mut rng);
        maze.create_topology_graph().unwrap();
        let before: usize =
            (0..maze.cells.len()).map(|p| maze.get_num_of_graph_connections(p)).sum();
        assert_eq!(maze.run_graph_elimination(false), false);
        let after: usize =
            (0..maze.cells.len()).map(|p| maze.get_num_of_graph_connections(p)).sum();
        assert!(after < before);
        for p in 0..maze.cells.len() {
            if maze.cells[p].celltype == MazeCellType::Passage {
                assert_ne!(maze.get_num_of_graph_connections(p), 1);
            }
            for direction in Direction::get_directions() {
                if let Some(q) = maze.cells[p].nodes[direction.index()] {
                    let back = direction.get_opposite_direction();
                    assert_eq!(maze.cells[q].nodes[back.index()], Some(p));
                }
            }
        }
    }
}

#[test]
fn elimination_on_a_maze_of_odd_height_leaves_the_way_from_start_to_end() {
    let mut maze = Maze::new();
    let mut rng = RandomSource::from_seed(9);
    maze.generate(Dimensions { width: 19, height: 19 }, &mut rng);
    maze.create_topology_graph().unwrap();
    maze.run_graph_elimination(false);
    assert_eq!(maze.get_num_of_graph_connections(maze.start), 1);
    assert_eq!(maze.get_num_of_graph_connections(maze.end), 1);
    let mut at = maze.start;
    let mut from = maze.start;
    let mut steps = 0;
    while at != maze.end {
        let next: Vec<usize> =
            maze.cells[at].nodes.iter().flatten().copied().filter(|&n| n != from).collect();
        assert_eq!(next.len(), 1);
        from = at;
        at = next[0];
        steps += 1;
        assert!(steps < 400);
    }
    for p in 0..maze.cells.len() {
        if maze.cells[p].celltype == MazeCellType::Passage {
            let links = maze.get_num_of_graph_connections(p);
            assert!(links == 0 || links == 2);
        }
    }
}

#[test]
fn elimination_run_twice_changes_nothing_more() {
    let mut maze = sample();
    maze.run_graph_elimination(false);
    let once = links_of(&maze);
    assert_eq!(maze.run_graph_elimination(false), false);
    assert_eq!(links_of(&maze), once);
    assert_eq!(maze.run_graph_elimination(true), false);
    assert_eq!(links_of(&maze), once);
}

#[test]
fn elimination_in_steps_takes_one_edge_off_at_a_time() {
    let mut maze = sample();
    assert_eq!(maze.run_graph_elimination(true), true);
    assert_eq!(maze.cells[38].nodes, [None, None, None, None]);
    assert_eq!(maze.cells[36].nodes, [Some(22), None, None, None]);
    assert_eq!(maze.cells[22].nodes, [Some(1), Some(24), None, Some(36)]);
    assert_eq!(maze.run_graph_elimination(true), true);
    assert_eq!(links_of(&maze), pruned_links());
    assert_eq!(maze.run_graph_elimination(true), false);
    assert_eq!(links_of(&maze), pruned_links());
}

#[test]
fn elimination_spares_start_and_end() {
    let mut maze = maze_from(&["#S#", "# #", "#E#"]);
    maze.create_topology_graph().unwrap();
    assert_eq!(maze.cells[1].nodes, [None, None, None, Some(7)]);
    assert_eq!(maze.cells[7].nodes, [Some(1), None, None, None]);
    assert_eq!(maze.run_graph_elimination(false), false);
    assert_eq!(maze.cells[1].nodes, [None, None, None, Some(7)]);
    assert_eq!(maze.cells[7].nodes, [Some(1), None, None, None]);
}

#[test]
fn elimination_of_a_maze_without_graph_changes_nothing() {
    let mut maze = maze_from(&["#S#", "# #", "#E#"]);
    assert_eq!(maze.run_graph_elimination(false), false);
    assert!(links_of(&maze).is_empty());
    let mut empty = Maze::new();
    empty.reset(Dimensions { width: 0, height: 0 });
    assert_eq!(empty.run_graph_elimination(false), false);
}
