use mazetool::common::ErrorKind;
use mazetool::direction::Direction;
use mazetool::maze::{Dimensions, Maze, MazeCell, MazeCellType};
use mazetool::random::RandomSource;
use mazetool::topology::GraphNodeType;

fn maze_from(rows: &[&str]) -> Maze {
    let height = rows.len();
    let width = rows[0].chars().count();
    let mut cells = Vec::new();
    let mut start = 0;
    let mut end = 0;
    for row in rows {
        for c in row.chars() {
            let kind = match c {
                '#' => MazeCellType::Wall,
                'S' => MazeCellType::Start,
                'E' => MazeCellType::End,
                _ => MazeCellType::Passage,
            };
            if kind == MazeCellType::Start {
                start = cells.len();
            }
            if kind == MazeCellType::End {
                end = cells.len();
            }
            let mut cell = MazeCell::wall();
            cell.celltype = kind;
            cells.push(cell);
        }
    }
    Maze { dimensions: Dimensions { width, height }, cells, start, end, graph_created: false }
}

fn sample() -> Maze {
    maze_from(&[
        "#S#####",
        "# #   #",
        "# # # #",
        "#   # #",
        "# ### #",
        "#   # #",
        "#####E#",
    ])
}

fn links_of(maze: &Maze) -> Vec<(usize, [Option<usize>; 4])> {
    maze.cells
        .iter()
        .enumerate()
        .filter(|(_, c)| c.nodes != [None, None, None, None])
        .map(|(i, c)| (i, c.nodes))
        .collect()
}

fn sample_links() -> Vec<(usize, [Option<usize>; 4])> {
    vec![
        (1, [None, None, None, Some(22)]),
        (10, [None, Some(12), None, Some(24)]),
        (12, [None, None, Some(10), Some(47)]),
        (22, [Some(1), Some(24), None, Some(36)]),
        (24, [Some(10), None, Some(22), None]),
        (36, [Some(22), Some(38), None, None]),
        (38, [None, None, Some(36), None]),
        (47, [Some(12), None, None, None]),
    ]
}

#[test]
fn get_possible_directions_leaves_out_walls_and_the_way_back() {
    let maze = sample();
    assert_eq!(
        maze.get_possible_directions(22, Direction::North),
        vec![Direction::East, Direction::South]
    );
    assert_eq!(
        maze.get_possible_directions(22, Direction::South),
        vec![Direction::North, Direction::East]
    );
    assert_eq!(
        maze.get_possible_directions(22, Direction::West),
        vec![Direction::North, Direction::East, Direction::South]
    );
    assert_eq!(maze.get_possible_directions(38, Direction::West), Vec::<Direction>::new());
    assert_eq!(maze.get_possible_directions(8, Direction::South), vec![Direction::North]);
    assert_eq!(maze.get_possible_directions(40, Direction::North), vec![Direction::South]);
    assert_eq!(maze.get_possible_directions(0, Direction::North), vec![Direction::East]);
}

#[test]
fn check_passage_tells_the_kinds_of_nodes() {
    let maze = sample();
    let info = maze.check_passage(1, Direction::South);
    assert_eq!(info.nodetype, GraphNodeType::Straight);
    assert_eq!(info.position, 8);
    assert_eq!(info.directions, vec![Direction::South]);
    let info = maze.check_passage(15, Direction::South);
    assert_eq!(info.nodetype, GraphNodeType::Intersection);
    assert_eq!(info.position, 22);
    assert_eq!(info.directions, vec![Direction::East, Direction::South]);
    let info = maze.check_passage(23, Direction::East);
    assert_eq!(info.nodetype, GraphNodeType::Intersection);
    assert_eq!(info.position, 24);
    assert_eq!(info.directions, vec![Direction::North]);
    let info = maze.check_passage(37, Direction::East);
    assert_eq!(info.nodetype, GraphNodeType::DeadEnd);
    assert_eq!(info.position, 38);
    assert!(info.directions.is_empty());
    let info = maze.check_passage(40, Direction::South);
    assert_eq!(info.nodetype, GraphNodeType::End);
    assert_eq!(info.position, 47);
    assert!(info.directions.is_empty());
    let info = maze.check_passage(8, Direction::East);
    assert_eq!(info.nodetype, GraphNodeType::NA);
    let info = maze.check_passage(8, Direction::North);
    assert_eq!(info.nodetype, GraphNodeType::NA);
    let info = maze.check_passage(47, Direction::South);
    assert_eq!(info.nodetype, GraphNodeType::NA);
    assert_eq!(info.position, 0);
}

#[test]
fn walk_corridor_stops_at_the_next_node() {
    let maze = sample();
    let found = maze.walk_corridor(1, Direction::South);
    assert_eq!(found.nodetype, GraphNodeType::Intersection);
    assert_eq!(found.position, 22);
    let found = maze.walk_corridor(12, Direction::South);
    assert_eq!(found.nodetype, GraphNodeType::End);
    assert_eq!(found.position, 47);
    let found = maze.walk_corridor(36, Direction::East);
    assert_eq!(found.nodetype, GraphNodeType::DeadEnd);
    assert_eq!(found.position, 38);
    let found = maze.walk_corridor(22, Direction::North);
    assert_eq!(found.nodetype, GraphNodeType::NA);
    let found = maze.walk_corridor(22, Direction::West);
    assert_eq!(found.nodetype, GraphNodeType::NA);
}

#[test]
fn add_topology_node_records_both_half_edges() {
    let mut maze = sample();
    maze.add_topology_node(22, 36, Direction::South);
    assert_eq!(maze.cells[22].nodes, [None, None, None, Some(36)]);
    assert_eq!(maze.cells[36].nodes, [Some(22), None, None, None]);
    assert_eq!(maze.link(22, Direction::South), Some(36));
    assert_eq!(maze.link(36, Direction::North), Some(22));
    assert_eq!(maze.link(36, Direction::South), None);
    maze.add_topology_node(22, 24, Direction::East);
    assert_eq!(maze.cells[22].nodes, [None, Some(24), None, Some(36)]);
    assert_eq!(maze.cells[24].nodes, [None, None, Some(22), None]);
}

#[test]
fn create_topology_graph_links_the_nodes() {
    let mut maze = sample();
    maze.create_topology_graph().unwrap();
    assert!(maze.graph_created);
    assert_eq!(links_of(&maze), sample_links());
    for cell in maze.cells.iter() {
        assert!(!cell.visited);
        assert!(!cell.on_route);
    }
}

#[test]
fn every_half_edge_has_its_partner() {
    let mut mazes = vec![sample()];
    for (width, height, seed) in [(19, 19, 1), (10, 10, 2), (25, 13, 3)] {
        let mut maze = Maze::new();
        let mut rng = RandomSource::from_seed(seed);
        maze.generate(Dimensions { width, height }, &mut rng);
        mazes.push(maze);
    }
    for maze in mazes.iter_mut() {
        maze.create_topology_graph().unwrap();
        let mut edges = 0;
        for a in 0..maze.cells.len() {
            for direction in Direction::get_directions() {
                if let Some(b) = maze.cells[a].nodes[direction.index()] {
                    let back = direction.get_opposite_direction();
                    assert_eq!(maze.cells[b].nodes[back.index()], Some(a));
                    edges += 1;
                }
            }
        }
        assert!(edges > 0);
    }
}

#[test]
fn straight_cells_carry_no_links_and_nodes_are_linked() {
    let mut maze = Maze::new();
    let mut rng = RandomSource::from_seed(17);
    maze.generate(Dimensions { width: 19, height: 19 }, &mut rng);
    maze.create_topology_graph().unwrap();
    for p in 0..maze.cells.len() {
        let cell = &maze.cells[p];
        let open = maze.get_neighbours(p);
        let linked = cell.nodes.iter().filter(|n| n.is_some()).count();
        match cell.celltype {
            MazeCellType::Wall => assert_eq!(linked, 0),
            MazeCellType::Start | MazeCellType::End => assert_eq!(linked, 1),
            MazeCellType::Passage => {
                let straight = open.len() == 2
                    && (open[0].abs_diff(open[1]) == 2 || open[0].abs_diff(open[1]) == 2 * 19);
                if straight {
                    assert_eq!(linked, 0);
                } else {
                    assert_eq!(linked, open.len());
                }
            }
        }
    }
}

#[test]
fn building_the_graph_twice_gives_the_same_graph() {
    let mut maze = sample();
    maze.create_topology_graph().unwrap();
    let first = links_of(&maze);
    maze.create_topology_graph().unwrap();
    assert_eq!(links_of(&maze), first);
    let mut generated = Maze::new();
    let mut rng = RandomSource::from_seed(5);
    generated.generate(Dimensions { width: 21, height: 21 }, &mut rng);
    generated.create_topology_graph().unwrap();
    let first = links_of(&generated);
    generated.create_topology_graph().unwrap();
    assert_eq!(links_of(&generated), first);
}

#[test]
fn building_the_graph_replaces_stale_links() {
    let mut maze = sample();
    maze.cells[8].nodes = [Some(3), Some(4), None, None];
    maze.cells[40].nodes[2] = Some(0);
    maze.create_topology_graph().unwrap();
    assert_eq!(links_of(&maze), sample_links());
}

#[test]
fn building_the_graph_ends_on_a_maze_with_a_round_trip() {
    let mut maze = maze_from(&[
        "#S#####",
        "#     #",
        "# ### #",
        "#     #",
        "###E###",
    ]);
    maze.create_topology_graph().unwrap();
    for a in 0..maze.cells.len() {
        for direction in Direction::get_directions() {
            if let Some(b) = maze.cells[a].nodes[direction.index()] {
                let back = direction.get_opposite_direction();
                assert_eq!(maze.cells[b].nodes[back.index()], Some(a));
            }
        }
    }
    assert_eq!(maze.cells[1].nodes, [None, None, None, Some(8)]);
    assert_eq!(maze.cells[8].nodes, [Some(1), Some(12), None, Some(22)]);
    assert_eq!(maze.cells[12].nodes, [None, None, Some(8), Some(26)]);
    assert_eq!(maze.cells[24].nodes, [None, Some(26), Some(22), Some(31)]);
    assert_eq!(maze.cells[31].nodes[0], Some(24));
}

#[test]
fn building_the_graph_needs_a_start() {
    let mut maze = Maze::new();
    maze.cells[20].nodes[1] = Some(21);
    let error = maze.create_topology_graph().unwrap_err();
    assert_eq!(error.kind, ErrorKind::StartNotFound);
    assert!(!maze.graph_created);
    assert_eq!(maze.cells[20].nodes[1], Some(21));
    let mut off = sample();
    off.start = 49;
    let error = off.create_topology_graph().unwrap_err();
    assert_eq!(error.kind, ErrorKind::StartNotFound);
    off.start = 8;
    let error = off.create_topology_graph().unwrap_err();
    assert_eq!(error.kind, ErrorKind::StartNotFound);
}

#[test]
fn clear_topology_graph_takes_every_link_off() {
    let mut maze = sample();
    maze.create_topology_graph().unwrap();
    maze.clear_topology_graph();
    assert!(!maze.graph_created);
    assert!(links_of(&maze).is_empty());
    assert_eq!(maze.cells[1].celltype, MazeCellType::Start);
}

#[test]
fn graph_walk_follows_every_edge_once() {
    let mut maze = sample();
    maze.create_topology_graph().unwrap();
    let mut iter = maze.into_iter();
    let mut edges = Vec::new();
    while let Some((px, py, x, y, cell)) = iter.next() {
        edges.push((px, py, x, y));
        assert_eq!(cell.nodes, maze.cells[px + py * 7].nodes);
    }
    assert_eq!(
        edges,
        vec![
            (1, 0, 1, 3),
            (1, 3, 1, 5),
            (1, 5, 3, 5),
            (1, 3, 3, 3),
            (3, 3, 3, 1),
            (3, 1, 5, 1),
            (5, 1, 5, 6),
        ]
    );
}

#[test]
fn graph_walk_of_a_maze_without_graph_or_start() {
    let maze = sample();
    let mut iter = maze.into_iter();
    assert_eq!(iter.next().map(|e| (e.0, e.1, e.2, e.3)), Some((1, 0, 0, 0)));
    assert!(iter.next().is_none());
    let blank = Maze::new();
    let mut iter = blank.into_iter();
    assert!(iter.next().is_none());
}

#[test]
fn passages_along_straight_runs_carry_no_links() {
    for (width, height, seed) in [(10, 10, 61), (19, 19, 62), (12, 15, 63)] {
        let mut maze = Maze::new();
        let mut rng = RandomSource::from_seed(seed);
        maze.generate(Dimensions { width, height }, &mut rng);
        maze.create_topology_graph().unwrap();
        let open = |p: usize, d: Direction| match maze.neighbor(p, d) {
            Some(q) => maze.cells[q].celltype != MazeCellType::Wall,
            None => false,
        };
        let mut runs = 0;
        for p in 0..maze.cells.len() {
            if maze.cells[p].celltype != MazeCellType::Passage {
                continue;
            }
            let (n, e, w, s) = (
                open(p, Direction::North),
                open(p, Direction::East),
                open(p, Direction::West),
                open(p, Direction::South),
            );
            if (n && s && !e && !w) || (e && w && !n && !s) {
                runs += 1;
                assert_eq!(maze.cells[p].nodes, [None, None, None, None]);
            }
        }
        assert!(runs > 0);
    }
}
