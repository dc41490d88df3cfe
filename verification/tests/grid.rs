use mazetool::common::ErrorKind;
use mazetool::direction::Direction;
use mazetool::maze::{
    Dimensions, Maze, MazeCell, MazeCellType, MAZE_DIMENSION_DEFAULT, MAZE_DIMENSION_MAX,
    MAZE_DIMENSION_MIN,
};

fn maze_from(rows: &[&str]) -> Maze {
    let height = rows.len();
    let width = rows[0].chars().count();
    let mut cells = Vec::new();
    let mut start = 0;
    let mut end = 0;
    for row in rows {
        for c in row.chars() {
            let kind = match c {
                '#' => MazeCellType::Wall,
                'S' => MazeCellType::Start,
                'E' => MazeCellType::End,
                _ => MazeCellType::Passage,
            };
            if kind == MazeCellType::Start {
                start = cells.len();
            }
            if kind == MazeCellType::End {
                end = cells.len();
            }
            let mut cell = MazeCell::wall();
            cell.celltype = kind;
            cells.push(cell);
        }
    }
    Maze { dimensions: Dimensions { width, height }, cells, start, end, graph_created: false }
}

#[test]
fn new_maze_has_default_size_and_walls_only() {
    let maze = Maze::new();
    assert_eq!(MAZE_DIMENSION_DEFAULT, 19);
    assert_eq!(maze.dimensions.width, 19);
    assert_eq!(maze.dimensions.height, 19);
    assert_eq!(maze.cells.len(), 19 * 19);
    assert!(maze.is_wf());
    assert_eq!(maze.start, 0);
    assert_eq!(maze.end, 0);
    assert!(!maze.graph_created);
    for cell in maze.cells.iter() {
        assert_eq!(cell.celltype, MazeCellType::Wall);
        assert!(!cell.visited);
        assert!(!cell.on_route);
        assert_eq!(cell.nodes, [None, None, None, None]);
    }
}

#[test]
fn reset_reshapes_and_clears_every_cell() {
    let mut maze = maze_from(&["#S#", "# #", "#E#"]);
    maze.cells[4].visited = true;
    maze.cells[4].on_route = true;
    maze.cells[4].nodes[0] = Some(1);
    maze.graph_created = true;
    maze.reset(Dimensions { width: 12, height: 10 });
    assert_eq!(maze.dimensions, Dimensions { width: 12, height: 10 });
    assert_eq!(maze.cells.len(), 120);
    assert!(maze.is_wf());
    for cell in maze.cells.iter() {
        assert_eq!(cell.celltype, MazeCellType::Wall);
        assert!(!cell.visited);
        assert!(!cell.on_route);
        assert_eq!(cell.nodes, [None, None, None, None]);
    }
    assert_eq!(maze.start, 1);
    assert_eq!(maze.end, 7);
    assert!(maze.graph_created);
}

#[test]
fn reset_to_the_same_size_clears_in_place() {
    let mut maze = Maze::new();
    maze.cells[20].celltype = MazeCellType::Passage;
    maze.cells[21].visited = true;
    maze.reset(Dimensions { width: 19, height: 19 });
    assert_eq!(maze.cells.len(), 361);
    assert_eq!(maze.cells[20].celltype, MazeCellType::Wall);
    assert!(!maze.cells[21].visited);
}

#[test]
fn reset_to_an_empty_grid() {
    let mut maze = Maze::new();
    maze.reset(Dimensions { width: 0, height: 7 });
    assert_eq!(maze.cells.len(), 0);
    assert!(maze.is_wf());
    assert_eq!(maze.neighbor(0, Direction::East), None);
}

#[test]
fn neighbor_steps_one_cell() {
    let mut maze = Maze::new();
    maze.reset(Dimensions { width: 10, height: 12 });
    assert_eq!(maze.neighbor(45, Direction::North), Some(35));
    assert_eq!(maze.neighbor(45, Direction::South), Some(55));
    assert_eq!(maze.neighbor(45, Direction::East), Some(46));
    assert_eq!(maze.neighbor(45, Direction::West), Some(44));
}

#[test]
fn neighbor_never_wraps_a_row() {
    let mut maze = Maze::new();
    maze.reset(Dimensions { width: 10, height: 12 });
    for row in 0..12 {
        assert_eq!(maze.neighbor(row * 10, Direction::West), None);
        assert_eq!(maze.neighbor(row * 10 + 9, Direction::East), None);
        assert_eq!(maze.neighbor(row * 10 + 3, Direction::East), Some(row * 10 + 4));
    }
}

#[test]
fn neighbor_stops_at_the_first_and_last_row() {
    let mut maze = Maze::new();
    maze.reset(Dimensions { width: 10, height: 12 });
    for column in 0..10 {
        assert_eq!(maze.neighbor(column, Direction::North), None);
        assert_eq!(maze.neighbor(110 + column, Direction::South), None);
        assert_eq!(maze.neighbor(10 + column, Direction::North), Some(column));
        assert_eq!(maze.neighbor(100 + column, Direction::South), Some(110 + column));
    }
}

#[test]
fn neighbor_of_a_position_off_the_grid_is_none() {
    let mut maze = Maze::new();
    maze.reset(Dimensions { width: 10, height: 12 });
    for direction in Direction::get_directions() {
        assert_eq!(maze.neighbor(120, direction), None);
        assert_eq!(maze.neighbor(usize::MAX, direction), None);
    }
}

#[test]
fn every_neighbor_lies_on_the_grid_in_the_same_row_or_column() {
    let mut maze = Maze::new();
    maze.reset(Dimensions { width: 13, height: 11 });
    for position in 0..(13 * 11) {
        for direction in Direction::get_directions() {
            if let Some(q) = maze.neighbor(position, direction) {
                assert!(q < 13 * 11);
                match direction {
                    Direction::East | Direction::West => {
                        assert_eq!(q / 13, position / 13);
                        assert_eq!((q % 13).abs_diff(position % 13), 1);
                    }
                    Direction::North | Direction::South => {
                        assert_eq!(q % 13, position % 13);
                        assert_eq!((q / 13).abs_diff(position / 13), 1);
                    }
                }
                assert_eq!(maze.neighbor(q, direction.get_opposite_direction()), Some(position));
            }
        }
    }
}

#[test]
fn get_neighboring_position_reports_the_edge() {
    let maze = Maze::new();
    assert_eq!(maze.get_neighboring_position(20, Direction::East).unwrap(), 21);
    let error = maze.get_neighboring_position(0, Direction::North).unwrap_err();
    assert_eq!(error.kind, ErrorKind::InvalidPosition);
    assert_eq!(error.details, "Invalid maze position encountered");
    let error = maze.get_neighboring_position(18, Direction::East).unwrap_err();
    assert_eq!(error.kind, ErrorKind::InvalidPosition);
}

#[test]
fn north_of_the_first_cell_of_the_second_row_is_the_first_cell() {
    let maze = Maze::new();
    assert_eq!(maze.neighbor(19, Direction::North), Some(0));
}

#[test]
fn is_wall_or_end_position_tells_kinds_apart() {
    let maze = maze_from(&["#S#", "# #", "#E#"]);
    assert!(maze.is_wall_or_end_position(0));
    assert!(!maze.is_wall_or_end_position(1));
    assert!(!maze.is_wall_or_end_position(4));
    assert!(maze.is_wall_or_end_position(7));
}

#[test]
fn get_neighbours_lists_open_cells_in_canonical_order() {
    let maze = maze_from(&["#S###", "#   #", "# # #", "#   #", "###E#"]);
    assert_eq!(maze.get_neighbours(6), vec![1, 7, 11]);
    assert_eq!(maze.get_neighbours(7), vec![8, 6]);
    assert_eq!(maze.get_neighbours(18), vec![13, 17, 23]);
    assert_eq!(maze.get_neighbours(12), vec![7, 13, 11, 17]);
    assert_eq!(maze.get_neighbours(0), vec![1]);
    assert_eq!(maze.get_neighbours(24), vec![23]);
    assert_eq!(maze.get_neighbours(25), Vec::<usize>::new());
}

#[test]
fn manhattan_distance_adds_columns_and_rows() {
    let mut maze = Maze::new();
    maze.reset(Dimensions { width: 10, height: 10 });
    assert_eq!(maze.manhattan_distance(0, 0), 0);
    assert_eq!(maze.manhattan_distance(0, 99), 18);
    assert_eq!(maze.manhattan_distance(99, 0), 18);
    assert_eq!(maze.manhattan_distance(12, 47), 8);
    assert_eq!(maze.manhattan_distance(47, 12), 8);
    assert_eq!(maze.manhattan_distance(9, 10), 10);
    assert_eq!(maze.manhattan_distance(19, 20), 10);
    assert_eq!(maze.manhattan_distance(35, 38), 3);
    assert_eq!(maze.manhattan_distance(5, 95), 9);
}

#[test]
fn marks_are_set_on_one_cell() {
    let mut maze = maze_from(&["#S#", "# #", "#E#"]);
    maze.mark_visited(4);
    maze.mark_on_route(1);
    for (i, cell) in maze.cells.iter().enumerate() {
        assert_eq!(cell.visited, i == 4);
        assert_eq!(cell.on_route, i == 1);
    }
}

#[test]
fn has_start_and_end_checks_the_markers() {
    let mut maze = maze_from(&["#S#", "# #", "#E#"]);
    assert!(maze.has_start_and_end());
    maze.start = 4;
    assert!(!maze.has_start_and_end());
    maze.start = 1;
    maze.end = 9;
    assert!(!maze.has_start_and_end());
    assert!(!Maze::new().has_start_and_end());
}

#[test]
fn is_wf_rejects_a_grid_of_the_wrong_length_and_stray_links() {
    let mut maze = maze_from(&["#S#", "# #", "#E#"]);
    assert!(maze.is_wf());
    maze.cells[4].nodes[2] = Some(9);
    assert!(!maze.is_wf());
    maze.cells[4].nodes[2] = Some(8);
    assert!(maze.is_wf());
    maze.cells.pop();
    assert!(!maze.is_wf());
}

#[test]
fn dimensions_within_bounds_are_valid() {
    assert_eq!(MAZE_DIMENSION_MIN, 10);
    assert_eq!(MAZE_DIMENSION_MAX, 10000);
    assert!(Dimensions { width: 10, height: 10 }.is_valid());
    assert!(Dimensions { width: 10000, height: 10000 }.is_valid());
    assert!(Dimensions { width: 19, height: 50 }.is_valid());
    assert!(!Dimensions { width: 9, height: 10 }.is_valid());
    assert!(!Dimensions { width: 10, height: 9 }.is_valid());
    assert!(!Dimensions { width: 10001, height: 10 }.is_valid());
    assert!(!Dimensions { width: 10, height: 10001 }.is_valid());
    assert!(!Dimensions { width: 0, height: 0 }.is_valid());
    assert!(!Dimensions { width: 1, height: 19 }.is_valid());
}

#[test]
fn dimensions_from_arguments() {
    assert_eq!(
        Dimensions::from_arguments(None, None).unwrap(),
        Dimensions { width: 19, height: 19 }
    );
    assert_eq!(
        Dimensions::from_arguments(Some("25"), None).unwrap(),
        Dimensions { width: 25, height: 19 }
    );
    assert_eq!(
        Dimensions::from_arguments(Some("10"), Some("10000")).unwrap(),
        Dimensions { width: 10, height: 10000 }
    );
    assert_eq!(
        Dimensions::from_arguments(Some("020"), Some("+20")).unwrap(),
        Dimensions { width: 20, height: 20 }
    );
    assert_eq!(
        Dimensions::from_arguments(Some("+012"), Some("0000000000000000000000000012")).unwrap(),
        Dimensions { width: 12, height: 12 }
    );
    for bad in [
        "9", "10001", "", "abc", "+", "++12", "12+", "+-12", "12 ", " 12", "1e2", "-5", "5", "009",
        "+9", "99999999999999999999",
    ] {
        let error = Dimensions::from_arguments(Some(bad), None).unwrap_err();
        assert_eq!(error.kind, ErrorKind::InvalidDimensions);
        let error = Dimensions::from_arguments(None, Some(bad)).unwrap_err();
        assert_eq!(error.kind, ErrorKind::InvalidDimensions);
    }
}

#[test]
fn glyphs_stand_for_kinds() {
    assert_eq!(MazeCellType::Wall.glyph(), '█');
    assert_eq!(MazeCellType::Passage.glyph(), ' ');
    assert_eq!(MazeCellType::Start.glyph(), 'S');
    assert_eq!(MazeCellType::End.glyph(), 'E');
    for kind in [
        MazeCellType::Wall,
        MazeCellType::Passage,
        MazeCellType::Start,
        MazeCellType::End,
    ] {
        assert_eq!(MazeCellType::from_glyph(kind.glyph()), Some(kind));
    }
    assert_eq!(MazeCellType::from_glyph('#'), None);
    assert_eq!(MazeCellType::from_glyph('\n'), None);
}
