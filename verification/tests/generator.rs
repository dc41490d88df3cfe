use mazetool::common::ErrorKind;
use mazetool::direction::Direction;
use mazetool::maze::{Dimensions, Maze, MazeCell, MazeCellType};
use mazetool::random::RandomSource;
use rand::rngs::StdRng;
use rand::SeedableRng;

fn maze_from(rows: &[&str]) -> Maze {
    let height = rows.len();
    let width = rows[0].chars().count();
    let mut cells = Vec::new();
    let mut start = 0;
    let mut end = 0;
    for row in rows {
        for c in row.chars() {
            let kind = match c {
                '#' => MazeCellType::Wall,
                'S' => MazeCellType::Start,
                'E' => MazeCellType::End,
                _ => MazeCellType::Passage,
            };
            if kind == MazeCellType::Start {
                start = cells.len();
            }
            if kind == MazeCellType::End {
                end = cells.len();
            }
            let mut cell = MazeCell::wall();
            cell.celltype = kind;
            cells.push(cell);
        }
    }
    Maze { dimensions: Dimensions { width, height }, cells, start, end, graph_created: false }
}

fn kinds_of(maze: &Maze) -> Vec<MazeCellType> {
    maze.cells.iter().map(|c| c.celltype).collect()
}

fn generated(width: usize, height: usize, seed: u64) -> Maze {
    let mut maze = Maze::new();
    let mut rng = RandomSource::from_seed(seed);
    maze.generate(Dimensions { width, height }, &mut rng);
    maze
}

fn reached_from(maze: &Maze, from: usize) -> Vec<bool> {
    let mut seen = vec![false; maze.cells.len()];
    let mut work = vec![from];
    seen[from] = true;
    while let Some(p) = work.pop() {
        for q in maze.get_neighbours(p) {
            if !seen[q] {
                seen[q] = true;
                work.push(q);
            }
        }
    }
    seen
}

fn open_cells(maze: &Maze) -> usize {
    maze.cells.iter().filter(|c| c.celltype != MazeCellType::Wall).count()
}

fn open_edges(maze: &Maze) -> usize {
    let mut edges = 0;
    for p in 0..maze.cells.len() {
        if maze.cells[p].celltype != MazeCellType::Wall {
            edges += maze.get_neighbours(p).len();
        }
    }
    edges / 2
}

#[test]
fn generated_maze_has_one_start_and_one_end() {
    for (width, height, seed) in [(19, 19, 1), (10, 10, 2), (11, 31, 3), (40, 13, 4)] {
        let maze = generated(width, height, seed);
        assert!(maze.is_wf());
        assert_eq!(maze.dimensions, Dimensions { width, height });
        let starts: Vec<usize> =
            (0..maze.cells.len()).filter(|&i| maze.cells[i].celltype == MazeCellType::Start).collect();
        let ends: Vec<usize> =
            (0..maze.cells.len()).filter(|&i| maze.cells[i].celltype == MazeCellType::End).collect();
        assert_eq!(starts, vec![maze.start]);
        assert_eq!(ends, vec![maze.end]);
        assert!(maze.start < width);
        assert_eq!(maze.start % 2, 1);
        assert!(maze.start <= width - 2);
        assert_eq!(maze.end / width, height - 1);
        assert_eq!((maze.end % width) % 2, 1);
        assert!(maze.end % width <= width - 2);
        assert!(maze.has_start_and_end());
    }
}

#[test]
fn generated_maze_carries_no_marks() {
    let maze = generated(19, 19, 5);
    assert!(!maze.graph_created);
    for cell in maze.cells.iter() {
        assert!(!cell.visited);
        assert!(!cell.on_route);
        assert_eq!(cell.nodes, [None, None, None, None]);
    }
}

#[test]
fn generated_maze_has_walls_along_the_edge() {
    let maze = generated(21, 15, 6);
    for p in 0..maze.cells.len() {
        let column = p % 21;
        let row = p / 21;
        if column == 0 || column == 20 || row == 0 || row == 14 {
            if p != maze.start && p != maze.end {
                assert_eq!(maze.cells[p].celltype, MazeCellType::Wall);
            }
        }
    }
}

#[test]
fn generated_maze_has_every_room_carved() {
    for (width, height, seed) in [(19, 19, 21), (10, 10, 22), (12, 17, 23)] {
        let maze = generated(width, height, seed);
        for row in 1..height - 1 {
            for column in 1..width - 1 {
                let kind = maze.cells[column + row * width].celltype;
                if row % 2 == 1 && column % 2 == 1 {
                    assert_eq!(kind, MazeCellType::Passage);
                }
                if row % 2 == 0 && column % 2 == 0 {
                    assert_eq!(kind, MazeCellType::Wall);
                }
            }
        }
    }
}

#[test]
fn generated_maze_of_odd_height_is_a_tree_that_spans_all_passages() {
    for (width, height, seed) in [(19, 19, 31), (11, 11, 32), (10, 13, 33), (30, 21, 34)] {
        let maze = generated(width, height, seed);
        let seen = reached_from(&maze, maze.start);
        for p in 0..maze.cells.len() {
            assert_eq!(seen[p], maze.cells[p].celltype != MazeCellType::Wall);
        }
        assert!(seen[maze.end]);
        assert_eq!(open_edges(&maze), open_cells(&maze) - 1);
    }
}

#[test]
fn generated_maze_of_even_height_is_a_tree_with_the_end_joined() {
    for (width, height, seed) in [(10, 10, 41), (19, 12, 42), (12, 10, 43), (10, 11, 44)] {
        let maze = generated(width, height, seed);
        let seen = reached_from(&maze, maze.start);
        for p in 0..maze.cells.len() {
            assert_eq!(seen[p], maze.cells[p].celltype != MazeCellType::Wall);
        }
        assert!(seen[maze.end]);
        assert_ne!(maze.cells[maze.end - width].celltype, MazeCellType::Wall);
        assert_eq!(open_edges(&maze), open_cells(&maze) - 1);
    }
}

#[test]
fn join_end_carves_the_wall_above_the_end() {
    let mut maze = generated(10, 10, 41);
    let above = maze.end - 10;
    assert_eq!(maze.cells[above].celltype, MazeCellType::Passage);
    assert_eq!(maze.cells[above - 1].celltype, MazeCellType::Wall);
    assert_eq!(maze.cells[above + 1].celltype, MazeCellType::Wall);
    assert_eq!(maze.cells[above - 10].celltype, MazeCellType::Passage);
    maze.set_kind(above, MazeCellType::Wall);
    let before = kinds_of(&maze);
    maze.join_end();
    let mut expected = before.clone();
    expected[above] = MazeCellType::Passage;
    assert_eq!(kinds_of(&maze), expected);
    maze.join_end();
    assert_eq!(kinds_of(&maze), expected);
}

#[test]
fn the_same_seed_gives_the_same_maze() {
    let first = generated(19, 19, 2024);
    let second = generated(19, 19, 2024);
    assert_eq!(kinds_of(&first), kinds_of(&second));
    assert_eq!(first.start, second.start);
    assert_eq!(first.end, second.end);
    let other = generated(19, 19, 2025);
    assert_ne!(kinds_of(&first), kinds_of(&other));
}

#[test]
fn maze_of_seed_2024_matches_the_recorded_maze() {
    let maze = generated(19, 19, 2024);
    let rows = [
        "███S███████████████",
        "█       █   █     █",
        "█ █████ █ ███ ███ █",
        "█   █ █ █   █ █ █ █",
        "███ █ █ ███ █ █ █ █",
        "█ █   █ █   █   █ █",
        "█ ███ █ █ ███████ █",
        "█   █ █ █ █     █ █",
        "█ ███ █ █ ███ █ █ █",
        "█ █   █   █   █ █ █",
        "█ █ ███████ ███ █ █",
        "█ █     █   █   █ █",
        "█ █████ ███ █ ███ █",
        "█     █     █   █ █",
        "█ █████████████ █ █",
        "█ █           █   █",
        "█ █ ███████ █████ █",
        "█         █       █",
        "███E███████████████",
    ];
    let mut expected = String::from("Maze 19 19\n");
    for row in rows {
        expected.push_str(row);
        expected.push('\n');
    }
    assert_eq!(maze.to_text(), expected);
    assert_eq!(maze.start, 3);
    assert_eq!(maze.end, 18 * 19 + 3);
}

#[test]
fn generate_works_on_a_maze_that_was_used() {
    let mut maze = generated(19, 19, 51);
    maze.create_topology_graph().unwrap();
    maze.cells[20].visited = true;
    let mut rng = RandomSource::from_seed(52);
    maze.generate(Dimensions { width: 11, height: 11 }, &mut rng);
    assert_eq!(maze.cells.len(), 121);
    assert!(!maze.graph_created);
    for cell in maze.cells.iter() {
        assert!(!cell.visited);
        assert_eq!(cell.nodes, [None, None, None, None]);
    }
}

#[test]
fn carve_digs_passages_and_walls_only() {
    let mut maze = Maze::new();
    maze.reset(Dimensions { width: 15, height: 11 });
    let mut rng = RandomSource::from_seed(61);
    let origin = maze.carve(&mut rng);
    assert_eq!(origin / 15, 1);
    assert_eq!((origin % 15) % 2, 1);
    assert_eq!(maze.cells[origin].celltype, MazeCellType::Passage);
    for cell in maze.cells.iter() {
        assert!(cell.celltype == MazeCellType::Wall || cell.celltype == MazeCellType::Passage);
    }
    let rooms = 7 * 5;
    assert_eq!(open_cells(&maze), rooms + rooms - 1);
}

#[test]
fn random_source_draws_within_bounds() {
    let mut rng = RandomSource::from_seed(71);
    let mut seen = [false; 5];
    for _ in 0..200 {
        let drawn = rng.below(3, 8);
        assert!((3..8).contains(&drawn));
        seen[drawn - 3] = true;
    }
    assert_eq!(seen, [true; 5]);
    assert_eq!(rng.below(9, 10), 9);
}

#[test]
fn random_source_from_the_operating_system_draws_within_bounds() {
    let mut rng = RandomSource::from_os().unwrap();
    for _ in 0..50 {
        assert!(rng.below(0, 3) < 3);
    }
}

#[test]
fn shuffle_keeps_the_four_directions() {
    let mut rng = RandomSource::from_seed(81);
    let mut orders = Vec::new();
    for _ in 0..50 {
        let mut directions = Direction::get_directions().to_vec();
        rng.shuffle(&mut directions);
        assert_eq!(directions.len(), 4);
        for direction in Direction::get_directions() {
            assert_eq!(directions.iter().filter(|d| **d == direction).count(), 1);
        }
        if !orders.contains(&directions) {
            orders.push(directions);
        }
    }
    assert!(orders.len() > 1);
}

#[test]
fn position_in_row_takes_the_odd_column() {
    let mut maze = Maze::new();
    maze.reset(Dimensions { width: 10, height: 10 });
    assert_eq!(maze.position_in_row(1, 0), 1);
    assert_eq!(maze.position_in_row(2, 0), 1);
    assert_eq!(maze.position_in_row(3, 0), 3);
    assert_eq!(maze.position_in_row(8, 0), 7);
    assert_eq!(maze.position_in_row(1, 1), 11);
    assert_eq!(maze.position_in_row(6, 9), 95);
    assert_eq!(maze.position_in_row(7, 9), 97);
}

#[test]
fn randomize_position_from_row_gives_an_odd_inner_column() {
    let mut maze = Maze::new();
    maze.reset(Dimensions { width: 12, height: 10 });
    let mut rng = RandomSource::from_seed(91);
    for row in 0..10 {
        for _ in 0..20 {
            let position = maze.randomize_position_from_row(&mut rng, row);
            assert_eq!(position / 12, row);
            assert_eq!((position % 12) % 2, 1);
            assert!((1..=10).contains(&(position % 12)));
        }
    }
}

#[test]
fn randomize_start_position_carves_one_cell_of_the_second_row() {
    let mut maze = Maze::new();
    let mut rng = RandomSource::from_seed(92);
    let position = maze.randomize_start_position(&mut rng);
    assert_eq!(position / 19, 1);
    for (i, cell) in maze.cells.iter().enumerate() {
        if i == position {
            assert_eq!(cell.celltype, MazeCellType::Passage);
        } else {
            assert_eq!(cell.celltype, MazeCellType::Wall);
        }
    }
}

#[test]
fn insert_start_and_end_positions_overwrites_two_cells() {
    let mut maze = Maze::new();
    for cell in maze.cells.iter_mut() {
        cell.celltype = MazeCellType::Passage;
    }
    let mut rng = RandomSource::from_seed(93);
    maze.insert_start_and_end_positions(&mut rng);
    assert!(maze.start < 19);
    assert_eq!(maze.end / 19, 18);
    for (i, cell) in maze.cells.iter().enumerate() {
        if i == maze.start {
            assert_eq!(cell.celltype, MazeCellType::Start);
        } else if i == maze.end {
            assert_eq!(cell.celltype, MazeCellType::End);
        } else {
            assert_eq!(cell.celltype, MazeCellType::Passage);
        }
    }
}

#[test]
fn is_diggable_wants_walls_round_the_target() {
    let maze = maze_from(&[
        "#######",
        "#     #",
        "#######",
        "#######",
        "#######",
        "### ###",
        "#######",
    ]);
    let from = 3 + 7;
    assert_eq!(maze.is_diggable(from, Direction::South).unwrap(), true);
    let blocked = maze_from(&[
        "#######",
        "#     #",
        "#######",
        "## ####",
        "#######",
        "#######",
        "#######",
    ]);
    assert_eq!(blocked.is_diggable(from, Direction::South).unwrap(), false);
    let taken = maze_from(&[
        "#######",
        "#     #",
        "#######",
        "### ###",
        "#######",
        "#######",
        "#######",
    ]);
    assert_eq!(taken.is_diggable(from, Direction::South).unwrap(), false);
    let ahead = maze_from(&[
        "#######",
        "#     #",
        "#######",
        "#######",
        "### ###",
        "#######",
        "#######",
    ]);
    assert_eq!(ahead.is_diggable(from, Direction::South).unwrap(), false);
}

#[test]
fn is_diggable_accepts_the_end_as_a_wall() {
    let maze = maze_from(&[
        "#######",
        "#     #",
        "#######",
        "###E###",
        "#######",
        "#######",
        "#######",
    ]);
    assert_eq!(maze.is_diggable(3 + 7, Direction::South).unwrap(), true);
    let beside = maze_from(&[
        "#######",
        "#     #",
        "#######",
        "##E####",
        "#######",
        "#######",
        "#######",
    ]);
    assert_eq!(beside.is_diggable(3 + 7, Direction::South).unwrap(), true);
}

#[test]
fn is_diggable_fails_where_the_grid_ends() {
    let maze = maze_from(&["#####", "#   #", "#####", "#####", "#####"]);
    let error = maze.is_diggable(7, Direction::North).unwrap_err();
    assert_eq!(error.kind, ErrorKind::InvalidPosition);
    assert_eq!(maze.is_diggable(7, Direction::South).unwrap(), true);
    let error = maze.is_diggable(12, Direction::South).unwrap_err();
    assert_eq!(error.kind, ErrorKind::InvalidPosition);
    let error = maze.is_diggable(8, Direction::East).unwrap_err();
    assert_eq!(error.kind, ErrorKind::InvalidPosition);
    let error = maze.is_diggable(500, Direction::East).unwrap_err();
    assert_eq!(error.kind, ErrorKind::InvalidPosition);
}

#[test]
fn are_sides_diggable_looks_left_and_right_of_the_way() {
    let maze = maze_from(&["#####", "# # #", "#####", "#  ##", "#####"]);
    assert!(maze.are_sides_diggable(12, Direction::North));
    assert!(!maze.are_sides_diggable(12, Direction::East));
    assert!(!maze.are_sides_diggable(7, Direction::South));
    assert!(maze.are_sides_diggable(7, Direction::West));
    assert!(maze.are_sides_diggable(13, Direction::North));
    assert!(!maze.are_sides_diggable(13, Direction::East));
    assert!(maze.are_sides_diggable(2, Direction::East));
    assert!(!maze.are_sides_diggable(1, Direction::West));
}

#[test]
fn dig_passage_carves_two_cells() {
    let mut maze = maze_from(&["#####", "# ###", "#####", "#####", "#####"]);
    let target = maze.dig_passage(6, Direction::South).unwrap();
    assert_eq!(target, 16);
    let expected = maze_from(&["#####", "# ###", "# ###", "# ###", "#####"]);
    assert_eq!(kinds_of(&maze), kinds_of(&expected));
    let target = maze.dig_passage(16, Direction::East).unwrap();
    assert_eq!(target, 18);
    let expected = maze_from(&["#####", "# ###", "# ###", "#   #", "#####"]);
    assert_eq!(kinds_of(&maze), kinds_of(&expected));
}

#[test]
fn dig_passage_leaves_the_end_in_place() {
    let mut maze = maze_from(&["#####", "# ###", "#####", "#E###", "#####"]);
    assert_eq!(maze.dig_passage(6, Direction::South).unwrap(), 16);
    let expected = maze_from(&["#####", "# ###", "# ###", "#E###", "#####"]);
    assert_eq!(kinds_of(&maze), kinds_of(&expected));
}

#[test]
fn dig_passage_fails_on_cells_that_are_not_walls() {
    let before = maze_from(&["#####", "# ###", "# ###", "#####", "#####"]);
    let mut maze = maze_from(&["#####", "# ###", "# ###", "#####", "#####"]);
    let error = maze.dig_passage(6, Direction::South).unwrap_err();
    assert_eq!(error.kind, ErrorKind::DigConflict);
    assert_eq!(kinds_of(&maze), kinds_of(&before));
    let before = maze_from(&["#####", "# ###", "#####", "# ###", "#####"]);
    let mut maze = maze_from(&["#####", "# ###", "#####", "# ###", "#####"]);
    let error = maze.dig_passage(6, Direction::South).unwrap_err();
    assert_eq!(error.kind, ErrorKind::DigConflict);
    assert_eq!(kinds_of(&maze), kinds_of(&before));
    let mut maze = maze_from(&["#####", "# ###", "#E###", "#####", "#####"]);
    let error = maze.dig_passage(6, Direction::South).unwrap_err();
    assert_eq!(error.kind, ErrorKind::DigConflict);
}

#[test]
fn dig_passage_fails_where_the_grid_ends() {
    let before = maze_from(&["#####", "# ###", "#####", "#####", "#####"]);
    let mut maze = maze_from(&["#####", "# ###", "#####", "#####", "#####"]);
    let error = maze.dig_passage(6, Direction::North).unwrap_err();
    assert_eq!(error.kind, ErrorKind::InvalidPosition);
    let error = maze.dig_passage(6, Direction::West).unwrap_err();
    assert_eq!(error.kind, ErrorKind::InvalidPosition);
    assert_eq!(kinds_of(&maze), kinds_of(&before));
}

#[test]
fn set_kind_changes_one_cell() {
    let mut maze = maze_from(&["###", "###", "###"]);
    maze.set_kind(4, MazeCellType::End);
    let expected = maze_from(&["###", "#E#", "###"]);
    assert_eq!(kinds_of(&maze), kinds_of(&expected));
}

#[test]
fn the_same_seed_gives_the_same_draws() {
    let mut first = RandomSource::from_seed(77);
    let mut second = RandomSource::from_seed(77);
    let mut other = RandomSource::from_seed(78);
    let mut differs = false;
    for _ in 0..50 {
        let drawn = first.below(0, 1000);
        assert_eq!(drawn, second.below(0, 1000));
        if drawn != other.below(0, 1000) {
            differs = true;
        }
    }
    assert!(differs);
}

#[test]
fn a_source_draws_from_the_generator_it_is_given() {
    let mut given = RandomSource::from_generator(Some(StdRng::seed_from_u64(77))).unwrap();
    let mut seeded = RandomSource::from_seed(77);
    for _ in 0..50 {
        assert_eq!(given.below(0, 1000), seeded.below(0, 1000));
    }
}

#[test]
fn a_source_without_a_generator_is_an_error() {
    let error = RandomSource::from_generator(None).err().unwrap();
    assert_eq!(error.kind, ErrorKind::General);
    assert_eq!(error.details, "The operating system gives no randomness");
}

#[test]
fn a_side_where_the_grid_ends_does_not_stand_in_the_way() {
    let open_corner = maze_from(&[" ####", "#####", "#####", "#####", "#####"]);
    let closed_corner = maze_from(&["#####", "#####", "#####", "#####", "#####"]);
    for maze in [&open_corner, &closed_corner] {
        assert!(maze.are_sides_diggable(2, Direction::East));
        assert!(maze.are_sides_diggable(22, Direction::West));
        assert!(maze.are_sides_diggable(10, Direction::North));
        assert!(maze.are_sides_diggable(14, Direction::South));
        assert!(maze.side_passes(2, Direction::North));
        assert!(maze.side_passes(2, Direction::South));
        let error = maze.is_diggable(12, Direction::South).unwrap_err();
        assert_eq!(error.kind, ErrorKind::InvalidPosition);
        let error = maze.is_diggable(12, Direction::East).unwrap_err();
        assert_eq!(error.kind, ErrorKind::InvalidPosition);
    }
    assert!(!open_corner.side_passes(1, Direction::West));
    assert!(!open_corner.are_sides_diggable(5, Direction::East));
    assert!(closed_corner.are_sides_diggable(5, Direction::East));
}

#[test]
fn generated_maze_keeps_its_corridors_one_wall_apart() {
    for (width, height, seed) in [(10, 10, 51), (11, 10, 52), (19, 19, 53), (14, 17, 54)] {
        let maze = generated(width, height, seed);
        for p in 0..maze.cells.len() {
            let (row, column) = (p / width, p % width);
            if maze.cells[p].celltype != MazeCellType::Passage {
                continue;
            }
            assert!(row >= 1 && row + 2 <= height && column >= 1 && column + 2 <= width);
            assert!(row % 2 == 1 || column % 2 == 1);
            if row % 2 == 1 && column % 2 == 0 {
                assert_ne!(maze.cells[p - 1].celltype, MazeCellType::Wall);
                assert_ne!(maze.cells[p + 1].celltype, MazeCellType::Wall);
            }
            if row % 2 == 0 && column % 2 == 1 {
                assert_ne!(maze.cells[p - width].celltype, MazeCellType::Wall);
                assert_ne!(maze.cells[p + width].celltype, MazeCellType::Wall);
            }
        }
    }
}
