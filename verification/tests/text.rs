use mazetool::common::ErrorKind;
use mazetool::maze::{Dimensions, Maze, MazeCellType};
use mazetool::random::RandomSource;
use mazetool::text::{append_decimal, chars_of, digit_of, first_of_kind, parse_side, read_number};

fn small_text() -> String {
    let rows = [
        "█S████████",
        "█ █      █",
        "█ █ ████ █",
        "█   █    █",
        "█████ ██ █",
        "█     █  █",
        "█ █████ ██",
        "█ █     ██",
        "█   ███  █",
        "████████E█",
    ];
    let mut text = String::from("Maze 10 10\n");
    for row in rows {
        text.push_str(row);
        text.push('\n');
    }
    text
}

#[test]
fn to_text_writes_header_and_rows() {
    let mut maze = Maze::new();
    maze.reset(Dimensions { width: 10, height: 10 });
    maze.cells[1].celltype = MazeCellType::Start;
    maze.cells[11].celltype = MazeCellType::Passage;
    maze.cells[98].celltype = MazeCellType::End;
    let text = maze.to_text();
    let mut expected = String::from("Maze 10 10\n");
    expected.push_str("█S████████\n");
    expected.push_str("█ ████████\n");
    for _ in 0..7 {
        expected.push_str("██████████\n");
    }
    expected.push_str("████████E█\n");
    assert_eq!(text, expected);
}

#[test]
fn to_text_of_the_default_maze() {
    let text = Maze::new().to_text();
    assert!(text.starts_with("Maze 19 19\n"));
    assert_eq!(text.chars().count(), 11 + 19 * 20);
    assert_eq!(text.lines().count(), 20);
    for line in text.lines().skip(1) {
        assert_eq!(line, "███████████████████");
    }
}

#[test]
fn parse_reads_what_to_text_wrote() {
    let text = small_text();
    let maze = Maze::parse(&text).unwrap();
    assert_eq!(maze.dimensions, Dimensions { width: 10, height: 10 });
    assert_eq!(maze.cells.len(), 100);
    assert!(maze.is_wf());
    assert_eq!(maze.start, 1);
    assert_eq!(maze.end, 98);
    assert!(!maze.graph_created);
    assert_eq!(maze.cells[0].celltype, MazeCellType::Wall);
    assert_eq!(maze.cells[1].celltype, MazeCellType::Start);
    assert_eq!(maze.cells[11].celltype, MazeCellType::Passage);
    assert_eq!(maze.cells[12].celltype, MazeCellType::Wall);
    assert_eq!(maze.cells[98].celltype, MazeCellType::End);
    for cell in maze.cells.iter() {
        assert!(!cell.visited);
        assert!(!cell.on_route);
        assert_eq!(cell.nodes, [None, None, None, None]);
    }
    assert_eq!(maze.to_text(), text);
}

#[test]
fn round_trip_of_a_small_maze() {
    let mut maze = Maze::new();
    let mut rng = RandomSource::from_seed(7);
    maze.generate(Dimensions { width: 10, height: 10 }, &mut rng);
    let read = Maze::parse(&maze.to_text()).unwrap();
    assert_eq!(read.dimensions, maze.dimensions);
    assert_eq!(read.cells.len(), maze.cells.len());
    for (a, b) in read.cells.iter().zip(maze.cells.iter()) {
        assert_eq!(a.celltype, b.celltype);
    }
    assert_eq!(read.start, maze.start);
    assert_eq!(read.end, maze.end);
}

#[test]
fn round_trip_of_a_larger_maze() {
    let mut maze = Maze::new();
    let mut rng = RandomSource::from_seed(11);
    maze.generate(Dimensions { width: 50, height: 50 }, &mut rng);
    let read = Maze::parse(&maze.to_text()).unwrap();
    assert_eq!(read.dimensions, Dimensions { width: 50, height: 50 });
    assert_eq!(read.cells.len(), 2500);
    for (a, b) in read.cells.iter().zip(maze.cells.iter()) {
        assert_eq!(a.celltype, b.celltype);
    }
}

#[test]
fn round_trip_drops_marks_and_links() {
    let mut maze = Maze::parse(&small_text()).unwrap();
    maze.cells[11].visited = true;
    maze.cells[11].on_route = true;
    maze.cells[11].nodes[3] = Some(21);
    maze.graph_created = true;
    let read = Maze::parse(&maze.to_text()).unwrap();
    assert!(!read.cells[11].visited);
    assert!(!read.cells[11].on_route);
    assert_eq!(read.cells[11].nodes, [None, None, None, None]);
    assert!(!read.graph_created);
}

#[test]
fn parse_of_a_maze_without_start_and_end_points_the_markers_at_cell_0() {
    let maze = Maze::parse(&Maze::new().to_text()).unwrap();
    assert_eq!(maze.start, 0);
    assert_eq!(maze.end, 0);
}

#[test]
fn parse_takes_the_first_start_and_the_first_end() {
    let mut maze = Maze::new();
    maze.cells[30].celltype = MazeCellType::Start;
    maze.cells[40].celltype = MazeCellType::Start;
    maze.cells[50].celltype = MazeCellType::End;
    maze.cells[25].celltype = MazeCellType::End;
    let read = Maze::parse(&maze.to_text()).unwrap();
    assert_eq!(read.start, 30);
    assert_eq!(read.end, 25);
}

fn assert_parse_error(text: &str) {
    let error = Maze::parse(text).unwrap_err();
    assert_eq!(error.kind, ErrorKind::Parse);
}

#[test]
fn parse_rejects_a_malformed_header() {
    let good = small_text();
    assert_parse_error("");
    assert_parse_error("Maze");
    assert_parse_error("Maze 10 10");
    assert_parse_error(&good.replacen("Maze ", "maze ", 1));
    assert_parse_error(&good.replacen("Maze ", "Maze  ", 1));
    assert_parse_error(&good.replacen("Maze 10 10", "Maze 10  10", 1));
    assert_parse_error(&good.replacen("Maze 10 10", "Maze 10x10", 1));
    assert_parse_error(&good.replacen("Maze 10 10", "Maze 10 10 ", 1));
    assert_parse_error(&good.replacen("Maze 10 10", "Maze -10 10", 1));
    assert_parse_error(&good.replacen("Maze 10 10", "Maze 10+ 10", 1));
    assert_parse_error(&good.replacen("Maze 10 10", "Maze + 10", 1));
    assert_parse_error(&good.replacen("Maze 10 10", "Maze ten 10", 1));
    assert_parse_error(&good.replacen("Maze 10 10", "Maze 10", 1));
    assert_parse_error(&good.replacen("Maze 10 10\n", "Maze 10 10\r\n", 1));
}

#[test]
fn parse_rejects_sizes_out_of_bounds() {
    let mut text = String::from("Maze 9 10\n");
    for _ in 0..10 {
        text.push_str("█████████\n");
    }
    assert_parse_error(&text);
    assert_parse_error("Maze 0 0\n");
    assert_parse_error("Maze 10001 10\n");
    assert_parse_error("Maze 99999999999999999999999 10\n");
}

#[test]
fn parse_rejects_a_body_that_does_not_fit_the_header() {
    let good = small_text();
    assert_parse_error(&good.replacen("Maze 10 10", "Maze 10 11", 1));
    assert_parse_error(&good.replacen("Maze 10 10", "Maze 11 10", 1));
    let mut longer = good.clone();
    longer.push('\n');
    assert_parse_error(&longer);
    let mut shorter = good.clone();
    shorter.pop();
    assert_parse_error(&shorter);
    assert_parse_error(&good.replacen("█ █      █\n", "█ █     █\n █", 1));
}

#[test]
fn parse_rejects_unknown_characters() {
    let good = small_text();
    assert_parse_error(&good.replacen("█S█", "█s█", 1));
    assert_parse_error(&good.replacen("█S█", "#S█", 1));
    assert_parse_error(&good.replacen("E█\n", "e█\n", 1));
    assert_parse_error(&good.replacen("█   █    █", "█ . █    █", 1));
}

#[test]
fn picture_shows_route_and_visited_cells() {
    let mut maze = Maze::parse(&small_text()).unwrap();
    maze.cells[11].visited = true;
    maze.cells[21].visited = true;
    maze.cells[21].on_route = true;
    maze.cells[1].on_route = true;
    let picture = maze.picture();
    let lines: Vec<&str> = picture.lines().collect();
    assert_eq!(lines.len(), 10);
    assert_eq!(lines[0], "█o████████");
    assert_eq!(lines[1], "█.█      █");
    assert_eq!(lines[2], "█o█ ████ █");
    assert_eq!(lines[3], "█   █    █");
    assert_eq!(lines[9], "████████E█");
    assert!(picture.ends_with('\n'));
}

#[test]
fn decimal_numerals() {
    for (n, expected) in [
        (0usize, "0"),
        (7, "7"),
        (10, "10"),
        (19, "19"),
        (100, "100"),
        (10000, "10000"),
        (4294967295, "4294967295"),
    ] {
        let mut out = String::from("n=");
        append_decimal(&mut out, n);
        assert_eq!(out, format!("n={}", expected));
    }
}

#[test]
fn digits_are_told_from_other_characters() {
    for (i, c) in "0123456789".chars().enumerate() {
        assert_eq!(digit_of(c), Some(i));
    }
    for c in ['a', ' ', '+', '-', '█', '\n', '٣'] {
        assert_eq!(digit_of(c), None);
    }
}

#[test]
fn read_number_reads_a_numeral_up_to_the_first_other_character() {
    let chars = chars_of("Maze 19 250\n");
    assert_eq!(read_number(&chars, 5), Some((19, 7)));
    assert_eq!(read_number(&chars, 8), Some((250, 11)));
    assert_eq!(read_number(&chars, 9), Some((50, 11)));
    assert_eq!(read_number(&chars, 0), None);
    assert_eq!(read_number(&chars, 7), None);
    assert_eq!(read_number(&chars, 12), None);
    assert_eq!(read_number(&chars, 500), None);
    assert_eq!(read_number(&chars_of("0"), 0), Some((0, 1)));
    assert_eq!(read_number(&chars_of("00"), 0), Some((0, 2)));
    assert_eq!(read_number(&chars_of("007"), 0), Some((7, 3)));
    assert_eq!(read_number(&chars_of("+19 "), 0), Some((19, 3)));
    assert_eq!(read_number(&chars_of("+019x"), 0), Some((19, 4)));
    assert_eq!(read_number(&chars_of("+"), 0), None);
    assert_eq!(read_number(&chars_of("++1"), 0), None);
    assert_eq!(read_number(&chars_of("1+1"), 0), Some((1, 1)));
    assert_eq!(read_number(&chars_of("-1"), 0), None);
    assert_eq!(read_number(&chars_of("00000000000000000000000010000"), 0), Some((10000, 29)));
    assert_eq!(read_number(&chars_of("00000000000000000000000010001"), 0), None);
    assert_eq!(read_number(&chars_of("10000"), 0), Some((10000, 5)));
    assert_eq!(read_number(&chars_of("10001"), 0), None);
    assert_eq!(read_number(&chars_of("123456789012345678901234567890"), 0), None);
}

#[test]
fn parse_side_reads_valid_sides_only() {
    assert_eq!(parse_side("10"), Some(10));
    assert_eq!(parse_side("19"), Some(19));
    assert_eq!(parse_side("10000"), Some(10000));
    assert_eq!(parse_side("+19"), Some(19));
    assert_eq!(parse_side("019"), Some(19));
    assert_eq!(parse_side("+0019"), Some(19));
    for bad in ["9", "0", "10001", "", "19 ", " 19", "+", "+9", "19+", "-19", "1_9", "19\n"] {
        assert_eq!(parse_side(bad), None);
    }
}

#[test]
fn chars_of_gives_the_characters() {
    assert_eq!(chars_of(""), Vec::<char>::new());
    assert_eq!(chars_of("█S E\n"), vec!['█', 'S', ' ', 'E', '\n']);
}

#[test]
fn first_of_kind_finds_the_first_cell() {
    let maze = Maze::parse(&small_text()).unwrap();
    assert_eq!(first_of_kind(&maze.cells, MazeCellType::Start), 1);
    assert_eq!(first_of_kind(&maze.cells, MazeCellType::End), 98);
    assert_eq!(first_of_kind(&maze.cells, MazeCellType::Wall), 0);
    assert_eq!(first_of_kind(&maze.cells, MazeCellType::Passage), 11);
    assert_eq!(first_of_kind(&Maze::new().cells, MazeCellType::Start), 0);
}

#[test]
fn parse_header_line_reads_the_dimensions() {
    let (dimensions, body) = Maze::parse_header_line(&chars_of("Maze 19 250\n███")).unwrap();
    assert_eq!(dimensions, Dimensions { width: 19, height: 250 });
    assert_eq!(body, 12);
    let (dimensions, body) = Maze::parse_header_line(&chars_of("Maze 10000 10\n")).unwrap();
    assert_eq!(dimensions, Dimensions { width: 10000, height: 10 });
    assert_eq!(body, 14);
    for bad in [
        "Maze 19\n",
        "Maze 19",
        "Maze 9 19\n",
        "Maze 19 19 \n",
        "Maze 19 19 ",
        "Maze 19 19x",
        "Maze 19 10001",
        "Maze -19 19",
        "Maze 19+ 19",
        "Maze + 19",
        "Maze 19 +",
        "Maze  19 19",
        "Mazes 19 19\n",
        "maze 19 19",
        "Maze",
        "",
    ] {
        let error = Maze::parse_header_line(&chars_of(bad)).unwrap_err();
        assert_eq!(error.kind, ErrorKind::Parse);
    }
}

#[test]
fn parse_header_line_takes_a_plus_sign_and_leading_zeros() {
    let (dimensions, body) = Maze::parse_header_line(&chars_of("Maze 010 012")).unwrap();
    assert_eq!(dimensions, Dimensions { width: 10, height: 12 });
    assert_eq!(body, 12);
    let (dimensions, body) = Maze::parse_header_line(&chars_of("Maze +19 +0250\nrest")).unwrap();
    assert_eq!(dimensions, Dimensions { width: 19, height: 250 });
    assert_eq!(body, 15);
}

#[test]
fn parse_reads_a_text_whose_header_has_a_plus_sign_and_leading_zeros() {
    let good = small_text();
    let plain = Maze::parse(&good).unwrap();
    for header in ["Maze 010 10", "Maze +10 10", "Maze 10 0010", "Maze +0010 +010"] {
        let maze = Maze::parse(&good.replacen("Maze 10 10", header, 1)).unwrap();
        assert_eq!(maze.dimensions, Dimensions { width: 10, height: 10 });
        assert_eq!(maze.start, plain.start);
        assert_eq!(maze.end, plain.end);
        for i in 0..100 {
            assert_eq!(maze.cells[i].celltype, plain.cells[i].celltype);
        }
        assert_eq!(maze.to_text(), good);
    }
}

#[test]
fn parse_header_line_reads_a_line_without_its_line_feed() {
    let (dimensions, body) = Maze::parse_header_line(&chars_of("Maze 10 12")).unwrap();
    assert_eq!(dimensions, Dimensions { width: 10, height: 12 });
    assert_eq!(body, 10);
    let (dimensions, body) = Maze::parse_header_line(&chars_of("Maze 50 50")).unwrap();
    assert_eq!(dimensions, Dimensions { width: 50, height: 50 });
    assert_eq!(body, 10);
    let (dimensions, body) = Maze::parse_header_line(&chars_of("Maze 19 250")).unwrap();
    assert_eq!(dimensions, Dimensions { width: 19, height: 250 });
    assert_eq!(body, 11);
    let (dimensions, body) = Maze::parse_header_line(&chars_of("Maze 10 12\n\nrest")).unwrap();
    assert_eq!(dimensions, Dimensions { width: 10, height: 12 });
    assert_eq!(body, 11);
}

#[test]
fn parse_rejects_a_header_line_alone() {
    for text in ["Maze 10 12", "Maze 10 12\n", "Maze 50 50"] {
        let error = Maze::parse(text).unwrap_err();
        assert_eq!(error.kind, ErrorKind::Parse);
    }
}
