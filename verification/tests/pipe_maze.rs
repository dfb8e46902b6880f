use aoc2023::enclosure::count_enclosed;
use aoc2023::pipe_maze::{parse_maze, part_1, part_2};
use aoc2023::tile::{MazeError, Tile};
use aoc2023::tracer::find_path;

const SQUARE: &str = ".....\n.S-7.\n.|.|.\n.L-J.\n.....\n";

#[test]
fn square_loop_half_length_is_four() {
    assert_eq!(part_1(SQUARE), Ok(String::from("4")));
}

#[test]
fn square_loop_encloses_one_cell() {
    assert_eq!(part_2(SQUARE), Ok(String::from("1")));
}

#[test]
fn square_loop_path_is_closed() {
    let grid = parse_maze(SQUARE).unwrap();
    let (steps, path) = find_path(&grid).unwrap();
    assert_eq!(steps, 4);
    assert_eq!(
        path,
        vec![(1, 1), (2, 1), (3, 1), (3, 2), (3, 3), (2, 3), (1, 3), (1, 2), (1, 1)]
    );
    assert_eq!(count_enclosed(&path, grid.shape()), 1);
}

#[test]
fn ring_of_sixteen_on_eleven_by_eleven() {
    let text = "...........\n\
                ...........\n\
                ...........\n\
                ...S---7...\n\
                ...|...|...\n\
                ...|...|...\n\
                ...|...|...\n\
                ...L---J...\n\
                ...........\n\
                ...........\n\
                ...........\n";
    assert_eq!(part_1(text), Ok(String::from("8")));
    assert_eq!(part_2(text), Ok(String::from("9")));
}

#[test]
fn missing_start_is_reported() {
    assert_eq!(part_1("F7\nLJ\n"), Err(MazeError::MissingStart));
}

#[test]
fn winding_loop_half_length_is_eight() {
    assert_eq!(part_1("..F7.\n.FJ|.\nSJ.L7\n|F--J\nLJ...\n"), Ok(String::from("8")));
    assert_eq!(part_1("7-F7-\n.FJ|7\nSJLL7\n|F--J\nLJ.LJ\n"), Ok(String::from("8")));
}

#[test]
fn nested_loop_encloses_four_cells() {
    let text = "...........\n\
                .S-------7.\n\
                .|F-----7|.\n\
                .||.....||.\n\
                .||.....||.\n\
                .|L-7.F-J|.\n\
                .|..|.|..|.\n\
                .L--J.L--J.\n\
                ...........\n";
    assert_eq!(part_1(text), Ok(String::from("23")));
    assert_eq!(part_2(text), Ok(String::from("4")));
}

#[test]
fn crowded_loop_encloses_eight_cells() {
    let text = ".F----7F7F7F7F-7....\n\
                .|F--7||||||||FJ....\n\
                .||.FJ||||||||L7....\n\
                FJL7L7LJLJ||LJ.L-7..\n\
                L--J.L7...LJS7F-7L7.\n\
                ....F-J..F7FJ|L7L7L7\n\
                ....L7.F7||L7|.L7L7|\n\
                .....|FJLJ|FJ|F7|.LJ\n\
                ....FJL-7.||.||||...\n\
                ....L---J.LJ.LJLJ...\n";
    assert_eq!(part_2(text), Ok(String::from("8")));
}

#[test]
fn answers_of_ten_and_more_are_written_in_decimal() {
    let text = "S---------7\n\
                |.........|\n\
                |.........|\n\
                L---------J\n";
    assert_eq!(part_1(text), Ok(String::from("13")));
    assert_eq!(part_2(text), Ok(String::from("18")));
}

#[test]
fn rows_of_unequal_length_are_malformed() {
    assert_eq!(part_1("S7\nLJ.\n"), Err(MazeError::MalformedGrid));
    assert_eq!(part_2("S7\nLJ.\n"), Err(MazeError::MalformedGrid));
    assert!(matches!(parse_maze("S7\n\nLJ\n"), Err(MazeError::MalformedGrid)));
}

#[test]
fn characters_outside_the_alphabet_are_unknown_tiles() {
    assert_eq!(part_1("S7\nLX\n"), Err(MazeError::UnknownTile));
    assert_eq!(part_2("S7\nL \n"), Err(MazeError::UnknownTile));
    assert_eq!(part_1("s7\nLJ\n"), Err(MazeError::UnknownTile));
}

#[test]
fn unequal_rows_are_reported_before_unknown_tiles() {
    assert_eq!(part_1("X7\nLJ.\n"), Err(MazeError::MalformedGrid));
}

#[test]
fn unknown_tiles_are_reported_before_a_missing_start() {
    assert_eq!(part_1("F7\nLX\n"), Err(MazeError::UnknownTile));
}

#[test]
fn empty_text_has_no_start() {
    assert_eq!(part_1(""), Err(MazeError::MissingStart));
    assert_eq!(part_2(""), Err(MazeError::MissingStart));
}

#[test]
fn loop_that_never_closes_gives_no_cycle() {
    assert_eq!(part_1("S-7\n..|\n"), Err(MazeError::NoCycleFound));
    assert_eq!(part_2("S-7\n..|\n"), Err(MazeError::NoCycleFound));
}

#[test]
fn three_way_meeting_is_ambiguous() {
    let text = "..F-.-7..\n\
                ..|.L7|..\n\
                ..|F-J|..\n\
                ..|L7.|..\n\
                ..L-S-J..\n\
                .........\n";
    assert_eq!(part_1(text), Err(MazeError::AmbiguousMeeting));
    assert_eq!(part_2(text), Err(MazeError::AmbiguousMeeting));
}

#[test]
fn windows_line_endings_are_accepted() {
    assert_eq!(part_1(".....\r\n.S-7.\r\n.|.|.\r\n.L-J.\r\n.....\r\n"), Ok(String::from("4")));
}

#[test]
fn parse_maze_reads_tiles_cell_by_cell() {
    let grid = parse_maze("S7\nLJ\n|-\nF.\n").unwrap();
    assert_eq!(grid.shape(), (4, 2));
    assert_eq!(grid.get(&(0, 0)), Some(Tile::Start));
    assert_eq!(grid.get(&(0, 1)), Some(Tile::SouthWest));
    assert_eq!(grid.get(&(1, 0)), Some(Tile::NorthEast));
    assert_eq!(grid.get(&(1, 1)), Some(Tile::NorthWest));
    assert_eq!(grid.get(&(2, 0)), Some(Tile::Vertical));
    assert_eq!(grid.get(&(2, 1)), Some(Tile::Horizontal));
    assert_eq!(grid.get(&(3, 0)), Some(Tile::SouthEast));
    assert_eq!(grid.get(&(3, 1)), Some(Tile::Ground));
}
