use aoc2023::grid::Grid;
use aoc2023::pipe_maze::parse_maze;
use aoc2023::tile::{connections, MazeError, Tile};
use aoc2023::tracer::{close_loop, find_path, first_meeting, is_crowded};

fn leads_to(grid: &Grid<Tile>, p: (usize, usize), q: (usize, usize)) -> bool {
    match connections(grid.get(&p).unwrap()) {
        Some((d1, d2)) => {
            grid.apply_offset(&p, &d1.offset()) == Some(q)
                || grid.apply_offset(&p, &d2.offset()) == Some(q)
        }
        None => false,
    }
}

fn joined(grid: &Grid<Tile>, p: (usize, usize), q: (usize, usize)) -> bool {
    (grid.get(&p) == Some(Tile::Start) || leads_to(grid, p, q))
        && (grid.get(&q) == Some(Tile::Start) || leads_to(grid, q, p))
}

fn check_simple_loop(text: &str, half: usize) {
    let grid = parse_maze(text).unwrap();
    let start = grid.find(&Tile::Start).unwrap();
    let (steps, path) = find_path(&grid).unwrap();
    assert_eq!(steps, half);
    assert_eq!(path.len(), 2 * steps + 1);
    assert_eq!(path[0], start);
    assert_eq!(path[path.len() - 1], start);
    for i in 0..path.len() - 1 {
        let (p, q) = (path[i], path[i + 1]);
        assert!(grid.is_valid(&p));
        assert_eq!(p.0.abs_diff(q.0) + p.1.abs_diff(q.1), 1);
        assert!(joined(&grid, p, q));
        for j in i + 1..path.len() - 1 {
            assert_ne!(path[i], path[j]);
        }
    }
}

const SQUARE: &str = ".....\n.S-7.\n.|.|.\n.L-J.\n.....\n";

const WINDING: &str = "..F7.\n.FJ|.\nSJ.L7\n|F--J\nLJ...\n";

const CLUTTERED: &str = "7-F7-\n.FJ|7\nSJLL7\n|F--J\nLJ.LJ\n";

#[test]
fn square_loop_is_a_simple_cycle_of_joined_tiles() {
    check_simple_loop(SQUARE, 4);
}

#[test]
fn winding_loop_is_a_simple_cycle_of_joined_tiles() {
    check_simple_loop(WINDING, 8);
}

#[test]
fn pipes_off_the_loop_do_not_disturb_the_trace() {
    check_simple_loop(CLUTTERED, 8);
}

#[test]
fn smallest_loop_has_half_length_two() {
    check_simple_loop("S7\nLJ\n", 2);
}

#[test]
fn loop_of_length_2k_gives_k() {
    check_simple_loop("S--7\nL--J\n", 4);
    check_simple_loop("S7\n||\n||\nLJ\n", 4);
    check_simple_loop("F-S-7\n|...|\nL---J\n", 6);
    check_simple_loop("F---7\n|...|\nS...|\n|...|\nL---J\n", 8);
}

#[test]
fn later_walker_leads_the_path() {
    let grid = parse_maze(SQUARE).unwrap();
    let (steps, path) = find_path(&grid).unwrap();
    assert_eq!(steps, 4);
    assert_eq!(
        path,
        vec![(1, 1), (2, 1), (3, 1), (3, 2), (3, 3), (2, 3), (1, 3), (1, 2), (1, 1)]
    );
}

#[test]
fn first_start_tile_in_row_major_order_is_used() {
    let grid = parse_maze("S7.\nLJS\n").unwrap();
    let (steps, path) = find_path(&grid).unwrap();
    assert_eq!(steps, 2);
    assert_eq!(path[0], (0, 0));
}

#[test]
fn grid_without_start_gives_missing_start() {
    let grid = parse_maze("F7\nLJ\n").unwrap();
    assert_eq!(find_path(&grid), Err(MazeError::MissingStart));
    let empty = parse_maze("").unwrap();
    assert_eq!(find_path(&empty), Err(MazeError::MissingStart));
}

#[test]
fn lonely_start_gives_no_cycle() {
    assert_eq!(find_path(&parse_maze("S").unwrap()), Err(MazeError::NoCycleFound));
    assert_eq!(find_path(&parse_maze("...\n.S.\n...\n").unwrap()), Err(MazeError::NoCycleFound));
}

#[test]
fn open_pipe_gives_no_cycle() {
    assert_eq!(find_path(&parse_maze("S-7\n..|\n..|\n").unwrap()), Err(MazeError::NoCycleFound));
    assert_eq!(find_path(&parse_maze("S--\n").unwrap()), Err(MazeError::NoCycleFound));
    assert_eq!(find_path(&parse_maze("S7\n.|\n.|\n").unwrap()), Err(MazeError::NoCycleFound));
}

#[test]
fn walker_that_returns_to_the_start_alone_stops_there() {
    assert_eq!(find_path(&parse_maze(".S.\n.|.\n.S.\n").unwrap()), Err(MazeError::NoCycleFound));
}

#[test]
fn three_walkers_on_one_cell_are_ambiguous() {
    let text = "..F-.-7..\n\
                ..|.L7|..\n\
                ..|F-J|..\n\
                ..|L7.|..\n\
                ..L-S-J..\n\
                .........\n";
    let grid = parse_maze(text).unwrap();
    assert_eq!(find_path(&grid), Err(MazeError::AmbiguousMeeting));
}

#[test]
fn two_of_the_three_walkers_alone_do_meet() {
    let text = "..F-.-7..\n\
                ..|.L.|..\n\
                ..|F-J|..\n\
                ..|L7.|..\n\
                ..L-S-J..\n\
                .........\n";
    let grid = parse_maze(text).unwrap();
    let (steps, path) = find_path(&grid).unwrap();
    assert_eq!(steps, 8);
    assert_eq!(path[8], (0, 4));
    assert_eq!(path[1], (4, 5));
    assert_eq!(path[15], (4, 3));
}

#[test]
fn meeting_on_ground_still_closes_a_path() {
    let grid = parse_maze("S7\nL.\n").unwrap();
    let (steps, path) = find_path(&grid).unwrap();
    assert_eq!(steps, 2);
    assert_eq!(path, vec![(0, 0), (1, 0), (1, 1), (0, 1), (0, 0)]);
}

#[test]
fn walker_that_crosses_its_own_trail_can_close_a_path() {
    let grid = parse_maze("F-7.\n|.|.\nS--7\n..LJ\n").unwrap();
    let (steps, path) = find_path(&grid).unwrap();
    assert_eq!(steps, 6);
    assert_eq!(path.len(), 13);
    assert_eq!(path[2], (2, 2));
    assert_eq!(path[6], (2, 2));
}

#[test]
fn stray_pipe_from_the_start_can_meet_the_loop_early() {
    let grid = parse_maze("..F7\nF-||\nS-J|\nL--J\n").unwrap();
    let (steps, path) = find_path(&grid).unwrap();
    assert_eq!(steps, 3);
    assert_eq!(path, vec![(2, 0), (2, 1), (2, 2), (1, 2), (1, 1), (1, 0), (2, 0)]);
}

#[test]
fn first_meeting_takes_the_first_later_walker_and_its_first_partner() {
    let a = Some((1, 1));
    let b = Some((2, 2));
    assert_eq!(first_meeting(&vec![a, b, None, None]), None);
    assert_eq!(first_meeting(&vec![None, None, None, None]), None);
    assert_eq!(first_meeting(&vec![a, b, a, b]), Some((2, 0)));
    assert_eq!(first_meeting(&vec![a, b, b, a]), Some((2, 1)));
    assert_eq!(first_meeting(&vec![a, a, a, a]), Some((1, 0)));
    assert_eq!(first_meeting(&vec![None, a, None, a]), Some((3, 1)));
    assert_eq!(first_meeting(&vec![]), None);
}

#[test]
fn is_crowded_looks_for_a_third_walker() {
    let a = Some((1, 1));
    let b = Some((2, 2));
    assert!(is_crowded(&vec![a, a, a, None], 1, 0));
    assert!(is_crowded(&vec![a, a, b, a], 1, 0));
    assert!(!is_crowded(&vec![a, a, b, None], 1, 0));
    assert!(!is_crowded(&vec![a, a, b, b], 1, 0));
    assert!(!is_crowded(&vec![None, None, None, None], 1, 0));
    assert!(!is_crowded(&vec![a, a], 5, 0));
}

#[test]
fn close_loop_joins_two_trails_at_the_meeting_point() {
    let a = vec![(0, 0), (0, 1)];
    let b = vec![(0, 0), (1, 0)];
    assert_eq!(
        close_loop(&a, (1, 1), &b, (0, 0)),
        vec![(0, 0), (0, 1), (1, 1), (1, 0), (0, 0)]
    );
    assert_eq!(close_loop(&vec![], (5, 5), &vec![(9, 9)], (3, 3)), vec![(5, 5), (3, 3)]);
}
