use aoc2023::enclosure::{count_enclosed, crosses_edge, on_path, passes_beyond, point_in_polygon};
use aoc2023::pipe_maze::parse_maze;
use aoc2023::tracer::find_path;

fn ring() -> Vec<(usize, usize)> {
    vec![(1, 1), (1, 2), (1, 3), (2, 3), (3, 3), (3, 2), (3, 1), (2, 1), (1, 1)]
}

#[test]
fn on_path_finds_cells_of_the_path() {
    let path = ring();
    assert!(on_path(&path, &(1, 1)));
    assert!(on_path(&path, &(3, 2)));
    assert!(!on_path(&path, &(2, 2)));
    assert!(!on_path(&path, &(0, 0)));
    assert!(!on_path(&vec![], &(0, 0)));
}

#[test]
fn edge_is_crossed_only_beyond_the_column() {
    assert!(crosses_edge(&(2, 2), &(2, 3), &(3, 3)));
    assert!(crosses_edge(&(2, 2), &(3, 3), &(2, 3)));
    assert!(!crosses_edge(&(2, 2), &(2, 1), &(3, 1)));
    assert!(!crosses_edge(&(2, 2), &(2, 2), &(3, 2)));
}

#[test]
fn edge_spans_a_row_half_openly() {
    assert!(crosses_edge(&(2, 0), &(2, 3), &(3, 3)));
    assert!(!crosses_edge(&(3, 0), &(2, 3), &(3, 3)));
    assert!(!crosses_edge(&(1, 0), &(2, 3), &(3, 3)));
}

#[test]
fn edge_along_a_row_is_never_crossed() {
    assert!(!crosses_edge(&(1, 0), &(1, 1), &(1, 2)));
    assert!(!crosses_edge(&(1, 0), &(1, 2), &(1, 1)));
    assert!(!crosses_edge(&(1, 0), &(1, 1), &(1, 1)));
}

#[test]
fn slanted_edge_is_crossed_where_it_passes_the_row() {
    assert!(crosses_edge(&(2, 1), &(0, 0), &(4, 4)));
    assert!(!crosses_edge(&(2, 2), &(0, 0), &(4, 4)));
    assert!(!crosses_edge(&(2, 3), &(0, 0), &(4, 4)));
    assert!(crosses_edge(&(1, 2), &(0, 4), &(4, 0)));
    assert!(!crosses_edge(&(1, 3), &(0, 4), &(4, 0)));
    assert!(!crosses_edge(&(1, 4), &(0, 4), &(4, 0)));
}

#[test]
fn passes_beyond_is_exact_on_large_coordinates() {
    let far = usize::MAX;
    assert!(passes_beyond(&(1, 0), &(0, far), &(far, far)));
    assert!(!passes_beyond(&(1, far), &(0, far), &(far, far)));
    assert!(passes_beyond(&(far - 1, far - 2), &(0, 0), &(far, far)));
    assert!(!passes_beyond(&(far - 1, far - 1), &(0, 0), &(far, far)));
    assert!(!passes_beyond(&(0, far), &(0, far), &(far, 0)));
    assert!(passes_beyond(&(0, far - 1), &(0, far), &(far, 0)));
}

#[test]
fn centre_of_a_ring_is_inside() {
    let path = ring();
    assert!(point_in_polygon(&path, &(2, 2)));
    for p in [(0, 0), (0, 2), (2, 0), (2, 4), (4, 2), (4, 4), (1, 0), (3, 4), (1, 4), (3, 0)] {
        assert!(!point_in_polygon(&path, &p));
    }
}

#[test]
fn empty_path_encloses_nothing() {
    assert!(!point_in_polygon(&vec![], &(0, 0)));
    assert_eq!(count_enclosed(&vec![], (4, 4)), 0);
    assert_eq!(count_enclosed(&vec![(1, 1)], (4, 4)), 0);
}

#[test]
fn ring_encloses_its_centre_only() {
    assert_eq!(count_enclosed(&ring(), (5, 5)), 1);
    assert_eq!(count_enclosed(&ring(), (2, 5)), 0);
    assert_eq!(count_enclosed(&ring(), (3, 3)), 1);
    assert_eq!(count_enclosed(&ring(), (0, 0)), 0);
}

#[test]
fn cells_on_long_edges_follow_the_tie_rule() {
    let path = vec![(0, 0), (0, 5), (3, 5), (3, 0), (0, 0)];
    assert_eq!(count_enclosed(&path, (4, 6)), 3 * 5 - 1);
    assert!(point_in_polygon(&path, &(0, 2)));
    assert!(point_in_polygon(&path, &(1, 0)));
    assert!(!point_in_polygon(&path, &(3, 2)));
    assert!(!point_in_polygon(&path, &(1, 5)));
}

#[test]
fn rectangle_encloses_rows_times_columns() {
    let walked: Vec<(usize, usize)> = (0..=5)
        .map(|c| (0, c))
        .chain((1..=3).map(|r| (r, 5)))
        .chain((0..5).rev().map(|c| (3, c)))
        .chain((0..3).rev().map(|r| (r, 0)))
        .collect();
    assert_eq!(count_enclosed(&walked, (4, 6)), 2 * 4);
}

fn turned(path: &[(usize, usize)], by: usize) -> Vec<(usize, usize)> {
    let mut out = path[by..].to_vec();
    out.extend_from_slice(&path[..by]);
    out
}

fn restarted(path: &[(usize, usize)], at: usize) -> Vec<(usize, usize)> {
    let round = &path[..path.len() - 1];
    let mut out = turned(round, at);
    out.push(round[at]);
    out
}

const NESTED: &str = "...........\n\
                      .S-------7.\n\
                      .|F-----7|.\n\
                      .||.....||.\n\
                      .||.....||.\n\
                      .|L-7.F-J|.\n\
                      .|..|.|..|.\n\
                      .L--J.L--J.\n\
                      ...........\n";

#[test]
fn count_does_not_depend_on_where_the_path_starts() {
    let grid = parse_maze(NESTED).unwrap();
    let (_, path) = find_path(&grid).unwrap();
    let count = count_enclosed(&path, grid.shape());
    assert_eq!(count, 4);
    for by in 0..=path.len() {
        assert_eq!(count_enclosed(&turned(&path, by), grid.shape()), count);
    }
    for at in 0..path.len() - 1 {
        assert_eq!(count_enclosed(&restarted(&path, at), grid.shape()), count);
    }
}

#[test]
fn count_does_not_depend_on_the_direction_of_the_path() {
    let grid = parse_maze(NESTED).unwrap();
    let (_, path) = find_path(&grid).unwrap();
    let mut back = path.clone();
    back.reverse();
    assert_eq!(count_enclosed(&back, grid.shape()), count_enclosed(&path, grid.shape()));
    assert_eq!(count_enclosed(&back, grid.shape()), 4);
}

#[test]
fn cells_between_touching_pipes_are_outside() {
    let text = "..........\n\
                .S------7.\n\
                .|F----7|.\n\
                .||....||.\n\
                .||....||.\n\
                .|L-7F-J|.\n\
                .|..||..|.\n\
                .L--JL--J.\n\
                ..........\n";
    let grid = parse_maze(text).unwrap();
    let (_, path) = find_path(&grid).unwrap();
    assert_eq!(count_enclosed(&path, grid.shape()), 4);
}

#[test]
fn pipes_off_the_loop_count_as_cells() {
    let text = "FF7FSF7F7F7F7F7F---7\n\
                L|LJ||||||||||||F--J\n\
                FL-7LJLJ||||||LJL-77\n\
                F--JF--7||LJLJ7F7FJ-\n\
                L---JF-JLJ.||-FJLJJ7\n\
                |F|F-JF---7F7-L7L|7|\n\
                |FFJF7L7F-JF7|JL---7\n\
                7-L-JL7||F7|L7F-7F7|\n\
                L.L7LFJ|||||FJL7||LJ\n\
                L7JLJL-JLJLJL--JLJ.L\n";
    let grid = parse_maze(text).unwrap();
    let (steps, path) = find_path(&grid).unwrap();
    assert_eq!(steps, 80);
    assert_eq!(count_enclosed(&path, grid.shape()), 10);
}
