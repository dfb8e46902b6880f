use aoc2023::galaxies::{
    get_axis_distance, get_distance, get_empties, get_galaxies, get_pairs, part_1, part_2, solve,
    GalaxyError,
};
use aoc2023::grid::Grid;
use std::collections::HashSet;

const IMAGE: &str = "...#......\n\
                     .......#..\n\
                     #.........\n\
                     ..........\n\
                     ......#...\n\
                     .#........\n\
                     .........#\n\
                     ..........\n\
                     .......#..\n\
                     #...#.....\n";

#[test]
fn distances_with_doubled_space() {
    assert_eq!(part_1(IMAGE), Ok(String::from("374")));
}

#[test]
fn distances_with_space_grown_a_million_times() {
    assert_eq!(part_2(IMAGE), Ok(String::from("82000210")));
}

#[test]
fn distances_with_other_growth() {
    assert_eq!(solve(IMAGE, &10), Ok(1030));
    assert_eq!(solve(IMAGE, &100), Ok(8410));
    assert_eq!(solve(IMAGE, &1), Ok(292));
}

#[test]
fn empty_rows_and_columns_hold_no_galaxy() {
    let grid = Grid::from_str(IMAGE).unwrap();
    let (rows, cols) = get_empties(&grid);
    assert_eq!(rows, HashSet::from([3, 7]));
    assert_eq!(cols, HashSet::from([2, 5, 8]));
}

#[test]
fn find_col_and_find_row_return_the_first_place() {
    let grid = Grid::from_str(IMAGE).unwrap();
    assert_eq!(grid.find_col(0, &'#'), Some(3));
    assert_eq!(grid.find_col(3, &'#'), None);
    assert_eq!(grid.find_col(9, &'#'), Some(0));
    assert_eq!(grid.find_col(10, &'#'), None);
    assert_eq!(grid.find_row(0, &'#'), Some(2));
    assert_eq!(grid.find_row(7, &'#'), Some(1));
    assert_eq!(grid.find_row(2, &'#'), None);
    assert_eq!(grid.find_row(10, &'#'), None);
}

#[test]
fn galaxies_come_in_row_major_order() {
    let grid = Grid::from_str(IMAGE).unwrap();
    assert_eq!(
        get_galaxies(&grid),
        vec![(0, 3), (1, 7), (2, 0), (4, 6), (5, 1), (6, 9), (8, 7), (9, 0), (9, 4)]
    );
}

#[test]
fn pairs_name_each_pair_once() {
    let a = (0, 0);
    let b = (1, 1);
    let c = (2, 2);
    assert_eq!(get_pairs(&vec![a, b, c]), vec![(a, b), (a, c), (b, c)]);
    assert_eq!(get_pairs(&vec![a]), vec![]);
    assert_eq!(get_pairs(&vec![]), vec![]);
    assert_eq!(get_pairs(&vec![(0, 0); 9]).len(), 36);
}

#[test]
fn distance_counts_empty_lines_between() {
    let rows = HashSet::from([3, 7]);
    let cols = HashSet::from([2, 5, 8]);
    assert_eq!(get_distance(&(5, 1), &(9, 4), &rows, &cols, &2), Some(9));
    assert_eq!(get_distance(&(9, 4), &(5, 1), &rows, &cols, &2), Some(9));
    assert_eq!(get_distance(&(0, 3), &(8, 7), &rows, &cols, &2), Some(15));
    assert_eq!(get_distance(&(2, 0), &(6, 9), &rows, &cols, &2), Some(17));
    assert_eq!(get_distance(&(9, 0), &(9, 4), &rows, &cols, &2), Some(5));
    assert_eq!(get_distance(&(1, 1), &(1, 1), &rows, &cols, &2), Some(0));
}

#[test]
fn empty_line_at_the_larger_end_is_not_counted() {
    let empties = HashSet::from([3, 7]);
    assert_eq!(get_axis_distance(0, 3, &empties, 10), 3);
    assert_eq!(get_axis_distance(3, 0, &empties, 10), 3);
    assert_eq!(get_axis_distance(3, 5, &empties, 10), 2 + 9);
    assert_eq!(get_axis_distance(0, 8, &empties, 10), 8 + 18);
    assert_eq!(get_axis_distance(4, 4, &empties, 10), 0);
    assert_eq!(get_axis_distance(0, 8, &empties, 0), 8 - 2);
    assert_eq!(get_axis_distance(0, 8, &empties, -1), 8 - 4);
}

#[test]
fn distance_that_leaves_32_bits_is_none() {
    let rows = HashSet::from([1, 2, 3]);
    let cols = HashSet::new();
    assert_eq!(get_distance(&(0, 0), &(4, 0), &rows, &cols, &i32::MAX), None);
    assert_eq!(get_distance(&(0, 0), &(2, 0), &rows, &cols, &i32::MAX), None);
    assert_eq!(get_distance(&(1, 0), &(2, 0), &rows, &cols, &i32::MAX), Some(i32::MAX));
    assert_eq!(get_distance(&(0, 0), &(usize::MAX, 0), &cols, &cols, &2), None);
}

#[test]
fn image_with_rows_of_unequal_length_is_malformed() {
    assert_eq!(part_1("#..\n.#\n"), Err(GalaxyError::MalformedGrid));
}

#[test]
fn image_with_fewer_than_two_galaxies_has_distance_zero() {
    assert_eq!(part_1(""), Ok(String::from("0")));
    assert_eq!(part_1("...\n.#.\n"), Ok(String::from("0")));
}

#[test]
fn sum_overflows_when_a_distance_leaves_32_bits() {
    assert_eq!(solve("#..\n...\n..#\n", &i32::MAX), Err(GalaxyError::Overflow));
    assert_eq!(solve("#..\n...\n..#\n", &((1 << 30) - 1)), Err(GalaxyError::Overflow));
    assert_eq!(solve("#..\n...\n..#\n", &((1 << 30) - 2)), Ok(i32::MAX as i64 - 1));
    assert_eq!(solve("#.#\n", &i32::MAX), Err(GalaxyError::Overflow));
    assert_eq!(solve("#.#\n", &(i32::MAX - 1)), Ok(i32::MAX as i64));
}
