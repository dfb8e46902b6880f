use aoc2023::schematic::{
    get_gear_ratio, get_grid, get_number, has_adjacent_symbol, is_covered, is_symbol, part_1,
    part_2, sum_schematic, value_cell, Adjacent, SchematicError,
};

const ENGINE: &str = "467..114..\n\
                      ...*......\n\
                      ..35..633.\n\
                      ......#...\n\
                      617*......\n\
                      .....+.58.\n\
                      ..592.....\n\
                      ......755.\n\
                      ...$.*....\n\
                      .664.598..\n";

fn cells_around(row: usize, start: usize, end: usize, rows: usize, cols: usize) -> Vec<(usize, usize)> {
    let mut cursor = Adjacent::new(row, start, end, rows, cols);
    let mut cells = Vec::new();
    while let Some(p) = cursor.next() {
        cells.push(p);
    }
    assert_eq!(cursor.next(), None);
    cells
}

#[test]
fn part_numbers_sum() {
    assert_eq!(part_1(ENGINE), Ok(String::from("4361")));
}

#[test]
fn gear_ratios_sum() {
    assert_eq!(part_2(ENGINE), Ok(String::from("467835")));
}

#[test]
fn cursor_walks_around_a_stretch() {
    assert_eq!(
        cells_around(2, 2, 3, 5, 6),
        vec![(1, 1), (1, 2), (1, 3), (1, 4), (2, 1), (2, 2), (2, 4), (3, 1), (3, 2), (3, 3), (3, 4)]
    );
}

#[test]
fn cursor_stays_inside_the_schematic() {
    assert_eq!(cells_around(0, 0, 1, 3, 3), vec![(0, 0), (0, 2), (1, 0), (1, 1), (1, 2)]);
    assert_eq!(cells_around(2, 1, 2, 3, 3), vec![(1, 0), (1, 1), (1, 2), (2, 0), (2, 1), (2, 2)]);
    assert_eq!(cells_around(0, 0, 0, 1, 1), vec![(0, 0)]);
    assert_eq!(cells_around(0, 0, 2, 1, 3), vec![(0, 0), (0, 2)]);
    assert_eq!(cells_around(0, 1, 1, 1, 3), vec![(0, 0), (0, 1), (0, 2)]);
}

#[test]
fn cursor_around_one_cell_visits_its_neighbours_and_itself() {
    assert_eq!(
        cells_around(1, 1, 1, 3, 3),
        vec![(0, 0), (0, 1), (0, 2), (1, 0), (1, 1), (1, 2), (2, 0), (2, 1), (2, 2)]
    );
}

#[test]
fn symbols_are_neither_numeric_nor_dots() {
    for c in ['*', '#', '+', '$', '/', '=', '@', '%', '-', '&', 'a', ' '] {
        assert!(is_symbol(c));
    }
    for c in ['.', '0', '5', '9', '\u{b2}', '\u{bd}', '\u{661}'] {
        assert!(!is_symbol(c));
    }
}

#[test]
fn grid_has_one_row_per_line() {
    let (grid, rows, cols) = get_grid(ENGINE).unwrap();
    assert_eq!((rows, cols), (10, 10));
    assert_eq!(grid[1][3], '*');
    assert_eq!(get_grid("ab\ncd\nef").map(|g| (g.1, g.2)), Ok((3, 2)));
}

#[test]
fn grid_errors() {
    assert_eq!(get_grid("").map(|g| (g.1, g.2)), Err(SchematicError::Empty));
    assert_eq!(get_grid("\nab\n").map(|g| (g.1, g.2)), Err(SchematicError::Empty));
    assert_eq!(get_grid("ab\nc\n").map(|g| (g.1, g.2)), Err(SchematicError::Ragged));
    assert_eq!(get_grid("ab\n\n").map(|g| (g.1, g.2)), Err(SchematicError::Ragged));
    assert_eq!(part_1(""), Err(SchematicError::Empty));
    assert_eq!(part_2("12\n3\n"), Err(SchematicError::Ragged));
}

#[test]
fn symbol_next_to_a_number_is_found() {
    let (grid, rows, cols) = get_grid(ENGINE).unwrap();
    assert!(has_adjacent_symbol(&grid, 0, 0, 2, rows, cols));
    assert!(!has_adjacent_symbol(&grid, 0, 5, 7, rows, cols));
    assert!(has_adjacent_symbol(&grid, 2, 2, 3, rows, cols));
    assert!(has_adjacent_symbol(&grid, 4, 0, 2, rows, cols));
    assert!(!has_adjacent_symbol(&grid, 5, 7, 8, rows, cols));
    assert!(has_adjacent_symbol(&grid, 9, 5, 7, rows, cols));
}

#[test]
fn number_reaches_both_ways() {
    let (grid, _, cols) = get_grid(ENGINE).unwrap();
    assert_eq!(get_number(&grid, 0, 0, cols), Ok((467, 0, 2)));
    assert_eq!(get_number(&grid, 0, 1, cols), Ok((467, 0, 2)));
    assert_eq!(get_number(&grid, 0, 2, cols), Ok((467, 0, 2)));
    assert_eq!(get_number(&grid, 2, 7, cols), Ok((633, 6, 8)));
    assert_eq!(get_number(&grid, 2, 3, cols), Ok((35, 2, 3)));
    assert_eq!(get_number(&grid, 0, 3, cols), Err(SchematicError::BadNumber));
    let (wide, _, cols) = get_grid("12345678901\n").unwrap();
    assert_eq!(get_number(&wide, 0, 4, cols), Err(SchematicError::BadNumber));
    let (odd, _, cols) = get_grid("1\u{b2}3\n").unwrap();
    assert_eq!(get_number(&odd, 0, 0, cols), Err(SchematicError::BadNumber));
}

#[test]
fn gear_needs_exactly_two_numbers() {
    let (grid, rows, cols) = get_grid(ENGINE).unwrap();
    assert_eq!(get_gear_ratio(&grid, 1, 3, rows, cols), Ok(Some(467 * 35)));
    assert_eq!(get_gear_ratio(&grid, 4, 3, rows, cols), Ok(None));
    assert_eq!(get_gear_ratio(&grid, 8, 5, rows, cols), Ok(Some(755 * 598)));
    assert_eq!(get_gear_ratio(&grid, 3, 6, rows, cols), Ok(None));
    assert_eq!(get_gear_ratio(&grid, 0, 0, rows, cols), Ok(None));
    let (three, rows, cols) = get_grid("1.2\n.*.\n3..\n").unwrap();
    assert_eq!(get_gear_ratio(&three, 1, 1, rows, cols), Ok(None));
    let (split, rows, cols) = get_grid("1.2\n.*.\n").unwrap();
    assert_eq!(get_gear_ratio(&split, 1, 1, rows, cols), Ok(Some(2)));
    let (one, rows, cols) = get_grid("123\n.*.\n").unwrap();
    assert_eq!(get_gear_ratio(&one, 1, 1, rows, cols), Ok(None));
    let (sides, rows, cols) = get_grid("12*34\n").unwrap();
    assert_eq!(get_gear_ratio(&sides, 0, 2, rows, cols), Ok(Some(12 * 34)));
}

#[test]
fn gear_errors() {
    let (big, rows, cols) = get_grid("99999*99999\n").unwrap();
    assert_eq!(get_gear_ratio(&big, 0, 5, rows, cols), Err(SchematicError::Overflow));
    let (odd, rows, cols) = get_grid("1\u{b2}*5\n").unwrap();
    assert_eq!(get_gear_ratio(&odd, 0, 2, rows, cols), Err(SchematicError::BadNumber));
    let (three, rows, cols) = get_grid("1.2\n.*.\n\u{b2}..\n").unwrap();
    assert_eq!(get_gear_ratio(&three, 1, 1, rows, cols), Ok(None));
}

#[test]
fn covered_cells_belong_to_a_found_number() {
    let found = vec![(467, 0, 0, 2), (35, 2, 2, 3)];
    assert!(is_covered(&found, &(0, 0)));
    assert!(is_covered(&found, &(0, 2)));
    assert!(!is_covered(&found, &(0, 3)));
    assert!(!is_covered(&found, &(1, 1)));
    assert!(is_covered(&found, &(2, 3)));
    assert!(!is_covered(&vec![], &(0, 0)));
}

#[test]
fn number_counts_where_it_ends() {
    let (grid, rows, cols) = get_grid(ENGINE).unwrap();
    assert_eq!(value_cell(&grid, 0, 2, rows, cols, false), Ok(467));
    assert_eq!(value_cell(&grid, 0, 1, rows, cols, false), Ok(0));
    assert_eq!(value_cell(&grid, 0, 7, rows, cols, false), Ok(0));
    assert_eq!(value_cell(&grid, 0, 3, rows, cols, false), Ok(0));
    assert_eq!(value_cell(&grid, 1, 3, rows, cols, true), Ok(467 * 35));
    assert_eq!(value_cell(&grid, 4, 3, rows, cols, true), Ok(0));
}

#[test]
fn numbers_at_the_edges_count() {
    assert_eq!(sum_schematic("12*\n", false), Ok(12));
    assert_eq!(sum_schematic("*12\n", false), Ok(12));
    assert_eq!(sum_schematic("12\n.*\n", false), Ok(12));
    assert_eq!(sum_schematic("1*1\n", false), Ok(2));
    assert_eq!(sum_schematic("12.\n...\n..*\n", false), Ok(0));
    assert_eq!(sum_schematic("12\n", false), Ok(0));
    assert_eq!(sum_schematic("5", false), Ok(0));
    assert_eq!(sum_schematic("*", true), Ok(0));
}

#[test]
fn unreadable_number_matters_only_next_to_a_symbol() {
    assert_eq!(sum_schematic("1\u{b2}..\n", false), Ok(0));
    assert_eq!(sum_schematic("1\u{b2}*.\n", false), Err(SchematicError::BadNumber));
    assert_eq!(sum_schematic("99999999999*\n", false), Err(SchematicError::BadNumber));
    assert_eq!(sum_schematic("2147483647*1\n", false), Err(SchematicError::Overflow));
    assert_eq!(sum_schematic("2147483646*1\n", false), Ok(i32::MAX));
}
