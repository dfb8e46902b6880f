use aoc2023::grid::{Grid, GridError};

fn letters() -> Grid<char> {
    Grid::from_str("abc\ndef\n").unwrap()
}

#[test]
fn from_str_reads_one_row_per_line() {
    let grid = letters();
    assert_eq!(grid.shape(), (2, 3));
    assert_eq!(grid.get(&(0, 0)), Some('a'));
    assert_eq!(grid.get(&(1, 2)), Some('f'));
}

#[test]
fn from_str_drops_carriage_returns_before_line_feeds() {
    let grid = Grid::from_str("ab\r\ncd\r\n").unwrap();
    assert_eq!(grid.shape(), (2, 2));
    assert_eq!(grid.get(&(0, 1)), Some('b'));
    assert_eq!(grid.get(&(1, 1)), Some('d'));
}

#[test]
fn from_str_takes_a_last_line_without_line_feed() {
    let grid = Grid::from_str("ab\ncd").unwrap();
    assert_eq!(grid.shape(), (2, 2));
}

#[test]
fn from_str_rejects_rows_of_unequal_length() {
    assert!(matches!(Grid::from_str("abc\nde\n"), Err(GridError::MalformedGrid)));
    assert!(matches!(Grid::from_str("ab\n\ncd\n"), Err(GridError::MalformedGrid)));
}

#[test]
fn from_rows_rejects_rows_of_unequal_length() {
    let rows = vec![vec![1u8, 2], vec![3u8]];
    assert!(matches!(Grid::from_rows(rows), Err(GridError::MalformedGrid)));
}

#[test]
fn from_rows_keeps_the_rows() {
    let grid = Grid::from_rows(vec![vec![1u8, 2], vec![3u8, 4], vec![5u8, 6]]).unwrap();
    assert_eq!(grid.shape(), (3, 2));
    assert_eq!(grid.get(&(2, 0)), Some(5));
}

#[test]
fn empty_grid_has_shape_zero() {
    let grid = Grid::from_str("").unwrap();
    assert_eq!(grid.shape(), (0, 0));
    assert!(!grid.is_valid(&(0, 0)));
    assert_eq!(grid.get(&(0, 0)), None);
    assert_eq!(grid.find(&'x'), None);
    assert_eq!(grid.iter_positions().next(), None);
}

#[test]
fn rows_without_cells_hold_no_position() {
    let grid = Grid::from_str("\n\n").unwrap();
    assert_eq!(grid.shape(), (2, 0));
    assert!(!grid.is_valid(&(0, 0)));
    assert_eq!(grid.iter_positions().next(), None);
    assert_eq!(grid.iter_items().next(), None);
}

#[test]
fn is_valid_is_a_range_check() {
    let grid = letters();
    assert!(grid.is_valid(&(0, 0)));
    assert!(grid.is_valid(&(1, 2)));
    assert!(!grid.is_valid(&(2, 0)));
    assert!(!grid.is_valid(&(0, 3)));
    assert!(!grid.is_valid(&(usize::MAX, usize::MAX)));
}

#[test]
fn get_outside_is_none() {
    let grid = letters();
    assert_eq!(grid.get(&(2, 0)), None);
    assert_eq!(grid.get(&(0, 3)), None);
    assert_eq!(grid.get(&(1, 1)), Some('e'));
}

#[test]
fn find_returns_the_row_major_earliest() {
    let grid = Grid::from_str("abx\nxbx\n").unwrap();
    assert_eq!(grid.find(&'x'), Some((0, 2)));
    assert_eq!(grid.find(&'b'), Some((0, 1)));
    assert_eq!(grid.find(&'a'), Some((0, 0)));
}

#[test]
fn find_prefers_an_earlier_row_over_an_earlier_column() {
    let grid = Grid::from_str("..x\nx..\n").unwrap();
    assert_eq!(grid.find(&'x'), Some((0, 2)));
}

#[test]
fn find_of_an_absent_value_is_none() {
    assert_eq!(letters().find(&'z'), None);
}

#[test]
fn apply_offset_moves_inside_the_grid() {
    let grid = letters();
    assert_eq!(grid.apply_offset(&(0, 0), &(1, 2)), Some((1, 2)));
    assert_eq!(grid.apply_offset(&(1, 2), &(-1, -2)), Some((0, 0)));
    assert_eq!(grid.apply_offset(&(1, 1), &(0, 0)), Some((1, 1)));
}

#[test]
fn apply_offset_never_leaves_the_grid() {
    let grid = letters();
    assert_eq!(grid.apply_offset(&(0, 0), &(-1, 0)), None);
    assert_eq!(grid.apply_offset(&(0, 0), &(0, -1)), None);
    assert_eq!(grid.apply_offset(&(1, 2), &(1, 0)), None);
    assert_eq!(grid.apply_offset(&(1, 2), &(0, 1)), None);
    assert_eq!(grid.apply_offset(&(0, 0), &(i32::MAX, 0)), None);
    assert_eq!(grid.apply_offset(&(0, 0), &(i32::MIN, i32::MIN)), None);
    assert_eq!(grid.apply_offset(&(usize::MAX, 0), &(1, 0)), None);
    for row in -3i32..6 {
        for col in -3i32..6 {
            if let Some(p) = grid.apply_offset(&(1, 1), &(row, col)) {
                assert!(p.0 < 2 && p.1 < 3);
                assert_eq!((p.0 as i32, p.1 as i32), (1 + row, 1 + col));
            } else {
                assert!(1 + row < 0 || 1 + row >= 2 || 1 + col < 0 || 1 + col >= 3);
            }
        }
    }
}

#[test]
fn apply_offset_can_bring_an_outside_position_in() {
    let grid = letters();
    assert_eq!(grid.apply_offset(&(5, 5), &(-4, -4)), Some((1, 1)));
}

#[test]
fn neighbors_come_north_west_east_south() {
    let grid = Grid::from_str("abc\ndef\nghi\n").unwrap();
    assert_eq!(
        grid.neighbors(&(1, 1), false),
        vec![Some((0, 1)), Some((1, 0)), Some((1, 2)), Some((2, 1))]
    );
}

#[test]
fn neighbors_with_diagonals_come_row_by_row() {
    let grid = Grid::from_str("abc\ndef\nghi\n").unwrap();
    assert_eq!(
        grid.neighbors(&(1, 1), true),
        vec![
            Some((0, 0)),
            Some((0, 1)),
            Some((0, 2)),
            Some((1, 0)),
            Some((1, 2)),
            Some((2, 0)),
            Some((2, 1)),
            Some((2, 2))
        ]
    );
}

#[test]
fn neighbors_keep_a_slot_for_each_direction() {
    let grid = Grid::from_str("abc\ndef\nghi\n").unwrap();
    assert_eq!(grid.neighbors(&(0, 0), false), vec![None, None, Some((0, 1)), Some((1, 0))]);
    assert_eq!(grid.neighbors(&(2, 2), false), vec![Some((1, 2)), Some((2, 1)), None, None]);
    assert_eq!(
        grid.neighbors(&(0, 2), true),
        vec![None, None, None, Some((0, 1)), None, Some((1, 1)), Some((1, 2)), None]
    );
}

#[test]
fn iter_positions_is_row_major_and_complete() {
    let grid = letters();
    let mut it = grid.iter_positions();
    let mut seen = Vec::new();
    while let Some(p) = it.next() {
        seen.push(p);
    }
    assert_eq!(seen, vec![(0, 0), (0, 1), (0, 2), (1, 0), (1, 1), (1, 2)]);
    assert_eq!(it.next(), None);
    assert_eq!(it.next(), None);
}

#[test]
fn iter_positions_yields_each_position_once() {
    let grid = Grid::from_rows(vec![vec![0u8; 7]; 5]).unwrap();
    let mut it = grid.iter_positions();
    let mut seen = Vec::new();
    while let Some(p) = it.next() {
        assert!(grid.is_valid(&p));
        assert!(!seen.contains(&p));
        if let Some(last) = seen.last() {
            assert!(*last < p);
        }
        seen.push(p);
    }
    assert_eq!(seen.len(), 5 * 7);
}

#[test]
fn iter_positions_starts_again_from_the_top() {
    let grid = letters();
    let mut first = grid.iter_positions();
    first.next();
    first.next();
    let mut second = grid.iter_positions();
    assert_eq!(second.next(), Some((0, 0)));
    assert_eq!(first.next(), Some((0, 2)));
}

#[test]
fn iter_items_yields_every_value_in_row_major_order() {
    let grid = letters();
    let mut it = grid.iter_items();
    let mut seen = String::new();
    while let Some(c) = it.next() {
        seen.push(c);
    }
    assert_eq!(seen, "abcdef");
    assert_eq!(it.next(), None);
}
