use aoc2023::almanac::{
    carry, check_range, get_all, in_ranges, part_1, part_2, read_almanac, read_range, read_seeds,
    reverse_sections, AlmanacError, RangeMap,
};

const ALMANAC: &str = "seeds: 79 14 55 13\n\
\n\
seed-to-soil map:\n\
50 98 2\n\
52 50 48\n\
\n\
soil-to-fertilizer map:\n\
0 15 37\n\
37 52 2\n\
39 0 15\n\
\n\
fertilizer-to-water map:\n\
49 53 8\n\
0 11 42\n\
42 0 7\n\
57 7 4\n\
\n\
water-to-light map:\n\
88 18 7\n\
18 25 70\n\
\n\
light-to-temperature map:\n\
45 77 23\n\
81 45 19\n\
68 64 13\n\
\n\
temperature-to-humidity map:\n\
0 69 1\n\
1 0 69\n\
\n\
humidity-to-location map:\n\
60 56 37\n\
56 93 4\n";

fn chars(s: &str) -> Vec<char> {
    s.chars().collect()
}

fn lines(s: &str) -> Vec<Vec<char>> {
    s.lines().map(chars).collect()
}

fn fields(m: &RangeMap) -> (i64, i64, i64) {
    (m.dst_start, m.src_start, m.range_len)
}

#[test]
fn lowest_location_of_the_seeds() {
    assert_eq!(part_1(ALMANAC), Ok(String::from("35")));
}

#[test]
fn lowest_location_that_leads_back_into_a_range() {
    assert_eq!(part_2(ALMANAC), Ok(String::from("46")));
}

#[test]
fn range_map_maps_its_range_only() {
    let m = RangeMap { dst_start: 52, src_start: 50, range_len: 48 };
    assert_eq!(m.get(49), None);
    assert_eq!(m.get(50), Some(52));
    assert_eq!(m.get(79), Some(81));
    assert_eq!(m.get(97), Some(99));
    assert_eq!(m.get(98), None);
    let empty = RangeMap { dst_start: 5, src_start: 5, range_len: 0 };
    assert_eq!(empty.get(5), None);
    let backwards = RangeMap { dst_start: 5, src_start: 5, range_len: -3 };
    assert_eq!(backwards.get(4), None);
}

#[test]
fn range_map_at_the_ends_of_64_bits() {
    let top = RangeMap { dst_start: i64::MAX - 1, src_start: i64::MAX - 1, range_len: 2 };
    assert_eq!(top.get(i64::MAX), Some(i64::MAX));
    assert_eq!(top.get(i64::MAX - 2), None);
    let wide = RangeMap { dst_start: i64::MIN, src_start: 0, range_len: i64::MAX };
    assert_eq!(wide.get(i64::MAX - 1), Some(-2));
    assert_eq!(wide.get(i64::MAX), None);
    assert_eq!(wide.get(-1), None);
}

#[test]
fn range_map_reads_its_first_three_numbers() {
    assert_eq!(RangeMap::from_str("50 98 2").map(|m| fields(&m)), Ok((50, 98, 2)));
    assert_eq!(RangeMap::from_str("  50\t98  2 and more").map(|m| fields(&m)), Ok((50, 98, 2)));
    assert_eq!(RangeMap::from_str("50 98").map(|m| fields(&m)), Err(AlmanacError::BadRange));
    assert_eq!(RangeMap::from_str("").map(|m| fields(&m)), Err(AlmanacError::BadRange));
    assert_eq!(RangeMap::from_str("50 x 2").map(|m| fields(&m)), Err(AlmanacError::BadNumber));
    assert_eq!(RangeMap::from_str("x").map(|m| fields(&m)), Err(AlmanacError::BadNumber));
    assert_eq!(
        RangeMap::from_str("9223372036854775807 0 2").map(|m| fields(&m)),
        Err(AlmanacError::BadRange)
    );
    assert_eq!(
        RangeMap::from_str("9223372036854775807 0 1").map(|m| fields(&m)),
        Ok((i64::MAX, 0, 1))
    );
}

#[test]
fn inverse_range_swaps_source_and_destination() {
    assert_eq!(read_range(&chars("50 98 2"), true).map(|m| fields(&m)), Ok((98, 50, 2)));
    assert_eq!(read_range(&chars("50 98 2 7"), true).map(|m| fields(&m)), Ok((98, 50, 2)));
    assert_eq!(
        read_range(&chars("50 98 2 x"), true).map(|m| fields(&m)),
        Err(AlmanacError::BadNumber)
    );
    assert_eq!(read_range(&chars("50 98"), true).map(|m| fields(&m)), Err(AlmanacError::BadRange));
    assert_eq!(check_range(1, 2, 3).map(|m| fields(&m)), Ok((1, 2, 3)));
    assert_eq!(check_range(i64::MAX, 2, 2).map(|m| fields(&m)), Err(AlmanacError::BadRange));
    assert_eq!(check_range(i64::MAX, 2, -2).map(|m| fields(&m)), Ok((i64::MAX, 2, -2)));
}

#[test]
fn first_map_that_maps_decides() {
    let maps = vec![
        RangeMap { dst_start: 50, src_start: 98, range_len: 2 },
        RangeMap { dst_start: 52, src_start: 50, range_len: 48 },
        RangeMap { dst_start: 0, src_start: 98, range_len: 2 },
    ];
    assert_eq!(get_all(98, &maps), Some(50));
    assert_eq!(get_all(99, &maps), Some(51));
    assert_eq!(get_all(53, &maps), Some(55));
    assert_eq!(get_all(10, &maps), None);
    assert_eq!(get_all(10, &vec![]), None);
}

#[test]
fn sections_carry_a_seed_to_its_location() {
    let all = lines(ALMANAC);
    let sections = read_almanac(&all, false).unwrap();
    assert_eq!(sections.len(), 7);
    assert_eq!(carry(79, &sections), 82);
    assert_eq!(carry(14, &sections), 43);
    assert_eq!(carry(55, &sections), 86);
    assert_eq!(carry(13, &sections), 35);
    assert_eq!(carry(13, &vec![]), 13);
    let back = reverse_sections(read_almanac(&all, true).unwrap());
    assert_eq!(carry(82, &back), 79);
    assert_eq!(carry(35, &back), 13);
}

#[test]
fn empty_line_closes_a_section_that_is_read_on() {
    let all = lines("seeds: 1\n\nhead\n1 2 3\n\n4 5 6\n");
    let sections = read_almanac(&all, false).unwrap();
    let shape: Vec<usize> = sections.iter().map(|s| s.len()).collect();
    assert_eq!(shape, vec![1, 2]);
    let all = lines("seeds: 1\n1 2 3\nx\n\n\n");
    let sections = read_almanac(&all, false).unwrap();
    let shape: Vec<usize> = sections.iter().map(|s| s.len()).collect();
    assert_eq!(shape, vec![0, 0, 0]);
    assert_eq!(read_almanac(&lines(""), false).unwrap().len(), 1);
}

#[test]
fn seeds_follow_the_first_colon() {
    assert_eq!(read_seeds(&lines("seeds: 79 14 55 13\n")), Ok(vec![79, 14, 55, 13]));
    assert_eq!(read_seeds(&lines("seeds: \n")), Ok(vec![]));
    assert_eq!(read_seeds(&lines("")), Err(AlmanacError::MissingSeeds));
    assert_eq!(read_seeds(&lines("seeds 79\n")), Err(AlmanacError::MissingSeeds));
    assert_eq!(read_seeds(&lines("seeds:\n")), Err(AlmanacError::MissingSeeds));
    assert_eq!(read_seeds(&lines("seeds: 7 x\n")), Err(AlmanacError::BadNumber));
}

#[test]
fn ranges_are_open_at_both_ends() {
    let ranges = vec![(10, 13), (20, 21)];
    assert!(!in_ranges(10, &ranges));
    assert!(in_ranges(11, &ranges));
    assert!(in_ranges(12, &ranges));
    assert!(!in_ranges(13, &ranges));
    assert!(!in_ranges(20, &ranges));
    assert!(!in_ranges(5, &vec![]));
}

#[test]
fn almanac_errors() {
    assert_eq!(part_1(""), Err(AlmanacError::MissingSeeds));
    assert_eq!(part_1("seeds: \n"), Err(AlmanacError::NoSeeds));
    assert_eq!(part_2("seeds: \n"), Err(AlmanacError::NoSeeds));
    assert_eq!(part_1("seeds: 1\n\nhead\n1 2\n"), Err(AlmanacError::BadRange));
    assert_eq!(part_1("seeds: 1\n\nhead\n1 2 y\n"), Err(AlmanacError::BadNumber));
    assert_eq!(part_2("seeds: 9223372036854775807 1\n"), Err(AlmanacError::Overflow));
    assert_eq!(part_1("seeds: 5\n"), Ok(String::from("5")));
    assert_eq!(part_2("seeds: 5 3\n"), Ok(String::from("6")));
    assert_eq!(part_2("seeds: -5 7\n"), Ok(String::from("0")));
    assert_eq!(part_2("seeds: 5\n"), Err(AlmanacError::NoLocation));
}
