use aoc2023::cubes::{
    find_color, get_samples, is_possible, look_up, minimum_power, new_bag, part_1, part_2,
    partition_game_str, read_sample, sum_games, CubeError,
};

const GAMES: &str = "Game 1: 3 blue, 4 red; 1 red, 2 green, 6 blue; 2 green\n\
                     Game 2: 1 blue, 2 green; 3 green, 4 blue, 1 red; 1 green, 1 blue\n\
                     Game 3: 8 green, 6 blue, 20 red; 5 blue, 4 red, 13 green; 5 green, 1 red\n\
                     Game 4: 1 green, 3 red, 6 blue; 3 green, 6 red; 3 green, 15 blue, 14 red\n\
                     Game 5: 6 red, 1 blue, 3 green; 2 blue, 1 red, 2 green\n";

fn chars(s: &str) -> Vec<char> {
    s.chars().collect()
}

#[test]
fn ids_of_possible_games_sum() {
    assert_eq!(part_1(GAMES), Ok(String::from("8")));
}

#[test]
fn powers_of_games_sum() {
    assert_eq!(part_2(GAMES), Ok(String::from("2286")));
}

#[test]
fn line_splits_into_id_and_rounds() {
    assert_eq!(
        partition_game_str(&chars("Game 12: 3 blue; 4 red")),
        Some((chars("12"), chars("3 blue; 4 red")))
    );
    assert_eq!(partition_game_str(&chars("Game 7: ")), Some((chars("7"), chars(""))));
    assert_eq!(partition_game_str(&chars("Game : x")), Some((chars(""), chars("x"))));
    assert_eq!(partition_game_str(&chars("abcde9:_x")), Some((chars("9"), chars("x"))));
}

#[test]
fn line_without_a_proper_head_is_no_game() {
    assert_eq!(partition_game_str(&chars("Game 12 3 blue")), None);
    assert_eq!(partition_game_str(&chars("Game 12:")), None);
    assert_eq!(partition_game_str(&chars("Gam: x")), None);
    assert_eq!(partition_game_str(&chars("")), None);
    assert_eq!(partition_game_str(&chars("Game\u{e9}: x")), None);
    assert_eq!(partition_game_str(&chars("Game 1:\u{e9}x")), None);
    assert_eq!(partition_game_str(&chars("Gam\u{e9}12: x")), Some((chars("12"), chars("x"))));
}

#[test]
fn sample_is_a_number_and_a_colour() {
    assert_eq!(read_sample(&chars("3 blue")), Ok((chars("blue"), 3)));
    assert_eq!(read_sample(&chars("-3 dark blue")), Ok((chars("dark blue"), -3)));
    assert_eq!(read_sample(&chars("3 ")), Ok((chars(""), 3)));
    assert_eq!(read_sample(&chars("3blue")), Err(CubeError::BadSample));
    assert_eq!(read_sample(&chars("")), Err(CubeError::BadSample));
    assert_eq!(read_sample(&chars("three blue")), Err(CubeError::BadNumber));
    assert_eq!(read_sample(&chars(" 3 blue")), Err(CubeError::BadNumber));
    assert_eq!(read_sample(&chars("99999999999 blue")), Err(CubeError::BadNumber));
}

#[test]
fn samples_come_round_by_round() {
    assert_eq!(
        get_samples(&chars("3 blue, 4 red; 1 red, 2 green, 6 blue; 2 green")),
        Ok(vec![
            (chars("blue"), 3),
            (chars("red"), 4),
            (chars("red"), 1),
            (chars("green"), 2),
            (chars("blue"), 6),
            (chars("green"), 2)
        ])
    );
    assert_eq!(get_samples(&chars("3 blue")), Ok(vec![(chars("blue"), 3)]));
    assert_eq!(get_samples(&chars("")), Err(CubeError::BadSample));
    assert_eq!(get_samples(&chars("3 blue; ")), Err(CubeError::BadSample));
    assert_eq!(get_samples(&chars("3 blue;4 red")), Ok(vec![(chars("blue;4 red"), 3)]));
    assert_eq!(get_samples(&chars("3 blue, x red; y")), Err(CubeError::BadNumber));
}

#[test]
fn bag_holds_twelve_thirteen_fourteen() {
    let bag = new_bag();
    assert_eq!(look_up(&bag, &chars("red")), Some(12));
    assert_eq!(look_up(&bag, &chars("green")), Some(13));
    assert_eq!(look_up(&bag, &chars("blue")), Some(14));
    assert_eq!(look_up(&bag, &chars("pink")), None);
    assert_eq!(find_color(&bag, &chars("green")), 1);
    assert_eq!(find_color(&bag, &chars("pink")), 3);
}

#[test]
fn game_is_possible_when_no_sample_exceeds_the_bag() {
    let bag = new_bag();
    assert_eq!(is_possible(&chars("12 red, 13 green, 14 blue"), &bag), Ok(true));
    assert_eq!(is_possible(&chars("12 red; 13 red"), &bag), Ok(false));
    assert_eq!(is_possible(&chars("1 red; 15 blue"), &bag), Ok(false));
    assert_eq!(is_possible(&chars("1 pink"), &bag), Err(CubeError::UnknownColor));
    assert_eq!(is_possible(&chars("13 red; 1 pink"), &bag), Ok(false));
    assert_eq!(is_possible(&chars("1 pink; 13 red"), &bag), Err(CubeError::UnknownColor));
    assert_eq!(is_possible(&chars("13 red; pink"), &bag), Err(CubeError::BadSample));
}

#[test]
fn power_multiplies_the_largest_numbers() {
    assert_eq!(minimum_power(&chars("3 blue, 4 red; 1 red, 2 green, 6 blue; 2 green")), Ok(48));
    assert_eq!(minimum_power(&chars("8 green, 6 blue, 20 red; 5 blue, 4 red, 13 green; 5 green, 1 red")), Ok(1560));
    assert_eq!(minimum_power(&chars("5 pink")), Ok(5));
    assert_eq!(minimum_power(&chars("5 a, 7 b, 2 c, 3 d")), Ok(210));
    assert_eq!(minimum_power(&chars("-5 a, -7 a, 2 b")), Ok(-10));
    assert_eq!(minimum_power(&chars("0 a, 99999 b, 99999 c")), Ok(0));
    assert_eq!(minimum_power(&chars("99999 b, 99999 c, 0 a")), Ok(0));
}

#[test]
fn power_that_leaves_32_bits_overflows() {
    assert_eq!(minimum_power(&chars("65536 a, 32768 b")), Err(CubeError::Overflow));
    assert_eq!(minimum_power(&chars("65536 a, -32768 b")), Ok(i32::MIN));
    assert_eq!(minimum_power(&chars("65536 a, 32767 b")), Ok(65536 * 32767));
    assert_eq!(minimum_power(&chars("99999 a, 99999 b, 99999 c, 99999 d")), Err(CubeError::Overflow));
}

#[test]
fn record_errors_name_the_first_bad_line() {
    assert_eq!(sum_games("Game 1: 1 red\nnonsense\nGame x: 1 red\n", false), Err(CubeError::BadGame));
    assert_eq!(sum_games("Game 1: 1 red\nGame x: 1 red\nnonsense\n", false), Err(CubeError::BadNumber));
    assert_eq!(sum_games("Game x: 1 red\n", true), Ok(1));
    assert_eq!(sum_games("Game 2147483647: 1 red\nGame 1: 1 red\n", false), Err(CubeError::Overflow));
    assert_eq!(sum_games("", false), Ok(0));
    assert_eq!(sum_games("Game 5: 20 red\nGame 6: 1 red\n", false), Ok(6));
}
