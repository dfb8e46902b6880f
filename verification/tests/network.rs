use aoc2023::network::{
    checked_lcm, find_node, get_nodes, get_steps, greatest_common_divisor, part_1, part_2,
    reached, read_network, Goal, NetworkError, Node,
};

const SHORT: &str = "RL\n\nAAA = (BBB, CCC)\nBBB = (DDD, EEE)\nCCC = (ZZZ, GGG)\nDDD = (DDD, DDD)\nEEE = (EEE, EEE)\nGGG = (GGG, GGG)\nZZZ = (ZZZ, ZZZ)\n";

const REPEATED: &str = "LLR\n\nAAA = (BBB, BBB)\nBBB = (AAA, ZZZ)\nZZZ = (ZZZ, ZZZ)\n";

const GHOSTS: &str = "LR\n\n11A = (11B, XXX)\n11B = (XXX, 11Z)\n11Z = (11B, XXX)\n22A = (22B, XXX)\n22B = (22C, 22C)\n22C = (22Z, 22Z)\n22Z = (22B, 22B)\nXXX = (XXX, XXX)\n";

fn chars(s: &str) -> Vec<char> {
    s.chars().collect()
}

fn labels(node: &Node) -> (String, String, String) {
    (node.label.clone(), node.left.clone(), node.right.clone())
}

fn triple(a: &str, b: &str, c: &str) -> (String, String, String) {
    (a.to_string(), b.to_string(), c.to_string())
}

#[test]
fn steps_to_the_goal() {
    assert_eq!(part_1(SHORT), Ok(String::from("2")));
    assert_eq!(part_1(REPEATED), Ok(String::from("6")));
}

#[test]
fn steps_of_all_ghosts_together() {
    assert_eq!(part_2(GHOSTS), Ok(String::from("6")));
    assert_eq!(part_2(SHORT), Ok(String::from("2")));
}

#[test]
fn node_lies_at_fixed_bytes() {
    assert_eq!(Node::from_str("AAA = (BBB, CCC)").map(|n| labels(&n)), Ok(triple("AAA", "BBB", "CCC")));
    assert_eq!(Node::from_str("AAA_=_(BBB,_CCC").map(|n| labels(&n)), Ok(triple("AAA", "BBB", "CCC")));
    assert_eq!(Node::from_str("abcdefghijklmnopq").map(|n| labels(&n)), Ok(triple("abc", "hij", "mno")));
    assert_eq!(Node::from_str("\u{e9}A = (BBB, CCC)x").map(|n| labels(&n)), Ok(triple("\u{e9}A", "BBB", "CCC")));
}

#[test]
fn short_or_misplaced_lines_are_no_nodes() {
    assert_eq!(Node::from_str("AAA = (BBB, CC").map(|n| labels(&n)), Err(NetworkError::BadNode));
    assert_eq!(Node::from_str("").map(|n| labels(&n)), Err(NetworkError::BadNode));
    assert_eq!(Node::from_str("AA\u{e9} = (BBB, CCC)").map(|n| labels(&n)), Err(NetworkError::BadNode));
    assert_eq!(Node::from_str("AAA = (BB\u{e9}, CCC)").map(|n| labels(&n)), Err(NetworkError::BadNode));
}

#[test]
fn node_agrees_with_byte_slices() {
    for line in ["AAA = (BBB, CCC)", "\u{e9}A = (BBB, CCC)x", "A\u{e9} = (\u{4e2d}, CCC)", "AAA = (B\u{e9}B, CCC)", "0123456789abcde", "0123456789abcd"] {
        let expected = match (line.get(0..3), line.get(7..10), line.get(12..15)) {
            (Some(a), Some(b), Some(c)) => Ok(triple(a, b, c)),
            _ => Err(NetworkError::BadNode),
        };
        assert_eq!(Node::from_str(line).map(|n| labels(&n)), expected);
    }
}

#[test]
fn last_node_with_a_label_is_found() {
    let lines: Vec<Vec<char>> = "x\n\nAAA = (BBB, CCC)\nBBB = (AAA, AAA)\nAAA = (ZZZ, ZZZ)\n".lines().map(chars).collect();
    let nodes = get_nodes(&lines, 2).unwrap();
    assert_eq!(nodes.len(), 3);
    assert_eq!(find_node(&nodes, &String::from("AAA")), Some(2));
    assert_eq!(find_node(&nodes, &String::from("BBB")), Some(1));
    assert_eq!(find_node(&nodes, &String::from("CCC")), None);
    assert_eq!(get_nodes(&lines, 5).unwrap().len(), 0);
    assert_eq!(get_nodes(&lines, 9).unwrap().len(), 0);
    assert!(matches!(get_nodes(&lines, 0), Err(NetworkError::BadNode)));
}

#[test]
fn goals() {
    assert!(reached(&Goal::Label(String::from("ZZZ")), &String::from("ZZZ")));
    assert!(!reached(&Goal::Label(String::from("ZZZ")), &String::from("ZZ")));
    assert!(reached(&Goal::LastChar('Z'), &String::from("11Z")));
    assert!(reached(&Goal::LastChar('Z'), &String::from("Z")));
    assert!(!reached(&Goal::LastChar('Z'), &String::from("Z1")));
    assert!(!reached(&Goal::LastChar('Z'), &String::from("")));
}

#[test]
fn walk_errors() {
    let (instructions, nodes) = read_network(SHORT).unwrap();
    let goal = Goal::Label(String::from("ZZZ"));
    assert_eq!(get_steps(&instructions, 0, &nodes, &goal), Ok(2));
    assert_eq!(get_steps(&chars("L"), 0, &nodes, &goal), Err(NetworkError::Endless));
    assert_eq!(get_steps(&chars(""), 0, &nodes, &goal), Err(NetworkError::Endless));
    assert_eq!(get_steps(&chars("RX"), 0, &nodes, &goal), Err(NetworkError::BadInstruction));
    assert_eq!(get_steps(&chars("RL"), 6, &nodes, &goal), Ok(1));
    assert_eq!(part_1("L\n\nAAA = (BBB, BBB)\n"), Err(NetworkError::UnknownNode));
    assert_eq!(part_1("L\n\nBBB = (AAA, AAA)\n"), Err(NetworkError::UnknownNode));
    assert_eq!(part_1("L\n\nAAA = (ZZZ, ZZZ)\n"), Ok(String::from("1")));
    assert_eq!(part_1("L\n\nAAA\n"), Err(NetworkError::BadNode));
    assert_eq!(part_1(""), Err(NetworkError::MissingInstructions));
    assert_eq!(part_2(""), Err(NetworkError::MissingInstructions));
    assert_eq!(part_1("L\n"), Err(NetworkError::UnknownNode));
    assert_eq!(part_2("L\n"), Ok(String::from("1")));
    assert_eq!(part_2("L\n\nBBB = (BBB, BBB)\n"), Ok(String::from("1")));
    assert_eq!(part_2("L\n\nBBA = (BBA, BBA)\n"), Err(NetworkError::Endless));
}

#[test]
fn greatest_common_divisors() {
    assert_eq!(greatest_common_divisor(12, 18), 6);
    assert_eq!(greatest_common_divisor(18, 12), 6);
    assert_eq!(greatest_common_divisor(7, 13), 1);
    assert_eq!(greatest_common_divisor(0, 5), 5);
    assert_eq!(greatest_common_divisor(5, 0), 5);
    assert_eq!(greatest_common_divisor(0, 0), 0);
    assert_eq!(greatest_common_divisor(u64::MAX, u64::MAX - 1), 1);
}

#[test]
fn least_common_multiples() {
    assert_eq!(checked_lcm(4, 6), Some(12));
    assert_eq!(checked_lcm(6, 4), Some(12));
    assert_eq!(checked_lcm(1, 1), Some(1));
    assert_eq!(checked_lcm(7, 13), Some(91));
    assert_eq!(checked_lcm(12, 12), Some(12));
    assert_eq!(checked_lcm(i64::MAX, i64::MAX), Some(i64::MAX));
    assert_eq!(checked_lcm(i64::MAX, 1), Some(i64::MAX));
    assert_eq!(checked_lcm(i64::MAX, 2), None);
    assert_eq!(checked_lcm(1 << 40, (1 << 40) + 1), None);
    assert_eq!(checked_lcm(1 << 62, 1 << 61), Some(1 << 62));
    assert_eq!(checked_lcm(3037000500, 3037000499), Some(3037000500 * 3037000499));
}

fn label(ghost: usize, node: usize, length: usize) -> String {
    let alphabet: Vec<char> =
        "0123456789abcdefghijklmnopqrstuvwxyzBCDEFGHIJKLMNOPQRSTUVWXY".chars().collect();
    let index = ghost * 100 + node;
    let tail = if node == 0 {
        'A'
    } else if node == length {
        'Z'
    } else {
        'm'
    };
    let mut text = String::new();
    text.push(alphabet[index / alphabet.len()]);
    text.push(alphabet[index % alphabet.len()]);
    text.push(tail);
    text
}

fn ring(ghost: usize, length: usize) -> String {
    let mut text = String::new();
    for node in 0..=length {
        let next = if node == length { 1 } else { node + 1 };
        let to = label(ghost, next, length);
        text.push_str(&format!("{} = ({}, {})\n", label(ghost, node, length), to, to));
    }
    text
}

fn rings(lengths: &[usize]) -> String {
    let mut text = String::from("L\n\n");
    for (ghost, length) in lengths.iter().enumerate() {
        text.push_str(&ring(ghost, *length));
    }
    text
}

#[test]
fn rings_of_coprime_lengths_multiply() {
    assert_eq!(part_2(&rings(&[3, 5])), Ok(String::from("15")));
    assert_eq!(part_2(&rings(&[4, 6])), Ok(String::from("12")));
    assert_eq!(part_2(&rings(&[7])), Ok(String::from("7")));
}

#[test]
fn steps_of_many_ghosts_can_leave_64_bits() {
    let primes = [97, 89, 83, 79, 73, 71, 67, 61, 59, 53, 47];
    let product: i64 = primes[..10].iter().map(|p| *p as i64).product();
    assert_eq!(part_2(&rings(&primes[..10])), Ok(product.to_string()));
    assert_eq!(part_2(&rings(&primes)), Err(NetworkError::Overflow));
}
