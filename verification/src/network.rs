//! A network of nodes, each leading left to one node and right to another,
//! walked by a list of instructions that is read again and again.

use vstd::prelude::*;
use crate::grid::rows_of;
use crate::text::{
    byte_range,
    byte_slice,
    chars_of,
    lines_of,
    signed_decimal,
    signed_decimal_string,
    string_of,
    text_lines,
};

verus! {

/// What can go wrong on a walk through the network.
#[derive(Clone, Copy, Debug, PartialEq, Eq, Structural)]
pub enum NetworkError {
    /// The document has no line, and so no instructions.
    MissingInstructions,
    /// A line is too short to hold a node, or its labels do not lie where
    /// they should.
    BadNode,
    /// A label leads to no node.
    UnknownNode,
    /// An instruction is neither `L` nor `R`.
    BadInstruction,
    /// The walk does not reach its goal within one step for every node and
    /// every instruction.
    Endless,
    /// The number of steps does not fit in 64 bits.
    Overflow,
}

/// A node of the network: its label, and the labels of the nodes to its left
/// and to its right.
#[derive(Clone, Debug)]
pub struct Node {
    pub label: String,
    pub left: String,
    pub right: String,
}

/// Where a walk ends: at a given label, or at any label with a given last
/// character.
#[derive(Clone, Debug)]
pub enum Goal {
    Label(String),
    LastChar(char),
}

/// The labels of a node as sequences of characters.
pub struct NodeView {
    pub label: Seq<char>,
    pub left: Seq<char>,
    pub right: Seq<char>,
}

impl Node {
    /// The labels of the node.
    pub open spec fn view(&self) -> NodeView {
        NodeView { label: self.label@, left: self.left@, right: self.right@ }
    }

    /// Reads a node from a line of the form `AAA = (BBB, CCC)`: the label
    /// lies in bytes 0 to 2, the label to the left in bytes 7 to 9, the label
    /// to the right in bytes 12 to 14.
    pub fn from_str(s: &str) -> (r: Result<Node, NetworkError>)
        ensures
            match r {
                Ok(node) => node_of(s@) == Some(node@),
                Err(e) => e == NetworkError::BadNode && node_of(s@) is None,
            },
    {
        let line = chars_of(s);
        Node::from_chars(&line)
    }

    /// Reads a node from the characters of a line.
    pub fn from_chars(line: &Vec<char>) -> (r: Result<Node, NetworkError>)
        ensures
            match r {
                Ok(node) => node_of(line@) == Some(node@),
                Err(e) => e == NetworkError::BadNode && node_of(line@) is None,
            },
    {
        let label = match byte_slice(line, 0, 3) {
            Some(part) => string_of(&part),
            None => {
                return Err(NetworkError::BadNode);
            },
        };
        let left = match byte_slice(line, 7, 10) {
            Some(part) => string_of(&part),
            None => {
                return Err(NetworkError::BadNode);
            },
        };
        let right = match byte_slice(line, 12, 15) {
            Some(part) => string_of(&part),
            None => {
                return Err(NetworkError::BadNode);
            },
        };
        Ok(Node { label, left, right })
    }
}

/// The node that `line` writes.
pub open spec fn node_of(line: Seq<char>) -> Option<NodeView> {
    match (byte_range(line, 0, 3), byte_range(line, 7, 10), byte_range(line, 12, 15)) {
        (Some(label), Some(left), Some(right)) => Some(NodeView { label, left, right }),
        _ => None,
    }
}

/// The nodes of a list, as their labels.
pub open spec fn nodes_of(nodes: Seq<Node>) -> Seq<NodeView> {
    Seq::new(nodes.len(), |i: int| nodes[i]@)
}

/// The nodes that `lines` write, or `None` when one of them writes none.
pub open spec fn nodes_in(lines: Seq<Seq<char>>) -> Option<Seq<NodeView>>
    decreases lines.len(),
{
    if lines.len() == 0 {
        Some(Seq::empty())
    } else {
        match (nodes_in(lines.drop_last()), node_of(lines.last())) {
            (Some(nodes), Some(node)) => Some(nodes.push(node)),
            _ => None,
        }
    }
}

/// The lines from line `first` on; none when there are fewer.
pub open spec fn lines_from(lines: Seq<Seq<char>>, first: int) -> Seq<Seq<char>> {
    if 0 <= first <= lines.len() {
        lines.skip(first)
    } else {
        Seq::empty()
    }
}

/// A line that writes no node spoils the whole list.
pub proof fn lemma_nodes_error_stays(lines: Seq<Seq<char>>, n: int)
    requires
        0 <= n <= lines.len(),
        nodes_in(lines.take(n)) is None,
    ensures
        nodes_in(lines) is None,
    decreases lines.len() - n,
{
    if n < lines.len() {
        assert(lines.take(n + 1).drop_last() =~= lines.take(n));
        lemma_nodes_error_stays(lines, n + 1);
    } else {
        assert(lines.take(n) =~= lines);
    }
}

/// Reads the nodes of the network from `lines`, from line `first` on.
pub fn get_nodes(lines: &Vec<Vec<char>>, first: usize) -> (r: Result<Vec<Node>, NetworkError>)
    ensures
        match r {
            Ok(nodes) => nodes_in(lines_from(rows_of(lines@), first as int)) == Some(nodes_of(nodes@)),
            Err(e) => e == NetworkError::BadNode && nodes_in(lines_from(rows_of(lines@), first as int))
                is None,
        },
{
    let ghost rest = lines_from(rows_of(lines@), first as int);
    let mut node_vec: Vec<Node> = Vec::new();
    if first >= lines.len() {
        proof {
            assert(rest.len() == 0);
            assert(nodes_of(node_vec@) =~= Seq::<NodeView>::empty());
        }
        return Ok(node_vec);
    }
    let mut i: usize = first;
    proof {
        assert(rest.take(0) =~= Seq::<Seq<char>>::empty());
        assert(nodes_of(node_vec@) =~= Seq::<NodeView>::empty());
    }
    while i < lines.len()
        invariant
            first <= i <= lines.len(),
            rest == lines_from(rows_of(lines@), first as int),
            nodes_in(rest.take(i - first)) == Some(nodes_of(node_vec@)),
        decreases lines.len() - i,
    {
        proof {
            assert(rest.take(i + 1 - first).drop_last() =~= rest.take(i - first));
            assert(rest.take(i + 1 - first).last() == lines@[i as int]@);
        }
        match Node::from_chars(&lines[i]) {
            Ok(node) => {
                let ghost before = nodes_of(node_vec@);
                node_vec.push(node);
                proof {
                    assert(nodes_of(node_vec@) =~= before.push(node@));
                }
            },
            Err(e) => {
                proof {
                    lemma_nodes_error_stays(rest, i + 1 - first);
                }
                return Err(NetworkError::BadNode);
            },
        }
        i += 1;
    }
    proof {
        assert(rest.take(lines.len() - first) =~= rest);
    }
    Ok(node_vec)
}

/// The place of the last of the first `n` nodes that has the label `label`.
pub open spec fn labelled(nodes: Seq<NodeView>, label: Seq<char>, n: int) -> Option<int>
    decreases n,
{
    if n <= 0 {
        None
    } else if nodes[n - 1].label == label {
        Some(n - 1)
    } else {
        labelled(nodes, label, n - 1)
    }
}

/// The place of the node that a label leads to: the last node with that
/// label.
pub open spec fn node_at(nodes: Seq<NodeView>, label: Seq<char>) -> Option<int> {
    labelled(nodes, label, nodes.len() as int)
}

/// The place of the node that `label` leads to: the last node with that
/// label.
pub fn find_node(nodes: &Vec<Node>, label: &String) -> (r: Option<usize>)
    ensures
        match r {
            Some(i) => node_at(nodes_of(nodes@), label@) == Some(i as int) && i < nodes@.len(),
            None => node_at(nodes_of(nodes@), label@) is None,
        },
{
    let ghost all = nodes_of(nodes@);
    let mut k: usize = nodes.len();
    while k > 0
        invariant
            k <= nodes.len(),
            all == nodes_of(nodes@),
            node_at(all, label@) == labelled(all, label@, k as int),
        decreases k,
    {
        k -= 1;
        proof {
            assert(all[k as int] == nodes@[k as int]@);
        }
        if nodes[k].label == *label {
            return Some(k);
        }
    }
    None
}

/// What a goal is to its contracts.
pub enum GoalView {
    Label(Seq<char>),
    LastChar(char),
}

impl Goal {
    /// The goal with its label as a sequence of characters.
    pub open spec fn view(&self) -> GoalView {
        match self {
            Goal::Label(l) => GoalView::Label(l@),
            Goal::LastChar(c) => GoalView::LastChar(*c),
        }
    }
}

/// Whether `label` is the goal.
pub open spec fn is_goal(goal: GoalView, label: Seq<char>) -> bool {
    match goal {
        GoalView::Label(l) => label == l,
        GoalView::LastChar(c) => label.len() > 0 && label.last() == c,
    }
}

/// Whether `label` is the goal.
pub fn reached(goal: &Goal, label: &String) -> (r: bool)
    ensures
        r == is_goal(goal@, label@),
{
    match goal {
        Goal::Label(l) => *label == *l,
        Goal::LastChar(c) => {
            let chars = chars_of(label.as_str());
            chars.len() > 0 && chars[chars.len() - 1] == *c
        },
    }
}

/// The most steps that a walk takes: one for every node and every
/// instruction, but no more than fit in 64 bits.
pub open spec fn step_limit(instructions: Seq<char>, nodes: Seq<NodeView>) -> int {
    let states = instructions.len() * nodes.len();
    if states > i64::MAX {
        i64::MAX as int
    } else {
        states as int
    }
}

/// The number of steps from node `at`, after `done` steps, to the goal. Each
/// step reads the next instruction, beginning again at the end of the list,
/// and takes the label to the left or to the right. If that label is the goal
/// the walk ends; if not, it goes on from the last node with that label.
pub open spec fn steps_from(
    instructions: Seq<char>,
    nodes: Seq<NodeView>,
    goal: GoalView,
    at: int,
    done: int,
) -> Result<i64, NetworkError>
    decreases step_limit(instructions, nodes) - done,
{
    if done < 0 || done >= step_limit(instructions, nodes) || instructions.len() == 0 {
        Err(NetworkError::Endless)
    } else {
        let c = instructions[done % (instructions.len() as int)];
        if c != 'L' && c != 'R' {
            Err(NetworkError::BadInstruction)
        } else {
            let label = if c == 'L' {
                nodes[at].left
            } else {
                nodes[at].right
            };
            if is_goal(goal, label) {
                Ok((done + 1) as i64)
            } else {
                match node_at(nodes, label) {
                    Some(next) => steps_from(instructions, nodes, goal, next, done + 1),
                    None => Err(NetworkError::UnknownNode),
                }
            }
        }
    }
}

/// The number of steps from node `start` to the goal.
pub fn get_steps(instructions: &Vec<char>, start: usize, nodes: &Vec<Node>, goal: &Goal) -> (r:
    Result<i64, NetworkError>)
    requires
        start < nodes@.len(),
    ensures
        r == steps_from(instructions@, nodes_of(nodes@), goal@, start as int, 0),
{
    let ghost all = nodes_of(nodes@);
    let n_instr: usize = instructions.len();
    assert(n_instr * nodes.len() <= u128::MAX) by (nonlinear_arith)
        requires
            n_instr <= u64::MAX,
            nodes.len() <= u64::MAX,
    ;
    let states: u128 = n_instr as u128 * nodes.len() as u128;
    let limit: i64 = if states > i64::MAX as u128 {
        i64::MAX
    } else {
        states as i64
    };
    let mut current: usize = start;
    let mut steps: i64 = 0;
    let mut phase: usize = 0;
    while steps < limit && n_instr > 0
        invariant
            0 <= steps <= limit,
            limit == step_limit(instructions@, all),
            all == nodes_of(nodes@),
            n_instr == instructions@.len(),
            current < nodes@.len(),
            n_instr > 0 ==> phase == (steps as int) % (n_instr as int),
            n_instr > 0 ==> phase < n_instr,
            steps_from(instructions@, all, goal@, start as int, 0) == steps_from(
                instructions@,
                all,
                goal@,
                current as int,
                steps as int,
            ),
        decreases limit - steps,
    {
        let c = instructions[phase];
        proof {
            assert(all[current as int] == nodes@[current as int]@);
        }
        if c != 'L' && c != 'R' {
            return Err(NetworkError::BadInstruction);
        }
        let label = if c == 'L' {
            &nodes[current].left
        } else {
            &nodes[current].right
        };
        if reached(goal, label) {
            return Ok(steps + 1);
        }
        match find_node(nodes, label) {
            Some(next) => {
                current = next;
            },
            None => {
                return Err(NetworkError::UnknownNode);
            },
        }
        proof {
            lemma_next_phase(steps as int, n_instr as int);
        }
        steps += 1;
        phase = if phase + 1 == n_instr {
            0
        } else {
            phase + 1
        };
    }
    Err(NetworkError::Endless)
}

/// The place in a list that is read again and again moves on by one and begins
/// again at the end.
pub proof fn lemma_next_phase(steps: int, n: int)
    requires
        steps >= 0,
        n > 0,
    ensures
        (steps + 1) % n == if steps % n + 1 == n {
            0
        } else {
            steps % n + 1
        },
{
    vstd::arithmetic::div_mod::lemma_fundamental_div_mod(steps, n);
    vstd::arithmetic::div_mod::lemma_mod_pos_bound(steps, n);
    let q = steps / n;
    let r = steps % n;
    if r + 1 == n {
        assert(steps + 1 == (q + 1) * n + 0) by (nonlinear_arith)
            requires
                steps == n * q + r,
                r + 1 == n,
        ;
        vstd::arithmetic::div_mod::lemma_fundamental_div_mod_converse(steps + 1, n, q + 1, 0);
    } else {
        assert(steps + 1 == q * n + (r + 1)) by (nonlinear_arith)
            requires
                steps == n * q + r,
        ;
        vstd::arithmetic::div_mod::lemma_fundamental_div_mod_converse(steps + 1, n, q, r + 1);
    }
}

/// The greatest common divisor of `a` and `b`.
pub open spec fn gcd(a: nat, b: nat) -> nat
    decreases b,
{
    if b == 0 {
        a
    } else {
        gcd(b, a % b)
    }
}

/// The least common multiple of two positive numbers.
pub open spec fn lcm(a: nat, b: nat) -> nat {
    a * (b / gcd(a, b))
}

/// The greatest common divisor of `a` and `b`.
pub fn greatest_common_divisor(a: u64, b: u64) -> (r: u64)
    ensures
        r == gcd(a as nat, b as nat),
{
    let mut x: u64 = a;
    let mut y: u64 = b;
    while y != 0
        invariant
            gcd(x as nat, y as nat) == gcd(a as nat, b as nat),
        decreases y,
    {
        let rest = x % y;
        x = y;
        y = rest;
    }
    x
}

/// `num::integer::lcm` returns the least common multiple of two numbers. For
/// positive numbers whose least common multiple fits, that is the first times
/// what remains of the second when their greatest common divisor is taken out.
#[verifier::external_body]
fn least_common_multiple(a: i64, b: i64) -> (r: i64)
    requires
        a > 0,
        b > 0,
        lcm(a as nat, b as nat) <= i64::MAX,
    ensures
        r == lcm(a as nat, b as nat),
{
    num::integer::lcm(a, b)
}

/// The greatest common divisor of two positive numbers is positive and no
/// greater than the second.
pub proof fn lemma_gcd_bounds(a: nat, b: nat)
    requires
        a > 0 || b > 0,
    ensures
        gcd(a, b) > 0,
        b > 0 ==> gcd(a, b) <= b,
        b == 0 ==> gcd(a, b) == a,
    decreases b,
{
    if b > 0 {
        lemma_gcd_bounds(b, a % b);
        if a % b > 0 {
            assert(gcd(b, a % b) <= a % b);
        }
    }
}

/// The least common multiple of `a` and `b`, or `None` when it does not fit in
/// 64 bits.
pub fn checked_lcm(a: i64, b: i64) -> (r: Option<i64>)
    requires
        a > 0,
        b > 0,
    ensures
        match r {
            Some(m) => m == lcm(a as nat, b as nat),
            None => lcm(a as nat, b as nat) > i64::MAX,
        },
{
    let g = greatest_common_divisor(a as u64, b as u64);
    proof {
        lemma_gcd_bounds(a as nat, b as nat);
    }
    let rest: i64 = b / (g as i64);
    match a.checked_mul(rest) {
        Some(m) => Some(least_common_multiple(a, b)),
        None => None,
    }
}

/// The instructions of the document in `lines`: its first line.
pub open spec fn instructions_in(lines: Seq<Seq<char>>) -> Seq<char> {
    if lines.len() == 0 {
        Seq::empty()
    } else {
        lines[0]
    }
}

/// The number of steps from the node `AAA` to the label `ZZZ`.
pub open spec fn walked(text: Seq<char>) -> Result<i64, NetworkError> {
    let lines = lines_of(text);
    if lines.len() == 0 {
        Err(NetworkError::MissingInstructions)
    } else {
        walked_on(lines)
    }
}

/// The number of steps from the node `AAA` to the label `ZZZ` in the document
/// of `lines`.
pub open spec fn walked_on(lines: Seq<Seq<char>>) -> Result<i64, NetworkError> {
    match nodes_in(lines_from(lines, 2)) {
        None => Err(NetworkError::BadNode),
        Some(nodes) => match node_at(nodes, seq!['A', 'A', 'A']) {
            None => Err(NetworkError::UnknownNode),
            Some(start) => steps_from(
                instructions_in(lines),
                nodes,
                GoalView::Label(seq!['Z', 'Z', 'Z']),
                start,
                0,
            ),
        },
    }
}

/// The least common multiple of the numbers of steps from each of the first
/// `n` nodes whose label ends in `A` to a label that ends in `Z`.
pub open spec fn ghost_steps(instructions: Seq<char>, nodes: Seq<NodeView>, n: int) -> Result<
    i64,
    NetworkError,
>
    decreases n,
{
    if n <= 0 {
        Ok(1)
    } else {
        match ghost_steps(instructions, nodes, n - 1) {
            Err(e) => Err(e),
            Ok(acc) => if is_goal(GoalView::LastChar('A'), nodes[n - 1].label) {
                match steps_from(instructions, nodes, GoalView::LastChar('Z'), n - 1, 0) {
                    Err(e) => Err(e),
                    Ok(steps) => if lcm(acc as nat, steps as nat) <= i64::MAX {
                        Ok(lcm(acc as nat, steps as nat) as i64)
                    } else {
                        Err(NetworkError::Overflow)
                    },
                }
            } else {
                Ok(acc)
            },
        }
    }
}

/// The number of steps until walks from all nodes whose label ends in `A`
/// stand on labels that end in `Z` at once, if each walk comes by its goal in
/// a cycle as long as its way there.
pub open spec fn walked_together(text: Seq<char>) -> Result<i64, NetworkError> {
    let lines = lines_of(text);
    if lines.len() == 0 {
        Err(NetworkError::MissingInstructions)
    } else {
        match nodes_in(lines_from(lines, 2)) {
            None => Err(NetworkError::BadNode),
            Some(nodes) => ghost_steps(instructions_in(lines), nodes, nodes.len() as int),
        }
    }
}

/// An error among the first nodes is the error of all of them.
pub proof fn lemma_ghost_error_stays(
    instructions: Seq<char>,
    nodes: Seq<NodeView>,
    n: int,
    more: int,
)
    requires
        0 <= n <= more,
        ghost_steps(instructions, nodes, n) is Err,
    ensures
        ghost_steps(instructions, nodes, more) == ghost_steps(instructions, nodes, n),
    decreases more - n,
{
    if n < more {
        lemma_ghost_error_stays(instructions, nodes, n, more - 1);
    }
}

/// Steps that a walk counts are at least one.
pub proof fn lemma_steps_positive(
    instructions: Seq<char>,
    nodes: Seq<NodeView>,
    goal: GoalView,
    at: int,
    done: int,
)
    requires
        done >= 0,
    ensures
        steps_from(instructions, nodes, goal, at, done) matches Ok(steps) ==> steps > done,
    decreases step_limit(instructions, nodes) - done,
{
    if !(done >= step_limit(instructions, nodes) || instructions.len() == 0) {
        let c = instructions[done % (instructions.len() as int)];
        if c == 'L' || c == 'R' {
            let label = if c == 'L' {
                nodes[at].left
            } else {
                nodes[at].right
            };
            if !is_goal(goal, label) {
                match node_at(nodes, label) {
                    Some(next) => {
                        lemma_steps_positive(instructions, nodes, goal, next, done + 1);
                    },
                    None => {},
                }
            }
        }
    }
}

/// The least common multiple of positive numbers is positive.
pub proof fn lemma_lcm_positive(a: nat, b: nat)
    requires
        a > 0,
        b > 0,
    ensures
        lcm(a, b) > 0,
{
    lemma_gcd_bounds(a, b);
    let g = gcd(a, b);
    assert(b / g >= 1) by (nonlinear_arith)
        requires
            0 < g <= b,
    ;
    assert(a * (b / g) > 0) by (nonlinear_arith)
        requires
            a > 0,
            b / g >= 1,
    ;
}

/// Reads the instructions and the nodes of a document.
pub fn read_network(s: &str) -> (r: Result<(Vec<char>, Vec<Node>), NetworkError>)
    ensures
        match r {
            Ok((instructions, nodes)) => {
                &&& lines_of(s@).len() > 0
                &&& instructions@ == instructions_in(lines_of(s@))
                &&& nodes_in(lines_from(lines_of(s@), 2)) == Some(nodes_of(nodes@))
            },
            Err(e) => if lines_of(s@).len() == 0 {
                e == NetworkError::MissingInstructions
            } else {
                e == NetworkError::BadNode && nodes_in(lines_from(lines_of(s@), 2)) is None
            },
        },
{
    let lines = text_lines(s);
    if lines.len() == 0 {
        return Err(NetworkError::MissingInstructions);
    }
    let instructions: Vec<char> = lines[0].clone();
    proof {
        assert(instructions@ =~= lines@[0]@);
    }
    match get_nodes(&lines, 2) {
        Ok(nodes) => Ok((instructions, nodes)),
        Err(e) => Err(e),
    }
}

/// The number of steps from the node `AAA` to the label `ZZZ`, in decimal.
pub fn part_1(s: &str) -> (r: Result<String, NetworkError>)
    ensures
        match r {
            Ok(answer) => walked(s@) matches Ok(n) && answer@ == signed_decimal(n as int),
            Err(e) => walked(s@) == Err::<i64, NetworkError>(e),
        },
{
    let (instructions, nodes) = match read_network(s) {
        Ok(network) => network,
        Err(e) => {
            return Err(e);
        },
    };
    let from = string_of(&vec!['A', 'A', 'A']);
    let to = string_of(&vec!['Z', 'Z', 'Z']);
    proof {
        assert(from@ =~= seq!['A', 'A', 'A']);
        assert(to@ =~= seq!['Z', 'Z', 'Z']);
    }
    let start = match find_node(&nodes, &from) {
        Some(start) => start,
        None => {
            return Err(NetworkError::UnknownNode);
        },
    };
    match get_steps(&instructions, start, &nodes, &Goal::Label(to)) {
        Ok(steps) => Ok(signed_decimal_string(steps)),
        Err(e) => Err(e),
    }
}

/// The least common multiple of the numbers of steps from every node whose
/// label ends in `A` to a label that ends in `Z`, in decimal.
pub fn part_2(s: &str) -> (r: Result<String, NetworkError>)
    ensures
        match r {
            Ok(answer) => walked_together(s@) matches Ok(n) && answer@ == signed_decimal(n as int),
            Err(e) => walked_together(s@) == Err::<i64, NetworkError>(e),
        },
{
    let (instructions, nodes) = match read_network(s) {
        Ok(network) => network,
        Err(e) => {
            return Err(e);
        },
    };
    let ghost all = nodes_of(nodes@);
    let begin = Goal::LastChar('A');
    let end = Goal::LastChar('Z');
    let mut acc: i64 = 1;
    let mut i: usize = 0;
    while i < nodes.len()
        invariant
            i <= nodes.len(),
            all == nodes_of(nodes@),
            begin@ == GoalView::LastChar('A'),
            end@ == GoalView::LastChar('Z'),
            acc > 0,
            ghost_steps(instructions@, all, i as int) == Ok::<i64, NetworkError>(acc),
            walked_together(s@) == ghost_steps(instructions@, all, all.len() as int),
        decreases nodes.len() - i,
    {
        proof {
            assert(all[i as int] == nodes@[i as int]@);
        }
        if reached(&begin, &nodes[i].label) {
            let next = match get_steps(&instructions, i, &nodes, &end) {
                Ok(steps) => {
                    proof {
                        lemma_steps_positive(instructions@, all, end@, i as int, 0);
                        lemma_lcm_positive(acc as nat, steps as nat);
                    }
                    match checked_lcm(acc, steps) {
                        Some(m) => Ok(m),
                        None => Err(NetworkError::Overflow),
                    }
                },
                Err(e) => Err(e),
            };
            match next {
                Ok(m) => {
                    acc = m;
                },
                Err(e) => {
                    proof {
                        assert(ghost_steps(instructions@, all, i + 1) == Err::<i64, NetworkError>(
                            e,
                        ));
                        lemma_ghost_error_stays(instructions@, all, i + 1, all.len() as int);
                    }
                    return Err(e);
                },
            }
        }
        i += 1;
    }
    Ok(signed_decimal_string(acc))
}

} // verus!
