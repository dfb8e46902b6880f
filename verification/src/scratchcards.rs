//! Scratchcards: every card names winning numbers and the numbers one has;
//! the numbers that are both are its matches.

use vstd::prelude::*;
use std::collections::{HashSet, VecDeque};
use crate::grid::rows_of;
use crate::text::{
    decimal,
    decimal_of,
    lines_of,
    parse_small_number,
    parts_of,
    prefix_parts,
    prefix_split,
    small_number_of,
    split_on,
    split_whitespace,
    string_of,
    text_lines,
    tokens_of,
};

verus! {

broadcast use vstd::std_specs::hash::group_hash_axioms;

/// What can go wrong with a pile of cards.
#[derive(Clone, Copy, Debug, PartialEq, Eq, Structural)]
pub enum CardError {
    /// A line is not of the form `<name>: <numbers>`.
    BadCard,
    /// The numbers of a card are not in two lists with ` | ` between them.
    MissingList,
    /// A number is no number of 32 bits.
    BadNumber,
    /// A count of cards or a score does not fit in 32 bits.
    Overflow,
}

/// The numbers that `tokens` write, or `None` when one of them writes none.
pub open spec fn small_numbers(tokens: Seq<Seq<char>>) -> Option<Seq<i32>>
    decreases tokens.len(),
{
    if tokens.len() == 0 {
        Some(Seq::empty())
    } else {
        match (small_numbers(tokens.drop_last()), small_number_of(tokens.last())) {
            (Some(numbers), Some(n)) => Some(numbers.push(n)),
            _ => None,
        }
    }
}

/// The two lists of numbers of a card: the winning numbers and the numbers one
/// has. What follows a second ` | ` is not read.
pub open spec fn card_lists(line: Seq<char>) -> Result<(Seq<i32>, Seq<i32>), CardError> {
    match prefix_split(line) {
        None => Err(CardError::BadCard),
        Some((name, data)) => {
            let lists = parts_of(data, seq![' ', '|', ' ']);
            match small_numbers(tokens_of(lists[0])) {
                None => Err(CardError::BadNumber),
                Some(winners) => if lists.len() < 2 {
                    Err(CardError::MissingList)
                } else {
                    match small_numbers(tokens_of(lists[1])) {
                        None => Err(CardError::BadNumber),
                        Some(ours) => Ok((winners, ours)),
                    }
                },
            }
        },
    }
}

/// The number of matches of a card: how many different numbers are both
/// winning numbers and numbers one has.
pub open spec fn matches_of(line: Seq<char>) -> Result<u32, CardError> {
    match card_lists(line) {
        Err(e) => Err(e),
        Ok((winners, ours)) => {
            let n = winners.to_set().intersect(ours.to_set()).len();
            if n <= u32::MAX {
                Ok(n as u32)
            } else {
                Err(CardError::Overflow)
            }
        },
    }
}

/// A token that writes no number spoils the whole list.
pub proof fn lemma_numbers_none_stays(tokens: Seq<Seq<char>>, n: int)
    requires
        0 <= n <= tokens.len(),
        small_numbers(tokens.take(n)) is None,
    ensures
        small_numbers(tokens) is None,
    decreases tokens.len() - n,
{
    if n < tokens.len() {
        assert(tokens.take(n + 1).drop_last() =~= tokens.take(n));
        lemma_numbers_none_stays(tokens, n + 1);
    } else {
        assert(tokens.take(n) =~= tokens);
    }
}

/// Reads the numbers of a list, separated by white space.
pub fn read_list(text: &Vec<char>) -> (r: Option<Vec<i32>>)
    ensures
        match r {
            Some(numbers) => small_numbers(tokens_of(text@)) == Some(numbers@),
            None => small_numbers(tokens_of(text@)) is None,
        },
{
    let tokens = split_whitespace(text);
    let ghost all = rows_of(tokens@);
    let mut numbers: Vec<i32> = Vec::new();
    let mut i: usize = 0;
    proof {
        assert(all.take(0) =~= Seq::<Seq<char>>::empty());
    }
    while i < tokens.len()
        invariant
            i <= tokens.len(),
            all == rows_of(tokens@),
            all == tokens_of(text@),
            small_numbers(all.take(i as int)) == Some(numbers@),
        decreases tokens.len() - i,
    {
        proof {
            assert(all.take(i + 1).drop_last() =~= all.take(i as int));
            assert(all.take(i + 1).last() == tokens@[i as int]@);
        }
        match parse_small_number(&tokens[i]) {
            Some(n) => {
                numbers.push(n);
            },
            None => {
                proof {
                    lemma_numbers_none_stays(all, i + 1);
                }
                return None;
            },
        }
        i += 1;
    }
    proof {
        assert(all.take(tokens.len() as int) =~= all);
    }
    Some(numbers)
}

/// Reads the two lists of numbers of a card.
pub fn read_card(line: &Vec<char>) -> (r: Result<(Vec<i32>, Vec<i32>), CardError>)
    ensures
        match r {
            Ok((winners, ours)) => card_lists(line@) == Ok::<(Seq<i32>, Seq<i32>), CardError>(
                (winners@, ours@),
            ),
            Err(e) => card_lists(line@) == Err::<(Seq<i32>, Seq<i32>), CardError>(e),
        },
{
    let (name, data) = match prefix_parts(line) {
        Some(parts) => parts,
        None => {
            return Err(CardError::BadCard);
        },
    };
    let bar: Vec<char> = vec![' ', '|', ' '];
    proof {
        assert(bar@ =~= seq![' ', '|', ' ']);
    }
    let lists = split_on(&data, &bar);
    proof {
        crate::scratchcards::lemma_parts_not_empty(data@, bar@, 0);
    }
    let winners = match read_list(&lists[0]) {
        Some(numbers) => numbers,
        None => {
            return Err(CardError::BadNumber);
        },
    };
    if lists.len() < 2 {
        return Err(CardError::MissingList);
    }
    match read_list(&lists[1]) {
        Some(ours) => Ok((winners, ours)),
        None => Err(CardError::BadNumber),
    }
}

/// Splitting a text gives at least one part.
pub proof fn lemma_parts_not_empty(s: Seq<char>, pattern: Seq<char>, upto: int)
    ensures
        crate::text::parts_from(s, pattern, upto).len() >= 1,
    decreases s.len() - upto,
{
    if !(pattern.len() == 0 || upto < 0 || upto >= s.len()) {
        if !crate::text::stands_at(s, upto, pattern) {
            lemma_parts_not_empty(s, pattern, upto + 1);
        }
    }
}

/// The set of the numbers of a list.
pub fn set_of(numbers: &Vec<i32>) -> (set: HashSet<i32>)
    ensures
        set@ == numbers@.to_set(),
{
    let mut set: HashSet<i32> = HashSet::new();
    let mut i: usize = 0;
    proof {
        assert(numbers@.take(0).to_set() =~= Set::<i32>::empty());
    }
    while i < numbers.len()
        invariant
            i <= numbers.len(),
            set@ == numbers@.take(i as int).to_set(),
        decreases numbers.len() - i,
    {
        set.insert(numbers[i]);
        proof {
            assert(numbers@.take(i + 1) =~= numbers@.take(i as int).push(numbers@[i as int]));
            numbers@.take(i as int).lemma_push_to_set_commute(numbers@[i as int]);
        }
        i += 1;
    }
    proof {
        assert(numbers@.take(numbers.len() as int) =~= numbers@);
    }
    set
}

/// The winning numbers of a card and the numbers one has, each as a set.
pub fn get_numbers(line: &Vec<char>) -> (r: Result<(HashSet<i32>, HashSet<i32>), CardError>)
    ensures
        match r {
            Ok((winners, ours)) => card_lists(line@) matches Ok((w, o)) && winners@ == w.to_set()
                && ours@ == o.to_set(),
            Err(e) => card_lists(line@) == Err::<(Seq<i32>, Seq<i32>), CardError>(e),
        },
{
    match read_card(line) {
        Ok((winners, ours)) => Ok((set_of(&winners), set_of(&ours))),
        Err(e) => Err(e),
    }
}

/// The number of matches of a card.
pub fn get_match_count(line: &Vec<char>) -> (r: Result<u32, CardError>)
    ensures
        r == matches_of(line@),
{
    let (winning, ours) = match read_card(line) {
        Ok(lists) => lists,
        Err(e) => {
            return Err(e);
        },
    };
    let winners = set_of(&winning);
    let mut seen: HashSet<i32> = HashSet::new();
    let mut count: usize = 0;
    let mut i: usize = 0;
    proof {
        assert(ours@.take(0).to_set() =~= Set::<i32>::empty());
        assert(winners@.intersect(seen@) =~= Set::<i32>::empty());
    }
    while i < ours.len()
        invariant
            i <= ours.len(),
            winners@ == winning@.to_set(),
            seen@ == ours@.take(i as int).to_set(),
            winners@.intersect(seen@).finite(),
            count == winners@.intersect(seen@).len(),
            count <= i,
        decreases ours.len() - i,
    {
        let x = ours[i];
        let ghost before = seen@;
        let ghost common = winners@.intersect(seen@);
        let is_new = seen.insert(x);
        proof {
            assert(ours@.take(i + 1) =~= ours@.take(i as int).push(x));
            ours@.take(i as int).lemma_push_to_set_commute(x);
        }
        if is_new && winners.contains(&x) {
            count += 1;
            proof {
                assert(winners@.intersect(seen@) =~= common.insert(x));
            }
        } else {
            proof {
                assert(winners@.intersect(seen@) =~= common);
            }
        }
        i += 1;
    }
    proof {
        assert(ours@.take(ours.len() as int) =~= ours@);
    }
    if count > u32::MAX as usize {
        Err(CardError::Overflow)
    } else {
        Ok(count as u32)
    }
}

/// Two, `n` times over.
pub open spec fn doubled(n: nat) -> nat
    decreases n,
{
    if n == 0 {
        1
    } else {
        2 * doubled((n - 1) as nat)
    }
}

/// The points of a card with `matches` matches: one for the first, doubled for
/// every further one.
pub open spec fn points(matches: u32) -> nat {
    if matches == 0 {
        0
    } else {
        doubled((matches - 1) as nat)
    }
}

/// The sum of the points of the cards of `lines`, or the error of the first
/// card that has none, or `Overflow` once a score or the sum leaves 32 bits.
pub open spec fn total_points(lines: Seq<Seq<char>>) -> Result<u32, CardError>
    decreases lines.len(),
{
    if lines.len() == 0 {
        Ok(0)
    } else {
        match total_points(lines.drop_last()) {
            Err(e) => Err(e),
            Ok(total) => match matches_of(lines.last()) {
                Err(e) => Err(e),
                Ok(m) => if total + points(m) <= u32::MAX {
                    Ok((total + points(m)) as u32)
                } else {
                    Err(CardError::Overflow)
                },
            },
        }
    }
}

/// Doubling more often gives no less.
pub proof fn lemma_doubled_grows(a: nat, b: nat)
    requires
        a <= b,
    ensures
        doubled(a) <= doubled(b),
        doubled(a) >= 1,
    decreases b,
{
    if a < b {
        lemma_doubled_grows(a, (b - 1) as nat);
    } else if a > 0 {
        lemma_doubled_grows((a - 1) as nat, (a - 1) as nat);
    }
}

/// The points of a card with `matches` matches, or `None` when they do not fit
/// in 32 bits.
pub fn score(matches: u32) -> (r: Option<u32>)
    ensures
        match r {
            Some(p) => p == points(matches),
            None => points(matches) > u32::MAX,
        },
{
    if matches == 0 {
        return Some(0);
    }
    let mut p: u32 = 1;
    let mut k: u32 = 1;
    while k < matches
        invariant
            1 <= k <= matches,
            p == doubled((k - 1) as nat),
        decreases matches - k,
    {
        match p.checked_mul(2) {
            Some(next) => {
                p = next;
            },
            None => {
                proof {
                    lemma_doubled_grows(k as nat, (matches - 1) as nat);
                }
                return None;
            },
        }
        k += 1;
    }
    Some(p)
}

/// An error among the first cards is the error of all of them.
pub proof fn lemma_points_error_stays(lines: Seq<Seq<char>>, n: int)
    requires
        0 <= n <= lines.len(),
        total_points(lines.take(n)) is Err,
    ensures
        total_points(lines) == total_points(lines.take(n)),
    decreases lines.len() - n,
{
    if n < lines.len() {
        assert(lines.take(n + 1).drop_last() =~= lines.take(n));
        lemma_points_error_stays(lines, n + 1);
    } else {
        assert(lines.take(n) =~= lines);
    }
}

/// The sum of the points of all cards, in decimal.
pub fn part_1(s: &str) -> (r: Result<String, CardError>)
    ensures
        match r {
            Ok(answer) => total_points(lines_of(s@)) matches Ok(n) && answer@ == decimal(n as nat),
            Err(e) => total_points(lines_of(s@)) == Err::<u32, CardError>(e),
        },
{
    let lines = text_lines(s);
    let ghost all = lines_of(s@);
    let mut total: u32 = 0;
    let mut i: usize = 0;
    proof {
        assert(all.take(0) =~= Seq::<Seq<char>>::empty());
    }
    while i < lines.len()
        invariant
            i <= lines.len(),
            all == rows_of(lines@),
            all == lines_of(s@),
            total_points(all.take(i as int)) == Ok::<u32, CardError>(total),
        decreases lines.len() - i,
    {
        proof {
            assert(all.take(i + 1).drop_last() =~= all.take(i as int));
            assert(all.take(i + 1).last() == lines@[i as int]@);
        }
        let next = match get_match_count(&lines[i]) {
            Ok(m) => match score(m) {
                Some(p) => match total.checked_add(p) {
                    Some(sum) => Ok(sum),
                    None => Err(CardError::Overflow),
                },
                None => Err(CardError::Overflow),
            },
            Err(e) => Err(e),
        };
        match next {
            Ok(sum) => {
                total = sum;
            },
            Err(e) => {
                proof {
                    assert(total_points(all.take(i + 1)) == Err::<u32, CardError>(e));
                    lemma_points_error_stays(all, i + 1);
                }
                return Err(e);
            },
        }
        i += 1;
    }
    proof {
        assert(all.take(lines.len() as int) =~= all);
    }
    Ok(string_of(&decimal_of(total as u64)))
}

/// The copies waiting for the cards that follow, after a card with `matches`
/// matches that exists `mul` times has been scratched: each of the next
/// `matches` cards gets `mul` copies more.
pub open spec fn handed_on(waiting: Seq<u32>, matches: u32, mul: u32) -> Seq<u32> {
    Seq::new(
        if waiting.len() > matches {
            waiting.len()
        } else {
            matches as nat
        },
        |j: int|
            if j < waiting.len() {
                if j < matches {
                    (waiting[j] + mul) as u32
                } else {
                    waiting[j]
                }
            } else {
                mul
            },
    )
}

/// Whether handing on copies stays within 32 bits.
pub open spec fn hands_on(waiting: Seq<u32>, matches: u32, mul: u32) -> bool {
    forall|j: int| 0 <= j < waiting.len() && j < matches ==> #[trigger] waiting[j] + mul <= u32::MAX
}

/// Scratching the cards of `lines` one after the other: the number of cards so
/// far, cards dealt and copies won, and the copies waiting for the cards that
/// follow.
pub open spec fn scratched(lines: Seq<Seq<char>>) -> Result<(u32, Seq<u32>), CardError>
    decreases lines.len(),
{
    if lines.len() == 0 {
        Ok((0, Seq::empty()))
    } else {
        match scratched(lines.drop_last()) {
            Err(e) => Err(e),
            Ok((cards, waiting)) => match matches_of(lines.last()) {
                Err(e) => Err(e),
                Ok(m) => {
                    let copies = if waiting.len() > 0 {
                        waiting[0]
                    } else {
                        0u32
                    };
                    let rest = if waiting.len() > 0 {
                        waiting.drop_first()
                    } else {
                        waiting
                    };
                    if copies + 1 <= u32::MAX && cards + 1 + m * (copies + 1) <= u32::MAX
                        && hands_on(rest, m, (copies + 1) as u32) {
                        Ok(
                            (
                                (cards + 1 + m * (copies + 1)) as u32,
                                handed_on(rest, m, (copies + 1) as u32),
                            ),
                        )
                    } else {
                        Err(CardError::Overflow)
                    }
                },
            },
        }
    }
}

/// The number of cards in the end.
pub open spec fn total_cards(lines: Seq<Seq<char>>) -> Result<u32, CardError> {
    match scratched(lines) {
        Ok((cards, waiting)) => Ok(cards),
        Err(e) => Err(e),
    }
}

/// An error among the first cards is the error of all of them.
pub proof fn lemma_scratched_error_stays(lines: Seq<Seq<char>>, n: int)
    requires
        0 <= n <= lines.len(),
        scratched(lines.take(n)) is Err,
    ensures
        scratched(lines) == scratched(lines.take(n)),
    decreases lines.len() - n,
{
    if n < lines.len() {
        assert(lines.take(n + 1).drop_last() =~= lines.take(n));
        lemma_scratched_error_stays(lines, n + 1);
    } else {
        assert(lines.take(n) =~= lines);
    }
}

/// Hands `mul` copies on to each of the next `matches` cards.
pub fn hand_on(waiting: &mut VecDeque<u32>, matches: u32, mul: u32) -> (ok: bool)
    ensures
        ok == hands_on(old(waiting)@, matches, mul),
        ok ==> final(waiting)@ == handed_on(old(waiting)@, matches, mul),
{
    let n: usize = waiting.len();
    let ghost start = waiting@;
    let mut j: usize = 0;
    while j < n
        invariant
            j <= n,
            n == start.len(),
            start == old(waiting)@,
            waiting@.len() == n,
            forall|x: int| 0 <= x < n - j ==> waiting@[x] == start[j + x],
            forall|x: int|
                0 <= x < j ==> #[trigger] waiting@[n - j + x] == handed_on(start, matches, mul)[x],
            forall|x: int| 0 <= x < j && x < matches ==> #[trigger] start[x] + mul <= u32::MAX,
        decreases n - j,
    {
        let ghost before = waiting@;
        let value = match waiting.pop_front() {
            Some(v) => v,
            None => 0,
        };
        let next = if (j as u64) < matches as u64 {
            match value.checked_add(mul) {
                Some(sum) => sum,
                None => {
                    proof {
                        assert(start[j as int] + mul > u32::MAX);
                    }
                    return false;
                },
            }
        } else {
            value
        };
        waiting.push_back(next);
        proof {
            assert(value == start[j as int]);
            assert forall|x: int| 0 <= x < n - (j + 1) implies waiting@[x] == start[j + 1 + x] by {
                assert(waiting@[x] == before[x + 1]);
            }
            assert forall|x: int| 0 <= x < j + 1 implies #[trigger] waiting@[n - (j + 1) + x]
                == handed_on(start, matches, mul)[x] by {
                if x < j {
                    assert(waiting@[n - (j + 1) + x] == before[n - j + x]);
                }
            }
        }
        j += 1;
    }
    proof {
        assert forall|x: int| 0 <= x < n implies #[trigger] waiting@[x] == handed_on(
            start,
            matches,
            mul,
        )[x] by {
            assert(waiting@[n - n + x] == handed_on(start, matches, mul)[x]);
        }
        assert(hands_on(start, matches, mul));
    }
    let mut added: usize = n;
    while (added as u64) < matches as u64
        invariant
            n <= added,
            n == start.len(),
            waiting@.len() == added,
            added <= matches || added == n,
            hands_on(start, matches, mul),
            forall|x: int| 0 <= x < added ==> #[trigger] waiting@[x] == handed_on(
                start,
                matches,
                mul,
            )[x],
        decreases matches - added,
    {
        waiting.push_back(mul);
        added += 1;
    }
    proof {
        assert(waiting@ =~= handed_on(start, matches, mul));
    }
    true
}

/// The number of cards in the end, dealt and won, in decimal: every
/// match of a card wins one copy of one of the cards that follow it.
pub fn part_2(s: &str) -> (r: Result<String, CardError>)
    ensures
        match r {
            Ok(answer) => total_cards(lines_of(s@)) matches Ok(n) && answer@ == decimal(n as nat),
            Err(e) => total_cards(lines_of(s@)) == Err::<u32, CardError>(e),
        },
{
    let lines = text_lines(s);
    let ghost all = lines_of(s@);
    let mut additional_copies: VecDeque<u32> = VecDeque::new();
    let mut num_cards: u32 = 0;
    let mut i: usize = 0;
    proof {
        assert(all.take(0) =~= Seq::<Seq<char>>::empty());
    }
    while i < lines.len()
        invariant
            i <= lines.len(),
            all == rows_of(lines@),
            all == lines_of(s@),
            scratched(all.take(i as int)) == Ok::<(u32, Seq<u32>), CardError>(
                (num_cards, additional_copies@),
            ),
        decreases lines.len() - i,
    {
        proof {
            assert(all.take(i + 1).drop_last() =~= all.take(i as int));
            assert(all.take(i + 1).last() == lines@[i as int]@);
        }
        let ghost waiting = additional_copies@;
        let matches = match get_match_count(&lines[i]) {
            Ok(m) => m,
            Err(e) => {
                proof {
                    assert(scratched(all.take(i + 1)) == Err::<(u32, Seq<u32>), CardError>(e));
                    lemma_scratched_error_stays(all, i + 1);
                }
                return Err(e);
            },
        };
        let copies = match additional_copies.pop_front() {
            Some(c) => c,
            None => 0,
        };
        proof {
            if waiting.len() > 0 {
                assert(additional_copies@ =~= waiting.drop_first());
            }
        }
        assert(matches * (copies + 1) <= 0x1_0000_0000_0000_0000) by (nonlinear_arith)
            requires
                0 <= matches <= 0xffff_ffff,
                0 <= copies <= 0xffff_ffff,
        ;
        let wide: u128 = 1 + matches as u128 * (copies as u128 + 1);
        let next_cards: u128 = num_cards as u128 + wide;
        if copies == u32::MAX || next_cards > u32::MAX as u128 {
            proof {
                assert(scratched(all.take(i + 1)) is Err) by (nonlinear_arith)
                    requires
                        copies == u32::MAX || num_cards + 1 + matches * (copies + 1) > u32::MAX,
                        scratched(all.take(i + 1)) == if copies + 1 <= u32::MAX && num_cards + 1
                            + matches * (copies + 1) <= u32::MAX && hands_on(
                            additional_copies@,
                            matches,
                            (copies + 1) as u32,
                        ) {
                            Ok::<(u32, Seq<u32>), CardError>(
                                (
                                    (num_cards + 1 + matches * (copies + 1)) as u32,
                                    handed_on(additional_copies@, matches, (copies + 1) as u32),
                                ),
                            )
                        } else {
                            Err::<(u32, Seq<u32>), CardError>(CardError::Overflow)
                        },
                ;
                lemma_scratched_error_stays(all, i + 1);
            }
            return Err(CardError::Overflow);
        }
        let mul: u32 = copies + 1;
        if !hand_on(&mut additional_copies, matches, mul) {
            proof {
                assert(scratched(all.take(i + 1)) is Err);
                lemma_scratched_error_stays(all, i + 1);
            }
            return Err(CardError::Overflow);
        }
        num_cards = next_cards as u32;
        i += 1;
    }
    proof {
        assert(all.take(lines.len() as int) =~= all);
    }
    Ok(string_of(&decimal_of(num_cards as u64)))
}

} // verus!
