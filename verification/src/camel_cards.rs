//! Hands of cards with bids: a hand has a type and the values of its cards,
//! hands are ranked by both, and each bid is won as many times as its hand
//! ranks.

use vstd::prelude::*;
use crate::grid::rows_of;
use crate::text::{
    chars_of,
    digit_of,
    digit_value,
    lines_of,
    parse_small_number,
    signed_decimal,
    signed_decimal_string,
    small_number_of,
    split_whitespace,
    text_lines,
    tokens_of,
};

verus! {

/// A hand: the values of its cards in the order dealt, 0 where a card is
/// missing, and the number of its type, from 0 for a high card to 6 for five of
/// a kind.
#[derive(Copy, Clone, Debug)]
pub struct Hand {
    pub card_values: [u32; 5],
    pub type_value: u32,
}

/// What can go wrong with a list of hands.
#[derive(Clone, Copy, Debug, PartialEq, Eq, Structural)]
pub enum HandError {
    /// A character of the hand is no card.
    BadCard,
    /// The hand holds more than five cards.
    TooManyCards,
    /// The hand holds no card that counts.
    NoCards,
    /// The hand holds fewer than five cards, and they make no type.
    Incomplete,
    /// A line holds no hand.
    MissingHand,
    /// A line holds no bid.
    MissingBid,
    /// The bid is no number of 32 bits.
    BadBid,
    /// A rank or the winnings do not fit in 32 bits.
    Overflow,
}

/// The value of the card `c`: its digit, or 10 to 14 for `T`, `J`, `Q`, `K`,
/// `A`; under the joker rule `J` is worth 1, and else 11.
pub open spec fn card_value(c: char, joker_rule: bool) -> Option<u32> {
    match digit_value(c) {
        Some(d) => Some(d as u32),
        None => if c == 'T' {
            Some(10)
        } else if c == 'J' {
            Some(
                if joker_rule {
                    1
                } else {
                    11
                },
            )
        } else if c == 'Q' {
            Some(12)
        } else if c == 'K' {
            Some(13)
        } else if c == 'A' {
            Some(14)
        } else {
            None
        },
    }
}

/// The number of cards at the front of `cards` that are cards.
pub open spec fn good_cards(cards: Seq<char>) -> nat
    decreases cards.len(),
{
    if cards.len() == 0 || card_value(cards[0], false) is None {
        0
    } else {
        1 + good_cards(cards.drop_first())
    }
}

/// How often `c` occurs in `cards`.
pub open spec fn occurrences(cards: Seq<char>, c: char) -> nat
    decreases cards.len(),
{
    if cards.len() == 0 {
        0
    } else {
        occurrences(cards.drop_last(), c) + if cards.last() == c {
            1nat
        } else {
            0nat
        }
    }
}

/// `cards` without every `c`.
pub open spec fn without(cards: Seq<char>, c: char) -> Seq<char>
    decreases cards.len(),
{
    if cards.len() == 0 {
        cards
    } else if cards.last() == c {
        without(cards.drop_last(), c)
    } else {
        without(cards.drop_last(), c).push(cards.last())
    }
}

/// How many different cards `cards` holds: the number of cards that do not
/// occur before themselves.
pub open spec fn kinds(cards: Seq<char>) -> nat
    decreases cards.len(),
{
    if cards.len() == 0 {
        0
    } else {
        kinds(cards.drop_last()) + if occurrences(cards.drop_last(), cards.last()) == 0 {
            1nat
        } else {
            0nat
        }
    }
}

/// How often the most frequent card of `cards` occurs.
pub open spec fn most(cards: Seq<char>) -> nat
    decreases cards.len(),
{
    if cards.len() == 0 {
        0
    } else {
        let before = most(cards.drop_last());
        let here = occurrences(cards, cards.last());
        if here > before {
            here
        } else {
            before
        }
    }
}

/// The cards that are counted for the type: under the joker rule the jokers
/// are left out, unless there are five of them.
pub open spec fn counted(cards: Seq<char>, joker_rule: bool) -> Seq<char> {
    if joker_rule && occurrences(cards, 'J') < 5 {
        without(cards, 'J')
    } else {
        cards
    }
}

/// The number of jokers that are added to the most frequent card.
pub open spec fn jokers(cards: Seq<char>, joker_rule: bool) -> nat {
    if joker_rule {
        occurrences(cards, 'J')
    } else {
        0
    }
}

/// The type that `kinds` different cards make when the most frequent one
/// occurs `top` times: 0 for five different cards, 1 for one pair, 2 for two
/// pairs, 3 for three of a kind, 4 for a full house, 5 for four of a kind, 6
/// for five of a kind.
pub open spec fn type_of(kinds: nat, top: nat) -> Result<u32, HandError> {
    if kinds == 0 {
        Err(HandError::NoCards)
    } else if kinds == 1 {
        Ok(6)
    } else if kinds == 2 {
        if top == 3 {
            Ok(4)
        } else if top == 4 {
            Ok(5)
        } else {
            Err(HandError::Incomplete)
        }
    } else if kinds == 3 {
        if top == 2 {
            Ok(2)
        } else if top == 3 {
            Ok(3)
        } else {
            Err(HandError::Incomplete)
        }
    } else if kinds == 4 {
        Ok(1)
    } else if kinds == 5 {
        Ok(0)
    } else {
        Err(HandError::Incomplete)
    }
}

/// The values of the cards of a hand, 0 where a card is missing.
pub open spec fn values_of(cards: Seq<char>, joker_rule: bool) -> Seq<u32> {
    Seq::new(
        5,
        |i: int|
            if i < cards.len() {
                card_value(cards[i], joker_rule)->0
            } else {
                0u32
            },
    )
}

/// The hand that `cards` write. A character that is no card is reported if it
/// is among the first six; otherwise more than five cards are too many.
pub open spec fn hand_of(cards: Seq<char>, joker_rule: bool) -> Result<Hand, HandError> {
    let good = good_cards(cards);
    if good < cards.len() && good <= 5 {
        Err(HandError::BadCard)
    } else if cards.len() > 5 {
        Err(HandError::TooManyCards)
    } else {
        let kept = counted(cards, joker_rule);
        match type_of(kinds(kept), most(kept) + jokers(cards, joker_rule)) {
            Ok(t) => Ok(
                Hand {
                    card_values: choose|a: [u32; 5]| a@ == values_of(cards, joker_rule),
                    type_value: t,
                },
            ),
            Err(e) => Err(e),
        }
    }
}

/// The value of the card `c`.
pub fn value_of(c: char, joker_rule: bool) -> (r: Option<u32>)
    ensures
        r == card_value(c, joker_rule),
{
    match digit_of(c) {
        Some(d) => Some(d as u32),
        None => if c == 'T' {
            Some(10)
        } else if c == 'J' {
            Some(
                if joker_rule {
                    1
                } else {
                    11
                },
            )
        } else if c == 'Q' {
            Some(12)
        } else if c == 'K' {
            Some(13)
        } else if c == 'A' {
            Some(14)
        } else {
            None
        },
    }
}

/// How often `c` occurs among the first `n` of `cards`.
pub fn count_card(cards: &Vec<char>, n: usize, c: char) -> (r: usize)
    requires
        n <= cards@.len(),
    ensures
        r == occurrences(cards@.take(n as int), c),
        r <= n,
{
    let mut count: usize = 0;
    let mut i: usize = 0;
    proof {
        assert(cards@.take(0) =~= Seq::<char>::empty());
    }
    while i < n
        invariant
            i <= n <= cards@.len(),
            count == occurrences(cards@.take(i as int), c),
            count <= i,
        decreases n - i,
    {
        proof {
            assert(cards@.take(i + 1).drop_last() =~= cards@.take(i as int));
        }
        if cards[i] == c {
            count += 1;
        }
        i += 1;
    }
    count
}

/// `cards` without every `c`.
pub fn remove_card(cards: &Vec<char>, c: char) -> (r: Vec<char>)
    ensures
        r@ == without(cards@, c),
        r@.len() <= cards@.len(),
{
    let mut out: Vec<char> = Vec::new();
    let mut i: usize = 0;
    proof {
        assert(cards@.take(0) =~= Seq::<char>::empty());
    }
    while i < cards.len()
        invariant
            i <= cards.len(),
            out@ == without(cards@.take(i as int), c),
            out@.len() <= i,
        decreases cards.len() - i,
    {
        proof {
            assert(cards@.take(i + 1).drop_last() =~= cards@.take(i as int));
        }
        if cards[i] != c {
            out.push(cards[i]);
        }
        i += 1;
    }
    proof {
        assert(cards@.take(cards.len() as int) =~= cards@);
    }
    out
}

/// How many different cards `cards` holds, and how often the most frequent one
/// occurs.
pub fn count_kinds(cards: &Vec<char>) -> (r: (usize, usize))
    ensures
        r.0 == kinds(cards@),
        r.1 == most(cards@),
        r.0 <= cards@.len(),
        r.1 <= cards@.len(),
{
    let mut found: usize = 0;
    let mut top: usize = 0;
    let mut i: usize = 0;
    proof {
        assert(cards@.take(0) =~= Seq::<char>::empty());
    }
    while i < cards.len()
        invariant
            i <= cards.len(),
            found == kinds(cards@.take(i as int)),
            top == most(cards@.take(i as int)),
            found <= i,
            top <= i,
        decreases cards.len() - i,
    {
        proof {
            assert(cards@.take(i + 1).drop_last() =~= cards@.take(i as int));
            assert(cards@.take(i + 1).last() == cards@[i as int]);
        }
        if count_card(cards, i, cards[i]) == 0 {
            found += 1;
        }
        let here = count_card(cards, i + 1, cards[i]);
        if here > top {
            top = here;
        }
        i += 1;
    }
    proof {
        assert(cards@.take(cards.len() as int) =~= cards@);
    }
    (found, top)
}

/// The type that `kinds` different cards make when the most frequent one
/// occurs `top` times.
pub fn type_value_of(kinds: usize, top: usize) -> (r: Result<u32, HandError>)
    ensures
        r == type_of(kinds as nat, top as nat),
{
    if kinds == 0 {
        Err(HandError::NoCards)
    } else if kinds == 1 {
        Ok(6)
    } else if kinds == 2 {
        if top == 3 {
            Ok(4)
        } else if top == 4 {
            Ok(5)
        } else {
            Err(HandError::Incomplete)
        }
    } else if kinds == 3 {
        if top == 2 {
            Ok(2)
        } else if top == 3 {
            Ok(3)
        } else {
            Err(HandError::Incomplete)
        }
    } else if kinds == 4 {
        Ok(1)
    } else if kinds == 5 {
        Ok(0)
    } else {
        Err(HandError::Incomplete)
    }
}

/// Where the cards at the front end, given that the first `n` are cards.
pub proof fn lemma_good_cards(cards: Seq<char>, n: int)
    requires
        0 <= n <= cards.len(),
        forall|i: int| 0 <= i < n ==> card_value(#[trigger] cards[i], false) is Some,
        n == cards.len() || card_value(cards[n], false) is None,
    ensures
        good_cards(cards) == n,
    decreases n,
{
    if n > 0 {
        let rest = cards.drop_first();
        assert forall|i: int| 0 <= i < n - 1 implies card_value(#[trigger] rest[i], false)
            is Some by {
            assert(rest[i] == cards[i + 1]);
        }
        assert(card_value(cards[0], false) is Some);
        lemma_good_cards(rest, n - 1);
    }
}

/// At least `n` cards stand at the front when the first `n` are cards.
pub proof fn lemma_good_cards_at_least(cards: Seq<char>, n: int)
    requires
        0 <= n <= cards.len(),
        forall|i: int| 0 <= i < n ==> card_value(#[trigger] cards[i], false) is Some,
    ensures
        good_cards(cards) >= n,
    decreases n,
{
    if n > 0 {
        let rest = cards.drop_first();
        assert forall|i: int| 0 <= i < n - 1 implies card_value(#[trigger] rest[i], false)
            is Some by {
            assert(rest[i] == cards[i + 1]);
        }
        assert(card_value(cards[0], false) is Some);
        lemma_good_cards_at_least(rest, n - 1);
    }
}

impl Hand {
    /// Reads a hand from its cards, and finds its type. Under the joker rule a
    /// `J` is worth least and counts as the most frequent other card.
    pub fn from_str(s: &str, joker_rule: bool) -> (r: Result<Hand, HandError>)
        ensures
            match r {
                Ok(hand) => {
                    &&& hand_of(s@, joker_rule) is Ok
                    &&& hand.type_value == hand_of(s@, joker_rule)->Ok_0.type_value
                    &&& hand.card_values@ == values_of(s@, joker_rule)
                },
                Err(e) => hand_of(s@, joker_rule) == Err::<Hand, HandError>(e),
            },
    {
        let cards = chars_of(s);
        Hand::from_cards(&cards, joker_rule)
    }

    /// Reads a hand from its cards, and finds its type.
    pub fn from_cards(cards: &Vec<char>, joker_rule: bool) -> (r: Result<Hand, HandError>)
        ensures
            match r {
                Ok(hand) => {
                    &&& hand_of(cards@, joker_rule) is Ok
                    &&& hand.type_value == hand_of(cards@, joker_rule)->Ok_0.type_value
                    &&& hand.card_values@ == values_of(cards@, joker_rule)
                },
                Err(e) => hand_of(cards@, joker_rule) == Err::<Hand, HandError>(e),
            },
    {
        let mut card_values: [u32; 5] = [0, 0, 0, 0, 0];
        let mut i: usize = 0;
        while i < cards.len()
            invariant
                i <= cards.len(),
                i <= 5,
                forall|k: int| 0 <= k < i ==> card_value(#[trigger] cards@[k], false) is Some,
                forall|k: int|
                    0 <= k < 5 ==> #[trigger] card_values@[k] == if k < i {
                        card_value(cards@[k], joker_rule)->0
                    } else {
                        0u32
                    },
            decreases cards.len() - i,
        {
            let value = match value_of(cards[i], joker_rule) {
                Some(v) => v,
                None => {
                    proof {
                        lemma_good_cards(cards@, i as int);
                    }
                    return Err(HandError::BadCard);
                },
            };
            if i >= 5 {
                proof {
                    assert(card_value(cards@[i as int], false) is Some);
                    lemma_good_cards_at_least(cards@, i + 1);
                }
                return Err(HandError::TooManyCards);
            }
            card_values[i] = value;
            i += 1;
        }
        proof {
            lemma_good_cards(cards@, cards@.len() as int);
            assert(card_values@ =~= values_of(cards@, joker_rule));
            assert(cards@.take(cards@.len() as int) =~= cards@);
        }
        let wild: usize = if joker_rule {
            count_card(cards, cards.len(), 'J')
        } else {
            0
        };
        let (found, top) = if joker_rule && wild < 5 {
            count_kinds(&remove_card(cards, 'J'))
        } else {
            count_kinds(cards)
        };
        match type_value_of(found, top + wild) {
            Ok(type_value) => Ok(Hand { card_values, type_value }),
            Err(e) => Err(e),
        }
    }

    /// The values of the cards, as a sequence of five.
    pub open spec fn values(self) -> Seq<u32> {
        self.card_values@
    }
}

/// Whether the values `a` come before the values `b`: at the first place where
/// they differ, `a` holds the smaller one.
pub open spec fn values_before(a: Seq<u32>, b: Seq<u32>, from: int) -> bool
    decreases 5 - from,
{
    if from >= 5 {
        false
    } else if a[from] != b[from] {
        a[from] < b[from]
    } else {
        values_before(a, b, from + 1)
    }
}

/// Whether hand `a` is weaker than hand `b`: its type is lower, or the types
/// are equal and its cards come first.
pub open spec fn weaker(a: Hand, b: Hand) -> bool {
    a.type_value < b.type_value || (a.type_value == b.type_value && values_before(
        a.values(),
        b.values(),
        0,
    ))
}

/// Whether hand `a` is weaker than hand `b`.
pub fn is_weaker(a: &Hand, b: &Hand) -> (r: bool)
    ensures
        r == weaker(*a, *b),
{
    if a.type_value != b.type_value {
        return a.type_value < b.type_value;
    }
    let mut i: usize = 0;
    while i < 5
        invariant
            i <= 5,
            a.type_value == b.type_value,
            values_before(a.values(), b.values(), 0) == values_before(
                a.values(),
                b.values(),
                i as int,
            ),
        decreases 5 - i,
    {
        if a.card_values[i] != b.card_values[i] {
            return a.card_values[i] < b.card_values[i];
        }
        i += 1;
    }
    false
}

/// `ranked` with `entry` put in: behind every hand that is not stronger than
/// it, and before the stronger ones.
pub open spec fn placed(ranked: Seq<(Hand, i32)>, entry: (Hand, i32)) -> Seq<(Hand, i32)>
    decreases ranked.len(),
{
    if ranked.len() > 0 && weaker(entry.0, ranked.last().0) {
        placed(ranked.drop_last(), entry).push(ranked.last())
    } else {
        ranked.push(entry)
    }
}

/// The hands from the weakest to the strongest; hands of equal strength stay
/// in the order in which they came.
pub open spec fn ranked(hands: Seq<(Hand, i32)>) -> Seq<(Hand, i32)>
    decreases hands.len(),
{
    if hands.len() == 0 {
        hands
    } else {
        placed(ranked(hands.drop_last()), hands.last())
    }
}

/// The sum, over the hands in their order, of each bid times the rank of its
/// hand, the first hand having rank 1. `Overflow` as soon as a rank, a product
/// or the sum leaves 32 bits.
pub open spec fn winnings(hands: Seq<(Hand, i32)>) -> Result<i32, HandError>
    decreases hands.len(),
{
    if hands.len() == 0 {
        Ok(0)
    } else {
        match winnings(hands.drop_last()) {
            Err(e) => Err(e),
            Ok(total) => {
                let rank = hands.len() as int;
                let gain = hands.last().1 * rank;
                if rank <= i32::MAX && i32::MIN <= gain <= i32::MAX && i32::MIN <= total + gain
                    <= i32::MAX {
                    Ok((total + gain) as i32)
                } else {
                    Err(HandError::Overflow)
                }
            },
        }
    }
}

/// Where `entry` goes in `ranked`: everything from `p` on is stronger than it,
/// and what stands before `p` is not.
pub proof fn lemma_placed_at(ranked: Seq<(Hand, i32)>, entry: (Hand, i32), p: int)
    requires
        0 <= p <= ranked.len(),
        forall|k: int| p <= k < ranked.len() ==> weaker(entry.0, (#[trigger] ranked[k]).0),
        p == 0 || !weaker(entry.0, ranked[p - 1].0),
    ensures
        placed(ranked, entry) == ranked.take(p).push(entry) + ranked.skip(p),
    decreases ranked.len() - p,
{
    if p < ranked.len() {
        let shorter = ranked.drop_last();
        assert(weaker(entry.0, ranked[ranked.len() - 1].0));
        assert forall|k: int| p <= k < shorter.len() implies weaker(
            entry.0,
            (#[trigger] shorter[k]).0,
        ) by {
            assert(shorter[k] == ranked[k]);
        }
        lemma_placed_at(shorter, entry, p);
        assert(shorter.take(p) =~= ranked.take(p));
        assert((shorter.take(p).push(entry) + shorter.skip(p)).push(ranked.last()) =~= ranked.take(
            p,
        ).push(entry) + ranked.skip(p));
    } else {
        assert(ranked.take(p) =~= ranked);
        assert(ranked.push(entry) + ranked.skip(p) =~= ranked.push(entry));
    }
}

/// Puts the hands in order, from the weakest to the strongest; hands of equal
/// strength stay in the order in which they came.
pub fn rank_hands(hands: &Vec<(Hand, i32)>) -> (out: Vec<(Hand, i32)>)
    ensures
        out@ == ranked(hands@),
{
    let mut out: Vec<(Hand, i32)> = Vec::new();
    let mut i: usize = 0;
    proof {
        assert(hands@.take(0) =~= Seq::<(Hand, i32)>::empty());
    }
    while i < hands.len()
        invariant
            i <= hands.len(),
            out@ == ranked(hands@.take(i as int)),
        decreases hands.len() - i,
    {
        proof {
            assert(hands@.take(i + 1).drop_last() =~= hands@.take(i as int));
            assert(hands@.take(i + 1).last() == hands@[i as int]);
        }
        let entry = hands[i];
        let mut p: usize = out.len();
        while p > 0 && is_weaker(&entry.0, &out[p - 1].0)
            invariant
                p <= out.len(),
                forall|k: int| p <= k < out@.len() ==> weaker(entry.0, (#[trigger] out@[k]).0),
            decreases p,
        {
            p -= 1;
        }
        proof {
            lemma_placed_at(out@, entry, p as int);
        }
        let ghost before = out@;
        out.insert(p, entry);
        proof {
            assert(out@ =~= before.take(p as int).push(entry) + before.skip(p as int));
        }
        i += 1;
    }
    proof {
        assert(hands@.take(hands.len() as int) =~= hands@);
    }
    out
}

/// Where `entry` goes in `ranked`: before the hands at the end that are
/// stronger than it.
pub open spec fn place(ranked: Seq<(Hand, i32)>, entry: (Hand, i32)) -> int
    decreases ranked.len(),
{
    if ranked.len() > 0 && weaker(entry.0, ranked.last().0) {
        place(ranked.drop_last(), entry)
    } else {
        ranked.len() as int
    }
}

/// `hands` stand in order: none is weaker than one before it.
pub open spec fn in_order(hands: Seq<(Hand, i32)>) -> bool {
    forall|i: int, j: int|
        0 <= i < j < hands.len() ==> !weaker((#[trigger] hands[j]).0, (#[trigger] hands[i]).0)
}

/// Putting a hand in puts it at its place and moves nothing else: what stands
/// behind it is stronger, what stands right before it is not.
pub proof fn lemma_place(ranked: Seq<(Hand, i32)>, entry: (Hand, i32))
    ensures
        0 <= place(ranked, entry) <= ranked.len(),
        forall|k: int|
            place(ranked, entry) <= k < ranked.len() ==> weaker(entry.0, (#[trigger] ranked[k]).0),
        place(ranked, entry) == 0 || !weaker(entry.0, ranked[place(ranked, entry) - 1].0),
        placed(ranked, entry) == ranked.insert(place(ranked, entry), entry),
    decreases ranked.len(),
{
    if ranked.len() > 0 && weaker(entry.0, ranked.last().0) {
        let shorter = ranked.drop_last();
        lemma_place(shorter, entry);
        assert forall|k: int| place(ranked, entry) <= k < ranked.len() implies weaker(
            entry.0,
            (#[trigger] ranked[k]).0,
        ) by {
            if k < shorter.len() {
                assert(ranked[k] == shorter[k]);
            }
        }
        if place(ranked, entry) > 0 {
            assert(ranked[place(ranked, entry) - 1] == shorter[place(ranked, entry) - 1]);
        }
    }
    let p = place(ranked, entry);
    lemma_placed_at(ranked, entry, p);
    assert(ranked.insert(p, entry) =~= ranked.take(p).push(entry) + ranked.skip(p));
}

/// Comparing the values of cards from a place on is an order: it never holds
/// both ways, and what is not after a second that is not after a third is not
/// after the third.
pub proof fn lemma_values_order(a: Seq<u32>, b: Seq<u32>, c: Seq<u32>, from: int)
    requires
        0 <= from,
    ensures
        values_before(a, b, from) ==> !values_before(b, a, from),
        !values_before(b, a, from) && !values_before(c, b, from) ==> !values_before(c, a, from),
    decreases 5 - from,
{
    if from < 5 {
        lemma_values_order(a, b, c, from + 1);
    }
}

/// Being weaker is an order on hands.
pub proof fn lemma_weaker_order(a: Hand, b: Hand, c: Hand)
    ensures
        weaker(a, b) ==> !weaker(b, a),
        !weaker(b, a) && !weaker(c, b) ==> !weaker(c, a),
{
    lemma_values_order(a.values(), b.values(), c.values(), 0);
}

/// Ranking sorts: the ranked hands stand in order, and they are the hands that
/// were given, each as often as it was given.
pub proof fn lemma_ranked_sorts(hands: Seq<(Hand, i32)>)
    ensures
        in_order(ranked(hands)),
        ranked(hands).len() == hands.len(),
        ranked(hands).to_multiset() == hands.to_multiset(),
    decreases hands.len(),
{
    if hands.len() > 0 {
        let before = ranked(hands.drop_last());
        let entry = hands.last();
        lemma_ranked_sorts(hands.drop_last());
        lemma_place(before, entry);
        let p = place(before, entry);
        let after = ranked(hands);
        assert(after == before.insert(p, entry));
        assert forall|i: int, j: int| 0 <= i < j < after.len() implies !weaker(
            (#[trigger] after[j]).0,
            (#[trigger] after[i]).0,
        ) by {
            if j < p {
                assert(after[i] == before[i] && after[j] == before[j]);
            } else if j == p {
                assert(after[i] == before[i]);
                if i < p - 1 {
                    assert(!weaker(before[p - 1].0, before[i].0));
                }
                lemma_weaker_order(before[i].0, before[p - 1].0, entry.0);
            } else if i == p {
                assert(after[j] == before[j - 1]);
                lemma_weaker_order(entry.0, before[j - 1].0, entry.0);
            } else if i < p {
                assert(after[i] == before[i] && after[j] == before[j - 1]);
            } else {
                assert(after[i] == before[i - 1] && after[j] == before[j - 1]);
            }
        }
        vstd::seq_lib::to_multiset_insert(before, p, entry);
        vstd::seq_lib::to_multiset_build(hands.drop_last(), entry);
        assert(hands =~= hands.drop_last().push(entry));
    } else {
        assert(ranked(hands) =~= hands);
    }
}

/// An overflow among the first hands is the outcome for all of them.
pub proof fn lemma_winnings_error_stays(hands: Seq<(Hand, i32)>, n: int)
    requires
        0 <= n <= hands.len(),
        winnings(hands.take(n)) is Err,
    ensures
        winnings(hands) == winnings(hands.take(n)),
    decreases hands.len() - n,
{
    if n < hands.len() {
        assert(hands.take(n + 1).drop_last() =~= hands.take(n));
        lemma_winnings_error_stays(hands, n + 1);
    } else {
        assert(hands.take(n) =~= hands);
    }
}

/// The sum of each bid times the rank of its hand, for hands that stand in
/// their order.
pub fn total_winnings(hands: &Vec<(Hand, i32)>) -> (r: Result<i32, HandError>)
    ensures
        r == winnings(hands@),
{
    let mut total: i32 = 0;
    let mut i: usize = 0;
    proof {
        assert(hands@.take(0) =~= Seq::<(Hand, i32)>::empty());
    }
    while i < hands.len()
        invariant
            i <= hands.len(),
            winnings(hands@.take(i as int)) == Ok::<i32, HandError>(total),
        decreases hands.len() - i,
    {
        proof {
            assert(hands@.take(i + 1).drop_last() =~= hands@.take(i as int));
            assert(hands@.take(i + 1).last() == hands@[i as int]);
        }
        let bid = hands[i].1;
        let next = if i + 1 > i32::MAX as usize {
            None
        } else {
            match bid.checked_mul((i + 1) as i32) {
                Some(gain) => total.checked_add(gain),
                None => None,
            }
        };
        match next {
            Some(sum) => {
                total = sum;
            },
            None => {
                proof {
                    assert(winnings(hands@.take(i + 1)) is Err);
                    lemma_winnings_error_stays(hands@, i + 1);
                }
                return Err(HandError::Overflow);
            },
        }
        i += 1;
    }
    proof {
        assert(hands@.take(hands.len() as int) =~= hands@);
    }
    Ok(total)
}

/// The hand and the bid that `line` writes: its first token is the hand, its
/// second the bid.
pub open spec fn entry_of(line: Seq<char>, joker_rule: bool) -> Result<(Hand, i32), HandError> {
    let tokens = tokens_of(line);
    if tokens.len() == 0 {
        Err(HandError::MissingHand)
    } else {
        match hand_of(tokens[0], joker_rule) {
            Err(e) => Err(e),
            Ok(hand) => if tokens.len() == 1 {
                Err(HandError::MissingBid)
            } else {
                match small_number_of(tokens[1]) {
                    None => Err(HandError::BadBid),
                    Some(bid) => Ok((hand, bid)),
                }
            },
        }
    }
}

/// The hands and bids that `lines` write, or the error of the first line that
/// writes none.
pub open spec fn entries_of(lines: Seq<Seq<char>>, joker_rule: bool) -> Result<
    Seq<(Hand, i32)>,
    HandError,
>
    decreases lines.len(),
{
    if lines.len() == 0 {
        Ok(Seq::empty())
    } else {
        match entries_of(lines.drop_last(), joker_rule) {
            Err(e) => Err(e),
            Ok(entries) => match entry_of(lines.last(), joker_rule) {
                Err(e) => Err(e),
                Ok(entry) => Ok(entries.push(entry)),
            },
        }
    }
}

/// The winnings of the list of hands in `text`.
pub open spec fn played(text: Seq<char>, joker_rule: bool) -> Result<i32, HandError> {
    match entries_of(lines_of(text), joker_rule) {
        Err(e) => Err(e),
        Ok(entries) => winnings(ranked(entries)),
    }
}

/// An error among the first lines is the error of all of them.
pub proof fn lemma_entries_error_stays(lines: Seq<Seq<char>>, n: int, joker_rule: bool)
    requires
        0 <= n <= lines.len(),
        entries_of(lines.take(n), joker_rule) is Err,
    ensures
        entries_of(lines, joker_rule) == entries_of(lines.take(n), joker_rule),
    decreases lines.len() - n,
{
    if n < lines.len() {
        assert(lines.take(n + 1).drop_last() =~= lines.take(n));
        lemma_entries_error_stays(lines, n + 1, joker_rule);
    } else {
        assert(lines.take(n) =~= lines);
    }
}

/// Two hands of one type whose cards have the same values are the same hand.
pub proof fn lemma_same_hand(a: Hand, b: Hand)
    requires
        a.type_value == b.type_value,
        a.card_values@ == b.card_values@,
    ensures
        a == b,
{
    assert(a.card_values =~= b.card_values);
}

/// Reads the hand and the bid of one line.
pub fn read_entry(line: &Vec<char>, joker_rule: bool) -> (r: Result<(Hand, i32), HandError>)
    ensures
        r == entry_of(line@, joker_rule),
{
    let tokens = split_whitespace(line);
    if tokens.len() == 0 {
        return Err(HandError::MissingHand);
    }
    let hand = match Hand::from_cards(&tokens[0], joker_rule) {
        Ok(hand) => hand,
        Err(e) => {
            return Err(e);
        },
    };
    proof {
        lemma_same_hand(hand, hand_of(tokens@[0]@, joker_rule)->Ok_0);
    }
    if tokens.len() == 1 {
        return Err(HandError::MissingBid);
    }
    match parse_small_number(&tokens[1]) {
        Some(bid) => Ok((hand, bid)),
        None => Err(HandError::BadBid),
    }
}

/// The winnings of the list of hands in `s`: every line holds a hand and its
/// bid; the hands are ranked from the weakest to the strongest, and each bid
/// is won as many times as its hand ranks.
pub fn process_hands(s: &str, joker_rule: bool) -> (r: Result<String, HandError>)
    ensures
        match r {
            Ok(answer) => played(s@, joker_rule) matches Ok(n) && answer@ == signed_decimal(
                n as int,
            ),
            Err(e) => played(s@, joker_rule) == Err::<i32, HandError>(e),
        },
{
    let lines = text_lines(s);
    let ghost all = lines_of(s@);
    let mut hands: Vec<(Hand, i32)> = Vec::new();
    let mut i: usize = 0;
    proof {
        assert(all.take(0) =~= Seq::<Seq<char>>::empty());
    }
    while i < lines.len()
        invariant
            i <= lines.len(),
            all == rows_of(lines@),
            all == lines_of(s@),
            entries_of(all.take(i as int), joker_rule) == Ok::<Seq<(Hand, i32)>, HandError>(
                hands@,
            ),
        decreases lines.len() - i,
    {
        proof {
            assert(all.take(i + 1).drop_last() =~= all.take(i as int));
            assert(all.take(i + 1).last() == lines@[i as int]@);
        }
        match read_entry(&lines[i], joker_rule) {
            Ok(entry) => {
                hands.push(entry);
            },
            Err(e) => {
                proof {
                    assert(entries_of(all.take(i + 1), joker_rule) is Err);
                    lemma_entries_error_stays(all, i + 1, joker_rule);
                }
                return Err(e);
            },
        }
        i += 1;
    }
    proof {
        assert(all.take(lines.len() as int) =~= all);
    }
    let in_order = rank_hands(&hands);
    match total_winnings(&in_order) {
        Ok(total) => Ok(signed_decimal_string(total as i64)),
        Err(e) => Err(e),
    }
}

/// The winnings of the list of hands, in decimal.
pub fn part_1(s: &str) -> (r: Result<String, HandError>)
    ensures
        match r {
            Ok(answer) => played(s@, false) matches Ok(n) && answer@ == signed_decimal(n as int),
            Err(e) => played(s@, false) == Err::<i32, HandError>(e),
        },
{
    process_hands(s, false)
}

/// The winnings of the list of hands under the joker rule, in decimal.
pub fn part_2(s: &str) -> (r: Result<String, HandError>)
    ensures
        match r {
            Ok(answer) => played(s@, true) matches Ok(n) && answer@ == signed_decimal(n as int),
            Err(e) => played(s@, true) == Err::<i32, HandError>(e),
        },
{
    process_hands(s, true)
}

} // verus!
