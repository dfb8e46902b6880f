//! An almanac: a list of seeds, and sections of range maps that lead from a
//! seed to its location.

use vstd::prelude::*;
use crate::grid::rows_of;
use crate::text::{
    chars_of,
    is_alphabetic_char,
    lines_of,
    number_of,
    numbers_in,
    parse_number,
    parse_numbers,
    parse_on_whitespace,
    prefix_split,
    signed_decimal,
    signed_decimal_string,
    split_prefix,
    split_whitespace,
    string_of,
    text_lines,
    tokens_of,
    lemma_number_fits,
};

verus! {

/// What can go wrong with an almanac.
#[derive(Clone, Copy, Debug, PartialEq, Eq, Structural)]
pub enum AlmanacError {
    /// The first line is missing, or is not of the form `<name>: <seeds>`.
    MissingSeeds,
    /// Something that should be a number of 64 bits is none.
    BadNumber,
    /// A range map has fewer than three numbers, or maps a number out of 64
    /// bits.
    BadRange,
    /// The end of a range of seeds does not fit in 64 bits.
    Overflow,
    /// The almanac names no seed.
    NoSeeds,
    /// No location leads back to a seed.
    NoLocation,
}

/// A map from the numbers `src_start .. src_start + range_len` to the numbers
/// from `dst_start` on.
#[derive(Copy, Clone, Debug)]
pub struct RangeMap {
    pub dst_start: i64,
    pub src_start: i64,
    pub range_len: i64,
}

impl RangeMap {
    /// Every number that the map maps, it maps to a number of 64 bits.
    pub open spec fn wf(self) -> bool {
        self.range_len <= 0 || self.dst_start + self.range_len - 1 <= i64::MAX
    }

    /// Where the map takes `k`, or `None` for a `k` outside its range.
    pub open spec fn mapped(self, k: i64) -> Option<i64> {
        if self.src_start <= k < self.src_start + self.range_len {
            Some((self.dst_start + (k - self.src_start)) as i64)
        } else {
            None
        }
    }

    /// Where the map takes `k`, or `None` for a `k` outside its range.
    pub fn get(&self, k: i64) -> (r: Option<i64>)
        requires
            self.wf(),
        ensures
            r == self.mapped(k),
    {
        if k < self.src_start || k as i128 >= self.src_start as i128 + self.range_len as i128 {
            return None;
        }
        Some((self.dst_start as i128 + (k as i128 - self.src_start as i128)) as i64)
    }

    /// Reads a range map from a line of three numbers: where the destination
    /// starts, where the source starts, and the length of the range. What
    /// follows the third number is not read.
    pub fn from_str(s: &str) -> (r: Result<RangeMap, AlmanacError>)
        ensures
            r == range_of(s@, false),
            r matches Ok(m) ==> m.wf(),
    {
        let text = chars_of(s);
        read_range(&text, false)
    }
}

/// The range map that the three numbers make, if it is well formed.
pub open spec fn checked_range(dst_start: i64, src_start: i64, range_len: i64) -> Result<
    RangeMap,
    AlmanacError,
> {
    let m = RangeMap { dst_start, src_start, range_len };
    if m.wf() {
        Ok(m)
    } else {
        Err(AlmanacError::BadRange)
    }
}

/// The number that token `i` of `tokens` writes.
pub open spec fn token_number(tokens: Seq<Seq<char>>, i: int) -> Result<i64, AlmanacError> {
    if i >= tokens.len() {
        Err(AlmanacError::BadRange)
    } else {
        match number_of(tokens[i]) {
            Ok(v) => Ok(v as i64),
            Err(e) => Err(AlmanacError::BadNumber),
        }
    }
}

/// The range map that `line` writes. Read forwards, its first three tokens
/// are the start of the destination, the start of the source and the length.
/// Read inversely, all its tokens must be numbers, and the first two change
/// places.
pub open spec fn range_of(line: Seq<char>, inverse: bool) -> Result<RangeMap, AlmanacError> {
    if inverse {
        match numbers_in(line) {
            Err(e) => Err(AlmanacError::BadNumber),
            Ok(numbers) => if numbers.len() < 3 {
                Err(AlmanacError::BadRange)
            } else {
                checked_range(numbers[1], numbers[0], numbers[2])
            },
        }
    } else {
        let tokens = tokens_of(line);
        match token_number(tokens, 0) {
            Err(e) => Err(e),
            Ok(dst_start) => match token_number(tokens, 1) {
                Err(e) => Err(e),
                Ok(src_start) => match token_number(tokens, 2) {
                    Err(e) => Err(e),
                    Ok(range_len) => checked_range(dst_start, src_start, range_len),
                },
            },
        }
    }
}

/// The range map that the three numbers make, if it is well formed.
pub fn check_range(dst_start: i64, src_start: i64, range_len: i64) -> (r: Result<
    RangeMap,
    AlmanacError,
>)
    ensures
        r == checked_range(dst_start, src_start, range_len),
        r matches Ok(m) ==> m.wf(),
{
    if range_len > 0 && dst_start as i128 + range_len as i128 - 1 > i64::MAX as i128 {
        Err(AlmanacError::BadRange)
    } else {
        Ok(RangeMap { dst_start, src_start, range_len })
    }
}

/// Reads the number that token `i` of `tokens` writes.
pub fn read_token(tokens: &Vec<Vec<char>>, i: usize) -> (r: Result<i64, AlmanacError>)
    ensures
        r == token_number(rows_of(tokens@), i as int),
{
    if i >= tokens.len() {
        return Err(AlmanacError::BadRange);
    }
    proof {
        lemma_number_fits(tokens@[i as int]@);
    }
    match parse_number(&tokens[i]) {
        Ok(v) => Ok(v),
        Err(e) => Err(AlmanacError::BadNumber),
    }
}

/// Reads the range map that `line` writes, forwards or inversely.
pub fn read_range(line: &Vec<char>, inverse: bool) -> (r: Result<RangeMap, AlmanacError>)
    ensures
        r == range_of(line@, inverse),
        r matches Ok(m) ==> m.wf(),
{
    if inverse {
        match parse_numbers(line) {
            Err(e) => Err(AlmanacError::BadNumber),
            Ok(numbers) => if numbers.len() < 3 {
                Err(AlmanacError::BadRange)
            } else {
                check_range(numbers[1], numbers[0], numbers[2])
            },
        }
    } else {
        let tokens = split_whitespace(line);
        let dst_start = match read_token(&tokens, 0) {
            Ok(v) => v,
            Err(e) => {
                return Err(e);
            },
        };
        let src_start = match read_token(&tokens, 1) {
            Ok(v) => v,
            Err(e) => {
                return Err(e);
            },
        };
        let range_len = match read_token(&tokens, 2) {
            Ok(v) => v,
            Err(e) => {
                return Err(e);
            },
        };
        check_range(dst_start, src_start, range_len)
    }
}

/// All of `maps` are well formed.
pub open spec fn all_wf(maps: Seq<RangeMap>) -> bool {
    forall|i: int| 0 <= i < maps.len() ==> (#[trigger] maps[i]).wf()
}

/// All maps of all `sections` are well formed.
pub open spec fn sections_wf(sections: Seq<Seq<RangeMap>>) -> bool {
    forall|i: int| 0 <= i < sections.len() ==> all_wf(#[trigger] sections[i])
}

/// Where the first of `maps` that maps `k` takes it, or `None` when none does.
pub open spec fn first_mapped(k: i64, maps: Seq<RangeMap>) -> Option<i64>
    decreases maps.len(),
{
    if maps.len() == 0 {
        None
    } else {
        match maps[0].mapped(k) {
            Some(v) => Some(v),
            None => first_mapped(k, maps.drop_first()),
        }
    }
}

/// Where the sections take `k`, one after the other: each section takes it
/// where its first map that maps it does, or leaves it as it is.
pub open spec fn carried(k: i64, sections: Seq<Seq<RangeMap>>) -> i64
    decreases sections.len(),
{
    if sections.len() == 0 {
        k
    } else {
        let before = carried(k, sections.drop_last());
        match first_mapped(before, sections.last()) {
            Some(v) => v,
            None => before,
        }
    }
}

/// Where the first of `maps` that maps `k` takes it, or `None` when none does.
pub fn get_all(k: i64, maps: &Vec<RangeMap>) -> (r: Option<i64>)
    requires
        all_wf(maps@),
    ensures
        r == first_mapped(k, maps@),
{
    let mut i: usize = 0;
    proof {
        assert(maps@.skip(0) =~= maps@);
    }
    while i < maps.len()
        invariant
            i <= maps.len(),
            all_wf(maps@),
            first_mapped(k, maps@) == first_mapped(k, maps@.skip(i as int)),
        decreases maps.len() - i,
    {
        proof {
            assert(maps@.skip(i as int).drop_first() =~= maps@.skip(i + 1));
            assert(maps@.skip(i as int)[0] == maps@[i as int]);
        }
        match maps[i].get(k) {
            Some(v) => {
                return Some(v);
            },
            None => {},
        }
        i += 1;
    }
    None
}

/// The sections as sequences of range maps.
pub open spec fn sections_of(sections: Seq<Vec<RangeMap>>) -> Seq<Seq<RangeMap>> {
    Seq::new(sections.len(), |i: int| sections[i]@)
}

/// Where the sections take `k`, one after the other.
pub fn carry(k: i64, sections: &Vec<Vec<RangeMap>>) -> (r: i64)
    requires
        sections_wf(sections_of(sections@)),
    ensures
        r == carried(k, sections_of(sections@)),
{
    let ghost all = sections_of(sections@);
    let mut at: i64 = k;
    let mut i: usize = 0;
    proof {
        assert(all.take(0) =~= Seq::<Seq<RangeMap>>::empty());
    }
    while i < sections.len()
        invariant
            i <= sections.len(),
            all == sections_of(sections@),
            sections_wf(all),
            at == carried(k, all.take(i as int)),
        decreases sections.len() - i,
    {
        proof {
            assert(all.take(i + 1).drop_last() =~= all.take(i as int));
            assert(all.take(i + 1).last() == sections@[i as int]@);
            assert(all_wf(all[i as int]));
        }
        match get_all(at, &sections[i]) {
            Some(v) => {
                at = v;
            },
            None => {},
        }
        i += 1;
    }
    proof {
        assert(all.take(sections.len() as int) =~= all);
    }
    at
}

/// Reading the lines of the sections from the top: the sections that have been
/// closed, and the maps of the section that is being read. An empty line
/// closes a section, which is then read on; a line that begins with a letter
/// begins a new one; any other line is a range map.
pub open spec fn read_sections(lines: Seq<Seq<char>>, inverse: bool) -> Result<
    (Seq<Seq<RangeMap>>, Seq<RangeMap>),
    AlmanacError,
>
    decreases lines.len(),
{
    if lines.len() == 0 {
        Ok((Seq::empty(), Seq::empty()))
    } else {
        match read_sections(lines.drop_last(), inverse) {
            Err(e) => Err(e),
            Ok((closed, current)) => {
                let line = lines.last();
                if line.len() == 0 {
                    Ok((closed.push(current), current))
                } else if is_alphabetic_char(line[0]) {
                    Ok((closed, Seq::empty()))
                } else {
                    match range_of(line, inverse) {
                        Ok(m) => Ok((closed, current.push(m))),
                        Err(e) => Err(e),
                    }
                }
            },
        }
    }
}

/// The sections that the lines of an almanac write, after its first three
/// lines.
pub open spec fn sections_in(lines: Seq<Seq<char>>, inverse: bool) -> Result<
    Seq<Seq<RangeMap>>,
    AlmanacError,
> {
    let rest = if lines.len() >= 3 {
        lines.skip(3)
    } else {
        Seq::empty()
    };
    match read_sections(rest, inverse) {
        Ok((closed, current)) => Ok(closed.push(current)),
        Err(e) => Err(e),
    }
}

/// The seeds that the first line of an almanac names.
pub open spec fn seeds_in(lines: Seq<Seq<char>>) -> Result<Seq<i64>, AlmanacError> {
    if lines.len() == 0 {
        Err(AlmanacError::MissingSeeds)
    } else {
        match prefix_split(lines[0]) {
            None => Err(AlmanacError::MissingSeeds),
            Some((name, data)) => match numbers_in(data) {
                Ok(seeds) => Ok(seeds),
                Err(e) => Err(AlmanacError::BadNumber),
            },
        }
    }
}

/// An error among the first lines is the error of all of them.
pub proof fn lemma_sections_error_stays(lines: Seq<Seq<char>>, n: int, inverse: bool)
    requires
        0 <= n <= lines.len(),
        read_sections(lines.take(n), inverse) is Err,
    ensures
        read_sections(lines, inverse) == read_sections(lines.take(n), inverse),
    decreases lines.len() - n,
{
    if n < lines.len() {
        assert(lines.take(n + 1).drop_last() =~= lines.take(n));
        lemma_sections_error_stays(lines, n + 1, inverse);
    } else {
        assert(lines.take(n) =~= lines);
    }
}

/// Reads the seeds from the first line of an almanac.
pub fn read_seeds(lines: &Vec<Vec<char>>) -> (r: Result<Vec<i64>, AlmanacError>)
    ensures
        match r {
            Ok(seeds) => seeds_in(rows_of(lines@)) == Ok::<Seq<i64>, AlmanacError>(seeds@),
            Err(e) => seeds_in(rows_of(lines@)) == Err::<Seq<i64>, AlmanacError>(e),
        },
{
    if lines.len() == 0 {
        return Err(AlmanacError::MissingSeeds);
    }
    let seed_line = string_of(&lines[0]);
    match split_prefix(seed_line.as_str()) {
        None => Err(AlmanacError::MissingSeeds),
        Some((name, data)) => match parse_on_whitespace(data) {
            Ok(seeds) => Ok(seeds),
            Err(e) => Err(AlmanacError::BadNumber),
        },
    }
}

/// Reads the sections of an almanac from its lines, after the first three.
pub fn read_almanac(lines: &Vec<Vec<char>>, inverse: bool) -> (r: Result<
    Vec<Vec<RangeMap>>,
    AlmanacError,
>)
    ensures
        match r {
            Ok(sections) => {
                &&& sections_in(rows_of(lines@), inverse) == Ok::<
                    Seq<Seq<RangeMap>>,
                    AlmanacError,
                >(sections_of(sections@))
                &&& sections_wf(sections_of(sections@))
            },
            Err(e) => sections_in(rows_of(lines@), inverse) == Err::<
                Seq<Seq<RangeMap>>,
                AlmanacError,
            >(e),
        },
{
    let ghost all = rows_of(lines@);
    let ghost rest = if all.len() >= 3 {
        all.skip(3)
    } else {
        Seq::empty()
    };
    let mut closed: Vec<Vec<RangeMap>> = Vec::new();
    let mut current: Vec<RangeMap> = Vec::new();
    let mut i: usize = 3;
    proof {
        assert(rest.take(0) =~= Seq::<Seq<char>>::empty());
        assert(sections_of(closed@) =~= Seq::<Seq<RangeMap>>::empty());
    }
    while i < lines.len()
        invariant
            3 <= i,
            i <= lines.len() || (lines.len() < 3 && i == 3),
            all == rows_of(lines@),
            rest == if all.len() >= 3 {
                all.skip(3)
            } else {
                Seq::<Seq<char>>::empty()
            },
            read_sections(rest.take(i - 3), inverse) == Ok::<
                (Seq<Seq<RangeMap>>, Seq<RangeMap>),
                AlmanacError,
            >((sections_of(closed@), current@)),
            sections_wf(sections_of(closed@)),
            all_wf(current@),
        decreases lines.len() - i,
    {
        proof {
            assert(rest.take(i + 1 - 3).drop_last() =~= rest.take(i - 3));
            assert(rest.take(i + 1 - 3).last() == lines@[i as int]@);
        }
        let line = &lines[i];
        if line.len() == 0 {
            let ghost before = sections_of(closed@);
            let copy = current.clone();
            proof {
                assert(copy@ =~= current@);
            }
            closed.push(copy);
            proof {
                let after = sections_of(closed@);
                assert(after =~= before.push(current@));
                assert forall|x: int| 0 <= x < after.len() implies all_wf(#[trigger] after[x]) by {
                    if x < before.len() {
                        assert(after[x] == before[x]);
                    }
                }
            }
        } else if line[0].is_alphabetic() {
            current = Vec::new();
        } else {
            match read_range(line, inverse) {
                Ok(m) => {
                    current.push(m);
                },
                Err(e) => {
                    proof {
                        assert(read_sections(rest.take(i + 1 - 3), inverse) is Err);
                        lemma_sections_error_stays(rest, i + 1 - 3, inverse);
                    }
                    return Err(e);
                },
            }
        }
        i += 1;
    }
    proof {
        if lines.len() >= 3 {
            assert(rest.take(lines.len() - 3) =~= rest);
        } else {
            assert(rest.take(0) =~= rest);
        }
    }
    let ghost before = sections_of(closed@);
    let ghost last = current@;
    closed.push(current);
    proof {
        let after = sections_of(closed@);
        assert(after =~= before.push(last));
        assert forall|x: int| 0 <= x < after.len() implies all_wf(#[trigger] after[x]) by {
            if x < before.len() {
                assert(after[x] == before[x]);
            }
        }
    }
    Ok(closed)
}

/// The lowest place that the sections take any of `seeds` to, or `None`
/// without seeds.
pub open spec fn lowest(seeds: Seq<i64>, sections: Seq<Seq<RangeMap>>) -> Option<i64>
    decreases seeds.len(),
{
    if seeds.len() == 0 {
        None
    } else {
        let here = carried(seeds.last(), sections);
        match lowest(seeds.drop_last(), sections) {
            Some(least) => if here < least {
                Some(here)
            } else {
                Some(least)
            },
            None => Some(here),
        }
    }
}

/// The lowest location of any seed of the almanac in `text`.
pub open spec fn lowest_location(text: Seq<char>) -> Result<i64, AlmanacError> {
    let lines = lines_of(text);
    match seeds_in(lines) {
        Err(e) => Err(e),
        Ok(seeds) => match sections_in(lines, false) {
            Err(e) => Err(e),
            Ok(sections) => match lowest(seeds, sections) {
                Some(least) => Ok(least),
                None => Err(AlmanacError::NoSeeds),
            },
        },
    }
}

/// The lowest location of any seed of the almanac, in decimal.
pub fn part_1(s: &str) -> (r: Result<String, AlmanacError>)
    ensures
        match r {
            Ok(answer) => lowest_location(s@) matches Ok(n) && answer@ == signed_decimal(n as int),
            Err(e) => lowest_location(s@) == Err::<i64, AlmanacError>(e),
        },
{
    let lines = text_lines(s);
    let seeds = match read_seeds(&lines) {
        Ok(seeds) => seeds,
        Err(e) => {
            return Err(e);
        },
    };
    let sections = match read_almanac(&lines, false) {
        Ok(sections) => sections,
        Err(e) => {
            return Err(e);
        },
    };
    let mut min_loc: Option<i64> = None;
    let mut i: usize = 0;
    proof {
        assert(seeds@.take(0) =~= Seq::<i64>::empty());
    }
    while i < seeds.len()
        invariant
            i <= seeds.len(),
            sections_wf(sections_of(sections@)),
            min_loc == lowest(seeds@.take(i as int), sections_of(sections@)),
        decreases seeds.len() - i,
    {
        proof {
            assert(seeds@.take(i + 1).drop_last() =~= seeds@.take(i as int));
            assert(seeds@.take(i + 1).last() == seeds@[i as int]);
        }
        let k = carry(seeds[i], &sections);
        min_loc = match min_loc {
            Some(least) => if k < least {
                Some(k)
            } else {
                Some(least)
            },
            None => Some(k),
        };
        i += 1;
    }
    proof {
        assert(seeds@.take(seeds.len() as int) =~= seeds@);
    }
    match min_loc {
        Some(least) => Ok(signed_decimal_string(least)),
        None => Err(AlmanacError::NoSeeds),
    }
}

/// The ranges of seeds that a list of numbers names: its numbers in pairs, the
/// start of a range and its length, each range running from its start to start
/// plus length. A number left over at the end is not read. `Overflow` when an
/// end does not fit in 64 bits.
pub open spec fn seed_ranges(numbers: Seq<i64>, pairs: nat) -> Result<
    Seq<(i64, i64)>,
    AlmanacError,
>
    decreases pairs,
{
    if pairs == 0 {
        Ok(Seq::empty())
    } else {
        match seed_ranges(numbers, (pairs - 1) as nat) {
            Err(e) => Err(e),
            Ok(ranges) => {
                let start = numbers[2 * pairs - 2];
                let end = start + numbers[2 * pairs - 1];
                if i64::MIN <= end <= i64::MAX {
                    Ok(ranges.push((start, end as i64)))
                } else {
                    Err(AlmanacError::Overflow)
                }
            },
        }
    }
}

/// `k` lies strictly inside one of `ranges`.
pub open spec fn inside_a_range(k: i64, ranges: Seq<(i64, i64)>) -> bool {
    exists|i: int| 0 <= i < ranges.len() && (#[trigger] ranges[i]).0 < k < ranges[i].1
}

/// The first location from `from` on that the sections take to a number inside
/// one of `ranges`.
pub open spec fn first_location(
    ranges: Seq<(i64, i64)>,
    sections: Seq<Seq<RangeMap>>,
    from: int,
) -> Option<i64>
    decreases 0x7fff_ffff_ffff_ffff - from,
{
    if from > 0x7fff_ffff_ffff_ffff || from < -0x8000_0000_0000_0000 {
        None
    } else if inside_a_range(carried(from as i64, sections), ranges) {
        Some(from as i64)
    } else if from == 0x7fff_ffff_ffff_ffff {
        None
    } else {
        first_location(ranges, sections, from + 1)
    }
}

/// The lowest location from 0 on that leads back into a range of seeds, where
/// the sections are read inversely and in reverse order.
pub open spec fn lowest_in_ranges(text: Seq<char>) -> Result<i64, AlmanacError> {
    let lines = lines_of(text);
    match seeds_in(lines) {
        Err(e) => Err(e),
        Ok(numbers) => if numbers.len() == 0 {
            Err(AlmanacError::NoSeeds)
        } else {
            match seed_ranges(numbers, numbers.len() / 2) {
                Err(e) => Err(e),
                Ok(ranges) => match sections_in(lines, true) {
                    Err(e) => Err(e),
                    Ok(sections) => match first_location(ranges, sections.reverse(), 0) {
                        Some(loc) => Ok(loc),
                        None => Err(AlmanacError::NoLocation),
                    },
                },
            }
        },
    }
}

/// Whether `k` lies strictly inside one of `ranges`.
pub fn in_ranges(k: i64, ranges: &Vec<(i64, i64)>) -> (r: bool)
    ensures
        r == inside_a_range(k, ranges@),
{
    let mut i: usize = 0;
    while i < ranges.len()
        invariant
            i <= ranges.len(),
            forall|j: int| 0 <= j < i ==> !((#[trigger] ranges@[j]).0 < k < ranges@[j].1),
        decreases ranges.len() - i,
    {
        if k > ranges[i].0 && k < ranges[i].1 {
            return true;
        }
        i += 1;
    }
    false
}

/// The sections in reverse order.
pub fn reverse_sections(sections: Vec<Vec<RangeMap>>) -> (out: Vec<Vec<RangeMap>>)
    ensures
        sections_of(out@) == sections_of(sections@).reverse(),
{
    let mut rest = sections;
    let ghost all = sections_of(rest@);
    let mut out: Vec<Vec<RangeMap>> = Vec::new();
    proof {
        assert(sections_of(out@) =~= all.reverse().take(0));
    }
    while rest.len() > 0
        invariant
            rest@.len() <= all.len(),
            sections_of(rest@) == all.take(rest@.len() as int),
            sections_of(out@) == all.reverse().take(all.len() - rest@.len()),
        decreases rest.len(),
    {
        let ghost before_rest = sections_of(rest@);
        let ghost before_out = sections_of(out@);
        let ghost n = rest@.len() as int;
        match rest.pop() {
            Some(section) => {
                proof {
                    assert(section@ == before_rest[n - 1]);
                    assert(sections_of(rest@) =~= all.take(n - 1));
                }
                out.push(section);
                proof {
                    assert(sections_of(out@) =~= before_out.push(all[n - 1]));
                    assert(sections_of(out@) =~= all.reverse().take(all.len() - (n - 1)));
                }
            },
            None => {},
        }
    }
    proof {
        assert(all.reverse().take(all.len() as int) =~= all.reverse());
    }
    out
}

/// Without ranges, no location leads into one.
pub proof fn lemma_no_ranges(sections: Seq<Seq<RangeMap>>, from: int)
    ensures
        first_location(Seq::<(i64, i64)>::empty(), sections, from) is None,
    decreases 0x7fff_ffff_ffff_ffff - from,
{
    if !(from > 0x7fff_ffff_ffff_ffff || from < -0x8000_0000_0000_0000) {
        if from != 0x7fff_ffff_ffff_ffff {
            lemma_no_ranges(sections, from + 1);
        }
    }
}

/// An overflow among the first ranges is the outcome for all of them.
pub proof fn lemma_ranges_error_stays(numbers: Seq<i64>, n: nat, pairs: nat)
    requires
        n <= pairs,
        seed_ranges(numbers, n) is Err,
    ensures
        seed_ranges(numbers, pairs) == seed_ranges(numbers, n),
    decreases pairs - n,
{
    if n < pairs {
        lemma_ranges_error_stays(numbers, n, (pairs - 1) as nat);
    }
}

/// The lowest location from 0 on that leads back into a range of seeds, in
/// decimal.
pub fn part_2(s: &str) -> (r: Result<String, AlmanacError>)
    ensures
        match r {
            Ok(answer) => lowest_in_ranges(s@) matches Ok(n) && answer@ == signed_decimal(
                n as int,
            ),
            Err(e) => lowest_in_ranges(s@) == Err::<i64, AlmanacError>(e),
        },
{
    let lines = text_lines(s);
    let numbers = match read_seeds(&lines) {
        Ok(numbers) => numbers,
        Err(e) => {
            return Err(e);
        },
    };
    if numbers.len() == 0 {
        return Err(AlmanacError::NoSeeds);
    }
    let n: usize = numbers.len();
    let pairs: usize = n / 2;
    let mut ranges: Vec<(i64, i64)> = Vec::new();
    let mut i: usize = 0;
    while i < pairs
        invariant
            i <= pairs,
            n == numbers@.len(),
            pairs == n / 2,
            numbers@.len() > 0,
            seeds_in(lines_of(s@)) == Ok::<Seq<i64>, AlmanacError>(numbers@),
            seed_ranges(numbers@, i as nat) == Ok::<Seq<(i64, i64)>, AlmanacError>(ranges@),
        decreases pairs - i,
    {
        assert(2 * i + 1 < n);
        let first: usize = 2 * i;
        let start = numbers[first];
        match start.checked_add(numbers[first + 1]) {
            Some(end) => {
                ranges.push((start, end));
            },
            None => {
                proof {
                    assert(seed_ranges(numbers@, (i + 1) as nat) is Err);
                    lemma_ranges_error_stays(numbers@, (i + 1) as nat, pairs as nat);
                }
                return Err(AlmanacError::Overflow);
            },
        }
        i += 1;
    }
    let sections = match read_almanac(&lines, true) {
        Ok(sections) => reverse_sections(sections),
        Err(e) => {
            return Err(e);
        },
    };
    let ghost turned = sections_of(sections@);
    proof {
        let read = sections_in(lines_of(s@), true)->Ok_0;
        assert(turned == read.reverse());
        assert forall|x: int| 0 <= x < turned.len() implies all_wf(#[trigger] turned[x]) by {
            assert(turned[x] == read[read.len() - 1 - x]);
        }
    }
    if ranges.len() == 0 {
        proof {
            assert(ranges@ =~= Seq::<(i64, i64)>::empty());
            lemma_no_ranges(turned, 0);
        }
        return Err(AlmanacError::NoLocation);
    }
    let mut loc: i64 = 0;
    loop
        invariant
            0 <= loc,
            turned == sections_of(sections@),
            sections_wf(turned),
            lowest_in_ranges(s@) == match first_location(ranges@, turned, 0) {
                Some(found) => Ok::<i64, AlmanacError>(found),
                None => Err::<i64, AlmanacError>(AlmanacError::NoLocation),
            },
            first_location(ranges@, turned, 0) == first_location(ranges@, turned, loc as int),
        decreases i64::MAX - loc,
    {
        let k = carry(loc, &sections);
        if in_ranges(k, &ranges) {
            return Ok(signed_decimal_string(loc));
        }
        if loc == i64::MAX {
            return Err(AlmanacError::NoLocation);
        }
        loc += 1;
    }
}

} // verus!
