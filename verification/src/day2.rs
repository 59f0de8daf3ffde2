//! Reactor level reports: a report is safe when its levels move strictly in
//! one direction by one to three per step; the dampened check tolerates one
//! bad level.
use vstd::prelude::*;

use crate::text::{
    all_digits, ascii_bytes, dec_chars_u, dec_value, lemma_dec_value_bound, lemma_pow10_mono,
    lemma_pow10_value, lines, lines_of, parse_u64, split_all, split_bytes, to_bytes, u64_to_string,
};

verus! {

/// One step in direction `direction` (1 falling, -1 rising): the gap is one
/// to three.
pub open spec fn pair_ok(a: int, b: int, direction: int) -> bool {
    a + direction == b || a + 2 * direction == b || a + 3 * direction == b
}

/// Whether the whole report steps in direction `direction` from `index` on.
pub open spec fn run_ok(levels: Seq<i32>, direction: int, index: int) -> bool
    decreases levels.len() - index,
{
    if index + 1 >= levels.len() {
        true
    } else if pair_ok(levels[index] as int, levels[index + 1] as int, direction) {
        run_ok(levels, direction, index + 1)
    } else {
        false
    }
}

/// The dampened check, as the solver walks it: one failing pair may be
/// skipped if removing one of its levels repairs the walk.
pub open spec fn dampened_ok(levels: Seq<i32>, direction: int, index: int, tolerated: bool) -> bool
    decreases levels.len() - index,
{
    if index + 1 >= levels.len() {
        true
    } else if pair_ok(levels[index] as int, levels[index + 1] as int, direction) {
        dampened_ok(levels, direction, index + 1, tolerated)
    } else if tolerated {
        false
    } else if index + 2 >= levels.len() {
        true
    } else {
        let can_remove_first = (index == 0 || pair_ok(
            levels[index - 1] as int,
            levels[index + 1] as int,
            direction,
        )) && pair_ok(levels[index + 1] as int, levels[index + 2] as int, direction);
        let can_remove_second = pair_ok(levels[index] as int, levels[index + 2] as int, direction);
        if can_remove_first || can_remove_second {
            dampened_ok(levels, direction, index + 2, true)
        } else {
            false
        }
    }
}

pub open spec fn day2_line_ok(l: Seq<u8>) -> bool {
    &&& split_all(l, 32).len() >= 2
    &&& forall|i: int|
        0 <= i < split_all(l, 32).len() ==> {
            let f = #[trigger] split_all(l, 32)[i];
            all_digits(f) && 1 <= f.len() <= 9
        }
}

pub open spec fn day2_input_ok(s: Seq<u8>) -> bool {
    forall|i: int| 0 <= i < lines_of(s).len() ==> day2_line_ok(#[trigger] lines_of(s)[i])
}

/// The level values of one report line.
pub open spec fn level_values(l: Seq<u8>) -> Seq<i32> {
    split_all(l, 32).map_values(|f: Seq<u8>| dec_value(f) as i32)
}

pub open spec fn levels_bounded(levels: Seq<i32>) -> bool {
    forall|i: int| 0 <= i < levels.len() ==> 0 <= #[trigger] levels[i] < 1000000000
}

/// Whether the pair steps by one to three in `direction`.
fn pair_valid(a: i32, b: i32, direction: i32) -> (r: bool)
    requires
        -1000000000 < a < 1000000000,
        -1000000000 < b < 1000000000,
        direction == 1 || direction == -1,
    ensures
        r == pair_ok(a as int, b as int, direction as int),
{
    let d = b - a;
    d == direction || d == 2 * direction || d == 3 * direction
}

fn level_valid_from(levels: &Vec<i32>, direction: i32, index: usize, tolerated: bool) -> (r: bool)
    requires
        levels_bounded(levels@),
        direction == 1 || direction == -1,
        index <= levels@.len(),
    ensures
        r == dampened_ok(levels@, direction as int, index as int, tolerated),
    decreases levels@.len() - index,
{
    if levels.len() - index <= 1 {
        return true;
    }
    if pair_valid(levels[index], levels[index + 1], direction) {
        return level_valid_from(levels, direction, index + 1, tolerated);
    }
    if tolerated {
        return false;
    }
    if levels.len() - index <= 2 {
        return true;
    }
    let can_remove_first = (index == 0 || pair_valid(
        levels[index - 1],
        levels[index + 1],
        direction,
    )) && pair_valid(levels[index + 1], levels[index + 2], direction);
    let can_remove_second = pair_valid(levels[index], levels[index + 2], direction);
    if !can_remove_first && !can_remove_second {
        return false;
    }
    level_valid_from(levels, direction, index + 2, true)
}

/// The dampened safety check for a whole report.
pub fn level_valid(levels: Vec<i32>, direction: i32) -> (r: bool)
    requires
        levels_bounded(levels@),
        direction == 1 || direction == -1,
    ensures
        r == dampened_ok(levels@, direction as int, 0, false),
{
    level_valid_from(&levels, direction, 0, false)
}

/// Whether the report is a strict run in `direction`.
fn run_valid(levels: &Vec<i32>, direction: i32) -> (r: bool)
    requires
        levels_bounded(levels@),
        direction == 1 || direction == -1,
    ensures
        r == run_ok(levels@, direction as int, 0),
{
    let mut index: usize = 0;
    while levels.len() - index > 1
        invariant
            index <= levels@.len(),
            levels_bounded(levels@),
            direction == 1 || direction == -1,
            run_ok(levels@, direction as int, 0) == run_ok(levels@, direction as int, index as int),
        decreases levels@.len() - index,
    {
        if !pair_valid(levels[index], levels[index + 1], direction) {
            return false;
        }
        index += 1;
    }
    true
}

/// How many of the first `n` reports pass `strict` runs in either direction.
pub open spec fn safe_count_strict(ls: Seq<Seq<u8>>, n: int) -> int
    decreases n,
{
    if n <= 0 {
        0
    } else {
        safe_count_strict(ls, n - 1) + (if run_ok(level_values(ls[n - 1]), 1, 0) {
            1int
        } else {
            0int
        }) + (if run_ok(level_values(ls[n - 1]), -1, 0) {
            1int
        } else {
            0int
        })
    }
}

pub open spec fn safe_count_dampened(ls: Seq<Seq<u8>>, n: int) -> int
    decreases n,
{
    if n <= 0 {
        0
    } else {
        safe_count_dampened(ls, n - 1) + if dampened_ok(level_values(ls[n - 1]), 1, 0, false)
            || dampened_ok(level_values(ls[n - 1]), -1, 0, false) {
            1int
        } else {
            0int
        }
    }
}

fn parse_levels(line: &Vec<u8>) -> (r: Vec<i32>)
    requires
        day2_line_ok(line@),
    ensures
        r@ == level_values(line@),
        levels_bounded(r@),
        r@.len() >= 2,
{
    let fields = split_bytes(line, 32);
    let mut r: Vec<i32> = Vec::new();
    let mut i: usize = 0;
    while i < fields.len()
        invariant
            i <= fields@.len() == split_all(line@, 32).len(),
            day2_line_ok(line@),
            forall|j: int|
                0 <= j < fields@.len() ==> (#[trigger] fields@[j])@ == split_all(line@, 32)[j],
            r@.len() == i,
            forall|j: int| 0 <= j < i ==> #[trigger] r@[j] == level_values(line@)[j],
            levels_bounded(r@),
        decreases fields@.len() - i,
    {
        let f = &fields[i];
        proof {
            assert(f@ == split_all(line@, 32)[i as int]);
            assert(f@.subrange(0, f@.len() as int) =~= f@);
            lemma_dec_value_bound(f@);
            lemma_pow10_mono(f@.len(), 9);
            crate::day1::lemma_pow10_9();
        }
        let v = parse_u64(f, 0, f.len()) as i32;
        r.push(v);
        i += 1;
    }
    proof {
        assert(r@ =~= level_values(line@));
    }
    r
}

/// How many reports are strict runs in one direction.
pub fn part1(input: &String) -> (r: String)
    requires
        input.is_ascii(),
        input@.len() <= 100000000,
        day2_input_ok(ascii_bytes(input@)),
    ensures
        r@ == dec_chars_u(
            safe_count_strict(
                lines_of(ascii_bytes(input@)),
                lines_of(ascii_bytes(input@)).len() as int,
            ),
        ),
{
    let bytes = to_bytes(input.as_str());
    let ls = lines(&bytes);
    let ghost lsv = lines_of(bytes@);
    let mut safe_count: u64 = 0;
    let mut i: usize = 0;
    proof {
        crate::text::lemma_lines_count(bytes@);
    }
    while i < ls.len()
        invariant
            i <= ls@.len() == lsv.len() <= 100000001,
            forall|j: int| 0 <= j < ls@.len() ==> (#[trigger] ls@[j])@ == lsv[j],
            forall|j: int| 0 <= j < lsv.len() ==> day2_line_ok(#[trigger] lsv[j]),
            safe_count == safe_count_strict(lsv, i as int),
            safe_count <= 2 * i,
        decreases ls@.len() - i,
    {
        let levels = parse_levels(&ls[i]);
        if run_valid(&levels, 1) {
            safe_count += 1;
        }
        if run_valid(&levels, -1) {
            safe_count += 1;
        }
        i += 1;
    }
    u64_to_string(safe_count)
}

/// How many reports are safe once one bad level may be dampened.
pub fn part2(input: &String) -> (r: String)
    requires
        input.is_ascii(),
        input@.len() <= 100000000,
        day2_input_ok(ascii_bytes(input@)),
    ensures
        r@ == dec_chars_u(
            safe_count_dampened(
                lines_of(ascii_bytes(input@)),
                lines_of(ascii_bytes(input@)).len() as int,
            ),
        ),
{
    let bytes = to_bytes(input.as_str());
    let ls = lines(&bytes);
    let ghost lsv = lines_of(bytes@);
    let mut safe_count: u64 = 0;
    let mut i: usize = 0;
    proof {
        crate::text::lemma_lines_count(bytes@);
    }
    while i < ls.len()
        invariant
            i <= ls@.len() == lsv.len() <= 100000001,
            forall|j: int| 0 <= j < ls@.len() ==> (#[trigger] ls@[j])@ == lsv[j],
            forall|j: int| 0 <= j < lsv.len() ==> day2_line_ok(#[trigger] lsv[j]),
            safe_count == safe_count_dampened(lsv, i as int),
            safe_count <= i,
        decreases ls@.len() - i,
    {
        let levels = parse_levels(&ls[i]);
        if level_valid(levels.clone(), 1) || level_valid(levels, -1) {
            safe_count += 1;
        }
        i += 1;
    }
    u64_to_string(safe_count)
}

} // verus!