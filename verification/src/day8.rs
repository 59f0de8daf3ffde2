//! Antenna antinodes: every pair of same-frequency antennas projects
//! antinodes along its line, either one step beyond each antenna or (with
//! resonant harmonics) at every whole multiple.
use vstd::prelude::*;

use crate::text::{ascii_bytes, lines, to_bytes, u64_to_string};

verus! {

use std::collections::HashMap;

#[derive(Clone, Copy)]
pub struct Location {
    pub row: i32,
    pub col: i32,
}

pub open spec fn loc_list_bounded(l: Seq<Location>) -> bool {
    forall|k: int|
        0 <= k < l.len() ==> -200000 <= (#[trigger] l[k]).row <= 200000 && -200000 <= l[k].col
            <= 200000
}

pub open spec fn freqs_bounded(m: Map<u8, Vec<Location>>) -> bool {
    forall|t: u8| m.contains_key(t) ==> loc_list_bounded((#[trigger] m[t])@)
}

/// Antenna positions grouped by frequency, with the list of frequencies in
/// first-appearance order.
pub fn get_frequencies(input: &String) -> (r: (HashMap<u8, Vec<Location>>, Vec<u8>))
    requires
        input.is_ascii(),
        input@.len() <= 100000,
    ensures
        forall|j: int| 0 <= j < r.1@.len() ==> r.0@.contains_key(#[trigger] r.1@[j]),
        freqs_bounded(r.0@),
{
    let bytes = to_bytes(input.as_str());
    let ls = lines(&bytes);
    let mut frequencies: HashMap<u8, Vec<Location>> = HashMap::new();
    let mut keys: Vec<u8> = Vec::new();
    let mut row: usize = 0;
    proof {
        crate::text::lemma_lines_count(bytes@);
        crate::text::lemma_line_lens(bytes@);
        assert forall|j: int| 0 <= j < ls@.len() implies (#[trigger] ls@[j])@.len() <= 100000 by {
            assert(ls@[j]@ == crate::text::lines_of(bytes@)[j]);
        }
    }
    while row < ls.len()
        invariant
            row <= ls@.len() <= 100001,
            forall|j: int| 0 <= j < ls@.len() ==> (#[trigger] ls@[j])@.len() <= 100000,
            forall|j: int| 0 <= j < keys@.len() ==> frequencies@.contains_key(#[trigger] keys@[j]),
            freqs_bounded(frequencies@),
        decreases ls@.len() - row,
    {
        let line = &ls[row];
        let mut col: usize = 0;
        while col < line.len()
            invariant
                col <= line@.len() <= 100000,
                row < ls@.len() <= 100001,
                forall|j: int|
                    0 <= j < keys@.len() ==> frequencies@.contains_key(#[trigger] keys@[j]),
                freqs_bounded(frequencies@),
            decreases line@.len() - col,
        {
            let frequency = line[col];
            if frequency != 46 {
                let mut locations = match frequencies.get(&frequency) {
                    Some(v) => v.clone(),
                    None => Vec::new(),
                };
                let ghost loc0 = locations@;
                proof {
                    if frequencies@.contains_key(frequency) {
                        assert(loc_list_bounded((frequencies@[frequency])@));
                    }
                    assert(loc_list_bounded(loc0));
                }
                locations.push(Location { row: row as i32, col: col as i32 });
                if !frequencies.contains_key(&frequency) {
                    keys.push(frequency);
                }
                frequencies.insert(frequency, locations);
                proof {
                    assert forall|t: u8|
                        frequencies@.contains_key(t) implies loc_list_bounded(
                        (#[trigger] frequencies@[t])@,
                    ) by {
                        if t == frequency {
                            assert(loc_list_bounded(loc0));
                            assert(frequencies@[t]@ =~= loc0.push(
                                Location { row: row as i32, col: col as i32 },
                            ));
                        }
                    }
                }
            }
            col += 1;
        }
        row += 1;
    }
    (frequencies, keys)
}

/// The antinode one step beyond `f1` away from `f2`, when it stays on the
/// map; encoded as `100 * row + col`.
pub fn get_antinode(f1: &Location, f2: &Location, max: i32) -> (r: Option<i32>)
    requires
        -200000 <= f1.row <= 200000,
        -200000 <= f1.col <= 200000,
        -200000 <= f2.row <= 200000,
        -200000 <= f2.col <= 200000,
        0 <= max <= 200000,
    ensures
        r.is_some() <==> (0 <= f1.row - (f2.row - f1.row) < max && 0 <= f1.col - (f2.col - f1.col)
            < max),
        r.is_some() ==> r.unwrap() == (f1.row - (f2.row - f1.row)) * 100 + (f1.col - (f2.col
            - f1.col)),
{
    let antinode_row = f1.row - (f2.row - f1.row);
    if antinode_row < 0 || antinode_row >= max {
        return None;
    }
    let antinode_col = f1.col - (f2.col - f1.col);
    if antinode_col < 0 || antinode_col >= max {
        return None;
    }
    Some(antinode_row * 100 + antinode_col)
}

/// Adds a position to the set when it is new.
fn record(antinodes: &mut Vec<i32>, value: i32)
{
    let mut i: usize = 0;
    while i < antinodes.len()
        invariant
            i <= antinodes@.len(),
        decreases antinodes@.len() - i,
    {
        if antinodes[i] == value {
            return ;
        }
        i += 1;
    }
    antinodes.push(value);
}

/// The distinct single-step antinodes of every same-frequency pair.
pub fn get_antinodes(
    frequencies: &HashMap<u8, Vec<Location>>,
    keys: &Vec<u8>,
    max: i32,
) -> (r: Vec<i32>)
    requires
        0 <= max <= 200000,
        forall|j: int| 0 <= j < keys@.len() ==> frequencies@.contains_key(#[trigger] keys@[j]),
        freqs_bounded(frequencies@),
{
    let mut antinodes: Vec<i32> = Vec::new();
    let mut ki: usize = 0;
    while ki < keys.len()
        invariant
            ki <= keys@.len(),
            0 <= max <= 200000,
            forall|j: int| 0 <= j < keys@.len() ==> frequencies@.contains_key(#[trigger] keys@[j]),
            freqs_bounded(frequencies@),
        decreases keys@.len() - ki,
    {
        let locations = match frequencies.get(&keys[ki]) {
            Some(v) => v,
            None => {
                ki += 1;
                continue ;
            },
        };
        let ghost gl = locations@;
        proof {
            assert(loc_list_bounded(gl));
        }
        let mut f1: usize = 0;
        while f1 < locations.len()
            invariant
                f1 <= locations@.len(),
                locations@ == gl,
                ki < keys@.len(),
                0 <= max <= 200000,
                loc_list_bounded(gl),
            decreases locations@.len() - f1,
        {
            let mut f2: usize = f1 + 1;
            while f2 < locations.len()
                invariant
                    f1 + 1 <= f2 <= locations@.len() + 1,
                    f1 < locations@.len(),
                    locations@ == gl,
                    0 <= max <= 200000,
                    loc_list_bounded(gl),
                decreases locations@.len() - f2,
            {
                match get_antinode(&locations[f1], &locations[f2], max) {
                    Some(antinode) => record(&mut antinodes, antinode),
                    None => {},
                }
                match get_antinode(&locations[f2], &locations[f1], max) {
                    Some(antinode) => record(&mut antinodes, antinode),
                    None => {},
                }
                f2 += 1;
            }
            f1 += 1;
        }
        ki += 1;
    }
    antinodes
}

/// Adds every harmonic antinode of the pair along its line from `f1`.
pub fn add_harmonic_antinodes_for_frequency(
    f1: &Location,
    f2: &Location,
    max: i32,
    antinodes: &mut Vec<i32>,
)
    requires
        -200000 <= f1.row <= 200000,
        -200000 <= f1.col <= 200000,
        -200000 <= f2.row <= 200000,
        -200000 <= f2.col <= 200000,
        0 <= max <= 200000,
{
    let row_delta = f2.row - f1.row;
    let col_delta = f2.col - f1.col;
    if row_delta == 0 && col_delta == 0 {
        return ;
    }
    let mut harmonic: i64 = 1;
    let mut budget: i32 = 400002;
    while budget > 0
        invariant
            1 <= harmonic,
            0 <= budget,
            harmonic + budget <= 400003,
            -200000 <= f1.row <= 200000,
            -200000 <= f1.col <= 200000,
            -400000 <= row_delta <= 400000,
            -400000 <= col_delta <= 400000,
            0 <= max <= 200000,
        decreases budget,
    {
        budget -= 1;
        proof {
            assert(-160001200000 <= row_delta as int * harmonic as int <= 160001200000)
                by (nonlinear_arith)
                requires
                    -400000 <= row_delta <= 400000,
                    1 <= harmonic <= 400003,
            ;
            assert(-160001200000 <= col_delta as int * harmonic as int <= 160001200000)
                by (nonlinear_arith)
                requires
                    -400000 <= col_delta <= 400000,
                    1 <= harmonic <= 400003,
            ;
        }
        let antinode_row = f1.row as i64 - row_delta as i64 * harmonic;
        if antinode_row < 0 || antinode_row >= max as i64 {
            break ;
        }
        let antinode_col = f1.col as i64 - col_delta as i64 * harmonic;
        if antinode_col < 0 || antinode_col >= max as i64 {
            break ;
        }
        record(antinodes, (antinode_row as i32) * 100 + (antinode_col as i32));
        harmonic += 1;
    }
}

/// The distinct harmonic antinodes of every same-frequency pair, the
/// antennas themselves included.
pub fn get_harmonic_antinodes(
    frequencies: &HashMap<u8, Vec<Location>>,
    keys: &Vec<u8>,
    max: i32,
) -> (r: Vec<i32>)
    requires
        0 <= max <= 200000,
        forall|j: int| 0 <= j < keys@.len() ==> frequencies@.contains_key(#[trigger] keys@[j]),
        freqs_bounded(frequencies@),
{
    let mut antinodes: Vec<i32> = Vec::new();
    let mut ki: usize = 0;
    while ki < keys.len()
        invariant
            ki <= keys@.len(),
            0 <= max <= 200000,
            forall|j: int| 0 <= j < keys@.len() ==> frequencies@.contains_key(#[trigger] keys@[j]),
            freqs_bounded(frequencies@),
        decreases keys@.len() - ki,
    {
        let locations = match frequencies.get(&keys[ki]) {
            Some(v) => v,
            None => {
                ki += 1;
                continue ;
            },
        };
        let ghost gl = locations@;
        proof {
            assert(loc_list_bounded(gl));
        }
        let mut f1: usize = 0;
        while f1 < locations.len()
            invariant
                f1 <= locations@.len(),
                locations@ == gl,
                0 <= max <= 200000,
                loc_list_bounded(gl),
            decreases locations@.len() - f1,
        {
            proof {
                assert(-200000 <= gl[f1 as int].row <= 200000);
            }
            if locations[f1].row >= 0 && locations[f1].col >= 0 && locations[f1].row <= 200000
                && locations[f1].col <= 200000 {
                record(&mut antinodes, locations[f1].row * 100 + locations[f1].col);
            }
            let mut f2: usize = f1 + 1;
            while f2 < locations.len()
                invariant
                    f2 <= locations@.len() + 1,
                    f1 < locations@.len(),
                    locations@ == gl,
                    0 <= max <= 200000,
                    loc_list_bounded(gl),
                decreases locations@.len() - f2,
            {
                add_harmonic_antinodes_for_frequency(
                    &locations[f1],
                    &locations[f2],
                    max,
                    &mut antinodes,
                );
                add_harmonic_antinodes_for_frequency(
                    &locations[f2],
                    &locations[f1],
                    max,
                    &mut antinodes,
                );
                f2 += 1;
            }
            f1 += 1;
        }
        ki += 1;
    }
    antinodes
}

/// How many distinct single-step antinodes land on the map.
pub fn part1(input: &String) -> (r: String)
    requires
        input.is_ascii(),
        input@.len() <= 100000,
{
    let bytes = to_bytes(input.as_str());
    let ls = lines(&bytes);
    let max = if ls.len() <= 200000 {
        ls.len() as i32
    } else {
        200000
    };
    let (frequencies, keys) = get_frequencies(input);
    let antinodes = get_antinodes(&frequencies, &keys, max);
    u64_to_string(antinodes.len() as u64)
}

/// How many distinct harmonic antinodes land on the map.
pub fn part2(input: &String) -> (r: String)
    requires
        input.is_ascii(),
        input@.len() <= 100000,
{
    let bytes = to_bytes(input.as_str());
    let ls = lines(&bytes);
    let max = if ls.len() <= 200000 {
        ls.len() as i32
    } else {
        200000
    };
    let (frequencies, keys) = get_frequencies(input);
    let antinodes = get_harmonic_antinodes(&frequencies, &keys, max);
    u64_to_string(antinodes.len() as u64)
}

} // verus!