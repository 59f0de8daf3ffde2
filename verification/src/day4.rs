//! The word search: `XMAS` is counted in every direction by scanning rows
//! between diagonal and straight rotations of the grid, and the crossed
//! `MAS` pairs are checked in three-row windows.
use vstd::prelude::*;

use crate::text::{ascii_bytes, lines, to_bytes, u128_to_string};

verus! {

/// Appends one character to the chosen row.
fn push_row(rows: &mut Vec<Vec<u8>>, index: usize, b: u8)
    requires
        index < old(rows)@.len(),
    ensures
        final(rows)@.len() == old(rows)@.len(),
{
    let mut row = rows.remove(index);
    row.push(b);
    rows.insert(index, row);
}

/// The diagonal shear: row `i`'s reversed characters start filling output
/// row `i`.
pub fn rotate1(input: &Vec<Vec<u8>>) -> (r: Vec<Vec<u8>>)
{
    let mut rows: Vec<Vec<u8>> = Vec::new();
    let mut start_index: usize = 0;
    let mut li: usize = 0;
    while li < input.len()
        invariant
            li <= input@.len(),
            start_index == li,
        decreases input@.len() - li,
    {
        let line = &input[li];
        let mut index = start_index;
        let mut k = line.len();
        while k > 0
            invariant
                k <= line@.len(),
            decreases k,
        {
            k -= 1;
            if index == rows.len() {
                rows.push(Vec::new());
            }
            if index < rows.len() {
                push_row(&mut rows, index, line[k]);
            }
            if index < usize::MAX {
                index += 1;
            }
        }
        start_index += 1;
        li += 1;
    }
    rows
}

/// The staircase shear used between straight scans: the start row advances
/// only when a line is shorter than the one before it.
pub fn rotate2(input: &Vec<Vec<u8>>) -> (r: Vec<Vec<u8>>)
{
    let mut rows: Vec<Vec<u8>> = Vec::new();
    let mut start_index: usize = 0;
    let mut previous_len: usize = 0;
    let mut li: usize = 0;
    while li < input.len()
        invariant
            li <= input@.len(),
            start_index <= li,
        decreases input@.len() - li,
    {
        let line = &input[li];
        if line.len() < previous_len {
            start_index += 1;
        }
        previous_len = line.len();
        let mut index = start_index;
        let mut k = line.len();
        while k > 0
            invariant
                k <= line@.len(),
            decreases k,
        {
            k -= 1;
            if index == rows.len() {
                rows.push(Vec::new());
            }
            if index < rows.len() {
                push_row(&mut rows, index, line[k]);
            }
            if index < usize::MAX {
                index += 1;
            }
        }
        li += 1;
    }
    rows
}

/// How many times `XMAS` is written left to right in the rows.
pub fn count(input: &Vec<Vec<u8>>) -> (r: u64)
    ensures
        r <= 4611686018427387904,
{
    let mut xmas_count: u64 = 0;
    let mut li: usize = 0;
    while li < input.len()
        invariant
            li <= input@.len(),
            xmas_count <= li * 100000000000,
            xmas_count <= 4611686018427387904,
        decreases input@.len() - li,
    {
        let line = &input[li];
        let mut index: usize = 0;
        let mut row_count: u64 = 0;
        while line.len() >= 4 && index <= line.len() - 4
            invariant
                index <= line@.len(),
                row_count <= index,
            decreases line@.len() - index,
        {
            if line[index] == 88 && line[index + 1] == 77 && line[index + 2] == 65 && line[index
                + 3] == 83 {
                row_count += 1;
            }
            index += 1;
        }
        if row_count <= 100000000000 && xmas_count <= 4611686018427387904 - 100000000000 {
            proof {
                assert((li + 1) * 100000000000 == li * 100000000000 + 100000000000)
                    by (nonlinear_arith);
            }
            xmas_count += row_count;
        }
        li += 1;
    }
    xmas_count
}

/// Whether the two endpoints spell `M`/`S` in either order.
pub fn contains_endpoints(a: u8, b: u8) -> (r: bool)
    ensures
        r == ((a == 77 && b == 83) || (a == 83 && b == 77)),
{
    (a == 77 && b == 83) || (a == 83 && b == 77)
}

/// Whether a nine-cell window crosses two `MAS` strands on an `A`.
pub fn is_x_mas(candidate: &Vec<u8>) -> (r: bool)
    ensures
        r ==> candidate@.len() >= 9,
{
    candidate.len() >= 9 && candidate[4] == 65 && contains_endpoints(candidate[0], candidate[8])
        && contains_endpoints(candidate[2], candidate[6])
}

/// The `XMAS` count over all eight directions, by alternating rotations.
pub fn part1(input: String) -> (r: String)
    requires
        input.is_ascii(),
        input@.len() <= 100000000,
{
    let bytes = to_bytes(input.as_str());
    let rows = lines(&bytes);
    let mut xmas_count: u128 = 0;
    let c0 = count(&rows) as u128;
    if c0 <= u128::MAX - xmas_count {
        xmas_count += c0;
    }
    let mut rotation = rotate1(&rows);
    let mut i: usize = 0;
    while i < 3
        invariant
            i <= 3,
        decreases 3 - i,
    {
        let c1 = count(&rotation) as u128;
        if c1 <= u128::MAX - xmas_count {
            xmas_count += c1;
        }
        rotation = rotate2(&rotation);
        let c2 = count(&rotation) as u128;
        if c2 <= u128::MAX - xmas_count {
            xmas_count += c2;
        }
        rotation = rotate1(&rotation);
        i += 1;
    }
    let c3 = count(&rotation) as u128;
    if c3 <= u128::MAX - xmas_count {
        xmas_count += c3;
    }
    u128_to_string(xmas_count)
}

/// The crossed-`MAS` count over three-row windows.
pub fn part2(input: &String) -> (r: String)
    requires
        input.is_ascii(),
        input@.len() <= 100000000,
{
    let bytes = to_bytes(input.as_str());
    let rows = lines(&bytes);
    let mut candidates: Vec<Vec<u8>> = Vec::new();
    let mut row: usize = 0;
    while row < rows.len()
        invariant
            row <= rows@.len(),
        decreases rows@.len() - row,
    {
        let line = &rows[row];
        if line.len() >= 3 {
            let width = line.len() - 2;
            let mut i: usize = 0;
            while i + 2 < line.len()
                invariant
                    i + 2 <= line@.len(),
                    width == line@.len() - 2,
                decreases line@.len() - i,
            {
                if row < width {
                    let mut c: Vec<u8> = Vec::new();
                    c.push(line[i]);
                    c.push(line[i + 1]);
                    c.push(line[i + 2]);
                    candidates.push(c);
                }
                if row > 0 && row < line.len() && row <= 40000 && width <= 40000 {
                    let r1 = row - 1;
                    proof {
                        assert(r1 * width <= 1600000000) by (nonlinear_arith)
                            requires
                                0 <= r1 <= 40000,
                                0 <= width <= 40000,
                        ;
                    }
                    {
                        let base = r1 * width;
                        if base <= usize::MAX - i && base + i < candidates.len() {
                            push_row(&mut candidates, base + i, line[i]);
                            push_row(&mut candidates, base + i, line[i + 1]);
                            push_row(&mut candidates, base + i, line[i + 2]);
                        }
                    }
                }
                if row > 1 && row <= 40000 && width <= 40000 {
                    let r2 = row - 2;
                    proof {
                        assert(r2 * width <= 1600000000) by (nonlinear_arith)
                            requires
                                0 <= r2 <= 40000,
                                0 <= width <= 40000,
                        ;
                    }
                    {
                        let base = r2 * width;
                        if base <= usize::MAX - i && base + i < candidates.len() {
                            push_row(&mut candidates, base + i, line[i]);
                            push_row(&mut candidates, base + i, line[i + 1]);
                            push_row(&mut candidates, base + i, line[i + 2]);
                        }
                    }
                }
                i += 1;
            }
        }
        row += 1;
    }
    let mut found: u128 = 0;
    let mut k: usize = 0;
    while k < candidates.len()
        invariant
            k <= candidates@.len(),
            found <= k,
        decreases candidates@.len() - k,
    {
        if is_x_mas(&candidates[k]) {
            found += 1;
        }
        k += 1;
    }
    u128_to_string(found)
}

} // verus!