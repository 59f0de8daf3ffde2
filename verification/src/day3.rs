//! The corrupted memory scan: `mul(a,b)` instructions are picked out of
//! noise and summed, optionally honouring `do()` and `don't()` switches.
use vstd::prelude::*;

use crate::text::{digits_ok, parse_u64, to_bytes};

verus! {

/// Whether the four bytes at `position` spell `mul(`.
fn is_mul_open(input: &Vec<u8>, position: usize) -> (r: bool)
    requires
        position + 4 <= input@.len(),
        input@.len() <= 100000000,
{
    input[position] == 109 && input[position + 1] == 117 && input[position + 2] == 108 && input[
        position + 3
    ] == 40
}

/// Whether the four bytes at `position` spell `do()`.
fn is_do(input: &Vec<u8>, position: usize) -> (r: bool)
    requires
        position + 4 <= input@.len(),
        input@.len() <= 100000000,
{
    input[position] == 100 && input[position + 1] == 111 && input[position + 2] == 40 && input[
        position + 3
    ] == 41
}

/// Whether the seven bytes at `position` spell `don't()`.
fn is_dont(input: &Vec<u8>, position: usize) -> (r: bool)
    requires
        position + 7 <= input@.len(),
        input@.len() <= 100000000,
{
    input[position] == 100 && input[position + 1] == 111 && input[position + 2] == 110 && input[
        position + 3
    ] == 39 && input[position + 4] == 116 && input[position + 5] == 40 && input[position + 6] == 41
}

/// Finishes one `mul`: reads the second factor up to `)` and multiplies.
pub fn parse_second_number(
    input: &Vec<u8>,
    position: usize,
    use_conditionals: bool,
    first_from: usize,
    first_to: usize,
    output: &mut Vec<u8>,
) -> (r: i64)
    requires
        position <= input@.len(),
        first_from <= first_to <= input@.len(),
        input@.len() <= 100000000,
    ensures
        0 <= r <= (input@.len() + 2 - position) * 100000000,
    decreases input@.len() + 2 - position,
{
    let mut i: usize = 0;
    while position + i < input.len()
        invariant
            position + i <= input@.len(),
            position <= input@.len(),
            input@.len() <= 100000000,
        decreases input@.len() - position - i,
    {
        if input[position + i] == 41 {
            if i == 0 {
                break ;
            }
            if first_to - first_from <= 4 && digits_ok(input, first_from, first_to) && i <= 4
                && digits_ok(input, position, position + i) {
                proof {
                    crate::text::lemma_dec_value_bound(
                        input@.subrange(first_from as int, first_to as int),
                    );
                    crate::text::lemma_dec_value_bound(
                        input@.subrange(position as int, position + i),
                    );
                    crate::text::lemma_pow10_mono(
                        input@.subrange(first_from as int, first_to as int).len(),
                        4,
                    );
                    crate::text::lemma_pow10_mono(
                        input@.subrange(position as int, position + i).len(),
                        4,
                    );
                    assert(crate::text::pow10(4) == 10000) by {
                        reveal_with_fuel(crate::text::pow10, 6);
                    }
                }
                let first_number = parse_u64(input, first_from, first_to) as i64;
                let second_number = parse_u64(input, position, position + i) as i64;
                // Record the accepted instruction text, as the scan's trace.
                if first_from >= 4 {
                    let mut k: usize = first_from - 4;
                    while k < position + i + 1 && k < input.len()
                        invariant
                            k <= input@.len(),
                        decreases input@.len() - k,
                    {
                        output.push(input[k]);
                        k += 1;
                    }
                }
                let rest = parse_mul(input, position + i + 1, use_conditionals, output);
                proof {
                    assert(first_number * second_number < 100000000) by (nonlinear_arith)
                        requires
                            0 <= first_number < 10000,
                            0 <= second_number < 10000,
                    ;
                    assert((input@.len() + 2 - position - i - 1) * 100000000 + 100000000 <= (
                    input@.len() + 2 - position) * 100000000) by (nonlinear_arith)
                        requires
                            i >= 1,
                    ;
                }
                return first_number * second_number + rest;
            } else {
                break ;
            }
        }
        if input[position + i] < 48 || input[position + i] > 57 {
            break ;
        }
        i += 1;
    }
    parse_mul(input, position + i + 1, use_conditionals, output)
}

/// Reads the first factor of a `mul` up to the comma.
pub fn parse_first_number(
    input: &Vec<u8>,
    position: usize,
    use_conditionals: bool,
    output: &mut Vec<u8>,
) -> (r: i64)
    requires
        position <= input@.len(),
        input@.len() <= 100000000,
    ensures
        0 <= r <= (input@.len() + 2 - position) * 100000000,
    decreases input@.len() + 2 - position, 1int,
{
    let mut i: usize = 0;
    while position + i < input.len()
        invariant
            position + i <= input@.len(),
            position <= input@.len(),
            input@.len() <= 100000000,
        decreases input@.len() - position - i,
    {
        if input[position + i] == 44 {
            if i == 0 {
                break ;
            }
            let r = parse_second_number(
                input,
                position + i + 1,
                use_conditionals,
                position,
                position + i,
                output,
            );
            proof {
                assert((input@.len() + 2 - position - i - 1) * 100000000 <= (input@.len() + 2
                    - position) * 100000000) by (nonlinear_arith)
                    requires
                        i >= 1,
                ;
            }
            return r;
        }
        if input[position + i] < 48 || input[position + i] > 57 {
            break ;
        }
        i += 1;
    }
    parse_mul(input, position + i + 1, use_conditionals, output)
}

/// Scans for the next `do()` once a `don't()` has switched multiplying off.
pub fn parse_do(input: &Vec<u8>, position: usize, output: &mut Vec<u8>) -> (r: i64)
    requires
        position <= input@.len() + 2,
        input@.len() <= 100000000,
    ensures
        0 <= r <= (input@.len() + 2 - position) * 100000000,
    decreases input@.len() + 2 - position, 0int,
{
    let mut i: usize = 0;
    while position + i + 4 < input.len()
        invariant
            position + i <= input@.len() + 2,
            position <= input@.len() + 2,
            input@.len() <= 100000000,
        decreases input@.len() - position - i,
    {
        if is_do(input, position + i) {
            let mut k: usize = position + i;
            while k < position + i + 4 && k < input.len()
                invariant
                    k <= input@.len(),
                    position + i + 4 <= input@.len() + 3,
                decreases input@.len() - k,
            {
                output.push(input[k]);
                k += 1;
            }
            let r = parse_mul(input, position + i + 4, true, output);
            proof {
                assert((input@.len() + 2 - position - i - 4) * 100000000 <= (input@.len() + 2
                    - position) * 100000000) by (nonlinear_arith);
            }
            return r;
        }
        i += 1;
    }
    0
}

/// Scans for the next `mul(` (or, with conditionals, `don't()`).
pub fn parse_mul(
    input: &Vec<u8>,
    position: usize,
    use_conditionals: bool,
    output: &mut Vec<u8>,
) -> (r: i64)
    requires
        position <= input@.len() + 2,
        input@.len() <= 100000000,
    ensures
        0 <= r <= (input@.len() + 2 - position) * 100000000,
    decreases input@.len() + 2 - position, 2int,
{
    let mut i: usize = 0;
    while position + i + 7 < input.len()
        invariant
            position + i <= input@.len() + 2,
            position <= input@.len() + 2,
            input@.len() <= 100000000,
        decreases input@.len() - position - i,
    {
        if is_mul_open(input, position + i) {
            let r = parse_first_number(input, position + i + 4, use_conditionals, output);
            proof {
                assert((input@.len() + 2 - position - i - 4) * 100000000 <= (input@.len() + 2
                    - position) * 100000000) by (nonlinear_arith);
            }
            return r;
        }
        if use_conditionals && is_dont(input, position + i) {
            let mut k: usize = position + i;
            while k < position + i + 7 && k < input.len()
                invariant
                    k <= input@.len(),
                decreases input@.len() - k,
            {
                output.push(input[k]);
                k += 1;
            }
            let r = parse_do(input, position + i + 7, output);
            proof {
                assert((input@.len() + 2 - position - i - 7) * 100000000 <= (input@.len() + 2
                    - position) * 100000000) by (nonlinear_arith);
            }
            return r;
        }
        i += 1;
    }
    0
}

/// The sum of every `mul` in the memory dump.
pub fn part1(input: &String) -> (r: String)
    requires
        input.is_ascii(),
        input@.len() <= 100000000,
{
    let bytes = to_bytes(input.as_str());
    let mut output: Vec<u8> = Vec::new();
    let mul_count = parse_mul(&bytes, 0, false, &mut output);
    crate::text::i64_to_string(mul_count)
}

/// The sum of the `mul`s that `do()`/`don't()` leave enabled.
pub fn part2(input: &String) -> (r: String)
    requires
        input.is_ascii(),
        input@.len() <= 100000000,
{
    let bytes = to_bytes(input.as_str());
    let mut output: Vec<u8> = Vec::new();
    let mul_count = parse_mul(&bytes, 0, true, &mut output);
    crate::text::i64_to_string(mul_count)
}

} // verus!