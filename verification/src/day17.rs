//! The three-register chronospatial computer: eight opcodes over registers
//! `a`, `b`, `c`, with an output instruction; the second part searches for
//! the start value that makes the program print itself.
use vstd::prelude::*;

use crate::text::{digits_ok, find_byte, lines, parse_u64, split_bytes, to_bytes, u64_to_string};

verus! {

use vstd::string::StringExecFns;

/// The comma-joined decimal rendering of a number list.
pub open spec fn join_spec(vs: Seq<u64>) -> Seq<char>
    decreases vs.len(),
{
    if vs.len() == 0 {
        Seq::<char>::empty()
    } else if vs.len() == 1 {
        crate::text::dec_chars_u(vs[0] as int)
    } else {
        join_spec(vs.drop_last()) + seq![','] + crate::text::dec_chars_u(vs.last() as int)
    }
}

/// Joins numbers with commas.
fn join_numbers(values: &Vec<u64>) -> (r: String)
    ensures
        r@ == join_spec(values@),
{
    let mut s = String::new();
    let mut i: usize = 0;
    proof {
        reveal_strlit(",");
        assert(s@ =~= join_spec(values@.take(0)));
    }
    while i < values.len()
        invariant
            i <= values@.len(),
            s@ == join_spec(values@.take(i as int)),
        decreases values@.len() - i,
    {
        proof {
            assert(values@.take(i + 1).drop_last() =~= values@.take(i as int));
        }
        if i > 0 {
            s.append(",");
        }
        s.append(u64_to_string(values[i]).as_str());
        proof {
            assert(s@ =~= join_spec(values@.take(i + 1)));
        }
        i += 1;
    }
    proof {
        assert(values@.take(values@.len() as int) =~= values@);
    }
    s
}

/// The register `a` after a right shift by `k`, as the divide opcodes use
/// it: any shift past the word clears the register.
pub open spec fn shift_down(a: u64, k: u64) -> u64 {
    if k >= 63 {
        0u64
    } else {
        a >> k
    }
}

/// The whole run of the three-bit computer from one state: the outputs once
/// the counter leaves the program, nothing on a bad opcode or combo
/// operand, or when the step allowance runs out first.
pub open spec fn vm_run(
    a: u64,
    b: u64,
    c: u64,
    program: Seq<u64>,
    pc: int,
    out: Seq<u64>,
    fuel: nat,
) -> Option<Seq<u64>>
    decreases fuel,
{
    if pc >= program.len() {
        Some(out)
    } else if fuel == 0 {
        None
    } else if pc + 1 >= program.len() {
        None
    } else {
        let instruction = program[pc];
        let raw = program[pc + 1];
        let takes_combo = !(instruction == 1 || instruction == 3 || instruction == 4);
        if takes_combo && raw > 6 {
            None
        } else {
            let operand: u64 = if !takes_combo || raw <= 3 {
                raw
            } else if raw == 4 {
                a
            } else if raw == 5 {
                b
            } else {
                c
            };
            if instruction == 0 {
                vm_run(shift_down(a, operand), b, c, program, pc + 2, out, (fuel - 1) as nat)
            } else if instruction == 1 {
                vm_run(a, operand ^ b, c, program, pc + 2, out, (fuel - 1) as nat)
            } else if instruction == 2 {
                vm_run(a, operand % 8, c, program, pc + 2, out, (fuel - 1) as nat)
            } else if instruction == 3 {
                if a == 0 {
                    vm_run(a, b, c, program, pc + 2, out, (fuel - 1) as nat)
                } else {
                    vm_run(a, b, c, program, operand as usize as int, out, (fuel - 1) as nat)
                }
            } else if instruction == 4 {
                vm_run(a, b ^ c, c, program, pc + 2, out, (fuel - 1) as nat)
            } else if instruction == 5 {
                vm_run(a, b, c, program, pc + 2, out.push(operand % 8), (fuel - 1) as nat)
            } else if instruction == 6 {
                vm_run(a, shift_down(a, operand), c, program, pc + 2, out, (fuel - 1) as nat)
            } else if instruction == 7 {
                vm_run(a, b, shift_down(a, operand), program, pc + 2, out, (fuel - 1) as nat)
            } else {
                None
            }
        }
    }
}

/// Runs the program until it halts; a bad opcode, a bad combo operand, or
/// an exhausted step budget (which a halting program never reaches) gives
/// nothing.  A successful run prints the comma-joined three-bit outputs.
pub fn run(a: u64, b: u64, c: u64, program: &Vec<u64>) -> (r: Option<String>)
    ensures
        vm_run(a, b, c, program@, 0, Seq::<u64>::empty(), 10000000) matches Some(out) ==> (r
            matches Some(s) && s@ == join_spec(out)),
        vm_run(a, b, c, program@, 0, Seq::<u64>::empty(), 10000000) is None ==> r is None,
        r matches Some(s) ==> exists|out: Seq<u64>|
            (forall|i: int| 0 <= i < out.len() ==> #[trigger] out[i] < 8) && s@ == join_spec(out),
{
    let ghost a0 = a;
    let ghost b0 = b;
    let ghost c0 = c;
    let mut a = a;
    let mut b = b;
    let mut c = c;
    let mut output: Vec<u64> = Vec::new();
    let mut pc: usize = 0;
    let mut budget: u64 = 10000000;
    while pc < program.len() && budget > 0
        invariant
            budget <= 10000000,
            forall|i: int| 0 <= i < output@.len() ==> #[trigger] output@[i] < 8,
            vm_run(a0, b0, c0, program@, 0, Seq::<u64>::empty(), 10000000) == vm_run(
                a,
                b,
                c,
                program@,
                pc as int,
                output@,
                budget as nat,
            ),
        decreases budget,
    {
        budget -= 1;
        if pc + 1 >= program.len() {
            return None;
        }
        let instruction = program[pc];
        let raw_operand = program[pc + 1];
        let operand: u64 = if instruction == 1 || instruction == 3 || instruction == 4 {
            raw_operand
        } else {
            if raw_operand <= 3 {
                raw_operand
            } else if raw_operand == 4 {
                a
            } else if raw_operand == 5 {
                b
            } else if raw_operand == 6 {
                c
            } else {
                return None;
            }
        };
        if instruction == 0 {
            a = if operand >= 63 {
                0
            } else {
                a >> operand
            };
            pc += 2;
        } else if instruction == 1 {
            b = operand ^ b;
            pc += 2;
        } else if instruction == 2 {
            b = operand % 8;
            pc += 2;
        } else if instruction == 3 {
            if a == 0 {
                pc += 2;
            } else {
                pc = operand as usize;
            }
        } else if instruction == 4 {
            b = b ^ c;
            pc += 2;
        } else if instruction == 5 {
            output.push(operand % 8);
            pc += 2;
        } else if instruction == 6 {
            b = if operand >= 63 {
                0
            } else {
                a >> operand
            };
            pc += 2;
        } else if instruction == 7 {
            c = if operand >= 63 {
                0
            } else {
                a >> operand
            };
            pc += 2;
        } else {
            return None;
        }
    }
    if pc < program.len() {
        // the step budget ran out before the program halted
        return None;
    }
    let rendered = join_numbers(&output);
    proof {
        assert(forall|i: int| 0 <= i < output@.len() ==> #[trigger] output@[i] < 8);
    }
    Some(rendered)
}

/// Reads the decimal number that follows the last `: ` of a line; zero when
/// the line has none.
fn parse_register(line: &Vec<u8>) -> (r: u64)
    requires
        line@.len() <= 100000000,
{
    match find_byte(line, 0, 58) {
        Some(colon) => {
            if colon + 2 <= line.len() && digits_ok(line, colon + 2, line.len()) {
                proof {
                    crate::text::lemma_dec_value_bound(
                        line@.subrange(colon + 2, line@.len() as int),
                    );
                }
                parse_u64(line, colon + 2, line.len())
            } else {
                0
            }
        },
        None => 0,
    }
}

/// The comma-separated opcodes after the colon; a malformed token reads as
/// a halting bad opcode.
fn parse_program(line: &Vec<u8>) -> (r: Vec<u64>)
    requires
        line@.len() <= 100000000,
{
    let start = match find_byte(line, 0, 58) {
        Some(colon) => {
            if colon + 2 <= line.len() {
                colon + 2
            } else {
                line.len()
            }
        },
        None => 0,
    };
    let mut tail: Vec<u8> = Vec::new();
    let mut i = start;
    while i < line.len()
        invariant
            start <= i <= line@.len(),
        decreases line@.len() - i,
    {
        tail.push(line[i]);
        i += 1;
    }
    let fields = split_bytes(&tail, 44);
    let mut program: Vec<u64> = Vec::new();
    let mut k: usize = 0;
    while k < fields.len()
        invariant
            k <= fields@.len(),
        decreases fields@.len() - k,
    {
        let f = &fields[k];
        if digits_ok(f, 0, f.len()) {
            proof {
                crate::text::lemma_dec_value_bound(f@.subrange(0, f@.len() as int));
            }
            program.push(parse_u64(f, 0, f.len()));
        } else {
            program.push(255);
        }
        k += 1;
    }
    program
}

/// Runs the program given on the input's register and program lines.
pub fn part1(input: &String) -> (r: String)
    requires
        input.is_ascii(),
        input@.len() <= 100000000,
{
    let bytes = to_bytes(input.as_str());
    let ls = lines(&bytes);
    proof {
        crate::text::lemma_line_lens(bytes@);
        assert forall|j: int| 0 <= j < ls@.len() implies (#[trigger] ls@[j])@.len()
            <= 100000000 by {
            assert(ls@[j]@ == crate::text::lines_of(bytes@)[j]);
        }
    }
    if ls.len() < 5 {
        return String::new();
    }
    let a = parse_register(&ls[0]);
    let b = parse_register(&ls[1]);
    let c = parse_register(&ls[2]);
    let program = parse_program(&ls[4]);
    match run(a, b, c, &program) {
        Some(s) => s,
        None => String::new(),
    }
}

/// Searches digit by digit for a start value under which the program prints
/// its own trailing `depth` opcodes.
pub fn solve(a: u64, program: &Vec<u64>, depth: usize) -> (r: Option<u64>)
    requires
        1 <= depth <= program@.len(),
        a <= 2000000000000000000,
    ensures
        r matches Some(found) ==> 1 <= found <= 2000000000000000008,
        r matches Some(found) ==> (vm_run(found, 0, 0, program@, 0, Seq::<u64>::empty(), 10000000)
            matches Some(out) && join_spec(out) == join_spec(program@)),
    decreases program@.len() - depth,
{
    let mut suffix: Vec<u64> = Vec::new();
    let mut i = program.len() - depth;
    proof {
        assert(suffix@ =~= program@.subrange(program@.len() - depth, program@.len() - depth));
    }
    while i < program.len()
        invariant
            program@.len() - depth <= i <= program@.len(),
            suffix@ == program@.subrange(program@.len() - depth, i as int),
        decreases program@.len() - i,
    {
        suffix.push(program[i]);
        proof {
            assert(program@.subrange(program@.len() - depth, i + 1) =~= program@.subrange(
                program@.len() - depth,
                i as int,
            ).push(program@[i as int]));
        }
        i += 1;
    }
    let solution_at_depth = join_numbers(&suffix);
    let mut guess = a;
    while guess < a + 8
        invariant
            a <= guess <= a + 8,
            a <= 2000000000000000000,
            1 <= depth <= program@.len(),
        decreases a + 8 - guess,
    {
        if guess != 0 {
            let matched = match run(guess, 0, 0, program) {
                Some(out) => out == solution_at_depth,
                None => false,
            };
            if matched {
                if depth == program.len() {
                    proof {
                        assert(suffix@ =~= program@);
                    }
                    return Some(guess);
                } else if guess <= 250000000000000000 {
                    let candidate = solve(guess * 8, program, depth + 1);
                    if candidate.is_some() {
                        return candidate;
                    }
                }
            }
        }
        guess += 1;
    }
    None
}

/// The lowest start value that makes the program print itself.
pub fn part2(input: &String) -> (r: String)
    requires
        input.is_ascii(),
        input@.len() <= 100000000,
{
    let bytes = to_bytes(input.as_str());
    let ls = lines(&bytes);
    proof {
        crate::text::lemma_line_lens(bytes@);
        assert forall|j: int| 0 <= j < ls@.len() implies (#[trigger] ls@[j])@.len()
            <= 100000000 by {
            assert(ls@[j]@ == crate::text::lines_of(bytes@)[j]);
        }
    }
    if ls.len() < 5 {
        return String::new();
    }
    let program = parse_program(&ls[4]);
    if program.len() < 1 {
        return String::new();
    }
    match solve(0, &program, 1) {
        Some(v) => u64_to_string(v),
        None => String::new(),
    }
}

} // verus!