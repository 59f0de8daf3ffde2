//! The logic-gate circuit: boolean wires pass through AND, OR and XOR
//! gates until every wire settles, and the `z` wires read out as a binary
//! number.
use vstd::prelude::*;

use crate::text::{ascii_bytes, lines, to_bytes, u64_to_string};

verus! {

use std::collections::HashMap;
use vstd::string::StringExecFns;

/// A three-character wire label packed into one number.
pub fn pack_label(a: u8, b: u8, c: u8) -> (r: u32)
    ensures
        r == a as int * 65536 + b as int * 256 + c as int,
{
    (a as u32) * 65536 + (b as u32) * 256 + (c as u32)
}

pub struct Gate {
    pub input1_label: u32,
    pub input2_label: u32,
    pub input1_value: i32,
    pub input2_value: i32,
    pub operation: u8,
    pub output: u32,
}

impl Gate {
    /// Parses `a OP b -> out`; a malformed line reads as a gate on the zero
    /// wire.
    pub fn parse(input: &Vec<u8>) -> (r: Gate)
    {
        let mut g = Gate {
            input1_label: 0,
            input2_label: 0,
            input1_value: -1,
            input2_value: -1,
            operation: 0,
            output: 0,
        };
        let n = input.len();
        if n < 5 {
            return g;
        }
        // first token: three characters
        if n >= 4 && input[3] == 32 {
            g.input1_label = pack_label(input[0], input[1], input[2]);
        } else {
            return g;
        }
        // the operation's first letter fixes its kind
        let op = input[4];
        g.operation = op;
        let rest: usize = if op == 79 {
            7  // OR
        } else {
            8  // AND, XOR
        };
        if rest + 3 <= n {
            g.input2_label = pack_label(input[rest], input[rest + 1], input[rest + 2]);
        }
        if rest + 10 <= n {
            g.output = pack_label(input[rest + 7], input[rest + 8], input[rest + 9]);
        }
        g
    }
}

/// One gate per line.
pub fn get_gates(gates: &String) -> (r: Vec<Gate>)
    requires
        gates.is_ascii(),
        gates@.len() <= 1000000,
    ensures
        r@.len() <= 1000001,
{
    let bytes = to_bytes(gates.as_str());
    let ls = lines(&bytes);
    proof {
        crate::text::lemma_lines_count(bytes@);
    }
    let mut r: Vec<Gate> = Vec::new();
    let mut i: usize = 0;
    while i < ls.len()
        invariant
            i <= ls@.len() <= 1000001,
            r@.len() == i,
        decreases ls@.len() - i,
    {
        r.push(Gate::parse(&ls[i]));
        i += 1;
    }
    r
}

/// The initial wire values, one `label: bit` line each.
pub fn get_wire_values(wires: &String) -> (r: HashMap<u32, i32>)
    requires
        wires.is_ascii(),
        wires@.len() <= 1000000,
{
    let bytes = to_bytes(wires.as_str());
    let ls = lines(&bytes);
    let mut wire_values: HashMap<u32, i32> = HashMap::new();
    let mut i: usize = 0;
    while i < ls.len()
        invariant
            i <= ls@.len(),
        decreases ls@.len() - i,
    {
        let line = &ls[i];
        if line.len() >= 6 && line[3] == 58 {
            let label = pack_label(line[0], line[1], line[2]);
            let value: i32 = if line[5] == 49 {
                1
            } else {
                0
            };
            wire_values.insert(label, value);
        }
        i += 1;
    }
    wire_values
}

/// The packed label of the `z` wire with the given two-digit index.
pub open spec fn z_label(i: int) -> u32 {
    (122 * 65536 + (48 + i / 10) * 256 + 48 + i % 10) as u32
}

pub open spec fn pow2(n: nat) -> int
    decreases n,
{
    if n == 0 {
        1
    } else {
        2 * pow2((n - 1) as nat)
    }
}

/// The number the `z` wires spell from index `i` up: bit `i` is wire
/// `z{i:02}`, and the read stops at the first missing index (or at 63
/// bits).
pub open spec fn z_read(m: Map<u32, i32>, i: int) -> int
    decreases 63 - i,
{
    if i < 0 || i > 62 || !m.contains_key(z_label(i)) {
        0
    } else {
        (if m[z_label(i)] != 0 {
            pow2(i as nat)
        } else {
            0
        }) + z_read(m, i + 1)
    }
}

/// The packed `z` wire with the given two-digit index.
fn z_wire(i: u32) -> (r: u32)
    requires
        i <= 99,
    ensures
        r == z_label(i as int),
{
    pack_label(122, 48 + (i / 10) as u8, 48 + (i % 10) as u8)
}

/// Reads the `z` wires as a binary number, lowest index first.
pub fn read_outputs(wires: &HashMap<u32, i32>) -> (r: String)
    ensures
        r@ == crate::text::dec_chars_u(z_read(wires@, 0)),
{
    let mut value: u64 = 0;
    let mut bit_value: u64 = 1;
    let mut i: u32 = 0;
    proof {
        lemma_z_read_nonneg(wires@, 0);
    }
    while i <= 62
        invariant
            i <= 63,
            bit_value == pow2(i as nat),
            0 <= value < pow2(i as nat),
            z_read(wires@, 0) == value + z_read(wires@, i as int),
        decreases 63 - i,
    {
        let wire = z_wire(i);
        match wires.get(&wire) {
            Some(bit) => {
                proof {
                    lemma_pow2_bound(i as nat);
                }
                if *bit != 0 {
                    value = value + bit_value;
                }
            },
            None => {
                break ;
            },
        }
        i += 1;
        bit_value = bit_value * 2;
    }
    proof {
        assert(z_read(wires@, i as int) == 0);
    }
    u64_to_string(value)
}

proof fn lemma_z_read_nonneg(m: Map<u32, i32>, i: int)
    ensures
        z_read(m, i) >= 0,
    decreases 63 - i,
{
    if !(i < 0 || i > 62 || !m.contains_key(z_label(i))) {
        lemma_z_read_nonneg(m, i + 1);
        lemma_pow2_positive(i as nat);
    }
}

proof fn lemma_pow2_positive(n: nat)
    ensures
        pow2(n) >= 1,
    decreases n,
{
    if n > 0 {
        lemma_pow2_positive((n - 1) as nat);
    }
}

proof fn lemma_pow2_bound(n: nat)
    requires
        n <= 62,
    ensures
        pow2(n) <= 4611686018427387904,
    decreases n,
{
    reveal_with_fuel(pow2, 64);
}

/// Evaluates the circuit from the given inputs and reads the outputs.
pub fn part1(gates: &String, inputs: HashMap<u32, i32>) -> (r: String)
    requires
        gates.is_ascii(),
        gates@.len() <= 1000000,
{
    let mut inputs = inputs;
    let mut system = get_gates(gates);
    let mut undecided = true;
    // Each settling pass decides at least one more gate of a well-formed
    // circuit, so one pass per gate suffices.
    let ghost n0 = system@.len();
    let mut budget: usize = system.len() + 2;
    while undecided && budget > 0
        invariant
            system@.len() == n0 <= 1000001,
            budget <= n0 + 2,
        decreases budget,
    {
        budget -= 1;
        undecided = false;
        let mut gi: usize = 0;
        while gi < system.len()
            invariant
                gi <= system@.len(),
                system@.len() == n0,
            decreases system@.len() - gi,
        {
            let gate = &system[gi];
            let input1_label = gate.input1_label;
            let input2_label = gate.input2_label;
            let mut input1_value = gate.input1_value;
            let mut input2_value = gate.input2_value;
            match inputs.get(&input1_label) {
                Some(v) => {
                    input1_value = *v;
                },
                None => {},
            }
            match inputs.get(&input2_label) {
                Some(v) => {
                    input2_value = *v;
                },
                None => {},
            }
            if input1_value != -1 && input2_value != -1 {
                let result = if gate.operation == 88 {
                    input1_value ^ input2_value
                } else if gate.operation == 79 {
                    input1_value | input2_value
                } else {
                    input1_value & input2_value
                };
                inputs.insert(gate.output, result);
            } else {
                undecided = true;
            }
            let updated = Gate {
                input1_label,
                input2_label,
                input1_value,
                input2_value,
                operation: gate.operation,
                output: gate.output,
            };
            system[gi] = updated;
            gi += 1;
        }
    }
    read_outputs(&inputs)
}

/// The one-character string of a label byte.
fn label_byte_str(b: u8) -> (r: &'static str)
{
    proof {
        reveal_strlit("a");
        reveal_strlit("b");
        reveal_strlit("c");
        reveal_strlit("d");
        reveal_strlit("e");
        reveal_strlit("f");
        reveal_strlit("g");
        reveal_strlit("h");
        reveal_strlit("i");
        reveal_strlit("j");
        reveal_strlit("k");
        reveal_strlit("l");
        reveal_strlit("m");
        reveal_strlit("n");
        reveal_strlit("o");
        reveal_strlit("p");
        reveal_strlit("q");
        reveal_strlit("r");
        reveal_strlit("s");
        reveal_strlit("t");
        reveal_strlit("u");
        reveal_strlit("v");
        reveal_strlit("w");
        reveal_strlit("x");
        reveal_strlit("y");
        reveal_strlit("z");
        reveal_strlit("0");
        reveal_strlit("1");
        reveal_strlit("2");
        reveal_strlit("3");
        reveal_strlit("4");
        reveal_strlit("5");
        reveal_strlit("6");
        reveal_strlit("7");
        reveal_strlit("8");
        reveal_strlit("9");
        reveal_strlit("?");
    }
    match b {
        97 => "a",
        98 => "b",
        99 => "c",
        100 => "d",
        101 => "e",
        102 => "f",
        103 => "g",
        104 => "h",
        105 => "i",
        106 => "j",
        107 => "k",
        108 => "l",
        109 => "m",
        110 => "n",
        111 => "o",
        112 => "p",
        113 => "q",
        114 => "r",
        115 => "s",
        116 => "t",
        117 => "u",
        118 => "v",
        119 => "w",
        120 => "x",
        121 => "y",
        122 => "z",
        48 => "0",
        49 => "1",
        50 => "2",
        51 => "3",
        52 => "4",
        53 => "5",
        54 => "6",
        55 => "7",
        56 => "8",
        57 => "9",
        _ => "?",
    }
}

/// The three-character text of a packed label.
fn label_str(label: u32) -> (r: String)
{
    let mut s = String::new();
    s.append(label_byte_str(((label / 65536) % 256) as u8));
    s.append(label_byte_str(((label / 256) % 256) as u8));
    s.append(label_byte_str((label % 256) as u8));
    s
}

/// The parenthesised formula that computes `wire`, down to the `x`/`y`
/// inputs; the depth cap only cuts circuits with feedback loops short.
pub fn describe_gate(wire: u32, gates: &HashMap<u32, Gate>, tab: usize) -> (r: String)
    decreases 200 - tab,
{
    let first = (wire / 65536) % 256;
    if first == 120 || first == 121 || tab >= 200 {
        return label_str(wire);
    }
    proof {
        reveal_strlit("(");
        reveal_strlit(")");
        reveal_strlit(" ");
        reveal_strlit("AND");
        reveal_strlit("OR");
        reveal_strlit("XOR");
    }
    let gate = match gates.get(&wire) {
        Some(g) => Gate {
            input1_label: g.input1_label,
            input2_label: g.input2_label,
            input1_value: g.input1_value,
            input2_value: g.input2_value,
            operation: g.operation,
            output: g.output,
        },
        None => {
            return label_str(wire);
        },
    };
    if tab >= 200 {
        return label_str(wire);
    }
    let mut s = String::new();
    s.append("(");
    s.append(describe_gate(gate.input1_label, gates, tab + 1).as_str());
    s.append(" ");
    if gate.operation == 88 {
        s.append("XOR");
    } else if gate.operation == 79 {
        s.append("OR");
    } else {
        s.append("AND");
    }
    s.append(" ");
    s.append(describe_gate(gate.input2_label, gates, tab + 1).as_str());
    s.append(")");
    s
}

/// Evaluates the circuit on explicitly given `x` and `y` input bits; the
/// caller checks the read-out against the expected sum.
pub fn part2(gates: &String, x_bits: &Vec<i32>, y_bits: &Vec<i32>) -> (r: String)
    requires
        gates.is_ascii(),
        gates@.len() <= 1000000,
        x_bits@.len() <= 99,
        y_bits@.len() <= 99,
{
    let mut inputs: HashMap<u32, i32> = HashMap::new();
    let mut i: usize = 0;
    while i < x_bits.len()
        invariant
            i <= x_bits@.len() <= 99,
        decreases x_bits@.len() - i,
    {
        let label = pack_label(120, 48 + (i as u32 / 10) as u8, 48 + (i as u32 % 10) as u8);
        inputs.insert(label, if x_bits[i] != 0 {
            1
        } else {
            0
        });
        i += 1;
    }
    let mut j: usize = 0;
    while j < y_bits.len()
        invariant
            j <= y_bits@.len() <= 99,
        decreases y_bits@.len() - j,
    {
        let label = pack_label(121, 48 + (j as u32 / 10) as u8, 48 + (j as u32 % 10) as u8);
        inputs.insert(label, if y_bits[j] != 0 {
            1
        } else {
            0
        });
        j += 1;
    }
    part1(gates, inputs)
}

} // verus!