//! Claw machines: two buttons move the claw by fixed offsets and the prize
//! sits at a target point; the cheapest press combination is found by
//! solving the two-equation system directly.
use vstd::prelude::*;

use crate::text::{
    all_digits, ascii_bytes, dec_chars_u, dec_value, digits_ok, find_byte, find_index, lines,
    lines_of, parse_u64, to_bytes,
};

verus! {

use vstd::string::StringExecFns;

/// The decimal value of `line[from..to]`, or zero when the range is not a
/// plain digit run of at most eighteen digits.
pub open spec fn field_value(line: Seq<u8>, from: int, to: int) -> int {
    if 0 <= from <= to <= line.len() && all_digits(line.subrange(from, to)) && 1 <= to - from
        <= 18 {
        dec_value(line.subrange(from, to))
    } else {
        0
    }
}

/// The X coordinate of a machine line: the digits between two places past
/// the first `X` and the first comma, or zero on a malformed line.
pub open spec fn input_x(line: Seq<u8>) -> int {
    let x_at = find_index(line, 88);
    let comma = find_index(line, 44);
    let y_at = find_index(line, 89);
    if x_at < 0 || comma < 0 || y_at < 0 {
        0
    } else {
        field_value(line, x_at + 2, comma)
    }
}

/// The Y coordinate of a machine line: the digits from two places past the
/// first `Y` to the end, or zero on a malformed line.
pub open spec fn input_y(line: Seq<u8>) -> int {
    let x_at = find_index(line, 88);
    let comma = find_index(line, 44);
    let y_at = find_index(line, 89);
    if x_at < 0 || comma < 0 || y_at < 0 {
        0
    } else {
        field_value(line, y_at + 2, line.len() as int)
    }
}

pub struct InputData {
    pub x: i64,
    pub y: i64,
}

impl InputData {
    /// Reads the `X+dx, Y+dy` (or `X=x, Y=y`) pair of a machine line;
    /// malformed fields read as zero.
    pub fn from_str(line: &Vec<u8>) -> (r: InputData)
        requires
            line@.len() <= 100000000,
        ensures
            0 <= r.x < 1000000000000000000,
            0 <= r.y < 1000000000000000000,
            r.x as int == input_x(line@),
            r.y as int == input_y(line@),
    {
        let x_at = match find_byte(line, 0, 88) {
            Some(p) => p,
            None => {
                proof {
                    crate::text::lemma_find_index_none(line@, 88);
                }
                return InputData { x: 0, y: 0 };
            },
        };
        proof {
            crate::text::lemma_find_index_is_first(line@, 88, x_at as int);
        }
        let comma = match find_byte(line, 0, 44) {
            Some(p) => p,
            None => {
                proof {
                    crate::text::lemma_find_index_none(line@, 44);
                }
                return InputData { x: 0, y: 0 };
            },
        };
        proof {
            crate::text::lemma_find_index_is_first(line@, 44, comma as int);
        }
        let y_at = match find_byte(line, 0, 89) {
            Some(p) => p,
            None => {
                proof {
                    crate::text::lemma_find_index_none(line@, 89);
                }
                return InputData { x: 0, y: 0 };
            },
        };
        proof {
            crate::text::lemma_find_index_is_first(line@, 89, y_at as int);
        }
        let x = if x_at + 2 <= comma && digits_ok(line, x_at + 2, comma) {
            proof {
                crate::text::lemma_dec_value_bound(line@.subrange(x_at + 2, comma as int));
                crate::text::lemma_pow10_mono(line@.subrange(x_at + 2, comma as int).len(), 18);
                crate::text::lemma_pow10_value();
            }
            parse_u64(line, x_at + 2, comma) as i64
        } else {
            0
        };
        let y = if y_at + 2 <= line.len() && digits_ok(line, y_at + 2, line.len()) {
            proof {
                crate::text::lemma_dec_value_bound(line@.subrange(y_at + 2, line@.len() as int));
                crate::text::lemma_pow10_mono(
                    line@.subrange(y_at + 2, line@.len() as int).len(),
                    18,
                );
                crate::text::lemma_pow10_value();
            }
            parse_u64(line, y_at + 2, line.len()) as i64
        } else {
            0
        };
        InputData { x, y }
    }
}

/// The exact signed quotient of `num` by `det`, computed on magnitudes:
/// nothing when the magnitudes do not divide evenly.
pub open spec fn exact_quot(num: int, det: int) -> Option<int> {
    let na = if num < 0 {
        -num
    } else {
        num
    };
    let da = if det < 0 {
        -det
    } else {
        det
    };
    if na % da != 0 {
        None
    } else if (num < 0) == (det < 0) {
        Some(na / da)
    } else {
        Some(-(na / da))
    }
}

/// The exact signed quotient `num / det`, or nothing when the division
/// leaves a remainder.
fn exact_div(num: i128, det: i128) -> (r: Option<i128>)
    requires
        det != 0,
        -10000000000000000000000000000000000000 <= num <= 10000000000000000000000000000000000000,
        -10000000000000000000000000000000000000 <= det <= 10000000000000000000000000000000000000,
    ensures
        r matches Some(q) ==> q * det == num
            && -10000000000000000000000000000000000000 <= q
            <= 10000000000000000000000000000000000000,
        r is Some <==> exact_quot(num as int, det as int) is Some,
        r matches Some(q) ==> exact_quot(num as int, det as int) == Some(q as int),
{
    let num_neg = num < 0;
    let det_neg = det < 0;
    let num_abs: u128 = if num < 0 {
        (-num) as u128
    } else {
        num as u128
    };
    let det_abs: u128 = if det < 0 {
        (-det) as u128
    } else {
        det as u128
    };
    if num_abs % det_abs != 0 {
        return None;
    }
    let q_abs = num_abs / det_abs;
    proof {
        assert(q_abs * det_abs == num_abs) by (nonlinear_arith)
            requires
                det_abs >= 1,
                q_abs == num_abs as int / det_abs as int,
                num_abs as int % det_abs as int == 0,
        ;
        assert(q_abs <= num_abs) by (nonlinear_arith)
            requires
                det_abs >= 1,
                q_abs * det_abs == num_abs,
                q_abs >= 0,
        ;
    }
    let q: i128 = if num_neg == det_neg {
        q_abs as i128
    } else {
        -(q_abs as i128)
    };
    proof {
        assert(q * det == num) by (nonlinear_arith)
            requires
                q_abs * det_abs == num_abs,
                num_abs == (if num < 0 {
                    -(num as int)
                } else {
                    num as int
                }),
                det_abs == (if det < 0 {
                    -(det as int)
                } else {
                    det as int
                }),
                q == (if (num < 0) == (det < 0) {
                    q_abs as int
                } else {
                    -(q_abs as int)
                }),
        ;
    }
    Some(q)
}

/// The token cost the elimination assigns to one machine: the second
/// button's presses from Cramer's rule, the first button's from the
/// remainder, three tokens per first-button press and one per second.
pub open spec fn machine_cost_spec(ax: int, ay: int, bx: int, by: int, px: int, py: int) -> Option<
    int,
> {
    let det = ax * by - ay * bx;
    let num = ax * py - ay * px;
    if det == 0 {
        None
    } else {
        match exact_quot(num, det) {
            None => None,
            Some(bp) => if bp < -1000000000000000000 || bp > 1000000000000000000 || ax == 0 {
                None
            } else {
                match exact_quot(px - bx * bp, ax) {
                    None => None,
                    Some(ap) => if ap < -1000000000000000000000 || ap > 1000000000000000000000 {
                        None
                    } else {
                        Some(3 * ap + bp)
                    },
                }
            },
        }
    }
}

/// The token cost of winning one machine, solved from the two axis
/// equations.  A returned cost always comes from whole button-press counts
/// that land exactly on the prize; machines whose equations have no such
/// solution reachable by this elimination yield nothing.
fn machine_cost(ax: i128, ay: i128, bx: i128, by: i128, px: i128, py: i128) -> (r: Option<i128>)
    requires
        0 <= ax < 1000000000000000000,
        0 <= ay < 1000000000000000000,
        0 <= bx < 1000000000000000000,
        0 <= by < 1000000000000000000,
        0 <= px < 2000000000000000000,
        0 <= py < 2000000000000000000,
    ensures
        r matches Some(cost) ==> exists|a_presses: int, b_presses: int|
            #![trigger a_presses * (ax as int), b_presses * (bx as int)]
            a_presses * (ax as int) + b_presses * (bx as int) == px as int && a_presses * (
            ay as int) + b_presses * (by as int) == py as int && cost == 3 * a_presses
                + b_presses,
        r matches Some(cost) ==> -4000000000000000000000 <= cost <= 4000000000000000000000,
        r is Some <==> machine_cost_spec(
            ax as int,
            ay as int,
            bx as int,
            by as int,
            px as int,
            py as int,
        ) is Some,
        r matches Some(cost) ==> machine_cost_spec(
            ax as int,
            ay as int,
            bx as int,
            by as int,
            px as int,
            py as int,
        ) == Some(cost as int),
{
    proof {
        assert(0 <= ax * by < 1000000000000000000000000000000000000int && 0 <= ay * bx
            < 1000000000000000000000000000000000000int) by (nonlinear_arith)
            requires
                0 <= ax < 1000000000000000000,
                0 <= by < 1000000000000000000,
                0 <= ay < 1000000000000000000,
                0 <= bx < 1000000000000000000,
        ;
        assert(0 <= ax * py < 10000000000000000000000000000000000000int && 0 <= ay * px
            < 10000000000000000000000000000000000000int) by (nonlinear_arith)
            requires
                0 <= ax < 1000000000000000000,
                0 <= ay < 1000000000000000000,
                0 <= px < 2000000000000000000,
                0 <= py < 2000000000000000000,
        ;
    }
    let determinant = ax * by - ay * bx;
    let numerator = ax * py - ay * px;
    if determinant == 0 {
        return None;
    }
    let b_presses = match exact_div(numerator, determinant) {
        Some(q) => q,
        None => {
            return None;
        },
    };
    if b_presses < -1000000000000000000 || b_presses > 1000000000000000000 || ax == 0 {
        return None;
    }
    proof {
        assert(-1000000000000000000000000000000000000int <= bx * b_presses
            <= 1000000000000000000000000000000000000int) by (nonlinear_arith)
            requires
                0 <= bx < 1000000000000000000,
                -1000000000000000000 <= b_presses <= 1000000000000000000,
        ;
    }
    let rest = px - bx * b_presses;
    let a_presses = match exact_div(rest, ax) {
        Some(q) => q,
        None => {
            return None;
        },
    };
    if a_presses < -1000000000000000000000 || a_presses > 1000000000000000000000 {
        return None;
    }
    let cost = a_presses * 3 + b_presses;
    proof {
        assert(machine_cost_spec(
            ax as int,
            ay as int,
            bx as int,
            by as int,
            px as int,
            py as int,
        ) == Some((3 * (a_presses as int) + b_presses as int) as int));
        let det = ax as int * by - ay as int * bx;
        let num = ax as int * py - ay as int * px;
        let bp = b_presses as int;
        let ap = a_presses as int;
        // the first axis holds by construction
        assert(ap * (ax as int) + bp * (bx as int) == px as int) by (nonlinear_arith)
            requires
                ap * (ax as int) == px - (bx as int) * bp,
        ;
        // eliminating the first axis from the determinant gives the second
        assert((ax as int) * (ap * (ay as int) + bp * (by as int)) == (ax as int) * (py as int))
            by (nonlinear_arith)
            requires
                bp * det == num,
                det == ax as int * by - ay as int * bx,
                num == ax as int * py - ay as int * px,
                ap * (ax as int) == px - (bx as int) * bp,
        ;
        assert(ap * (ay as int) + bp * (by as int) == py as int) by (nonlinear_arith)
            requires
                (ax as int) * (ap * (ay as int) + bp * (by as int)) == (ax as int) * (py as int),
                ax != 0,
        ;
        assert(cost == 3 * ap + bp);
    }
    Some(cost)
}

/// The running total after walking the machine blocks from line `i`: empty
/// lines are stepped over, a block needs three lines, and a solved machine's
/// cost lands in the total only while it has headroom to spare.
pub open spec fn score_scan(ls: Seq<Seq<u8>>, i: int, acc: int, offset: int) -> int
    decreases ls.len() - i,
{
    if i < 0 || i >= ls.len() {
        acc
    } else if ls[i].len() == 0 {
        score_scan(ls, i + 1, acc, offset)
    } else if i + 2 >= ls.len() {
        acc
    } else {
        let ax = input_x(ls[i]);
        let ay = input_y(ls[i]);
        let bx = input_x(ls[i + 1]);
        let by = input_y(ls[i + 1]);
        let px = input_x(ls[i + 2]) + offset;
        let py = input_y(ls[i + 2]) + offset;
        let acc2 = match machine_cost_spec(ax, ay, bx, by, px, py) {
            Some(cost) => if acc <= 170141183460469231731687303715884105727
                - 4000000000000000000000 && acc >= -170141183460469231731687303715884105728
                + 4000000000000000000000 {
                acc + cost
            } else {
                acc
            },
            None => acc,
        };
        score_scan(ls, i + 3, acc2, offset)
    }
}

/// The summed token cost over all machines: three per first-button press and
/// one per second-button press, for machines the buttons can reach exactly.
pub fn get_score(input: &String, prize_offset: i64) -> (r: String)
    requires
        input.is_ascii(),
        input@.len() <= 100000000,
        0 <= prize_offset <= 10000000000000,
    ensures
        ({
            let total = score_scan(lines_of(ascii_bytes(input@)), 0, 0, prize_offset as int);
            if total >= 0 {
                r@ == dec_chars_u(total)
            } else {
                r@ == seq!['-'] + dec_chars_u(-total)
            }
        }),
{
    let bytes = to_bytes(input.as_str());
    let ls = lines(&bytes);
    let mut total_score: i128 = 0;
    let mut i: usize = 0;
    proof {
        crate::text::lemma_lines_count(bytes@);
        crate::text::lemma_line_lens(bytes@);
        assert forall|j: int| 0 <= j < ls@.len() implies (#[trigger] ls@[j])@.len()
            <= 100000000 by {
            assert(ls@[j]@ == crate::text::lines_of(bytes@)[j]);
        }
    }
    let ghost lv = lines_of(bytes@);
    let ghost off = prize_offset as int;
    let mut done = false;
    while i < ls.len() && !done
        invariant
            i <= ls@.len() <= 100000001,
            forall|j: int| 0 <= j < ls@.len() ==> (#[trigger] ls@[j])@.len() <= 100000000,
            ls@.len() == lv.len(),
            forall|j: int| 0 <= j < ls@.len() ==> (#[trigger] ls@[j])@ == lv[j],
            score_scan(lv, 0, 0, off) == score_scan(lv, i as int, total_score as int, off),
            done ==> score_scan(lv, i as int, total_score as int, off) == total_score as int,
        decreases ls@.len() - i + (if done {
            0int
        } else {
            1int
        }),
    {
        if ls[i].len() == 0 {
            i += 1;
            continue ;
        }
        if i + 2 >= ls.len() {
            proof {
                assert(score_scan(lv, i as int, total_score as int, off) == total_score as int);
            }
            done = true;
            continue ;
        }
        let button_a = InputData::from_str(&ls[i]);
        let button_b = InputData::from_str(&ls[i + 1]);
        let prize_line = InputData::from_str(&ls[i + 2]);
        let prize_x = prize_line.x as i128 + prize_offset as i128;
        let prize_y = prize_line.y as i128 + prize_offset as i128;
        match machine_cost(
            button_a.x as i128,
            button_a.y as i128,
            button_b.x as i128,
            button_b.y as i128,
            prize_x,
            prize_y,
        ) {
            Some(cost) => {
                if total_score <= 170141183460469231731687303715884105727 - 4000000000000000000000
                    && total_score >= -170141183460469231731687303715884105728
                        + 4000000000000000000000 {
                    total_score = total_score + cost;
                }
            },
            None => {},
        }
        i += 3;
    }
    if total_score >= 0 {
        crate::text::u128_to_string(total_score as u128)
    } else {
        let magnitude = (-(total_score + 1)) as u128 + 1;
        let mut s = String::new();
        proof {
            reveal_strlit("-");
        }
        s.append("-");
        s.append(crate::text::u128_to_string(magnitude).as_str());
        s
    }
}

/// The token cost with the prizes where the input puts them.
pub fn part1(input: &String) -> (r: String)
    requires
        input.is_ascii(),
        input@.len() <= 100000000,
    ensures
        ({
            let total = score_scan(lines_of(ascii_bytes(input@)), 0, 0, 0);
            if total >= 0 {
                r@ == dec_chars_u(total)
            } else {
                r@ == seq!['-'] + dec_chars_u(-total)
            }
        }),
{
    get_score(input, 0)
}

/// The token cost with every prize shifted ten trillion units away.
pub fn part2(input: &String) -> (r: String)
    requires
        input.is_ascii(),
        input@.len() <= 100000000,
    ensures
        ({
            let total = score_scan(lines_of(ascii_bytes(input@)), 0, 0, 10000000000000);
            if total >= 0 {
                r@ == dec_chars_u(total)
            } else {
                r@ == seq!['-'] + dec_chars_u(-total)
            }
        }),
{
    get_score(input, 10000000000000)
}

} // verus!