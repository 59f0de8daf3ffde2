//! Patrolling robots on a wrapping grid: each robot's position after one
//! hundred steps decides which quadrant it lands in, and the quadrant counts
//! multiply into a safety factor.
use vstd::prelude::*;

use crate::text::{
    ascii_bytes, digits_ok, find_byte, lines, parse_u64, to_bytes, u128_to_string,
};

verus! {

pub struct Robot {
    pub position_x: i32,
    pub position_y: i32,
    pub velocity_x: i32,
    pub velocity_y: i32,
}

/// The signed value a coordinate field spells: an optional leading minus,
/// then up to nine digits; anything else reads as zero.
pub open spec fn coord_of(s: Seq<u8>) -> int {
    if s.len() >= 1 && s[0] == 45 {
        if crate::text::all_digits(s.skip(1)) && 1 <= s.len() - 1 <= 18 && s.len() <= 10 {
            -crate::text::dec_value(s.skip(1))
        } else {
            0
        }
    } else if crate::text::all_digits(s) && 1 <= s.len() <= 18 && s.len() <= 9 {
        crate::text::dec_value(s)
    } else {
        0
    }
}

/// Parses a signed coordinate out of `v[from..to]`; zero when malformed.
fn parse_coord(v: &Vec<u8>, from: usize, to: usize) -> (r: i32)
    requires
        from <= to <= v@.len(),
    ensures
        -1000000000 < r < 1000000000,
        r == coord_of(v@.subrange(from as int, to as int)),
{
    let ghost s = v@.subrange(from as int, to as int);
    proof {
        if from < to {
            assert(s.skip(1) =~= v@.subrange(from + 1, to as int));
        }
    }
    if to - from >= 1 && v[from] == 45 {
        if digits_ok(v, from + 1, to) && to - from <= 10 {
            proof {
                crate::text::lemma_dec_value_bound(v@.subrange(from + 1, to as int));
                crate::text::lemma_pow10_mono(v@.subrange(from + 1, to as int).len(), 9);
                crate::day1::lemma_pow10_9();
            }
            -(parse_u64(v, from + 1, to) as i32)
        } else {
            0
        }
    } else if digits_ok(v, from, to) && to - from <= 9 {
        proof {
            crate::text::lemma_dec_value_bound(v@.subrange(from as int, to as int));
            crate::text::lemma_pow10_mono(v@.subrange(from as int, to as int).len(), 9);
            crate::day1::lemma_pow10_9();
        }
        parse_u64(v, from, to) as i32
    } else {
        0
    }
}

/// Builds the robot from its velocity field and already-parsed position:
/// the coordinates on either side of the first comma at or after `from`,
/// or zeroes when no comma follows.
pub fn parse_velocity(line: &Vec<u8>, from: usize, position_x: i32, position_y: i32) -> (r: Robot)
    requires
        from <= line@.len(),
        line@.len() <= 100000000,
        -1000000000 < position_x < 1000000000,
        -1000000000 < position_y < 1000000000,
    ensures
        r.position_x == position_x,
        r.position_y == position_y,
        -1000000000 < r.velocity_x < 1000000000,
        -1000000000 < r.velocity_y < 1000000000,
        ({
            let rel = crate::text::find_index(line@.skip(from as int), 44);
            if rel >= 0 {
                r.velocity_x == coord_of(line@.subrange(from as int, from + rel))
                    && r.velocity_y == coord_of(
                    line@.subrange(from + rel + 1, line@.len() as int),
                )
            } else {
                r.velocity_x == 0 && r.velocity_y == 0
            }
        }),
{
    let ghost tail = line@.skip(from as int);
    proof {
        assert(forall|j: int| 0 <= j < tail.len() ==> #[trigger] tail[j] == line@[from + j]);
    }
    match find_byte(line, from, 44) {
        Some(comma) => {
            proof {
                crate::text::lemma_find_index_is_first(tail, 44, comma - from);
            }
            let velocity_x = parse_coord(line, from, comma);
            let velocity_y = parse_coord(line, comma + 1, line.len());
            Robot { position_x, position_y, velocity_x, velocity_y }
        },
        None => {
            proof {
                crate::text::lemma_find_index_none(tail, 44);
            }
            Robot { position_x, position_y, velocity_x: 0, velocity_y: 0 }
        },
    }
}

/// Parses one `p=x,y v=x,y` robot line; malformed fields read as zero.
pub fn parse_position(line: &Vec<u8>) -> (r: Robot)
    requires
        line@.len() <= 100000000,
    ensures
        -1000000000 < r.position_x < 1000000000,
        -1000000000 < r.position_y < 1000000000,
        -1000000000 < r.velocity_x < 1000000000,
        -1000000000 < r.velocity_y < 1000000000,
        ({
            let c = crate::text::find_index(line@, 44);
            let s = crate::text::find_index(line@, 32);
            if c >= 2 && s >= c + 1 && s + 3 <= line@.len() && line@.len() >= 2 {
                r.position_x == coord_of(line@.subrange(2, c)) && r.position_y == coord_of(
                    line@.subrange(c + 1, s),
                ) && ({
                    let rel = crate::text::find_index(line@.skip(s + 3), 44);
                    if rel >= 0 {
                        r.velocity_x == coord_of(line@.subrange(s + 3, s + 3 + rel))
                            && r.velocity_y == coord_of(
                            line@.subrange(s + 3 + rel + 1, line@.len() as int),
                        )
                    } else {
                        r.velocity_x == 0 && r.velocity_y == 0
                    }
                })
            } else {
                r.position_x == 0 && r.position_y == 0 && r.velocity_x == 0 && r.velocity_y == 0
            }
        }),
{
    let comma = match find_byte(line, 0, 44) {
        Some(c) => c,
        None => {
            proof {
                crate::text::lemma_find_index_none(line@, 44);
            }
            return Robot { position_x: 0, position_y: 0, velocity_x: 0, velocity_y: 0 };
        },
    };
    proof {
        crate::text::lemma_find_index_is_first(line@, 44, comma as int);
    }
    let space = match find_byte(line, 0, 32) {
        Some(s) => s,
        None => {
            proof {
                crate::text::lemma_find_index_none(line@, 32);
            }
            return Robot { position_x: 0, position_y: 0, velocity_x: 0, velocity_y: 0 };
        },
    };
    proof {
        crate::text::lemma_find_index_is_first(line@, 32, space as int);
    }
    if line.len() < 2 || comma < 2 || space < comma + 1 || space + 3 > line.len() {
        return Robot { position_x: 0, position_y: 0, velocity_x: 0, velocity_y: 0 };
    }
    let position_x = parse_coord(line, 2, comma);
    let position_y = parse_coord(line, comma + 1, space);
    parse_velocity(line, space + 3, position_x, position_y)
}

/// Where a coordinate ends up after one hundred wrapping steps.
pub fn calculate_final_position(initial_position: i32, velocity: i32, size: i32) -> (r: i32)
    requires
        1 <= size <= 1000000,
        -1000000000 < initial_position < 1000000000,
        -1000000000 < velocity < 1000000000,
    ensures
        0 <= r < size,
        r as int == (initial_position as int + velocity as int * 100) % (size as int),
{
    let shifted = initial_position as i64 + velocity as i64 * 100;
    let size64 = size as u64;
    let r: i32;
    if shifted >= 0 {
        let rm = ((shifted as u64) % size64) as i32;
        proof {
            assert(rm as int == shifted as int % size as int);
        }
        r = rm;
    } else {
        let a = (-shifted) as u64;
        let rm = (a % size64) as i64;
        let qa = (a / size64) as i64;
        proof {
            assert(a as int == qa * size + rm) by (nonlinear_arith)
                requires
                    qa == a as int / size as int,
                    rm == a as int % size as int,
                    size >= 1,
                    a >= 1,
            ;
        }
        if rm == 0 {
            proof {
                assert(shifted as int == (-(qa as int)) * (size as int) + 0) by (nonlinear_arith)
                    requires
                        shifted == -(a as int),
                        a as int == qa * size,
                ;
                vstd::arithmetic::div_mod::lemma_fundamental_div_mod_converse(
                    shifted as int,
                    size as int,
                    -(qa as int),
                    0,
                );
            }
            r = 0;
        } else {
            proof {
                assert(shifted as int == (-(qa as int) - 1) * size + (size - rm))
                    by (nonlinear_arith)
                    requires
                        shifted == -(a as int),
                        a as int == qa * size + rm,
                ;
                vstd::arithmetic::div_mod::lemma_fundamental_div_mod_converse(
                    shifted as int,
                    size as int,
                    -(qa as int) - 1,
                    size as int - rm as int,
                );
            }
            r = (size as i64 - rm) as i32;
        }
    }
    r
}

/// The safety factor: the product of the four quadrant counts after one
/// hundred steps.
pub fn part1(input: &String, width: i32, height: i32) -> (r: String)
    requires
        input.is_ascii(),
        input@.len() <= 100000000,
        1 <= width <= 1000000,
        1 <= height <= 1000000,
{
    let bytes = to_bytes(input.as_str());
    let ls = lines(&bytes);
    let mut safety_north_west: u64 = 0;
    let mut safety_north_east: u64 = 0;
    let mut safety_south_west: u64 = 0;
    let mut safety_south_east: u64 = 0;
    let mut i: usize = 0;
    proof {
        crate::text::lemma_lines_count(bytes@);
    }
    proof {
        crate::text::lemma_line_lens(bytes@);
        assert forall|j: int| 0 <= j < ls@.len() implies (#[trigger] ls@[j])@.len()
            <= 100000000 by {
            assert(ls@[j]@ == crate::text::lines_of(bytes@)[j]);
        }
    }
    while i < ls.len()
        invariant
            i <= ls@.len() <= 100000001,
            1 <= width <= 1000000,
            1 <= height <= 1000000,
            forall|j: int| 0 <= j < ls@.len() ==> (#[trigger] ls@[j])@.len() <= 100000000,
            safety_north_west <= i,
            safety_north_east <= i,
            safety_south_west <= i,
            safety_south_east <= i,
        decreases ls@.len() - i,
    {
        let robot = parse_position(&ls[i]);
        let final_x = calculate_final_position(robot.position_x, robot.velocity_x, width);
        let final_y = calculate_final_position(robot.position_y, robot.velocity_y, height);
        if final_x == width / 2 || final_y == height / 2 {
        } else {
            if final_x < width / 2 {
                if final_y < height / 2 {
                    safety_north_west += 1;
                } else {
                    safety_south_west += 1;
                }
            } else {
                if final_y < height / 2 {
                    safety_north_east += 1;
                } else {
                    safety_south_east += 1;
                }
            }
        }
        i += 1;
    }
    proof {
        assert(safety_north_west as int * (safety_north_east as int) <= 100000001int * 100000001)
            by (nonlinear_arith)
            requires
                0 <= safety_north_west <= 100000001,
                0 <= safety_north_east <= 100000001,
        ;
        assert(safety_north_west as int * (safety_north_east as int) * (safety_south_west as int)
            <= 100000001int * 100000001 * 100000001) by (nonlinear_arith)
            requires
                0 <= safety_north_west as int * (safety_north_east as int) <= 100000001int
                    * 100000001,
                0 <= safety_south_west <= 100000001,
        ;
        assert(safety_north_west as int * (safety_north_east as int) * (safety_south_west as int)
            * (safety_south_east as int) <= 100000001int * 100000001 * 100000001 * 100000001)
            by (nonlinear_arith)
            requires
                0 <= safety_north_west as int * (safety_north_east as int) * (safety_south_west
                    as int) <= 100000001int * 100000001 * 100000001,
                0 <= safety_south_east <= 100000001,
        ;
    }
    let product = (safety_north_west as u128) * (safety_north_east as u128) * (safety_south_west
        as u128) * (safety_south_east as u128);
    u128_to_string(product)
}

} // verus!