//! The blinking stones: at each blink a zero becomes one, an even-digit
//! stone splits in half, and anything else is multiplied; only the count of
//! each distinct stone value is tracked.
use vstd::prelude::*;

use crate::text::{digits_ok, parse_u64, split_bytes, to_bytes, u128_to_string};

verus! {

use std::collections::HashMap;

/// A count map and its list of distinct keys, kept in step.
pub open spec fn stones_keyed(m: Map<u128, u64>, keys: Seq<u128>) -> bool {
    &&& forall|j: int| 0 <= j < keys.len() ==> m.contains_key(#[trigger] keys[j])
    &&& forall|t: u128| m.contains_key(t) ==> keys.contains(t)
    &&& forall|j1: int, j2: int| 0 <= j1 < j2 < keys.len() ==> keys[j1] != keys[j2]
}

/// The tally of `stone` once `count` more are added; a sum past the word
/// size tops out.
pub open spec fn stone_total(m: Map<u128, u64>, stone: u128, count: u64) -> u64 {
    let current: u64 = if m.contains_key(stone) {
        m[stone]
    } else {
        0u64
    };
    if current + count <= u64::MAX {
        (current + count) as u64
    } else {
        u64::MAX
    }
}

/// Adds `count` stones of value `stone` to the tally.
pub fn add_stone(
    stone_counts: &mut HashMap<u128, u64>,
    keys: &mut Vec<u128>,
    stone: u128,
    count: u64,
)
    requires
        stones_keyed(old(stone_counts)@, old(keys)@),
    ensures
        stones_keyed(final(stone_counts)@, final(keys)@),
        final(stone_counts)@ == old(stone_counts)@.insert(
            stone,
            stone_total(old(stone_counts)@, stone, count),
        ),
{
    let current = match stone_counts.get(&stone) {
        Some(c) => *c,
        None => 0,
    };
    let updated = if current <= u64::MAX - count {
        current + count
    } else {
        u64::MAX
    };
    if stone_counts.contains_key(&stone) {
        stone_counts.insert(stone, updated);
    } else {
        let ghost keys0 = keys@;
        stone_counts.insert(stone, updated);
        keys.push(stone);
        proof {
            assert(forall|j: int| 0 <= j < keys0.len() ==> #[trigger] keys@[j] == keys0[j]);
            assert(keys@[keys@.len() - 1] == stone);
            assert forall|t: u128| stone_counts@.contains_key(t) implies keys@.contains(t) by {
                if t == stone {
                    assert(keys@[keys@.len() - 1] == t);
                } else {
                    assert(keys0.contains(t));
                    let j = choose|ji: int| 0 <= ji < keys0.len() && #[trigger] keys0[ji] == t;
                    assert(keys@[j] == t);
                }
            }
            assert forall|j1: int, j2: int|
                0 <= j1 < j2 < keys@.len() implies keys@[j1] != keys@[j2] by {
                if j2 == keys@.len() - 1 {
                    assert(!keys0.contains(keys@[j2]));
                    assert(keys@[j1] == keys0[j1]);
                }
            }
        }
    }
}

/// The digits of a number with its leading zeros removed; all-zero input
/// reads as a single zero.
pub open spec fn spec_drop_zeros(s: Seq<u8>) -> Seq<u8>
    decreases s.len(),
{
    if s.len() == 0 {
        seq![48u8]
    } else if s[0] == 48 {
        spec_drop_zeros(s.skip(1))
    } else {
        s
    }
}

/// Strips the leading zeros off a digit string.
pub fn drop_leading_zeros(number: &Vec<u8>) -> (r: Vec<u8>)
    ensures
        r@ == spec_drop_zeros(number@),
{
    let mut start_index: usize = 0;
    proof {
        assert(number@.skip(0) =~= number@);
    }
    while start_index < number.len() && number[start_index] == 48
        invariant
            start_index <= number@.len(),
            spec_drop_zeros(number@) == spec_drop_zeros(number@.skip(start_index as int)),
        decreases number@.len() - start_index,
    {
        proof {
            assert(number@.skip(start_index as int)[0] == number@[start_index as int]);
            assert(number@.skip(start_index as int).skip(1) =~= number@.skip(start_index + 1));
        }
        start_index += 1;
    }
    let mut r: Vec<u8> = Vec::new();
    if start_index == number.len() {
        r.push(48);
        proof {
            assert(number@.skip(start_index as int).len() == 0);
            assert(r@ =~= spec_drop_zeros(number@.skip(start_index as int)));
        }
        return r;
    }
    let mut k = start_index;
    while k < number.len()
        invariant
            start_index <= k <= number@.len(),
            r@ == number@.subrange(start_index as int, k as int),
        decreases number@.len() - k,
    {
        r.push(number[k]);
        proof {
            assert(number@.subrange(start_index as int, k + 1) =~= number@.subrange(
                start_index as int,
                k as int,
            ).push(number@[k as int]));
        }
        k += 1;
    }
    proof {
        assert(number@.skip(start_index as int)[0] != 48);
        assert(r@ =~= number@.skip(start_index as int));
    }
    r
}

/// How many decimal digits `n` has.
fn count_digits(n: u128) -> (d: u32)
    ensures
        1 <= d <= 39,
        d == crate::day7::dec_digits(n as int),
    decreases n,
{
    proof {
        lemma_dec_digits_cap(n as int);
    }
    if n < 10 {
        1
    } else {
        let rest = count_digits(n / 10);
        if rest >= 39 {
            39
        } else {
            rest + 1
        }
    }
}

/// Any machine-word value has at most thirty-nine digits.
proof fn lemma_dec_digits_cap(n: int)
    requires
        0 <= n < 340282366920938463463374607431768211456,
    ensures
        crate::day7::dec_digits(n) <= 39,
{
    assert(crate::text::pow10(39) == 1000000000000000000000000000000000000000) by {
        reveal_with_fuel(crate::text::pow10, 41);
    }
    lemma_dec_digits_below(n, 39);
}

proof fn lemma_dec_digits_below(n: int, d: int)
    requires
        0 <= n < crate::text::pow10(d as nat),
        d >= 1,
    ensures
        crate::day7::dec_digits(n) <= d,
    decreases d,
{
    if d > 1 {
        if n >= 10 {
            lemma_dec_digits_below(n / 10, d - 1);
        }
    } else {
        assert(crate::text::pow10(1) == 10) by {
            reveal_with_fuel(crate::text::pow10, 3);
        }
    }
}

/// Ten to the `d`th power, for splitting stones.
fn pow10_u128(d: u32) -> (p: u128)
    requires
        d <= 19,
    ensures
        p >= 1,
        p == crate::text::pow10(d as nat),
    decreases d,
{
    if d == 0 {
        1
    } else {
        let rest = pow10_u128(d - 1);
        proof {
            crate::text::lemma_pow10_mono((d - 1) as nat, 19);
            assert(crate::text::pow10(19) == 10000000000000000000) by {
                reveal_with_fuel(crate::text::pow10, 21);
            }
        }
        if rest <= 100000000000000000000000000000000000 {
            rest * 10
        } else {
            rest
        }
    }
}

/// One stone after a blink: zero becomes one, an even-digit value splits
/// into its upper and lower halves, and anything else is multiplied by
/// 2024 (a value too large to multiply is left alone).
/// What one stone becomes in a blink: zero turns to one, an even run of
/// digits splits in half, and anything else with headroom is multiplied by
/// two thousand and twenty-four.
pub open spec fn spec_blink_stone(stone: u128) -> (u128, Option<u128>) {
    if stone == 0 {
        (1u128, None)
    } else {
        let d = crate::day7::dec_digits(stone as int);
        if d % 2 == 0 && d <= 38 {
            let half = crate::text::pow10((d / 2) as nat);
            ((stone as int / half) as u128, Some((stone as int % half) as u128))
        } else if stone <= 100000000000000000000000000000000 {
            ((stone * 2024) as u128, None)
        } else {
            (stone, None)
        }
    }
}

/// The tally after blinking the stones of `keys[i..]` one by one into `acc`,
/// each contributing its source count to what it becomes.
pub open spec fn blink_fold(
    src: Map<u128, u64>,
    keys: Seq<u128>,
    i: int,
    acc: Map<u128, u64>,
) -> Map<u128, u64>
    decreases keys.len() - i,
{
    if i < 0 || i >= keys.len() {
        acc
    } else {
        let stone = keys[i];
        let count = if src.contains_key(stone) {
            src[stone]
        } else {
            0u64
        };
        let pair = spec_blink_stone(stone);
        let acc1 = acc.insert(pair.0, stone_total(acc, pair.0, count));
        let acc2 = match pair.1 {
            Some(low) => acc1.insert(low, stone_total(acc1, low, count)),
            None => acc1,
        };
        blink_fold(src, keys, i + 1, acc2)
    }
}

pub fn blink_stone(stone: u128) -> (r: (u128, Option<u128>))
    ensures
        r == spec_blink_stone(stone),
        stone == 0 ==> r == (1u128, None::<u128>),
        stone != 0 && crate::day7::dec_digits(stone as int) % 2 == 0 && crate::day7::dec_digits(
            stone as int,
        ) <= 38 ==> {
            let half = crate::text::pow10((crate::day7::dec_digits(stone as int) / 2) as nat);
            r.0 == stone as int / half && r.1 == Some((stone as int % half) as u128)
        },
        stone != 0 && (crate::day7::dec_digits(stone as int) % 2 != 0 || crate::day7::dec_digits(
            stone as int,
        ) > 38) && stone <= 100000000000000000000000000000000 ==> r == (
            (stone * 2024) as u128,
            None::<u128>,
        ),
        stone != 0 && (crate::day7::dec_digits(stone as int) % 2 != 0 || crate::day7::dec_digits(
            stone as int,
        ) > 38) && stone > 100000000000000000000000000000000 ==> r == (stone, None::<u128>),
{
    if stone == 0 {
        return (1, None);
    }
    let d = count_digits(stone);
    if d % 2 == 0 && d <= 38 {
        let p = pow10_u128(d / 2);
        (stone / p, Some(stone % p))
    } else if stone <= 100000000000000000000000000000000 {
        (stone * 2024, None)
    } else {
        (stone, None)
    }
}

/// One blink over the whole tally.
pub fn blink(stone_counts: &HashMap<u128, u64>, keys: &Vec<u128>) -> (r: (
    HashMap<u128, u64>,
    Vec<u128>,
))
    requires
        stones_keyed(stone_counts@, keys@),
    ensures
        stones_keyed(r.0@, r.1@),
        r.0@ == blink_fold(stone_counts@, keys@, 0, Map::<u128, u64>::empty()),
{
    let mut updated: HashMap<u128, u64> = HashMap::new();
    let mut updated_keys: Vec<u128> = Vec::new();
    let mut i: usize = 0;
    proof {
        assert(stones_keyed(updated@, updated_keys@));
        assert(updated@ =~= Map::<u128, u64>::empty());
    }
    while i < keys.len()
        invariant
            i <= keys@.len(),
            stones_keyed(stone_counts@, keys@),
            stones_keyed(updated@, updated_keys@),
            blink_fold(stone_counts@, keys@, 0, Map::<u128, u64>::empty()) == blink_fold(
                stone_counts@,
                keys@,
                i as int,
                updated@,
            ),
        decreases keys@.len() - i,
    {
        let stone = keys[i];
        let count = match stone_counts.get(&stone) {
            Some(c) => *c,
            None => 0,
        };
        let (first, second) = blink_stone(stone);
        add_stone(&mut updated, &mut updated_keys, first, count);
        match second {
            Some(low) => add_stone(&mut updated, &mut updated_keys, low, count),
            None => {},
        }
        i += 1;
    }
    (updated, updated_keys)
}

/// Counts the stones after `blinks` blinks.  Counts cap at the unsigned
/// limits: a per-stone tally saturates rather than wraps, and a contribution
/// that would overflow the grand total is left out.
fn count_after(input: &String, blinks: u32) -> (r: String)
    requires
        input.is_ascii(),
        input@.len() <= 100000000,
{
    let bytes = to_bytes(input.as_str());
    let fields = split_bytes(&bytes, 32);
    let mut stone_counts: HashMap<u128, u64> = HashMap::new();
    let mut keys: Vec<u128> = Vec::new();
    let mut i: usize = 0;
    while i < fields.len()
        invariant
            i <= fields@.len(),
            stones_keyed(stone_counts@, keys@),
        decreases fields@.len() - i,
    {
        let token = drop_leading_zeros(&fields[i]);
        if digits_ok(&token, 0, token.len()) {
            proof {
                crate::text::lemma_dec_value_bound(token@.subrange(0, token@.len() as int));
            }
            let value = parse_u64(&token, 0, token.len());
            add_stone(&mut stone_counts, &mut keys, value as u128, 1);
        }
        i += 1;
    }
    let mut b: u32 = 0;
    while b < blinks
        invariant
            b <= blinks,
            stones_keyed(stone_counts@, keys@),
        decreases blinks - b,
    {
        let (next, next_keys) = blink(&stone_counts, &keys);
        stone_counts = next;
        keys = next_keys;
        b += 1;
    }
    let mut total: u128 = 0;
    let mut k: usize = 0;
    while k < keys.len()
        invariant
            k <= keys@.len(),
            stones_keyed(stone_counts@, keys@),
        decreases keys@.len() - k,
    {
        let count = match stone_counts.get(&keys[k]) {
            Some(c) => *c,
            None => 0,
        };
        if (count as u128) <= u128::MAX - total {
            total = total + count as u128;
        }
        k += 1;
    }
    u128_to_string(total)
}

/// The stone count after twenty-five blinks.
pub fn part1(input: &String) -> (r: String)
    requires
        input.is_ascii(),
        input@.len() <= 100000000,
{
    count_after(input, 25)
}

/// The stone count after seventy-five blinks.
pub fn part2(input: &String) -> (r: String)
    requires
        input.is_ascii(),
        input@.len() <= 100000000,
{
    count_after(input, 75)
}

} // verus!