//! Two location lists: the total distance pairs the lists off in sorted
//! order and sums the gaps; the similarity score weighs each left entry by
//! how often it appears on the right.
use vstd::prelude::*;

use crate::text::{
    all_digits, ascii_bytes, dec_chars_u, dec_value, find_byte, find_index, lemma_dec_value_bound,
    lemma_find_index_is_first, lemma_pow10_mono, lines, lines_of, parse_u64, pow10, to_bytes,
    u64_to_string, without_byte,
};

verus! {

use vstd::relations::{sorted_by, total_ordering};
use vstd::multiset::Multiset;
use vstd::seq_lib::lemma_sorted_unique;

/// The comparison that orders the location lists.
pub open spec fn u32_le() -> spec_fn(u32, u32) -> bool {
    |a: u32, b: u32| a <= b
}

/// The digits before the first space of a line.
pub open spec fn line_first(l: Seq<u8>) -> Seq<u8> {
    l.take(find_index(l, 32))
}

/// The digits after the first space of a line, further spaces dropped.
pub open spec fn line_second(l: Seq<u8>) -> Seq<u8> {
    without_byte(l.skip(find_index(l, 32) + 1), 32)
}

pub open spec fn day1_line_ok(l: Seq<u8>) -> bool {
    &&& 1 <= find_index(l, 32)
    &&& all_digits(line_first(l))
    &&& line_first(l).len() <= 9
    &&& 1 <= line_second(l).len() <= 9
    &&& all_digits(line_second(l))
}

pub open spec fn day1_input_ok(s: Seq<u8>) -> bool {
    forall|i: int| 0 <= i < lines_of(s).len() ==> day1_line_ok(#[trigger] lines_of(s)[i])
}

/// The left column of the input, line by line.
pub open spec fn first_values(ls: Seq<Seq<u8>>) -> Seq<u32> {
    Seq::new(ls.len(), |i: int| dec_value(line_first(ls[i])) as u32)
}

/// The right column of the input, line by line.
pub open spec fn second_values(ls: Seq<Seq<u8>>) -> Seq<u32> {
    Seq::new(ls.len(), |i: int| dec_value(line_second(ls[i])) as u32)
}

/// The summed distance between paired-off entries.
pub open spec fn abs_sum(a: Seq<u32>, b: Seq<u32>) -> int
    decreases a.len(),
{
    if a.len() == 0 || b.len() == 0 {
        0
    } else {
        abs_sum(a.drop_last(), b.drop_last()) + if a.last() >= b.last() {
            a.last() - b.last()
        } else {
            b.last() - a.last()
        }
    }
}

/// How often `x` occurs in `s`.
pub open spec fn count_of(s: Seq<u32>, x: u32) -> int {
    s.to_multiset().count(x) as int
}

/// Sorts ascending by insertion.
fn sort_u32(v: &Vec<u32>) -> (r: Vec<u32>)
    ensures
        r@ == v@.sort_by(u32_le()),
{
    let mut r: Vec<u32> = Vec::new();
    let mut i: usize = 0;
    proof {
        broadcast use vstd::seq_lib::to_multiset_insert;

        assert(v@.take(0) =~= Seq::<u32>::empty());
        assert(v@.take(0).to_multiset() =~= r@.to_multiset());
    }
    while i < v.len()
        invariant
            i <= v@.len(),
            sorted_by(r@, u32_le()),
            r@.to_multiset() == v@.take(i as int).to_multiset(),
        decreases v@.len() - i,
    {
        let x = v[i];
        let mut j: usize = 0;
        while j < r.len() && r[j] <= x
            invariant
                j <= r@.len(),
                forall|k: int| 0 <= k < j ==> r@[k] <= x,
            decreases r@.len() - j,
        {
            j += 1;
        }
        let ghost r0 = r@;
        r.insert(j, x);
        proof {
            broadcast use vstd::seq_lib::to_multiset_insert;

            assert(sorted_by(r@, u32_le())) by {
                assert(forall|k: int| 0 <= k < j ==> r@[k] == r0[k]);
                assert(forall|k: int| j < k < r@.len() ==> r@[k] == r0[k - 1]);
                assert(r@[j as int] == x);
                assert(j < r0.len() ==> x < r0[j as int]);
                assert forall|k1: int, k2: int|
                    0 <= k1 < k2 < r@.len() implies u32_le()(r@[k1], r@[k2]) by {
                    if k2 < j {
                        assert(u32_le()(r0[k1], r0[k2]));
                    } else if k1 > j {
                        assert(u32_le()(r0[k1 - 1], r0[k2 - 1]));
                    } else if k1 < j && k2 == j {
                        assert(r0[k1] <= x);
                    } else if k1 == j && k2 > j {
                        if k2 - 1 > j {
                            assert(u32_le()(r0[j as int], r0[k2 - 1]));
                        }
                    } else if k1 < j && k2 > j {
                        assert(r0[k1] <= x);
                        if k2 - 1 > j {
                            assert(u32_le()(r0[j as int], r0[k2 - 1]));
                        }
                    }
                }
            }
            assert(v@.take(i + 1).drop_last() =~= v@.take(i as int));
            assert(v@.take(i + 1) == v@.take(i as int).push(x));
            broadcast use vstd::seq_lib::to_multiset_build;

        }
        i += 1;
    }
    proof {
        assert(v@.take(v@.len() as int) =~= v@);
        assert(total_ordering(u32_le()));
        v@.lemma_sort_by_ensures(u32_le());
        lemma_sorted_unique(r@, v@.sort_by(u32_le()), u32_le());
    }
    r
}

/// Parses the two columns of the input.
fn parse_lists(input: &String) -> (r: (Vec<u32>, Vec<u32>))
    requires
        input.is_ascii(),
        day1_input_ok(ascii_bytes(input@)),
    ensures
        r.0@ == first_values(lines_of(ascii_bytes(input@))),
        r.1@ == second_values(lines_of(ascii_bytes(input@))),
{
    let bytes = to_bytes(input.as_str());
    let ls = lines(&bytes);
    let mut first_list: Vec<u32> = Vec::new();
    let mut second_list: Vec<u32> = Vec::new();
    let ghost lsv = lines_of(bytes@);
    let mut i: usize = 0;
    while i < ls.len()
        invariant
            i <= ls@.len() == lsv.len(),
            forall|j: int| 0 <= j < ls@.len() ==> (#[trigger] ls@[j])@ == lsv[j],
            forall|j: int| 0 <= j < lsv.len() ==> day1_line_ok(#[trigger] lsv[j]),
            first_list@.len() == i,
            second_list@.len() == i,
            forall|j: int|
                0 <= j < i ==> #[trigger] first_list@[j] == dec_value(line_first(lsv[j])) as u32,
            forall|j: int|
                0 <= j < i ==> #[trigger] second_list@[j] == dec_value(line_second(lsv[j])) as u32,
        decreases ls@.len() - i,
    {
        let line = &ls[i];
        assert(day1_line_ok(line@));
        let pos = match find_byte(line, 0, 32) {
            Some(p) => p,
            None => {
                proof {
                    crate::text::lemma_find_index_props(line@, 32);
                }
                unreached()
            },
        };
        proof {
            lemma_find_index_is_first(line@, 32, pos as int);
            assert(line@.subrange(0, pos as int) =~= line_first(line@));
            lemma_dec_value_bound(line_first(line@));
            lemma_pow10_mono(line_first(line@).len(), 9);
            lemma_pow10_9();
        }
        let first = parse_u64(line, 0, pos);
        let mut sec: Vec<u8> = Vec::new();
        let mut j: usize = pos + 1;
        proof {
            assert(line@.subrange(pos + 1, pos + 1) =~= Seq::<u8>::empty());
            assert(sec@ =~= without_byte(line@.subrange(pos + 1, pos + 1), 32));
        }
        while j < line.len()
            invariant
                pos + 1 <= j <= line@.len(),
                sec@ == without_byte(line@.subrange(pos + 1, j as int), 32),
            decreases line@.len() - j,
        {
            proof {
                assert(line@.subrange(pos + 1, j + 1).drop_last() =~= line@.subrange(
                    pos + 1,
                    j as int,
                ));
            }
            if line[j] != 32 {
                sec.push(line[j]);
            }
            j += 1;
        }
        proof {
            assert(line@.subrange(pos + 1, line@.len() as int) =~= line@.skip(pos + 1));
            assert(sec@ == line_second(line@));
            lemma_dec_value_bound(line_second(line@));
            lemma_pow10_mono(line_second(line@).len(), 9);
            lemma_pow10_9();
            assert(sec@.subrange(0, sec@.len() as int) =~= sec@);
        }
        let second = parse_u64(&sec, 0, sec.len());
        first_list.push(first as u32);
        second_list.push(second as u32);
        i += 1;
    }
    proof {
        assert(first_list@ =~= first_values(lsv));
        assert(second_list@ =~= second_values(lsv));
    }
    (first_list, second_list)
}

pub proof fn lemma_pow10_9()
    ensures
        pow10(9) == 1000000000,
{
    reveal_with_fuel(pow10, 10);
}

/// The total distance between the two lists, paired off in sorted order.
pub fn part1(input: &String) -> (r: String)
    requires
        input.is_ascii(),
        input@.len() <= 100000000,
        day1_input_ok(ascii_bytes(input@)),
    ensures
        r@ == dec_chars_u(
            abs_sum(
                first_values(lines_of(ascii_bytes(input@))).sort_by(u32_le()),
                second_values(lines_of(ascii_bytes(input@))).sort_by(u32_le()),
            ),
        ),
{
    let (first_list, second_list) = parse_lists(input);
    let first_sorted = sort_u32(&first_list);
    let second_sorted = sort_u32(&second_list);
    let ghost fs = first_sorted@;
    let ghost ss = second_sorted@;
    let mut result: u64 = 0;
    let mut i: usize = 0;
    proof {
        assert(fs.take(0) =~= Seq::<u32>::empty());
        assert(ss.take(0) =~= Seq::<u32>::empty());
        let fv = first_values(lines_of(ascii_bytes(input@)));
        let sv = second_values(lines_of(ascii_bytes(input@)));
        assert(total_ordering(u32_le()));
        fv.lemma_sort_by_ensures(u32_le());
        sv.lemma_sort_by_ensures(u32_le());
        broadcast use vstd::seq_lib::to_multiset_len;

        assert(fs.to_multiset().len() == fs.len());
        assert(fv.to_multiset().len() == fv.len());
        assert(ss.to_multiset().len() == ss.len());
        assert(sv.to_multiset().len() == sv.len());
        assert(fs.len() == fv.len() && ss.len() == sv.len());
        crate::text::lemma_lines_count(ascii_bytes(input@));
    }
    while i < first_sorted.len() && i < second_sorted.len()
        invariant
            i <= fs.len(),
            i <= ss.len(),
            fs.len() == ss.len() <= 100000001,
            first_sorted@ == fs,
            second_sorted@ == ss,
            result == abs_sum(fs.take(i as int), ss.take(i as int)),
            result <= i * 4294967296,
        decreases fs.len() - i,
    {
        proof {
            assert(fs.take(i + 1).drop_last() =~= fs.take(i as int));
            assert(ss.take(i + 1).drop_last() =~= ss.take(i as int));
            assert((i + 1) * 4294967296 == i * 4294967296 + 4294967296) by (nonlinear_arith);
            assert(i * 4294967296 <= fs.len() * 4294967296) by (nonlinear_arith)
                requires
                    0 <= i <= fs.len(),
            ;
            assert(fs.len() <= 100000001);
        }
        let a = first_sorted[i];
        let b = second_sorted[i];
        result = result + (if a >= b {
            (a - b) as u64
        } else {
            (b - a) as u64
        });
        i += 1;
    }
    proof {
        assert(fs.len() == ss.len());
        assert(fs.take(fs.len() as int) =~= fs);
        assert(ss.take(ss.len() as int) =~= ss);
    }
    u64_to_string(result)
}

/// The total occurrence count of `x` in `v`.
fn count_in(v: &Vec<u32>, x: u32) -> (c: u64)
    requires
        v@.len() <= 100000000,
    ensures
        c == count_of(v@, x),
        c <= v@.len(),
{
    let mut c: u64 = 0;
    let mut i: usize = 0;
    proof {
        broadcast use vstd::seq_lib::to_multiset_build, vstd::seq_lib::to_multiset_len;

        assert(v@.take(0) =~= Seq::<u32>::empty());
        v@.take(0).to_multiset_ensures();
        assert(v@.take(0).to_multiset() =~= Multiset::<u32>::empty());
    }
    while i < v.len()
        invariant
            i <= v@.len() <= 100000000,
            c == count_of(v@.take(i as int), x),
            c <= i,
        decreases v@.len() - i,
    {
        proof {
            broadcast use vstd::seq_lib::to_multiset_build, vstd::seq_lib::to_multiset_len;

            assert(v@.take(i + 1).drop_last() =~= v@.take(i as int));
            assert(v@.take(i + 1) == v@.take(i as int).push(v@[i as int]));
            assert(v@.take(i + 1).to_multiset() == v@.take(i as int).to_multiset().insert(
                v@[i as int],
            ));
        }
        if v[i] == x {
            c = c + 1;
        }
        i += 1;
    }
    proof {
        assert(v@.take(v@.len() as int) =~= v@);
    }
    c
}

/// The similarity score over the first `n` left entries: each distinct left
/// value, counted at its first occurrence, contributes the value times its
/// count on each side.
pub open spec fn similarity_total(firsts: Seq<u32>, seconds: Seq<u32>, n: int) -> int
    decreases n,
{
    if n <= 0 {
        0
    } else {
        similarity_total(firsts, seconds, n - 1) + if firsts.take(n - 1).contains(firsts[n - 1]) {
            0
        } else {
            firsts[n - 1] * count_of(firsts, firsts[n - 1]) * count_of(seconds, firsts[n - 1])
        }
    }
}

/// The similarity score of the two lists.
pub fn part2(input: &String) -> (r: String)
    requires
        input.is_ascii(),
        input@.len() <= 10000000,
        day1_input_ok(ascii_bytes(input@)),
    ensures
        r@ == dec_chars_u(
            similarity_total(
                first_values(lines_of(ascii_bytes(input@))),
                second_values(lines_of(ascii_bytes(input@))),
                first_values(lines_of(ascii_bytes(input@))).len() as int,
            ),
        ),
{
    let (first_list, second_list) = parse_lists(input);
    let ghost fv = first_list@;
    let ghost sv = second_list@;
    let ghost lsv = lines_of(ascii_bytes(input@));
    let mut result: u128 = 0;
    let mut i: usize = 0;
    proof {
        crate::text::lemma_lines_count(ascii_bytes(input@));
    }
    while i < first_list.len()
        invariant
            i <= fv.len() <= 10000001,
            first_list@ == fv,
            second_list@ == sv,
            sv.len() == fv.len(),
            fv == first_values(lsv),
            forall|j: int| 0 <= j < lsv.len() ==> day1_line_ok(#[trigger] lsv[j]),
            result == similarity_total(fv, sv, i as int),
            result <= i * 1000000000000000000000000,
        decreases fv.len() - i,
    {
        let x = first_list[i];
        let seen_before = contains_u32(&first_list, i, x);
        if !seen_before {
            let cf = count_in(&first_list, x);
            let cs = count_in(&second_list, x);
            proof {
                assert(x < 1000000000) by {
                    assert(fv[i as int] == dec_value(line_first(lsv[i as int])) as u32);
                    lemma_dec_value_bound(line_first(lsv[i as int]));
                    lemma_pow10_mono(line_first(lsv[i as int]).len(), 9);
                    lemma_pow10_9();
                }
                assert(x * count_of(fv, x) * count_of(sv, x) <= 1000000000000000000000000)
                    by (nonlinear_arith)
                    requires
                        0 <= x <= 1000000000,
                        0 <= count_of(fv, x) <= 10000001,
                        0 <= count_of(sv, x) <= 10000001,
                ;
                assert((i + 1) * 1000000000000000000000000 == i * 1000000000000000000000000
                    + 1000000000000000000000000) by (nonlinear_arith);
                assert((i + 1) * 1000000000000000000000000 <= 10000001
                    * 1000000000000000000000000) by (nonlinear_arith)
                    requires
                        0 <= i < 10000001,
                ;
            }
            proof {
                assert(x as int * cf as int <= 4294967296 * 10000001) by (nonlinear_arith)
                    requires
                        0 <= x < 4294967296,
                        0 <= cf <= 10000001,
                ;
                assert(x as int * cf as int * cs as int <= 4294967296 * 10000001 * 10000001)
                    by (nonlinear_arith)
                    requires
                        0 <= x as int * cf as int <= 4294967296int * 10000001,
                        0 <= cs <= 10000001,
                ;
            }
            result = result + x as u128 * cf as u128 * cs as u128;
        }
        i += 1;
    }
    crate::text::u128_to_string(result)
}

/// Whether `x` occurs among the first `n` entries.
fn contains_u32(v: &Vec<u32>, n: usize, x: u32) -> (b: bool)
    requires
        n <= v@.len(),
    ensures
        b == v@.take(n as int).contains(x),
{
    let mut i: usize = 0;
    while i < n
        invariant
            i <= n <= v@.len(),
            forall|j: int| 0 <= j < i ==> v@[j] != x,
        decreases n - i,
    {
        if v[i] == x {
            proof {
                assert(v@.take(n as int)[i as int] == x);
            }
            return true;
        }
        i += 1;
    }
    proof {
        if v@.take(n as int).contains(x) {
            let j = choose|j: int| 0 <= j < n && #[trigger] v@.take(n as int)[j] == x;
            assert(v@[j] == x);
        }
    }
    false
}

} // verus!