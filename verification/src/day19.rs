//! Towel designs: whether (and in how many ways) each design string can be
//! composed by concatenating the available towel patterns.
use vstd::prelude::*;

use crate::text::{ascii_bytes, dec_chars_u, lines, lines_of, split_all, split_bytes, to_bytes,
    u128_to_string, u64_to_string};

verus! {

/// A towel field with its leading separator space removed.
pub open spec fn strip_space(f: Seq<u8>) -> Seq<u8> {
    if f.len() > 0 && f[0] == 32 {
        f.skip(1)
    } else {
        f
    }
}

/// The towel patterns listed on the first line.
pub open spec fn towels_of(l: Seq<u8>) -> Seq<Seq<u8>> {
    split_all(l, 44).map_values(|f: Seq<u8>| strip_space(f))
}

pub open spec fn towel_views(ts: Seq<Vec<u8>>) -> Seq<Seq<u8>> {
    ts.map_values(|t: Vec<u8>| t@)
}

pub open spec fn towels_nonempty(towels: Seq<Seq<u8>>) -> bool {
    forall|t: int| 0 <= t < towels.len() ==> (#[trigger] towels[t]).len() >= 1
}

/// Whether `design` from `index` on can be tiled by towels.
pub open spec fn can_compose(design: Seq<u8>, towels: Seq<Seq<u8>>, index: int) -> bool
    decreases design.len() - index,
{
    if index >= design.len() {
        true
    } else {
        exists|t: int|
            0 <= t < towels.len() && (#[trigger] towels[t]).len() >= 1 && index + towels[t].len()
                <= design.len() && design.subrange(index, index + towels[t].len()) == towels[t]
                && can_compose(design, towels, index + towels[t].len())
    }
}

/// How many tilings of the first `j` bytes exist, summed over the first `k`
/// towels for the last piece.
pub open spec fn ways_from(design: Seq<u8>, towels: Seq<Seq<u8>>, j: int, k: int) -> int
    decreases j, k,
{
    if j <= 0 || k <= 0 {
        0
    } else {
        let t = towels[k - 1];
        ways_from(design, towels, j, k - 1) + if 1 <= t.len() <= j && design.subrange(
            j - t.len(),
            j,
        ) == t {
            ways(design, towels, j - t.len())
        } else {
            0
        }
    }
}

/// How many tilings of the first `j` bytes of `design` exist.
pub open spec fn ways(design: Seq<u8>, towels: Seq<Seq<u8>>, j: int) -> int
    decreases j, towels.len() + 1,
{
    if j <= 0 {
        1
    } else {
        ways_from(design, towels, j, towels.len() as int)
    }
}

pub proof fn lemma_ways_from_nonneg(design: Seq<u8>, towels: Seq<Seq<u8>>, j: int, k: int)
    ensures
        ways_from(design, towels, j, k) >= 0,
    decreases j, k,
{
    if j > 0 && k > 0 {
        lemma_ways_from_nonneg(design, towels, j, k - 1);
        let t = towels[k - 1];
        if 1 <= t.len() <= j && design.subrange(j - t.len(), j) == t {
            lemma_ways_nonneg(design, towels, j - t.len());
        }
    }
}

pub proof fn lemma_ways_nonneg(design: Seq<u8>, towels: Seq<Seq<u8>>, j: int)
    ensures
        ways(design, towels, j) >= 0,
    decreases j, towels.len() + 1,
{
    if j > 0 {
        lemma_ways_from_nonneg(design, towels, j, towels.len() as int);
    }
}

pub proof fn lemma_ways_from_mono(design: Seq<u8>, towels: Seq<Seq<u8>>, j: int, k1: int, k2: int)
    requires
        k1 <= k2,
    ensures
        ways_from(design, towels, j, k1) <= ways_from(design, towels, j, k2),
    decreases k2 - k1,
{
    if k1 < k2 {
        lemma_ways_from_mono(design, towels, j, k1, k2 - 1);
        if j > 0 && k2 > 0 {
            let t = towels[k2 - 1];
            if 1 <= t.len() <= j && design.subrange(j - t.len(), j) == t {
                lemma_ways_nonneg(design, towels, j - t.len());
            }
        }
    }
}

/// Whether the towel equals `design[end - t.len() .. end]`.
fn towel_matches(design: &Vec<u8>, end: usize, towel: &Vec<u8>) -> (r: bool)
    requires
        end <= design@.len(),
    ensures
        r == (1 <= towel@.len() <= end && design@.subrange(
            end - towel@.len(),
            end as int,
        ) == towel@),
{
    if towel.len() < 1 || towel.len() > end {
        return false;
    }
    let start = end - towel.len();
    let mut i: usize = 0;
    while i < towel.len()
        invariant
            i <= towel@.len(),
            start == end - towel@.len(),
            1 <= towel@.len() <= end <= design@.len(),
            forall|m: int| 0 <= m < i ==> design@[start + m] == towel@[m],
        decreases towel@.len() - i,
    {
        if design[start + i] != towel[i] {
            proof {
                assert(design@.subrange(start as int, end as int)[i as int] != towel@[i as int]);
            }
            return false;
        }
        i += 1;
    }
    proof {
        assert(design@.subrange(start as int, end as int) =~= towel@);
    }
    true
}

/// Whether the design from `index` on can be tiled by the towels.
pub fn check_design(design: &Vec<u8>, towels: &Vec<Vec<u8>>, index: usize) -> (r: bool)
    requires
        index <= design@.len(),
        towels_nonempty(towels@.map_values(|t: Vec<u8>| t@)),
    ensures
        r == can_compose(design@, towels@.map_values(|t: Vec<u8>| t@), index as int),
    decreases design@.len() - index,
{
    let ghost gt = towels@.map_values(|t: Vec<u8>| t@);
    if index == design.len() {
        return true;
    }
    let mut k: usize = 0;
    while k < towels.len()
        invariant
            k <= towels@.len(),
            index < design@.len(),
            gt == towels@.map_values(|t: Vec<u8>| t@),
            towels_nonempty(gt),
            forall|t: int|
                0 <= t < k ==> !((#[trigger] gt[t]).len() >= 1 && index + gt[t].len()
                    <= design@.len() && design@.subrange(index as int, index + gt[t].len())
                    == gt[t] && can_compose(design@, gt, index + gt[t].len())),
        decreases towels@.len() - k,
    {
        let towel = &towels[k];
        proof {
            assert(gt[k as int] == towel@);
        }
        if towel.len() <= design.len() - index {
            let end = index + towel.len();
            if towel_matches(design, end, towel) {
                proof {
                    assert(design@.subrange(end - towel@.len(), end as int) =~= design@.subrange(
                        index as int,
                        index + towel@.len(),
                    ));
                }
                if check_design(design, towels, end) {
                    return true;
                }
            }
        }
        k += 1;
    }
    false
}

/// How many designs among lines 2.. can be composed.
pub open spec fn composable_count(ls: Seq<Seq<u8>>, towels: Seq<Seq<u8>>, n: int) -> int
    decreases n,
{
    if n <= 2 {
        0
    } else {
        composable_count(ls, towels, n - 1) + if can_compose(ls[n - 1], towels, 0) {
            1int
        } else {
            0int
        }
    }
}

/// The summed tiling counts of the designs.
pub open spec fn ways_total(ls: Seq<Seq<u8>>, towels: Seq<Seq<u8>>, n: int) -> int
    decreases n,
{
    if n <= 2 {
        0
    } else {
        ways_total(ls, towels, n - 1) + ways(ls[n - 1], towels, ls[n - 1].len() as int)
    }
}

pub open spec fn day19_input_ok(s: Seq<u8>) -> bool {
    &&& lines_of(s).len() >= 1
    &&& towels_nonempty(towels_of(lines_of(s)[0]))
}

/// Every prefix of `design` has a tiling count a machine word can hold.
pub open spec fn design_ways_bounded(design: Seq<u8>, towels: Seq<Seq<u8>>) -> bool {
    forall|j: int|
        0 <= j <= design.len() ==> 0 <= #[trigger] ways(design, towels, j) <= u64::MAX
}

/// The counting guarantee holds under this bound; the counter itself tops
/// out instead of overflowing when an input exceeds it.
pub open spec fn day19_ways_bounded(s: Seq<u8>) -> bool {
    forall|i: int|
        2 <= i < lines_of(s).len() ==> design_ways_bounded(
            #[trigger] lines_of(s)[i],
            towels_of(lines_of(s)[0]),
        )
}

/// Parses the towel list from the first line.
fn parse_towels(line: &Vec<u8>) -> (r: Vec<Vec<u8>>)
    ensures
        r@.map_values(|t: Vec<u8>| t@) == towels_of(line@),
{
    let fields = split_bytes(line, 44);
    let mut r: Vec<Vec<u8>> = Vec::new();
    let mut i: usize = 0;
    while i < fields.len()
        invariant
            i <= fields@.len() == split_all(line@, 44).len(),
            forall|j: int|
                0 <= j < fields@.len() ==> (#[trigger] fields@[j])@ == split_all(line@, 44)[j],
            r@.len() == i,
            forall|j: int|
                0 <= j < i ==> (#[trigger] r@[j])@ == strip_space(split_all(line@, 44)[j]),
        decreases fields@.len() - i,
    {
        let f = &fields[i];
        let mut t: Vec<u8> = Vec::new();
        let mut m: usize = if f.len() > 0 && f[0] == 32 {
            1
        } else {
            0
        };
        let start = m;
        while m < f.len()
            invariant
                start <= m <= f@.len(),
                t@ == f@.subrange(start as int, m as int),
            decreases f@.len() - m,
        {
            t.push(f[m]);
            proof {
                assert(f@.subrange(start as int, m + 1) =~= f@.subrange(start as int, m as int).push(
                    f@[m as int],
                ));
            }
            m += 1;
        }
        proof {
            if f@.len() > 0 && f@[0] == 32 {
                assert(t@ =~= strip_space(f@));
            } else {
                assert(t@ =~= strip_space(f@));
            }
        }
        r.push(t);
        i += 1;
    }
    proof {
        assert(r@.map_values(|t: Vec<u8>| t@) =~= towels_of(line@));
    }
    r
}

/// How many designs can be composed from the towels.
pub fn part1(input: &String) -> (r: String)
    requires
        input.is_ascii(),
        input@.len() <= 100000000,
        day19_input_ok(ascii_bytes(input@)),
    ensures
        r@ == dec_chars_u(
            composable_count(
                lines_of(ascii_bytes(input@)),
                towels_of(lines_of(ascii_bytes(input@))[0]),
                lines_of(ascii_bytes(input@)).len() as int,
            ),
        ),
{
    let bytes = to_bytes(input.as_str());
    let ls = lines(&bytes);
    let ghost lsv = lines_of(bytes@);
    let ghost gt = towels_of(lsv[0]);
    let towels = parse_towels(&ls[0]);
    let mut valid_count: u64 = 0;
    let mut i: usize = 2;
    proof {
        crate::text::lemma_lines_count(bytes@);
    }
    while i < ls.len()
        invariant
            2 <= i <= ls@.len() + 2,
            i <= ls@.len() || i == 2,
            ls@.len() == lsv.len() <= 100000001,
            forall|j: int| 0 <= j < ls@.len() ==> (#[trigger] ls@[j])@ == lsv[j],
            towels@.map_values(|t: Vec<u8>| t@) == gt,
            towels_nonempty(gt),
            valid_count == composable_count(lsv, gt, i as int),
            valid_count <= i,
        decreases ls@.len() - i,
    {
        if check_design(&ls[i], &towels, 0) {
            valid_count += 1;
        }
        i += 1;
    }
    proof {
        if lsv.len() < 2 {
            assert(composable_count(lsv, gt, lsv.len() as int) == 0);
            assert(valid_count == 0);
        }
    }
    u64_to_string(valid_count)
}

/// The tiling counts of one design, for every prefix length.
fn count_ways(design: &Vec<u8>, towels: &Vec<Vec<u8>>) -> (r: u64)
    requires
        design@.len() <= 100000000,
        towels_nonempty(towel_views(towels@)),
    ensures
        design_ways_bounded(design@, towel_views(towels@)) ==> r == ways(
            design@,
            towel_views(towels@),
            design@.len() as int,
        ),
{
    let ghost gt = towel_views(towels@);
    let mut table: Vec<u64> = Vec::new();
    table.push(1);
    let mut j: usize = 1;
    while j <= design.len()
        invariant
            1 <= j <= design@.len() + 1,
            gt == towels@.map_values(|t: Vec<u8>| t@),
            towels_nonempty(gt),
            table@.len() == j,
            design_ways_bounded(design@, gt) ==> forall|m: int|
                0 <= m < j ==> #[trigger] table@[m] == ways(design@, gt, m),
        decreases design@.len() + 1 - j,
    {
        let mut c: u64 = 0;
        let mut k: usize = 0;
        while k < towels.len()
            invariant
                k <= towels@.len(),
                1 <= j <= design@.len(),
                gt == towels@.map_values(|t: Vec<u8>| t@),
                towels_nonempty(gt),
                table@.len() == j,
                design_ways_bounded(design@, gt) ==> forall|m: int|
                    0 <= m < j ==> #[trigger] table@[m] == ways(design@, gt, m),
                design_ways_bounded(design@, gt) ==> c == ways_from(design@, gt, j as int, k as int),
            decreases towels@.len() - k,
        {
            let towel = &towels[k];
            proof {
                assert(gt[k as int] == towel@);
                if design_ways_bounded(design@, gt) {
                    lemma_ways_from_mono(design@, gt, j as int, k + 1, gt.len() as int);
                    lemma_ways_from_nonneg(design@, gt, j as int, k as int);
                }
            }
            if towel_matches(design, j, towel) {
                proof {
                    if design_ways_bounded(design@, gt) {
                        lemma_ways_nonneg(design@, gt, j - towel@.len());
                        assert(ways_from(design@, gt, j as int, k + 1) == ways_from(
                            design@,
                            gt,
                            j as int,
                            k as int,
                        ) + ways(design@, gt, j - towel@.len()));
                        assert(ways(design@, gt, j as int) == ways_from(
                            design@,
                            gt,
                            j as int,
                            gt.len() as int,
                        ));
                        assert(ways(design@, gt, j as int) <= u64::MAX);
                        assert(table@[j - towel@.len()] == ways(design@, gt, j - towel@.len()));
                        assert(c + table@[j - towel@.len()] <= u64::MAX);
                    }
                }
                let t = table[j - towel.len()];
                c = if c <= u64::MAX - t {
                    c + t
                } else {
                    u64::MAX
                };
            } else {
                proof {
                    assert(ways_from(design@, gt, j as int, k + 1) == ways_from(
                        design@,
                        gt,
                        j as int,
                        k as int,
                    ));
                }
            }
            k += 1;
        }
        table.push(c);
        j += 1;
    }
    table[design.len()]
}

/// The total number of distinct towel arrangements over all designs; the
/// stated value holds whenever every per-design count fits a machine word,
/// which real inputs always do.
pub fn part2(input: &String) -> (r: String)
    requires
        input.is_ascii(),
        input@.len() <= 100000000,
        day19_input_ok(ascii_bytes(input@)),
    ensures
        day19_ways_bounded(ascii_bytes(input@)) ==> r@ == dec_chars_u(
            ways_total(
                lines_of(ascii_bytes(input@)),
                towels_of(lines_of(ascii_bytes(input@))[0]),
                lines_of(ascii_bytes(input@)).len() as int,
            ),
        ),
{
    let bytes = to_bytes(input.as_str());
    let ls = lines(&bytes);
    let ghost lsv = lines_of(bytes@);
    let ghost gt = towels_of(lsv[0]);
    let towels = parse_towels(&ls[0]);
    let mut total: u128 = 0;
    let mut i: usize = 2;
    proof {
        crate::text::lemma_lines_count(bytes@);
    }
    while i < ls.len()
        invariant
            2 <= i <= ls@.len() + 2,
            i <= ls@.len() || i == 2,
            ls@.len() == lsv.len() <= 100000001,
            forall|j: int| 0 <= j < ls@.len() ==> (#[trigger] ls@[j])@ == lsv[j],
            towels@.map_values(|t: Vec<u8>| t@) == gt,
            towels_nonempty(gt),
            day19_ways_bounded(bytes@) ==> total == ways_total(lsv, gt, i as int),
            total <= i * 18446744073709551615,
        decreases ls@.len() - i,
    {
        proof {
            assert((i + 1) * 18446744073709551615 == i * 18446744073709551615
                + 18446744073709551615) by (nonlinear_arith);
            assert((i + 1) * 18446744073709551615 <= 100000002int * 18446744073709551615)
                by (nonlinear_arith)
                requires
                    0 <= i < 100000002,
            ;
        }
        proof {
            crate::text::lemma_line_lens(bytes@);
            if day19_ways_bounded(bytes@) {
                assert(design_ways_bounded(lsv[i as int], gt));
            }
        }
        let w = count_ways(&ls[i], &towels);
        total = total + w as u128;
        i += 1;
    }
    proof {
        if lsv.len() < 2 {
            assert(ways_total(lsv, gt, lsv.len() as int) == 0);
        }
    }
    u128_to_string(total)
}

} // verus!