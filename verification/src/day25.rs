//! Lock and key schematics: seven-line blocks of pin columns; a key fits a
//! lock when no column's combined height exceeds the space available.
use vstd::prelude::*;

use crate::text::{ascii_bytes, dec_chars_u, lines, lines_of, to_bytes, u64_to_string};

verus! {

pub struct Key {
    pub heights: Vec<i32>,
}

pub struct Lock {
    pub heights: Vec<i32>,
}

pub struct Schematics {
    pub keys: Vec<Key>,
    pub locks: Vec<Lock>,
}

/// 1 when the cell holds a pin (`#`).
pub open spec fn pin(b: u8) -> int {
    if b == 35 {
        1
    } else {
        0
    }
}

/// The pin count of column `c` in the block starting at line `base`.
pub open spec fn col_count(ls: Seq<Seq<u8>>, base: int, c: int) -> int {
    pin(ls[base + 1][c]) + pin(ls[base + 2][c]) + pin(ls[base + 3][c]) + pin(ls[base + 4][c])
        + pin(ls[base + 5][c])
}

/// Whether block `b` is a lock: its top row is solid.
pub open spec fn is_lock(ls: Seq<Seq<u8>>, b: int) -> bool {
    ls[8 * b][0] == 35
}

pub open spec fn block_heights(ls: Seq<Seq<u8>>, b: int) -> Seq<i32> {
    Seq::new(5, |c: int| col_count(ls, 8 * b, c) as i32)
}

/// The lock blocks' heights, in input order.
pub open spec fn locks_of(ls: Seq<Seq<u8>>, nb: int) -> Seq<Seq<i32>>
    decreases nb,
{
    if nb <= 0 {
        Seq::<Seq<i32>>::empty()
    } else {
        let p = locks_of(ls, nb - 1);
        if is_lock(ls, nb - 1) {
            p.push(block_heights(ls, nb - 1))
        } else {
            p
        }
    }
}

/// The key blocks' heights, in input order.
pub open spec fn keys_of(ls: Seq<Seq<u8>>, nb: int) -> Seq<Seq<i32>>
    decreases nb,
{
    if nb <= 0 {
        Seq::<Seq<i32>>::empty()
    } else {
        let p = keys_of(ls, nb - 1);
        if is_lock(ls, nb - 1) {
            p
        } else {
            p.push(block_heights(ls, nb - 1))
        }
    }
}

/// A key fits a lock when every column's pins fit the space.
pub open spec fn fits(lock: Seq<i32>, key: Seq<i32>) -> bool {
    forall|c: int| 0 <= c < 5 ==> #[trigger] lock[c] + key[c] <= 5
}

pub open spec fn fits_in_lock(lock: Seq<i32>, keys: Seq<Seq<i32>>, n: int) -> int
    decreases n,
{
    if n <= 0 {
        0
    } else {
        fits_in_lock(lock, keys, n - 1) + if fits(lock, keys[n - 1]) {
            1int
        } else {
            0int
        }
    }
}

/// How many lock/key pairs fit.
pub open spec fn fit_count(locks: Seq<Seq<i32>>, keys: Seq<Seq<i32>>, n: int) -> int
    decreases n,
{
    if n <= 0 {
        0
    } else {
        fit_count(locks, keys, n - 1) + fits_in_lock(locks[n - 1], keys, keys.len() as int)
    }
}

/// Seven content lines per block, each five columns wide, with one separator
/// line between blocks.
pub open spec fn day25_input_ok(s: Seq<u8>) -> bool {
    let ls = lines_of(s);
    &&& ls.len() as int % 8 == 7
    &&& forall|i: int| 0 <= i < ls.len() && i % 8 < 7 ==> (#[trigger] ls[i]).len() == 5
}

pub open spec fn block_count(s: Seq<u8>) -> int {
    (lines_of(s).len() as int + 1) / 8
}

/// Parses every schematic block into its five column heights.
pub fn get_schematics(input: &String) -> (r: Schematics)
    requires
        input.is_ascii(),
        input@.len() <= 100000000,
        day25_input_ok(ascii_bytes(input@)),
    ensures
        r.locks@.len() == locks_of(lines_of(ascii_bytes(input@)), block_count(ascii_bytes(input@))).len(),
        forall|j: int|
            0 <= j < r.locks@.len() ==> (#[trigger] r.locks@[j]).heights@ == locks_of(
                lines_of(ascii_bytes(input@)),
                block_count(ascii_bytes(input@)),
            )[j],
        r.keys@.len() == keys_of(lines_of(ascii_bytes(input@)), block_count(ascii_bytes(input@))).len(),
        forall|j: int|
            0 <= j < r.keys@.len() ==> (#[trigger] r.keys@[j]).heights@ == keys_of(
                lines_of(ascii_bytes(input@)),
                block_count(ascii_bytes(input@)),
            )[j],
        forall|j: int| 0 <= j < r.locks@.len() ==> (#[trigger] r.locks@[j]).heights@.len() == 5,
        forall|j: int| 0 <= j < r.keys@.len() ==> (#[trigger] r.keys@[j]).heights@.len() == 5,
        forall|j: int, c: int|
            0 <= j < r.locks@.len() && 0 <= c < 5 ==> 0 <= #[trigger] r.locks@[j].heights@[c] <= 5,
        forall|j: int, c: int|
            0 <= j < r.keys@.len() && 0 <= c < 5 ==> 0 <= #[trigger] r.keys@[j].heights@[c] <= 5,
{
    let bytes = to_bytes(input.as_str());
    let ls = lines(&bytes);
    let ghost lsv = lines_of(bytes@);
    let ghost nb = block_count(bytes@);
    let mut schematics = Schematics { keys: vec![], locks: vec![] };
    let mut b: usize = 0;
    proof {
        assert(8 * nb == lsv.len() + 1);
        crate::text::lemma_lines_count(bytes@);
    }
    let nb_exec = (ls.len() + 1) / 8;
    assert(nb_exec == nb);
    while b < nb_exec
        invariant
            0 <= b <= nb == nb_exec,
            8 * nb == lsv.len() + 1,
            ls@.len() == lsv.len(),
            forall|j: int| 0 <= j < ls@.len() ==> (#[trigger] ls@[j])@ == lsv[j],
            forall|i: int| 0 <= i < lsv.len() && i % 8 < 7 ==> (#[trigger] lsv[i]).len() == 5,
            schematics.locks@.len() == locks_of(lsv, b as int).len(),
            forall|j: int|
                0 <= j < schematics.locks@.len() ==> (#[trigger] schematics.locks@[j]).heights@
                    == locks_of(lsv, b as int)[j],
            schematics.keys@.len() == keys_of(lsv, b as int).len(),
            forall|j: int|
                0 <= j < schematics.keys@.len() ==> (#[trigger] schematics.keys@[j]).heights@
                    == keys_of(lsv, b as int)[j],
            forall|j: int|
                0 <= j < schematics.locks@.len() ==> (#[trigger] schematics.locks@[j]).heights@.len()
                    == 5,
            forall|j: int|
                0 <= j < schematics.keys@.len() ==> (#[trigger] schematics.keys@[j]).heights@.len()
                    == 5,
            forall|j: int, c: int|
                0 <= j < schematics.locks@.len() && 0 <= c < 5 ==> 0
                    <= #[trigger] schematics.locks@[j].heights@[c] <= 5,
            forall|j: int, c: int|
                0 <= j < schematics.keys@.len() && 0 <= c < 5 ==> 0
                    <= #[trigger] schematics.keys@[j].heights@[c] <= 5,
        decreases nb_exec - b,
    {
        let base = 8 * b;
        let mut heights: Vec<i32> = Vec::new();
        let mut c: usize = 0;
        proof {
            assert((base as int) % 8 == 0 && base + 6 < lsv.len());
            assert(forall|k: int| 0 <= k < 7 ==> #[trigger] ((base + k) % 8) == k);
        }
        while c < 5
            invariant
                c <= 5,
                base == 8 * b,
                8 * nb == lsv.len() + 1,
                b < nb,
                ls@.len() == lsv.len(),
                forall|j: int| 0 <= j < ls@.len() ==> (#[trigger] ls@[j])@ == lsv[j],
                forall|i: int| 0 <= i < lsv.len() && i % 8 < 7 ==> (#[trigger] lsv[i]).len() == 5,
                heights@.len() == c,
                forall|k: int|
                    0 <= k < c ==> #[trigger] heights@[k] == col_count(lsv, base as int, k),
                forall|k: int| 0 <= k < c ==> 0 <= #[trigger] heights@[k] <= 5,
            decreases 5 - c,
        {
            proof {
                assert(forall|k: int| 1 <= k <= 5 ==> #[trigger] ((base + k) % 8) == k);
            }
            let mut h: i32 = 0;
            if ls[base + 1][c] == 35 {
                h += 1;
            }
            if ls[base + 2][c] == 35 {
                h += 1;
            }
            if ls[base + 3][c] == 35 {
                h += 1;
            }
            if ls[base + 4][c] == 35 {
                h += 1;
            }
            if ls[base + 5][c] == 35 {
                h += 1;
            }
            heights.push(h);
            c += 1;
        }
        proof {
            assert(heights@ =~= block_heights(lsv, b as int));
            assert((base as int) % 8 == 0);
        }
        if ls[base].len() > 0 && ls[base][0] == 35 {
            schematics.locks.push(Lock { heights });
        } else {
            proof {
                assert(lsv[base as int].len() == 5);
                assert(!is_lock(lsv, b as int));
            }
            schematics.keys.push(Key { heights });
        }
        b += 1;
    }
    schematics
}

/// How many key/lock pairs fit together.
pub fn part1(input: &String) -> (r: String)
    requires
        input.is_ascii(),
        input@.len() <= 100000000,
        day25_input_ok(ascii_bytes(input@)),
    ensures
        r@ == dec_chars_u(
            fit_count(
                locks_of(lines_of(ascii_bytes(input@)), block_count(ascii_bytes(input@))),
                keys_of(lines_of(ascii_bytes(input@)), block_count(ascii_bytes(input@))),
                locks_of(lines_of(ascii_bytes(input@)), block_count(ascii_bytes(input@))).len() as int,
            ),
        ),
{
    let schematics = get_schematics(input);
    let ghost glocks = locks_of(lines_of(ascii_bytes(input@)), block_count(ascii_bytes(input@)));
    let ghost gkeys = keys_of(lines_of(ascii_bytes(input@)), block_count(ascii_bytes(input@)));
    let mut victory_count: u64 = 0;
    let mut li: usize = 0;
    proof {
        crate::text::lemma_lines_count(ascii_bytes(input@));
        lemma_sizes(glocks, gkeys, lines_of(ascii_bytes(input@)), block_count(ascii_bytes(input@)));
    }
    while li < schematics.locks.len()
        invariant
            li <= schematics.locks@.len() == glocks.len(),
            schematics.keys@.len() == gkeys.len(),
            glocks.len() + gkeys.len() <= 100000000,
            forall|j: int|
                0 <= j < glocks.len() ==> (#[trigger] schematics.locks@[j]).heights@ == glocks[j],
            forall|j: int|
                0 <= j < gkeys.len() ==> (#[trigger] schematics.keys@[j]).heights@ == gkeys[j],
            forall|j: int| 0 <= j < glocks.len() ==> (#[trigger] schematics.locks@[j]).heights@.len() == 5,
            forall|j: int| 0 <= j < gkeys.len() ==> (#[trigger] schematics.keys@[j]).heights@.len() == 5,
            forall|j: int, c: int|
                0 <= j < glocks.len() && 0 <= c < 5 ==> 0
                    <= #[trigger] schematics.locks@[j].heights@[c] <= 5,
            forall|j: int, c: int|
                0 <= j < gkeys.len() && 0 <= c < 5 ==> 0
                    <= #[trigger] schematics.keys@[j].heights@[c] <= 5,
            victory_count == fit_count(glocks, gkeys, li as int),
            victory_count <= li * gkeys.len(),
        decreases glocks.len() - li,
    {
        let mut ki: usize = 0;
        let ghost lock = glocks[li as int];
        while ki < schematics.keys.len()
            invariant
                ki <= gkeys.len(),
                li < glocks.len(),
                lock == glocks[li as int],
                schematics.locks@.len() == glocks.len(),
                schematics.keys@.len() == gkeys.len(),
                glocks.len() + gkeys.len() <= 100000000,
                forall|j: int|
                    0 <= j < glocks.len() ==> (#[trigger] schematics.locks@[j]).heights@
                        == glocks[j],
                forall|j: int|
                    0 <= j < gkeys.len() ==> (#[trigger] schematics.keys@[j]).heights@ == gkeys[j],
                forall|j: int|
                    0 <= j < glocks.len() ==> (#[trigger] schematics.locks@[j]).heights@.len() == 5,
                forall|j: int|
                    0 <= j < gkeys.len() ==> (#[trigger] schematics.keys@[j]).heights@.len() == 5,
                forall|j: int, c: int|
                    0 <= j < glocks.len() && 0 <= c < 5 ==> 0
                        <= #[trigger] schematics.locks@[j].heights@[c] <= 5,
                forall|j: int, c: int|
                    0 <= j < gkeys.len() && 0 <= c < 5 ==> 0
                        <= #[trigger] schematics.keys@[j].heights@[c] <= 5,
                victory_count == fit_count(glocks, gkeys, li as int) + fits_in_lock(
                    lock,
                    gkeys,
                    ki as int,
                ),
                victory_count <= li * gkeys.len() + ki,
            decreases gkeys.len() - ki,
        {
            let mut the_key_fits = true;
            let mut i: usize = 0;
            while i < 5
                invariant
                    i <= 5,
                    li < glocks.len(),
                    ki < gkeys.len(),
                    lock == glocks[li as int],
                    schematics.locks@.len() == glocks.len(),
                    schematics.keys@.len() == gkeys.len(),
                    (#[trigger] schematics.locks@[li as int]).heights@ == glocks[li as int],
                    schematics.keys@[ki as int].heights@ == gkeys[ki as int],
                    schematics.locks@[li as int].heights@.len() == 5,
                    schematics.keys@[ki as int].heights@.len() == 5,
                    the_key_fits == (forall|c: int|
                        0 <= c < i ==> #[trigger] lock[c] + gkeys[ki as int][c] <= 5),
                decreases 5 - i,
            {
                if schematics.locks[li].heights[i] + schematics.keys[ki].heights[i] > 5 {
                    the_key_fits = false;
                    proof {
                        assert(lock[i as int] + gkeys[ki as int][i as int] > 5);
                    }
                }
                i += 1;
            }
            proof {
                assert(the_key_fits == fits(lock, gkeys[ki as int]));
                assert((li + 1) * gkeys.len() == li * gkeys.len() + gkeys.len())
                    by (nonlinear_arith);
                assert(li * gkeys.len() <= 100000000int * 100000000) by (nonlinear_arith)
                    requires
                        0 <= li <= 100000000,
                        0 <= gkeys.len() <= 100000000,
                ;
            }
            if the_key_fits {
                victory_count += 1;
            }
            ki += 1;
        }
        proof {
            assert((li + 1) * gkeys.len() == li * gkeys.len() + gkeys.len()) by (nonlinear_arith);
        }
        li += 1;
    }
    u64_to_string(victory_count)
}

proof fn lemma_sizes(locks: Seq<Seq<i32>>, keys: Seq<Seq<i32>>, ls: Seq<Seq<u8>>, nb: int)
    requires
        locks == locks_of(ls, nb),
        keys == keys_of(ls, nb),
        nb >= 0,
    ensures
        locks.len() + keys.len() == nb,
    decreases nb,
{
    if nb > 0 {
        lemma_sizes(locks_of(ls, nb - 1), keys_of(ls, nb - 1), ls, nb - 1);
    }
}

} // verus!