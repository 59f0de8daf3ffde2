//! Hiking trails on a height map: from each trailhead (height zero) the
//! score counts reachable summits (height nine) and the rating counts the
//! distinct paths, each climbing by exactly one per step.
use vstd::prelude::*;

use crate::text::{ascii_bytes, lines, lines_of, to_bytes, u128_to_string};

verus! {

/// The digit value of a map cell character.
pub fn char_to_int(c: u8) -> (r: i32)
    ensures
        r == c - 48 || (c < 48 && r == 0),
{
    if c >= 48 {
        (c - 48) as i32
    } else {
        0
    }
}

pub struct Position {
    pub row: usize,
    pub col: usize,
}

/// The zero-height cells among the first `k` cells in row-major order.
pub open spec fn trail_heads_of(map: Seq<Vec<i32>>, k: int) -> Seq<Position>
    decreases k,
{
    if k <= 0 {
        Seq::<Position>::empty()
    } else {
        let p = trail_heads_of(map, k - 1);
        let row = (k - 1) / map.len() as int;
        let col = (k - 1) % map.len() as int;
        if map[row]@[col] == 0 {
            p.push(Position { row: row as usize, col: col as usize })
        } else {
            p
        }
    }
}

pub open spec fn square_map(map: Seq<Vec<i32>>) -> bool {
    map.len() <= 10000 && forall|i: int|
        0 <= i < map.len() ==> (#[trigger] map[i])@.len() == map.len()
}

/// Exactly the cells of height zero, in row-major scan order.
pub fn get_trail_heads(map: &Vec<Vec<i32>>) -> (r: Vec<Position>)
    requires
        square_map(map@),
    ensures
        r@ == trail_heads_of(map@, (map@.len() * map@.len()) as int),
        forall|i: int|
            0 <= i < r@.len() ==> (#[trigger] r@[i]).row < map@.len() && r@[i].col < map@.len(),
{
    let n = map.len();
    let mut trail_heads: Vec<Position> = Vec::new();
    let mut row: usize = 0;
    proof {
        assert(trail_heads@ =~= trail_heads_of(map@, 0));
    }
    while row < n
        invariant
            row <= n == map@.len(),
            square_map(map@),
            trail_heads@ == trail_heads_of(map@, (row * n) as int),
            forall|i: int|
                0 <= i < trail_heads@.len() ==> (#[trigger] trail_heads@[i]).row < map@.len()
                    && trail_heads@[i].col < map@.len(),
        decreases map@.len() - row,
    {
        let mut col: usize = 0;
        while col < n
            invariant
                row < n == map@.len(),
                col <= n,
                square_map(map@),
                trail_heads@ == trail_heads_of(map@, (row * n + col) as int),
                forall|i: int|
                    0 <= i < trail_heads@.len() ==> (#[trigger] trail_heads@[i]).row < map@.len()
                        && trail_heads@[i].col < map@.len(),
            decreases map@.len() - col,
        {
            proof {
                assert(row * n + col >= 0) by (nonlinear_arith)
                    requires
                        row >= 0,
                        n >= 0,
                        col >= 0,
                ;
                vstd::arithmetic::div_mod::lemma_fundamental_div_mod_converse(
                    row * n + col,
                    n as int,
                    row as int,
                    col as int,
                );
            }
            if map[row][col] == 0 {
                trail_heads.push(Position { row, col });
            }
            col += 1;
        }
        proof {
            assert(row * n + n == (row + 1) * n) by (nonlinear_arith);
        }
        row += 1;
    }
    proof {
        assert(row * n == map@.len() * map@.len()) by (nonlinear_arith)
            requires
                row == n,
                n == map@.len(),
        ;
    }
    trail_heads
}

pub open spec fn memo_wf<T>(memo: Seq<Vec<T>>, n: int) -> bool {
    memo.len() == n && forall|i: int| 0 <= i < memo.len() ==> (#[trigger] memo[i])@.len() == n
}

/// The values of a sequence as a set.
pub open spec fn set_of(s: Seq<i32>) -> Set<i32>
    decreases s.len(),
{
    if s.len() == 0 {
        Set::<i32>::empty()
    } else {
        set_of(s.drop_last()).insert(s.last())
    }
}

/// No value appears twice.
pub open spec fn distinct_seq(s: Seq<i32>) -> bool {
    forall|i: int, j: int| 0 <= i < j < s.len() ==> s[i] != s[j]
}

/// A sequence's set holds exactly its values.
pub proof fn lemma_set_of_contains(s: Seq<i32>, x: i32)
    ensures
        set_of(s).contains(x) <==> s.contains(x),
    decreases s.len(),
{
    if s.len() > 0 {
        lemma_set_of_contains(s.drop_last(), x);
        if s.contains(x) {
            let i = choose|i: int| 0 <= i < s.len() && s[i] == x;
            if i < s.len() - 1 {
                assert(s.drop_last()[i] == x);
            }
        }
        if s.drop_last().contains(x) {
            let i = choose|i: int| 0 <= i < s.drop_last().len() && s.drop_last()[i] == x;
            assert(s[i] == x);
        }
    }
}

/// The summits reachable from `(row, col)` at `height`, each encoded as one
/// hundred times its row plus its column: the cell itself at the summit
/// height, else everything reachable over the four neighbours one higher.
pub open spec fn summits_from(map: Seq<Vec<i32>>, row: int, col: int, height: int) -> Set<i32>
    decreases 9 - height,
{
    if height == 9 {
        Set::<i32>::empty().insert(((row * 100 + col) as i32))
    } else if !(0 <= height < 9) {
        Set::<i32>::empty()
    } else {
        (if row > 0 && map[row - 1]@[col] == height + 1 {
            summits_from(map, row - 1, col, height + 1)
        } else {
            Set::<i32>::empty()
        }).union(
            (if col > 0 && map[row]@[col - 1] == height + 1 {
                summits_from(map, row, col - 1, height + 1)
            } else {
                Set::<i32>::empty()
            }),
        ).union(
            (if row + 1 < map.len() && map[row + 1]@[col] == height + 1 {
                summits_from(map, row + 1, col, height + 1)
            } else {
                Set::<i32>::empty()
            }),
        ).union(
            (if col + 1 < map.len() && map[row]@[col + 1] == height + 1 {
                summits_from(map, row, col + 1, height + 1)
            } else {
                Set::<i32>::empty()
            }),
        )
    }
}

/// Every settled memo entry lists, without repeats, exactly the summits
/// reachable from its own cell.
pub open spec fn dest_memo_ok(memo: Seq<Vec<Option<Vec<i32>>>>, map: Seq<Vec<i32>>) -> bool {
    forall|r: int, c: int|
        0 <= r < map.len() && 0 <= c < map.len() ==> ((#[trigger] memo[r]@[c]) matches Some(v)
            ==> distinct_seq(v@) && set_of(v@) == summits_from(map, r, c, map[r]@[c] as int))
}

/// Inserts `value` into the set when it is new.
fn insert_unique(set: &mut Vec<i32>, value: i32)
    ensures
        old(set)@.len() <= final(set)@.len() <= old(set)@.len() + 1,
        final(set)@ == (if old(set)@.contains(value) {
            old(set)@
        } else {
            old(set)@.push(value)
        }),
{
    let mut i: usize = 0;
    while i < set.len()
        invariant
            i <= set@.len(),
            set@ == old(set)@,
            forall|j: int| 0 <= j < i ==> set@[j] != value,
        decreases set@.len() - i,
    {
        if set[i] == value {
            return ;
        }
        i += 1;
    }
    proof {
        if set@.contains(value) {
            let j = choose|j: int| 0 <= j < set@.len() && set@[j] == value;
            assert(set@[j] == value);
        }
    }
    set.push(value);
}

/// Folds every value of `more` into `destinations`, keeping it free of
/// repeats.
fn merge_unique(destinations: &mut Vec<i32>, more: &Vec<i32>)
    requires
        distinct_seq(old(destinations)@),
    ensures
        distinct_seq(final(destinations)@),
        set_of(final(destinations)@) == set_of(old(destinations)@).union(set_of(more@)),
{
    let ghost base = set_of(old(destinations)@);
    let mut k: usize = 0;
    proof {
        assert(more@.take(0) =~= Seq::<i32>::empty());
        assert(set_of(destinations@) =~= base.union(set_of(more@.take(0))));
    }
    while k < more.len()
        invariant
            k <= more@.len(),
            distinct_seq(destinations@),
            set_of(destinations@) == base.union(set_of(more@.take(k as int))),
        decreases more@.len() - k,
    {
        let ghost before = destinations@;
        let value = more[k];
        insert_unique(destinations, value);
        proof {
            assert(more@.take(k as int + 1).drop_last() =~= more@.take(k as int));
            assert(more@.take(k as int + 1).last() == more@[k as int]);
            lemma_set_of_contains(before, value);
            if before.contains(value) {
                assert(set_of(destinations@) =~= base.union(set_of(more@.take(k as int + 1))));
            } else {
                assert(destinations@.drop_last() =~= before);
                assert(set_of(destinations@) =~= base.union(set_of(more@.take(k as int + 1))));
                assert forall|i1: int, j1: int|
                    0 <= i1 < j1 < destinations@.len() implies destinations@[i1]
                    != destinations@[j1] by {
                    if j1 == destinations@.len() - 1 {
                        assert(before[i1] == destinations@[i1]);
                        assert(!before.contains(value));
                    }
                }
            }
        }
        k += 1;
    }
    proof {
        assert(more@.take(more@.len() as int) =~= more@);
    }
}

/// The distinct summits reachable from `(row, col)` at `height`, memoised
/// per cell.
#[verifier::rlimit(100)]
pub fn get_destinations(
    map: &Vec<Vec<i32>>,
    search_map: &mut Vec<Vec<Option<Vec<i32>>>>,
    row: usize,
    col: usize,
    height: i32,
) -> (r: Vec<i32>)
    requires
        square_map(map@),
        memo_wf(old(search_map)@, map@.len() as int),
        dest_memo_ok(old(search_map)@, map@),
        row < map@.len(),
        col < map@.len(),
        0 <= height <= 9,
        map@[row as int]@[col as int] == height,
    ensures
        memo_wf(final(search_map)@, map@.len() as int),
        dest_memo_ok(final(search_map)@, map@),
        distinct_seq(r@),
        set_of(r@) == summits_from(map@, row as int, col as int, height as int),
    decreases 9 - height,
{
    let n = map.len();
    if height == 9 {
        let mut single: Vec<i32> = Vec::new();
        proof {
            assert(row * 100 <= 10000 * 100) by (nonlinear_arith)
                requires
                    0 <= row <= 10000,
            ;
        }
        single.push((row * 100 + col) as i32);
        proof {
            assert(single@.drop_last() =~= Seq::<i32>::empty());
            assert(set_of(single@.drop_last()) =~= Set::<i32>::empty());
            assert(single@.last() == ((row as int * 100 + col as int) as i32));
            assert(set_of(single@) == set_of(single@.drop_last()).insert(single@.last()));
            assert(set_of(single@) =~= summits_from(map@, row as int, col as int, 9));
        }
        return single;
    }
    match &search_map[row][col] {
        Some(destinations) => {
            return destinations.clone();
        },
        None => {},
    }
    let mut destinations: Vec<i32> = Vec::new();
    proof {
        assert(set_of(destinations@) =~= Set::<i32>::empty());
    }
    let ghost s1 = if row as int > 0 && map@[row as int - 1]@[col as int] == height + 1 {
        summits_from(map@, row as int - 1, col as int, height as int + 1)
    } else {
        Set::<i32>::empty()
    };
    let ghost s2 = if col as int > 0 && map@[row as int]@[col as int - 1] == height + 1 {
        summits_from(map@, row as int, col as int - 1, height as int + 1)
    } else {
        Set::<i32>::empty()
    };
    let ghost s3 = if row as int + 1 < map@.len() && map@[row as int + 1]@[col as int] == height
        + 1 {
        summits_from(map@, row as int + 1, col as int, height as int + 1)
    } else {
        Set::<i32>::empty()
    };
    let ghost s4 = if col as int + 1 < map@.len() && map@[row as int]@[col as int + 1] == height
        + 1 {
        summits_from(map@, row as int, col as int + 1, height as int + 1)
    } else {
        Set::<i32>::empty()
    };
    if row != 0 && map[row - 1][col] == height + 1 {
        let more = get_destinations(map, search_map, row - 1, col, height + 1);
        merge_unique(&mut destinations, &more);
    }
    proof {
        assert(set_of(destinations@) =~= Set::<i32>::empty().union(s1));
    }
    if col != 0 && map[row][col - 1] == height + 1 {
        let more = get_destinations(map, search_map, row, col - 1, height + 1);
        merge_unique(&mut destinations, &more);
    }
    proof {
        assert(set_of(destinations@) =~= Set::<i32>::empty().union(s1).union(s2));
    }
    if row + 1 != map.len() && map[row + 1][col] == height + 1 {
        let more = get_destinations(map, search_map, row + 1, col, height + 1);
        merge_unique(&mut destinations, &more);
    }
    proof {
        assert(set_of(destinations@) =~= Set::<i32>::empty().union(s1).union(s2).union(s3));
    }
    if col + 1 != map.len() && map[row][col + 1] == height + 1 {
        let more = get_destinations(map, search_map, row, col + 1, height + 1);
        merge_unique(&mut destinations, &more);
    }
    proof {
        assert(set_of(destinations@) =~= Set::<i32>::empty().union(s1).union(s2).union(s3).union(
            s4,
        ));
        assert(set_of(destinations@) =~= summits_from(
            map@,
            row as int,
            col as int,
            height as int,
        ));
    }
    let ghost sm0 = search_map@;
    search_map[row][col] = Some(destinations.clone());
    proof {
        assert(search_map@[row as int]@.len() == sm0[row as int]@.len());
        assert(forall|i: int|
            0 <= i < search_map@.len() && i != row as int ==> #[trigger] search_map@[i] == sm0[i]);
    }
    destinations
}

/// The number of distinct climbing paths from `(row, col)` at `height`,
/// memoised per cell.
/// How many distinct climbing paths leave `(row, col)` at `height`: one at
/// the summits, else the sum over the four neighbours exactly one higher.
pub open spec fn trails_from(map: Seq<Vec<i32>>, row: int, col: int, height: int) -> int
    decreases 9 - height,
{
    if height == 9 {
        1
    } else if !(0 <= height < 9) {
        0
    } else {
        (if row > 0 && map[row - 1]@[col] == height + 1 {
            trails_from(map, row - 1, col, height + 1)
        } else {
            0
        }) + (if col > 0 && map[row]@[col - 1] == height + 1 {
            trails_from(map, row, col - 1, height + 1)
        } else {
            0
        }) + (if row + 1 < map.len() && map[row + 1]@[col] == height + 1 {
            trails_from(map, row + 1, col, height + 1)
        } else {
            0
        }) + (if col + 1 < map.len() && map[row]@[col + 1] == height + 1 {
            trails_from(map, row, col + 1, height + 1)
        } else {
            0
        })
    }
}

/// The path count held to the two-billion cap the tally works under.
pub open spec fn trails_clamped(map: Seq<Vec<i32>>, row: int, col: int, height: int) -> int {
    if trails_from(map, row, col, height) > 2000000000 {
        2000000000
    } else {
        trails_from(map, row, col, height)
    }
}

/// Path counts are never negative.
pub proof fn lemma_trails_nonneg(map: Seq<Vec<i32>>, row: int, col: int, height: int)
    ensures
        trails_from(map, row, col, height) >= 0,
    decreases 9 - height,
{
    if 0 <= height < 9 {
        lemma_trails_nonneg(map, row - 1, col, height + 1);
        lemma_trails_nonneg(map, row, col - 1, height + 1);
        lemma_trails_nonneg(map, row + 1, col, height + 1);
        lemma_trails_nonneg(map, row, col + 1, height + 1);
    }
}

/// Every settled memo entry holds the capped path count of its own cell.
pub open spec fn trails_memo_ok(memo: Seq<Vec<i32>>, map: Seq<Vec<i32>>) -> bool {
    forall|r: int, c: int|
        0 <= r < map.len() && 0 <= c < map.len() ==> ((#[trigger] memo[r]@[c]) == -1 || memo[r]@[c]
            == trails_clamped(map, r, c, map[r]@[c] as int))
}

/// Every cell the row-major scan collects carries height zero.
pub proof fn lemma_trail_heads_zero(map: Seq<Vec<i32>>, k: int)
    requires
        square_map(map),
        0 <= k <= map.len() * map.len(),
    ensures
        forall|i: int|
            0 <= i < trail_heads_of(map, k).len() ==> map[(#[trigger] trail_heads_of(map, k)[i]).row as int]@[trail_heads_of(
                map,
                k,
            )[i].col as int] == 0,
    decreases k,
{
    if k > 0 {
        lemma_trail_heads_zero(map, k - 1);
        let n = map.len() as int;
        let p = trail_heads_of(map, k - 1);
        let row = (k - 1) / n;
        let col = (k - 1) % n;
        assert(n >= 1) by (nonlinear_arith)
            requires
                k >= 1,
                k <= n * n,
                n >= 0,
        ;
        vstd::arithmetic::div_mod::lemma_fundamental_div_mod(k - 1, n);
        assert(0 <= col < n);
        assert(0 <= row) by (nonlinear_arith)
            requires
                k - 1 == n * row + col,
                0 <= k - 1,
                0 <= col < n,
        ;
        assert(row < n) by (nonlinear_arith)
            requires
                k - 1 == n * row + col,
                k <= n * n,
                0 <= col < n,
                n >= 1,
        ;
        if map[row]@[col] == 0 {
            let pos = Position { row: row as usize, col: col as usize };
            assert(trail_heads_of(map, k) == p.push(pos));
            assert forall|i: int| 0 <= i < trail_heads_of(map, k).len() implies map[(
            #[trigger] trail_heads_of(map, k)[i]).row as int]@[trail_heads_of(map, k)[i].col as int]
                == 0 by {
                if i < p.len() {
                    assert(trail_heads_of(map, k)[i] == p[i]);
                } else {
                    assert(trail_heads_of(map, k)[i] == pos);
                }
            }
        }
    }
}

#[verifier::rlimit(100)]
pub fn get_trails(
    map: &Vec<Vec<i32>>,
    search_map: &mut Vec<Vec<i32>>,
    row: usize,
    col: usize,
    height: i32,
) -> (r: i32)
    requires
        square_map(map@),
        memo_wf(old(search_map)@, map@.len() as int),
        trails_memo_ok(old(search_map)@, map@),
        row < map@.len(),
        col < map@.len(),
        0 <= height <= 9,
        map@[row as int]@[col as int] == height,
    ensures
        memo_wf(final(search_map)@, map@.len() as int),
        trails_memo_ok(final(search_map)@, map@),
        0 <= r,
        r == trails_clamped(map@, row as int, col as int, height as int),
    decreases 9 - height,
{
    proof {
        lemma_trails_nonneg(map@, row as int, col as int, height as int);
    }
    if height == 9 {
        return 1;
    }
    let cached = search_map[row][col];
    if cached != -1 {
        return if cached >= 0 {
            cached
        } else {
            0
        };
    }
    let ghost t1 = if row as int > 0 && map@[row as int - 1]@[col as int] == height + 1 {
        trails_from(map@, row as int - 1, col as int, height as int + 1)
    } else {
        0int
    };
    let ghost t2 = if col as int > 0 && map@[row as int]@[col as int - 1] == height + 1 {
        trails_from(map@, row as int, col as int - 1, height as int + 1)
    } else {
        0int
    };
    let ghost t3 = if row as int + 1 < map@.len() && map@[row as int + 1]@[col as int] == height
        + 1 {
        trails_from(map@, row as int + 1, col as int, height as int + 1)
    } else {
        0int
    };
    let ghost t4 = if col as int + 1 < map@.len() && map@[row as int]@[col as int + 1] == height
        + 1 {
        trails_from(map@, row as int, col as int + 1, height as int + 1)
    } else {
        0int
    };
    proof {
        lemma_trails_nonneg(map@, row as int - 1, col as int, height as int + 1);
        lemma_trails_nonneg(map@, row as int, col as int - 1, height as int + 1);
        lemma_trails_nonneg(map@, row as int + 1, col as int, height as int + 1);
        lemma_trails_nonneg(map@, row as int, col as int + 1, height as int + 1);
        assert(trails_from(map@, row as int, col as int, height as int) == t1 + t2 + t3 + t4);
    }
    let mut trail_count: i64 = 0;
    if row != 0 && map[row - 1][col] == height + 1 {
        trail_count += get_trails(map, search_map, row - 1, col, height + 1) as i64;
    }
    proof {
        assert(trail_count == (if t1 > 2000000000 {
            2000000000int
        } else {
            t1
        }));
    }
    if col != 0 && map[row][col - 1] == height + 1 {
        trail_count += get_trails(map, search_map, row, col - 1, height + 1) as i64;
    }
    if row + 1 != map.len() && map[row + 1][col] == height + 1 {
        trail_count += get_trails(map, search_map, row + 1, col, height + 1) as i64;
    }
    if col + 1 != map.len() && map[row][col + 1] == height + 1 {
        trail_count += get_trails(map, search_map, row, col + 1, height + 1) as i64;
    }
    let result: i32 = if trail_count > 2000000000 {
        2000000000
    } else {
        trail_count as i32
    };
    proof {
        assert(result == trails_clamped(map@, row as int, col as int, height as int));
    }
    let ghost sm0 = search_map@;
    search_map[row][col] = result;
    proof {
        assert(search_map@[row as int]@.len() == sm0[row as int]@.len());
        assert(forall|i: int|
            0 <= i < search_map@.len() && i != row as int ==> #[trigger] search_map@[i] == sm0[i]);
    }
    result
}

fn parse_height_map(input: &String) -> (map: Vec<Vec<i32>>)
    requires
        input.is_ascii(),
        input@.len() <= 100000000,
    ensures
        square_map(map@),
{
    let bytes = to_bytes(input.as_str());
    let ls = lines(&bytes);
    let size = ls.len();
    let mut map: Vec<Vec<i32>> = Vec::new();
    if size > 10000 {
        return map;
    }
    let mut i: usize = 0;
    while i < size
        invariant
            i <= size == ls@.len() <= 10000,
            map@.len() == i,
            forall|j: int| 0 <= j < map@.len() ==> (#[trigger] map@[j])@.len() == size,
        decreases size - i,
    {
        let line = &ls[i];
        let mut row: Vec<i32> = Vec::new();
        let mut c: usize = 0;
        while c < size
            invariant
                c <= size,
                row@.len() == c,
            decreases size - c,
        {
            if c < line.len() {
                row.push(char_to_int(line[c]));
            } else {
                row.push(-1);
            }
            c += 1;
        }
        map.push(row);
        i += 1;
    }
    proof {
        assert(square_map(map@));
    }
    map
}

/// The summed trailhead scores: distinct reachable summits per trailhead.
pub fn part1(input: &String) -> (r: String)
    requires
        input.is_ascii(),
        input@.len() <= 100000000,
{
    let map = parse_height_map(input);
    let size = map.len();
    let mut search_map: Vec<Vec<Option<Vec<i32>>>> = Vec::new();
    let mut i: usize = 0;
    while i < size
        invariant
            search_map@.len() == i <= size,
            forall|j: int| 0 <= j < i ==> (#[trigger] search_map@[j])@.len() == size,
            forall|j: int, c2: int|
                0 <= j < i && 0 <= c2 < size ==> #[trigger] search_map@[j]@[c2] is None,
        decreases size - i,
    {
        let mut row: Vec<Option<Vec<i32>>> = Vec::new();
        let mut c: usize = 0;
        while c < size
            invariant
                row@.len() == c <= size,
                forall|c2: int| 0 <= c2 < c ==> row@[c2] is None,
            decreases size - c,
        {
            row.push(None);
            c += 1;
        }
        search_map.push(row);
        i += 1;
    }
    let trail_heads = get_trail_heads(&map);
    proof {
        lemma_trail_heads_zero(map@, (map@.len() * map@.len()) as int);
    }
    let mut total_score: u128 = 0;
    let mut t: usize = 0;
    while t < trail_heads.len()
        invariant
            t <= trail_heads@.len(),
            square_map(map@),
            map@.len() == size,
            memo_wf(search_map@, size as int),
            dest_memo_ok(search_map@, map@),
            forall|i2: int|
                0 <= i2 < trail_heads@.len() ==> (#[trigger] trail_heads@[i2]).row < map@.len()
                    && trail_heads@[i2].col < map@.len(),
            forall|i2: int|
                0 <= i2 < trail_heads@.len() ==> map@[(#[trigger] trail_heads@[i2]).row as int]@[trail_heads@[i2].col as int]
                    == 0,
        decreases trail_heads@.len() - t,
    {
        let head = &trail_heads[t];
        let destinations = get_destinations(&map, &mut search_map, head.row, head.col, 0);
        if (destinations.len() as u128) <= u128::MAX - total_score {
            total_score = total_score + destinations.len() as u128;
        }
        t += 1;
    }
    u128_to_string(total_score)
}

/// The summed trailhead ratings: distinct climbing paths per trailhead.
pub fn part2(input: &String) -> (r: String)
    requires
        input.is_ascii(),
        input@.len() <= 100000000,
{
    let map = parse_height_map(input);
    let size = map.len();
    let mut search_map: Vec<Vec<i32>> = Vec::new();
    let mut i: usize = 0;
    while i < size
        invariant
            search_map@.len() == i <= size,
            forall|j: int| 0 <= j < i ==> (#[trigger] search_map@[j])@.len() == size,
            forall|j: int, c2: int|
                0 <= j < i && 0 <= c2 < size ==> #[trigger] search_map@[j]@[c2] == -1,
        decreases size - i,
    {
        let mut row: Vec<i32> = Vec::new();
        let mut c: usize = 0;
        while c < size
            invariant
                row@.len() == c <= size,
                forall|c2: int| 0 <= c2 < c ==> row@[c2] == -1,
            decreases size - c,
        {
            row.push(-1);
            c += 1;
        }
        search_map.push(row);
        i += 1;
    }
    let trail_heads = get_trail_heads(&map);
    proof {
        lemma_trail_heads_zero(map@, (map@.len() * map@.len()) as int);
    }
    let mut total_score: u128 = 0;
    let mut t: usize = 0;
    while t < trail_heads.len()
        invariant
            t <= trail_heads@.len(),
            square_map(map@),
            map@.len() == size,
            memo_wf(search_map@, size as int),
            trails_memo_ok(search_map@, map@),
            forall|i2: int|
                0 <= i2 < trail_heads@.len() ==> (#[trigger] trail_heads@[i2]).row < map@.len()
                    && trail_heads@[i2].col < map@.len(),
            forall|i2: int|
                0 <= i2 < trail_heads@.len() ==> map@[(#[trigger] trail_heads@[i2]).row as int]@[trail_heads@[i2].col as int]
                    == 0,
        decreases trail_heads@.len() - t,
    {
        let head = &trail_heads[t];
        let count = get_trails(&map, &mut search_map, head.row, head.col, 0);
        if (count as u128) <= u128::MAX - total_score {
            total_score = total_score + count as u128;
        }
        t += 1;
    }
    u128_to_string(total_score)
}

} // verus!