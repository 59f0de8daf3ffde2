//! The keypad-chain solver: a numeric keypad is typed on through a stack of
//! directional-keypad robots, and the minimal number of button presses at the
//! outermost layer is computed by propagating counts of adjacent move pairs
//! through the layers instead of materialising the exponentially growing move
//! strings.
use vstd::prelude::*;

verus! {

// ---------------------------------------------------------------------------
// Move symbols and pair indices
// ---------------------------------------------------------------------------
/// The five move symbols, as bytes: `<`, `>`, `^`, `v`, `A`.
pub open spec fn is_sym(b: u8) -> bool {
    b == 60 || b == 62 || b == 94 || b == 118 || b == 65
}

pub open spec fn all_syms(s: Seq<u8>) -> bool {
    forall|i: int| 0 <= i < s.len() ==> is_sym(#[trigger] s[i])
}

/// A fixed numbering of the five move symbols.
pub open spec fn sym(b: u8) -> int {
    if b == 60 {
        0  // <
    } else if b == 62 {
        1  // >
    } else if b == 94 {
        2  // ^
    } else if b == 118 {
        3  // v
    } else {
        4  // A
    }
}

/// The table index of the ordered symbol pair `(a, b)`, in `0..25`.
pub open spec fn pair_idx(a: u8, b: u8) -> int {
    5 * sym(a) + sym(b)
}

// ---------------------------------------------------------------------------
// The canonical directional-keypad expansion of each move pair
// ---------------------------------------------------------------------------
/// The presses one layer up that move the directional-keypad pointer from the
/// first symbol of pair `k` to its second and press it.  Every entry ends
/// with `A` and has length between 1 and 4.
pub open spec fn pair_presses(k: int) -> Seq<u8> {
    if k == 0 {
        seq![65u8]
    } else if k == 1 {
        seq![62u8, 62u8, 65u8]
    } else if k == 2 {
        seq![62u8, 94u8, 65u8]
    } else if k == 3 {
        seq![62u8, 65u8]
    } else if k == 4 {
        seq![62u8, 62u8, 94u8, 65u8]
    } else if k == 5 {
        seq![60u8, 60u8, 65u8]
    } else if k == 6 {
        seq![65u8]
    } else if k == 7 {
        seq![60u8, 94u8, 65u8]
    } else if k == 8 {
        seq![60u8, 65u8]
    } else if k == 9 {
        seq![94u8, 65u8]
    } else if k == 10 {
        seq![118u8, 60u8, 65u8]
    } else if k == 11 {
        seq![118u8, 62u8, 65u8]
    } else if k == 12 {
        seq![65u8]
    } else if k == 13 {
        seq![118u8, 65u8]
    } else if k == 14 {
        seq![62u8, 65u8]
    } else if k == 15 {
        seq![60u8, 65u8]
    } else if k == 16 {
        seq![62u8, 65u8]
    } else if k == 17 {
        seq![94u8, 65u8]
    } else if k == 18 {
        seq![65u8]
    } else if k == 19 {
        seq![94u8, 62u8, 65u8]
    } else if k == 20 {
        seq![118u8, 60u8, 60u8, 65u8]
    } else if k == 21 {
        seq![118u8, 65u8]
    } else if k == 22 {
        seq![60u8, 65u8]
    } else if k == 23 {
        seq![60u8, 118u8, 65u8]
    } else {
        seq![65u8]
    }
}

/// The canonical move string for pair `k`, with the starting `A` prepended,
/// as the pair table stores it.
pub open spec fn pair_moves(k: int) -> Seq<u8> {
    seq![65u8] + pair_presses(k)
}

// ---------------------------------------------------------------------------
// Pair counting, totals, propagation
// ---------------------------------------------------------------------------
/// How many adjacent positions of `s` form the pair with index `k`.
pub open spec fn count_pairs(s: Seq<u8>, k: int) -> nat
    decreases s.len(),
{
    if s.len() < 2 {
        0
    } else {
        count_pairs(s.drop_last(), k) + if pair_idx(s[s.len() - 2], s.last()) == k {
            1nat
        } else {
            0nat
        }
    }
}

/// The pair-count table of a move string: one count per pair index.
pub open spec fn pair_counts(s: Seq<u8>) -> Seq<nat> {
    Seq::new(25, |k: int| count_pairs(s, k))
}

pub open spec fn sum_prefix(c: Seq<nat>, n: int) -> nat
    decreases n,
{
    if n <= 0 {
        0
    } else {
        sum_prefix(c, n - 1) + c[n - 1]
    }
}

/// The total of a count table.
pub open spec fn table_total(c: Seq<nat>) -> nat {
    sum_prefix(c, c.len() as int)
}

pub open spec fn prop_sum(c: Seq<nat>, q: int, n: int) -> nat
    decreases n,
{
    if n <= 0 {
        0
    } else {
        prop_sum(c, q, n - 1) + c[n - 1] * count_pairs(pair_moves(n - 1), q)
    }
}

/// One propagation step: each pair's count is re-expressed as counts of the
/// pairs inside its canonical move string one layer up.
pub open spec fn propagate(c: Seq<nat>) -> Seq<nat> {
    Seq::new(25, |q: int| prop_sum(c, q, 25))
}

pub open spec fn propagate_n(c: Seq<nat>, n: nat) -> Seq<nat>
    decreases n,
{
    if n == 0 {
        c
    } else {
        propagate(propagate_n(c, (n - 1) as nat))
    }
}

// ---------------------------------------------------------------------------
// Literal expansion of a move string through one layer
// ---------------------------------------------------------------------------
/// The literal move string one layer up that produces `s`, starting from
/// `prev` (the pointer rests on `A` at the start of a query).
pub open spec fn expand_from(prev: u8, s: Seq<u8>) -> Seq<u8>
    decreases s.len(),
{
    if s.len() == 0 {
        Seq::<u8>::empty()
    } else {
        pair_presses(pair_idx(prev, s[0])) + expand_from(s[0], s.skip(1))
    }
}

/// The full literal expansion of a move string through one layer.
pub open spec fn expand(s: Seq<u8>) -> Seq<u8> {
    expand_from(65u8, s)
}

pub open spec fn expand_n(s: Seq<u8>, n: nat) -> Seq<u8>
    decreases n,
{
    if n == 0 {
        s
    } else {
        expand(expand_n(s, (n - 1) as nat))
    }
}

// ---------------------------------------------------------------------------
// Table algebra
// ---------------------------------------------------------------------------
pub open spec fn table_add(c1: Seq<nat>, c2: Seq<nat>) -> Seq<nat> {
    Seq::new(25, |k: int| (c1[k] + c2[k]) as nat)
}

pub open spec fn indicator(p: int) -> Seq<nat> {
    Seq::new(25, |k: int| if k == p {
        1nat
    } else {
        0nat
    })
}

/// Every canonical pair expansion presses between 1 and 4 keys, ends on `A`,
/// and uses move symbols only.
pub proof fn lemma_pair_presses_shape(k: int)
    ensures
        1 <= pair_presses(k).len() <= 4,
        pair_presses(k).last() == 65u8,
        all_syms(pair_presses(k)),
{
}

pub proof fn lemma_count_pairs_concat(a: Seq<u8>, b: Seq<u8>, k: int)
    requires
        a.len() >= 1,
        b.len() >= 1,
    ensures
        count_pairs(a + b, k) == count_pairs(a, k) + count_pairs(b, k) + (if pair_idx(
            a.last(),
            b[0],
        ) == k {
            1nat
        } else {
            0nat
        }),
    decreases b.len(),
{
    if b.len() == 1 {
        assert((a + b).drop_last() =~= a);
        assert((a + b).last() == b[0]);
        assert((a + b)[a.len() as int - 1] == a.last());
    } else {
        assert((a + b).drop_last() =~= a + b.drop_last());
        lemma_count_pairs_concat(a, b.drop_last(), k);
        assert(b.drop_last()[0] == b[0]);
        assert((a + b)[(a + b).len() - 2] == b[b.len() - 2]);
    }
}

pub proof fn lemma_sum_prefix_pointwise(c1: Seq<nat>, c2: Seq<nat>, n: int)
    requires
        forall|j: int| 0 <= j < n ==> c1[j] == c2[j],
    ensures
        sum_prefix(c1, n) == sum_prefix(c2, n),
    decreases n,
{
    if n > 0 {
        lemma_sum_prefix_pointwise(c1, c2, n - 1);
    }
}

pub proof fn lemma_sum_prefix_zero(c: Seq<nat>, n: int)
    requires
        forall|j: int| 0 <= j < n ==> c[j] == 0,
    ensures
        sum_prefix(c, n) == 0,
    decreases n,
{
    if n > 0 {
        lemma_sum_prefix_zero(c, n - 1);
    }
}

pub proof fn lemma_sum_prefix_incr(c: Seq<nat>, d: Seq<nat>, k0: int, n: int)
    requires
        forall|j: int| 0 <= j < n ==> d[j] == c[j] + (if j == k0 {
            1nat
        } else {
            0nat
        }),
        0 <= k0 < n,
    ensures
        sum_prefix(d, n) == sum_prefix(c, n) + 1,
    decreases n,
{
    if k0 == n - 1 {
        lemma_sum_prefix_pointwise(c, d, n - 1);
    } else {
        lemma_sum_prefix_incr(c, d, k0, n - 1);
    }
}

/// The counts of a string's pairs total its length less one: every adjacent
/// pair lands in exactly one bucket.
pub proof fn lemma_total_pair_counts(s: Seq<u8>)
    requires
        s.len() >= 1,
    ensures
        table_total(pair_counts(s)) == s.len() - 1,
    decreases s.len(),
{
    if s.len() == 1 {
        assert(forall|k: int| 0 <= k < 25 ==> pair_counts(s)[k] == 0);
        lemma_sum_prefix_zero(pair_counts(s), 25);
    } else {
        lemma_total_pair_counts(s.drop_last());
        let k0 = pair_idx(s[s.len() - 2], s.last());
        assert(0 <= k0 < 25);
        assert(forall|k: int|
            0 <= k < 25 ==> pair_counts(s)[k] == pair_counts(s.drop_last())[k] + (if k == k0 {
                1nat
            } else {
                0nat
            }));
        lemma_sum_prefix_incr(pair_counts(s.drop_last()), pair_counts(s), k0, 25);
    }
}

pub proof fn lemma_prop_sum_add(c1: Seq<nat>, c2: Seq<nat>, q: int, n: int)
    requires
        n <= 25,
    ensures
        prop_sum(table_add(c1, c2), q, n) == prop_sum(c1, q, n) + prop_sum(c2, q, n),
    decreases n,
{
    if n > 0 {
        lemma_prop_sum_add(c1, c2, q, n - 1);
        let x = count_pairs(pair_moves(n - 1), q);
        assert((c1[n - 1] + c2[n - 1]) * x == c1[n - 1] * x + c2[n - 1] * x) by (nonlinear_arith);
    }
}

pub proof fn lemma_prop_sum_indicator(p: int, q: int, n: int)
    requires
        n <= 25,
    ensures
        prop_sum(indicator(p), q, n) == if 0 <= p < n {
            count_pairs(pair_moves(p), q)
        } else {
            0nat
        },
    decreases n,
{
    if n > 0 {
        lemma_prop_sum_indicator(p, q, n - 1);
    }
}

pub proof fn lemma_prop_sum_zero(c: Seq<nat>, q: int, n: int)
    requires
        forall|j: int| 0 <= j < n ==> c[j] == 0,
    ensures
        prop_sum(c, q, n) == 0,
    decreases n,
{
    if n > 0 {
        lemma_prop_sum_zero(c, q, n - 1);
    }
}

/// Propagation is additive in the table.
pub proof fn lemma_propagate_add(c1: Seq<nat>, c2: Seq<nat>)
    ensures
        propagate(table_add(c1, c2)) =~= table_add(propagate(c1), propagate(c2)),
{
    assert forall|q: int| 0 <= q < 25 implies propagate(table_add(c1, c2))[q] == table_add(
        propagate(c1),
        propagate(c2),
    )[q] by {
        lemma_prop_sum_add(c1, c2, q, 25);
    }
}

/// Propagating a single pair yields exactly the pair counts of its canonical
/// move string.
pub proof fn lemma_propagate_indicator(p: int)
    requires
        0 <= p < 25,
    ensures
        propagate(indicator(p)) =~= pair_counts(pair_moves(p)),
{
    assert forall|q: int| 0 <= q < 25 implies propagate(indicator(p))[q] == pair_counts(
        pair_moves(p),
    )[q] by {
        lemma_prop_sum_indicator(p, q, 25);
    }
}

/// Shape of a one-layer expansion: at least one press per target press, at
/// most four, symbols only, ending on `A`.
pub proof fn lemma_expand_from_len(prev: u8, s: Seq<u8>)
    ensures
        s.len() <= expand_from(prev, s).len() <= 4 * s.len(),
        all_syms(expand_from(prev, s)),
        s.len() > 0 ==> expand_from(prev, s).last() == 65u8,
    decreases s.len(),
{
    if s.len() > 0 {
        let p = pair_idx(prev, s[0]);
        lemma_pair_presses_shape(p);
        lemma_expand_from_len(s[0], s.skip(1));
        let e = pair_presses(p) + expand_from(s[0], s.skip(1));
        assert(expand_from(prev, s) =~= e);
        assert(all_syms(e)) by {
            assert(forall|i: int|
                0 <= i < e.len() ==> e[i] == if i < pair_presses(p).len() {
                    pair_presses(p)[i]
                } else {
                    expand_from(s[0], s.skip(1))[i - pair_presses(p).len()]
                });
        }
        if s.len() == 1 {
            assert(e.last() == pair_presses(p).last());
        }
    }
}

/// The heart of the aggregation argument: counting the pairs of a string's
/// literal one-layer expansion is the same as propagating the string's own
/// pair counts through the table.
pub proof fn lemma_pc_expand_from(prev: u8, s: Seq<u8>)
    requires
        all_syms(s),
        is_sym(prev),
    ensures
        pair_counts(seq![65u8] + expand_from(prev, s)) =~= propagate(
            pair_counts(seq![prev] + s),
        ),
    decreases s.len(),
{
    if s.len() == 0 {
        assert(seq![65u8] + expand_from(prev, s) =~= seq![65u8]);
        assert(forall|k: int| 0 <= k < 25 ==> pair_counts(seq![65u8])[k] == 0);
        assert(forall|k: int| 0 <= k < 25 ==> pair_counts(seq![prev])[k] == 0);
        assert forall|q: int| 0 <= q < 25 implies propagate(pair_counts(seq![prev] + s))[q]
            == 0 by {
            assert(seq![prev] + s =~= seq![prev]);
            lemma_prop_sum_zero(pair_counts(seq![prev]), q, 25);
        }
    } else {
        let x = s[0];
        let rest = s.skip(1);
        let p = pair_idx(prev, x);
        assert(0 <= p < 25);
        lemma_pair_presses_shape(p);
        let presses = pair_presses(p);
        if rest.len() == 0 {
            assert(seq![65u8] + expand_from(prev, s) =~= pair_moves(p)) by {
                assert(expand_from(x, rest) =~= Seq::<u8>::empty());
                assert(expand_from(prev, s) =~= presses);
            }
            assert(pair_counts(seq![prev] + s) =~= indicator(p)) by {
                assert(seq![prev] + s =~= seq![prev, x]);
                assert forall|k: int| 0 <= k < 25 implies pair_counts(seq![prev, x])[k]
                    == indicator(p)[k] by {
                    let two = seq![prev, x];
                    assert(two.drop_last() =~= seq![prev]);
                    assert(count_pairs(seq![prev], k) == 0);
                    assert(two[two.len() - 2] == prev && two.last() == x);
                }
            }
            lemma_propagate_indicator(p);
        } else {
            assert(all_syms(rest) && is_sym(x)) by {
                assert(forall|i: int| 0 <= i < rest.len() ==> rest[i] == s[i + 1]);
            }
            lemma_pc_expand_from(x, rest);
            let e = expand_from(x, rest);
            lemma_expand_from_len(x, rest);
            assert(e.len() >= 1);
            // Split the expanded string after the first pair's presses.
            let head = seq![65u8] + presses;
            assert(seq![65u8] + expand_from(prev, s) =~= head + e);
            assert(head.last() == 65u8);
            assert forall|k: int| 0 <= k < 25 implies pair_counts(head + e)[k] == pair_counts(
                pair_moves(p),
            )[k] + pair_counts(seq![65u8] + e)[k] by {
                lemma_count_pairs_concat(head, e, k);
                lemma_count_pairs_concat(seq![65u8], e, k);
                assert(count_pairs(seq![65u8], k) == 0);
                assert(head =~= pair_moves(p));
            }
            // The original string splits off its first pair the same way.
            assert(pair_counts(seq![prev] + s) =~= table_add(pair_counts(seq![x] + rest), indicator(p)))
                by {
                assert forall|k: int| 0 <= k < 25 implies pair_counts(seq![prev] + s)[k]
                    == pair_counts(seq![x] + rest)[k] + indicator(p)[k] by {
                    lemma_count_pairs_concat(seq![prev], s, k);
                    assert(count_pairs(seq![prev], k) == 0);
                    assert(seq![x] + rest =~= s);
                }
            }
            lemma_propagate_add(pair_counts(seq![x] + rest), indicator(p));
            lemma_propagate_indicator(p);
        }
    }
}

/// Propagating the pair table `n` times tracks the literal `n`-fold expansion.
pub proof fn lemma_propagate_n_pc(m: Seq<u8>, n: nat)
    requires
        all_syms(m),
    ensures
        propagate_n(pair_counts(seq![65u8] + m), n) =~= pair_counts(seq![65u8] + expand_n(m, n)),
        all_syms(expand_n(m, n)),
        m.len() <= expand_n(m, n).len() <= m.len() * pow4(n),
    decreases n,
{
    lemma_pow4_positive(n);
    if n == 0 {
        assert(m.len() * pow4(0) == m.len() * 1);
    } else {
        lemma_propagate_n_pc(m, (n - 1) as nat);
        let w = expand_n(m, (n - 1) as nat);
        lemma_pc_expand_from(65u8, w);
        lemma_expand_from_len(65u8, w);
        assert(expand_n(m, n) == expand(w));
        lemma_pow4_positive((n - 1) as nat);
        assert(4 * (m.len() * pow4((n - 1) as nat)) == m.len() * pow4(n)) by (nonlinear_arith)
            requires
                pow4(n) == 4 * pow4((n - 1) as nat),
        ;
        assert(4 * w.len() <= 4 * (m.len() * pow4((n - 1) as nat)));
    }
}

pub open spec fn pow4(n: nat) -> nat
    decreases n,
{
    if n == 0 {
        1
    } else {
        4 * pow4((n - 1) as nat)
    }
}

pub proof fn lemma_pow4_positive(n: nat)
    ensures
        pow4(n) >= 1,
    decreases n,
{
    if n > 0 {
        lemma_pow4_positive((n - 1) as nat);
    }
}

/// The pairwise aggregator's total after `n` propagations is exactly the
/// length of the literal move string obtained by expanding `m` through `n`
/// layers.
pub proof fn lemma_aggregate_matches_expansion(m: Seq<u8>, n: nat)
    requires
        all_syms(m),
    ensures
        table_total(propagate_n(pair_counts(seq![65u8] + m), n)) == expand_n(m, n).len(),
    decreases n,
{
    lemma_propagate_n_pc(m, n);
    lemma_total_pair_counts(seq![65u8] + expand_n(m, n));
}

/// A deeper chain never shortens the move string: each extra layer expands
/// every press into at least one press.
pub proof fn lemma_expand_n_monotonic(m: Seq<u8>, d1: nat, d2: nat)
    requires
        all_syms(m),
        d1 <= d2,
    ensures
        expand_n(m, d1).len() <= expand_n(m, d2).len(),
    decreases d2,
{
    if d1 < d2 {
        lemma_expand_n_monotonic(m, d1, (d2 - 1) as nat);
        lemma_propagate_n_pc(m, (d2 - 1) as nat);
        lemma_expand_from_len(65u8, expand_n(m, (d2 - 1) as nat));
    }
}

// ---------------------------------------------------------------------------
// Keypads
// ---------------------------------------------------------------------------
/// A labelled key at a fixed grid position.
pub struct Key {
    pub label: u8,
    pub row: i32,
    pub col: i32,
}

impl Key {
    pub fn new(label: u8, row: i32, col: i32) -> (r: Key)
        ensures
            r == (Key { label, row, col }),
    {
        Key { label, row, col }
    }
}

impl Clone for Key {
    fn clone(&self) -> (r: Key)
        ensures
            r == *self,
    {
        Key { label: self.label, row: self.row, col: self.col }
    }
}

/// The first key carrying `label`, or -1.
pub open spec fn find_label(keys: Seq<Key>, label: u8) -> int
    decreases keys.len(),
{
    if keys.len() == 0 {
        -1
    } else if keys[0].label == label {
        0
    } else {
        let r = find_label(keys.skip(1), label);
        if r == -1 {
            -1
        } else {
            1 + r
        }
    }
}

/// The first key at `(row, col)`, or -1.
pub open spec fn find_pos(keys: Seq<Key>, row: int, col: int) -> int
    decreases keys.len(),
{
    if keys.len() == 0 {
        -1
    } else if keys[0].row == row && keys[0].col == col {
        0
    } else {
        let r = find_pos(keys.skip(1), row, col);
        if r == -1 {
            -1
        } else {
            1 + r
        }
    }
}

pub proof fn lemma_find_label_is_first(keys: Seq<Key>, label: u8, i: int)
    requires
        0 <= i < keys.len(),
        keys[i].label == label,
        forall|j: int| 0 <= j < i ==> keys[j].label != label,
    ensures
        find_label(keys, label) == i,
        0 <= find_label(keys, label) < keys.len(),
        keys[find_label(keys, label)].label == label,
    decreases keys.len(),
{
    if i > 0 {
        lemma_find_label_is_first(keys.skip(1), label, i - 1);
    }
}

pub proof fn lemma_find_label_none(keys: Seq<Key>, label: u8)
    requires
        forall|j: int| 0 <= j < keys.len() ==> keys[j].label != label,
    ensures
        find_label(keys, label) == -1,
    decreases keys.len(),
{
    if keys.len() > 0 {
        lemma_find_label_none(keys.skip(1), label);
    }
}

pub proof fn lemma_find_label_found(keys: Seq<Key>, label: u8)
    requires
        find_label(keys, label) >= 0,
    ensures
        0 <= find_label(keys, label) < keys.len(),
        keys[find_label(keys, label)].label == label,
        forall|j: int| 0 <= j < find_label(keys, label) ==> keys[j].label != label,
    decreases keys.len(),
{
    if keys.len() > 0 && keys[0].label != label {
        lemma_find_label_found(keys.skip(1), label);
        assert(forall|j: int|
            1 <= j < keys.len() ==> #[trigger] keys[j] == keys.skip(1)[j - 1]);
    }
}

pub proof fn lemma_find_pos_is_first(keys: Seq<Key>, row: int, col: int, i: int)
    requires
        0 <= i < keys.len(),
        keys[i].row == row && keys[i].col == col,
        forall|j: int| 0 <= j < i ==> !(keys[j].row == row && keys[j].col == col),
    ensures
        find_pos(keys, row, col) == i,
    decreases keys.len(),
{
    if i > 0 {
        lemma_find_pos_is_first(keys.skip(1), row, col, i - 1);
    }
}

pub proof fn lemma_find_pos_none(keys: Seq<Key>, row: int, col: int)
    requires
        forall|j: int| 0 <= j < keys.len() ==> !(keys[j].row == row && keys[j].col == col),
    ensures
        find_pos(keys, row, col) == -1,
    decreases keys.len(),
{
    if keys.len() > 0 {
        lemma_find_pos_none(keys.skip(1), row, col);
    }
}

pub proof fn lemma_find_pos_found(keys: Seq<Key>, row: int, col: int)
    requires
        find_pos(keys, row, col) >= 0,
    ensures
        0 <= find_pos(keys, row, col) < keys.len(),
        keys[find_pos(keys, row, col)].row == row,
        keys[find_pos(keys, row, col)].col == col,
    decreases keys.len(),
{
    if keys.len() > 0 && !(keys[0].row == row && keys[0].col == col) {
        lemma_find_pos_found(keys.skip(1), row, col);
    }
}

pub proof fn lemma_find_pos_exists(keys: Seq<Key>, i: int)
    requires
        0 <= i < keys.len(),
    ensures
        find_pos(keys, keys[i].row as int, keys[i].col as int) >= 0,
    decreases keys.len(),
{
    if !(keys[0].row == keys[i].row && keys[0].col == keys[i].col) {
        lemma_find_pos_exists(keys.skip(1), i - 1);
    }
}

/// A keypad: keys on a grid, a selected key, and the row that holds the
/// unusable dead cell.
pub struct BasicKeyboard {
    pub selected_key: usize,
    pub keys: Vec<Key>,
    pub dead_cell_row: i32,
}

/// The numeric keypad layout: digits 7..9, 4..6, 1..3, then 0 and A, with the
/// dead cell at the bottom left.
pub open spec fn numeric_keys() -> Seq<Key> {
    seq![
        Key { label: 55, row: 0, col: 0 },
        Key { label: 56, row: 0, col: 1 },
        Key { label: 57, row: 0, col: 2 },
        Key { label: 52, row: 1, col: 0 },
        Key { label: 53, row: 1, col: 1 },
        Key { label: 54, row: 1, col: 2 },
        Key { label: 49, row: 2, col: 0 },
        Key { label: 50, row: 2, col: 1 },
        Key { label: 51, row: 2, col: 2 },
        Key { label: 48, row: 3, col: 1 },
        Key { label: 65, row: 3, col: 2 },
    ]
}

/// The directional keypad layout: `^` and `A` on top, `<`, `v`, `>` below,
/// with the dead cell at the top left.
pub open spec fn arrow_keys() -> Seq<Key> {
    seq![
        Key { label: 94, row: 0, col: 1 },
        Key { label: 65, row: 0, col: 2 },
        Key { label: 60, row: 1, col: 0 },
        Key { label: 118, row: 1, col: 1 },
        Key { label: 62, row: 1, col: 2 },
    ]
}

pub open spec fn keys_bounded(keys: Seq<Key>) -> bool {
    forall|i: int|
        0 <= i < keys.len() ==> 0 <= (#[trigger] keys[i]).row <= 3 && 0 <= keys[i].col <= 2
}

impl BasicKeyboard {
    pub open spec fn wf(self) -> bool {
        self.selected_key < self.keys@.len() && keys_bounded(self.keys@)
    }

    /// The numeric keypad, with `A` selected.
    pub fn new() -> (r: BasicKeyboard)
        ensures
            r.keys@ =~= numeric_keys(),
            r.selected_key == 10,
            r.dead_cell_row == 3,
            r.wf(),
    {
        let mut keys = Vec::new();
        keys.push(Key::new(55, 0, 0));
        keys.push(Key::new(56, 0, 1));
        keys.push(Key::new(57, 0, 2));
        keys.push(Key::new(52, 1, 0));
        keys.push(Key::new(53, 1, 1));
        keys.push(Key::new(54, 1, 2));
        keys.push(Key::new(49, 2, 0));
        keys.push(Key::new(50, 2, 1));
        keys.push(Key::new(51, 2, 2));
        keys.push(Key::new(48, 3, 1));
        keys.push(Key::new(65, 3, 2));
        let r = BasicKeyboard { selected_key: 10, keys, dead_cell_row: 3 };
        assert(r.keys@ =~= numeric_keys());
        assert(r.wf()) by {
            assert(forall|i: int|
                0 <= i < numeric_keys().len() ==> 0 <= (#[trigger] numeric_keys()[i]).row <= 3
                    && 0 <= numeric_keys()[i].col <= 2);
        }
        r
    }

    /// Selects the key at `(row, col)`; the position must exist.
    pub fn select_key_at(&mut self, row: i32, col: i32)
        requires
            find_pos(old(self).keys@, row as int, col as int) >= 0,
        ensures
            final(self).keys == old(self).keys,
            final(self).dead_cell_row == old(self).dead_cell_row,
            final(self).selected_key == find_pos(old(self).keys@, row as int, col as int),
    {
        proof {
            lemma_find_pos_found(self.keys@, row as int, col as int);
        }
        let mut key_index: usize = 0;
        while key_index < self.keys.len()
            invariant
                key_index <= self.keys@.len(),
                forall|j: int|
                    0 <= j < key_index ==> !((#[trigger] self.keys@[j]).row == row
                        && self.keys@[j].col == col),
                self.keys == old(self).keys,
                self.dead_cell_row == old(self).dead_cell_row,
                self.selected_key == old(self).selected_key,
            decreases self.keys@.len() - key_index,
        {
            let key = &self.keys[key_index];
            if key.row == row && key.col == col {
                self.selected_key = key_index;
                proof {
                    lemma_find_pos_is_first(self.keys@, row as int, col as int, key_index as int);
                }
                return ;
            }
            key_index += 1;
        }
        proof {
            lemma_find_pos_none(self.keys@, row as int, col as int);
        }
    }

    /// The first key with `label`; the label must exist.
    pub fn get_key(&self, label: u8) -> (r: Key)
        requires
            find_label(self.keys@, label) >= 0,
        ensures
            r == self.keys@[find_label(self.keys@, label)],
    {
        proof {
            lemma_find_label_found(self.keys@, label);
        }
        let mut key_index: usize = 0;
        while key_index < self.keys.len()
            invariant
                key_index <= self.keys@.len(),
                forall|j: int| 0 <= j < key_index ==> (#[trigger] self.keys@[j]).label != label,
            decreases self.keys@.len() - key_index,
        {
            let key = &self.keys[key_index];
            if key.label == label {
                proof {
                    lemma_find_label_is_first(self.keys@, label, key_index as int);
                }
                return key.clone();
            }
            key_index += 1;
        }
        proof {
            lemma_find_label_none(self.keys@, label);
        }
        unreached()
    }
}

/// Whether `movement` can be pressed with `sel` selected: an arrow must lead
/// to an existing key.
pub open spec fn press_ok(keys: Seq<Key>, sel: int, movement: u8) -> bool {
    &&& 0 <= sel < keys.len()
    &&& (movement == 60 ==> find_pos(keys, keys[sel].row as int, keys[sel].col - 1) >= 0)
    &&& (movement == 62 ==> find_pos(keys, keys[sel].row as int, keys[sel].col + 1) >= 0)
    &&& (movement == 94 ==> find_pos(keys, keys[sel].row - 1, keys[sel].col as int) >= 0)
    &&& (movement == 118 ==> find_pos(keys, keys[sel].row + 1, keys[sel].col as int) >= 0)
}

/// The selected key after pressing `movement`.
pub open spec fn press_sel(keys: Seq<Key>, sel: int, movement: u8) -> int {
    if movement == 60 {
        find_pos(keys, keys[sel].row as int, keys[sel].col - 1)
    } else if movement == 62 {
        find_pos(keys, keys[sel].row as int, keys[sel].col + 1)
    } else if movement == 94 {
        find_pos(keys, keys[sel].row - 1, keys[sel].col as int)
    } else if movement == 118 {
        find_pos(keys, keys[sel].row + 1, keys[sel].col as int)
    } else {
        sel
    }
}

/// What pressing `movement` emits: the selected key's label on `A`, nothing
/// otherwise.
pub open spec fn press_out(keys: Seq<Key>, sel: int, movement: u8) -> Seq<u8> {
    if movement == 65 {
        seq![keys[sel].label]
    } else {
        Seq::<u8>::empty()
    }
}

impl BasicKeyboard {
    /// Presses one movement key: an arrow moves the selection, `A` emits the
    /// selected key's label.
    pub fn press(&mut self, movement: u8) -> (output: Vec<u8>)
        requires
            old(self).wf(),
            press_ok(old(self).keys@, old(self).selected_key as int, movement),
        ensures
            final(self).keys == old(self).keys,
            final(self).dead_cell_row == old(self).dead_cell_row,
            final(self).selected_key as int == press_sel(
                old(self).keys@,
                old(self).selected_key as int,
                movement,
            ),
            output@ == press_out(old(self).keys@, old(self).selected_key as int, movement),
            final(self).wf(),
    {
        let mut output: Vec<u8> = Vec::new();
        let key_row = self.keys[self.selected_key].row;
        let key_col = self.keys[self.selected_key].col;
        let key_label = self.keys[self.selected_key].label;
        if movement == 60 {
            self.select_key_at(key_row, key_col - 1);
            proof {
                lemma_find_pos_found(self.keys@, key_row as int, key_col - 1);
            }
        } else if movement == 62 {
            self.select_key_at(key_row, key_col + 1);
            proof {
                lemma_find_pos_found(self.keys@, key_row as int, key_col + 1);
            }
        } else if movement == 94 {
            self.select_key_at(key_row - 1, key_col);
            proof {
                lemma_find_pos_found(self.keys@, key_row - 1, key_col as int);
            }
        } else if movement == 118 {
            self.select_key_at(key_row + 1, key_col);
            proof {
                lemma_find_pos_found(self.keys@, key_row + 1, key_col as int);
            }
        } else if movement == 65 {
            output.push(key_label);
        }
        output
    }
}

// ---------------------------------------------------------------------------
// Deriving the move string for a target key sequence
// ---------------------------------------------------------------------------
pub open spec fn repeat_byte(b: u8, n: nat) -> Seq<u8>
    decreases n,
{
    if n == 0 {
        Seq::<u8>::empty()
    } else {
        repeat_byte(b, (n - 1) as nat).push(b)
    }
}

pub proof fn lemma_repeat_byte(b: u8, n: nat)
    ensures
        repeat_byte(b, n).len() == n,
        forall|i: int| 0 <= i < n ==> repeat_byte(b, n)[i] == b,
    decreases n,
{
    if n > 0 {
        lemma_repeat_byte(b, (n - 1) as nat);
    }
}

/// The moves that bring the pointer from `from` to `to` and press it, with
/// the axis order chosen to stay clear of the dead cell.
pub open spec fn moves_for(from: Key, to: Key, dead_row: int) -> Seq<u8> {
    let vert = repeat_byte(
        if from.row > to.row {
            94u8
        } else {
            118u8
        },
        abs_diff(from.row as int, to.row as int),
    );
    let horiz = repeat_byte(
        if from.col > to.col {
            60u8
        } else {
            62u8
        },
        abs_diff(from.col as int, to.col as int),
    );
    if to.col == 0 && from.row == dead_row {
        (vert + horiz).push(65u8)
    } else if (from.col == 0 && to.row == dead_row) || to.col < from.col {
        (horiz + vert).push(65u8)
    } else {
        (vert + horiz).push(65u8)
    }
}

pub open spec fn abs_diff(a: int, b: int) -> nat {
    if a >= b {
        (a - b) as nat
    } else {
        (b - a) as nat
    }
}

/// The key the pointer rests on after one press of `label`: the first key at
/// the position of the first key with that label.
pub open spec fn step_key(keys: Seq<Key>, label: u8) -> Key {
    let to = keys[find_label(keys, label)];
    keys[find_pos(keys, to.row as int, to.col as int)]
}

/// The full move string for typing `presses`, starting at `cur`.
pub open spec fn derive_moves(keys: Seq<Key>, dead_row: int, cur: Key, presses: Seq<u8>) -> Seq<u8>
    decreases presses.len(),
{
    if presses.len() == 0 {
        Seq::<u8>::empty()
    } else {
        let to = keys[find_label(keys, presses[0])];
        moves_for(cur, to, dead_row) + derive_moves(
            keys,
            dead_row,
            step_key(keys, presses[0]),
            presses.skip(1),
        )
    }
}

/// Where the pointer rests after typing `presses` from `cur`.
pub open spec fn end_key(keys: Seq<Key>, cur: Key, presses: Seq<u8>) -> Key
    decreases presses.len(),
{
    if presses.len() == 0 {
        cur
    } else {
        end_key(keys, step_key(keys, presses[0]), presses.skip(1))
    }
}

pub open spec fn labels_present(keys: Seq<Key>, presses: Seq<u8>) -> bool {
    forall|i: int| 0 <= i < presses.len() ==> find_label(keys, #[trigger] presses[i]) >= 0
}

pub proof fn lemma_derive_moves_snoc(
    keys: Seq<Key>,
    dead_row: int,
    cur: Key,
    presses: Seq<u8>,
    x: u8,
)
    ensures
        derive_moves(keys, dead_row, cur, presses.push(x)) =~= derive_moves(
            keys,
            dead_row,
            cur,
            presses,
        ) + moves_for(end_key(keys, cur, presses), keys[find_label(keys, x)], dead_row),
        end_key(keys, cur, presses.push(x)) == step_key(keys, x),
    decreases presses.len(),
{
    if presses.len() == 0 {
        let p1 = presses.push(x);
        assert(p1.len() == 1 && p1[0] == x);
        assert(p1.skip(1) =~= Seq::<u8>::empty());
        assert(derive_moves(keys, dead_row, step_key(keys, x), p1.skip(1)) =~= Seq::<u8>::empty());
        assert(derive_moves(keys, dead_row, cur, p1) =~= moves_for(
            cur,
            keys[find_label(keys, x)],
            dead_row,
        ) + derive_moves(keys, dead_row, step_key(keys, x), p1.skip(1)));
        assert(end_key(keys, cur, p1) == end_key(keys, step_key(keys, x), p1.skip(1)));
    } else {
        assert(presses.push(x)[0] == presses[0]);
        assert(presses.push(x).skip(1) =~= presses.skip(1).push(x));
        lemma_derive_moves_snoc(keys, dead_row, step_key(keys, presses[0]), presses.skip(1), x);
        assert(derive_moves(keys, dead_row, cur, presses.push(x)) =~= derive_moves(
            keys,
            dead_row,
            cur,
            presses,
        ) + moves_for(end_key(keys, cur, presses), keys[find_label(keys, x)], dead_row));
    }
}

/// Each key press derives at most six moves of symbol characters.
pub proof fn lemma_moves_for_shape(from: Key, to: Key, dead_row: int)
    requires
        0 <= from.row <= 3,
        0 <= from.col <= 2,
        0 <= to.row <= 3,
        0 <= to.col <= 2,
    ensures
        1 <= moves_for(from, to, dead_row).len() <= 6,
        all_syms(moves_for(from, to, dead_row)),
{
    let vert_b: u8 = if from.row > to.row {
        94u8
    } else {
        118u8
    };
    let horiz_b: u8 = if from.col > to.col {
        60u8
    } else {
        62u8
    };
    let vert = repeat_byte(vert_b, abs_diff(from.row as int, to.row as int));
    let horiz = repeat_byte(horiz_b, abs_diff(from.col as int, to.col as int));
    lemma_repeat_byte(vert_b, abs_diff(from.row as int, to.row as int));
    lemma_repeat_byte(horiz_b, abs_diff(from.col as int, to.col as int));
    assert(all_syms((vert + horiz).push(65u8)));
    assert(all_syms((horiz + vert).push(65u8)));
}

pub proof fn lemma_derive_moves_shape(keys: Seq<Key>, dead_row: int, cur: Key, presses: Seq<u8>)
    requires
        keys_bounded(keys),
        labels_present(keys, presses),
        0 <= cur.row <= 3,
        0 <= cur.col <= 2,
    ensures
        derive_moves(keys, dead_row, cur, presses).len() <= 6 * presses.len(),
        all_syms(derive_moves(keys, dead_row, cur, presses)),
        presses.len() >= 1 ==> derive_moves(keys, dead_row, cur, presses).len() >= 1,
    decreases presses.len(),
{
    if presses.len() > 0 {
        lemma_find_label_found(keys, presses[0]);
        let to = keys[find_label(keys, presses[0])];
        lemma_find_pos_exists(keys, find_label(keys, presses[0]));
        lemma_find_pos_found(keys, to.row as int, to.col as int);
        let nxt = step_key(keys, presses[0]);
        assert(labels_present(keys, presses.skip(1)) && all_syms(presses.skip(1))
            ==> true);
        assert(forall|i: int|
            0 <= i < presses.skip(1).len() ==> #[trigger] presses.skip(1)[i] == presses[i + 1]);
        lemma_derive_moves_shape(keys, dead_row, nxt, presses.skip(1));
        lemma_moves_for_shape(cur, to, dead_row);
        let m = moves_for(cur, to, dead_row);
        let rest = derive_moves(keys, dead_row, nxt, presses.skip(1));
        assert(all_syms(m + rest)) by {
            assert(forall|i: int|
                0 <= i < (m + rest).len() ==> (m + rest)[i] == if i < m.len() {
                    m[i]
                } else {
                    rest[i - m.len()]
                });
        }
    }
}

pub proof fn lemma_count_pairs_le(s: Seq<u8>, k: int)
    ensures
        s.len() == 0 ==> count_pairs(s, k) == 0,
        s.len() >= 1 ==> count_pairs(s, k) <= s.len() - 1,
    decreases s.len(),
{
    if s.len() >= 2 {
        lemma_count_pairs_le(s.drop_last(), k);
    }
}

/// The table of counts held at runtime, as mathematical numbers.
pub open spec fn view_counts(s: Seq<u64>) -> Seq<nat> {
    Seq::new(s.len(), |i: int| s[i] as nat)
}

fn sym_index(b: u8) -> (r: usize)
    ensures
        r as int == sym(b),
        r < 5,
{
    if b == 60 {
        0
    } else if b == 62 {
        1
    } else if b == 94 {
        2
    } else if b == 118 {
        3
    } else {
        4
    }
}

impl BasicKeyboard {
    /// Derives the move string for `keys` starting at the current selection
    /// and adds the counts of its adjacent move pairs (with the implicit
    /// leading `A`) to the table.
    #[verifier::rlimit(100)]
    pub fn derive_movements(&mut self, keys: &Vec<u8>, arrow_move_counts: &mut Vec<u64>)
        requires
            old(self).wf(),
            labels_present(old(self).keys@, keys@),
            old(arrow_move_counts)@.len() == 25,
            forall|k: int|
                0 <= k < 25 ==> old(arrow_move_counts)@[k] + 6 * keys@.len() + 1 <= u64::MAX,
        ensures
            final(self).keys == old(self).keys,
            final(self).dead_cell_row == old(self).dead_cell_row,
            final(self).wf(),
            final(arrow_move_counts)@.len() == 25,
            view_counts(final(arrow_move_counts)@) =~= table_add(
                view_counts(old(arrow_move_counts)@),
                pair_counts(
                    seq![65u8] + derive_moves(
                        old(self).keys@,
                        old(self).dead_cell_row as int,
                        old(self).keys@[old(self).selected_key as int],
                        keys@,
                    ),
                ),
            ),
            final(self).keys@[final(self).selected_key as int] == end_key(
                old(self).keys@,
                old(self).keys@[old(self).selected_key as int],
                keys@,
            ),
    {
        let ghost keys0 = self.keys@;
        let ghost dead = self.dead_cell_row as int;
        let ghost cur0 = self.keys@[self.selected_key as int];
        let mut output: Vec<u8> = Vec::new();
        output.push(65);
        let mut li: usize = 0;
        assert(keys@.take(0) =~= Seq::<u8>::empty());
        assert(output@ =~= seq![65u8] + derive_moves(keys0, dead, cur0, keys@.take(0)));
        while li < keys.len()
            invariant
                li <= keys@.len(),
                self.keys == old(self).keys,
                self.dead_cell_row == old(self).dead_cell_row,
                self.wf(),
                arrow_move_counts == old(arrow_move_counts),
                output@ == seq![65u8] + derive_moves(keys0, dead, cur0, keys@.take(li as int)),
                self.keys@[self.selected_key as int] == end_key(keys0, cur0, keys@.take(li as int)),
            decreases keys@.len() - li,
        {
            let label = keys[li];
            assert(keys@.take(li as int).push(label) =~= keys@.take(li + 1));
            let key_from = self.keys[self.selected_key].clone();
            proof {
                lemma_find_label_found(self.keys@, label);
            }
            let key_to = self.get_key(label);
            proof {
                assert(key_from == self.keys@[self.selected_key as int]);
                assert(0 <= key_from.row <= 3 && 0 <= key_from.col <= 2);
                assert(0 <= key_to.row <= 3 && 0 <= key_to.col <= 2);
            }
            let ghost mv = moves_for(key_from, key_to, dead);
            let mut movements: Vec<u8> = Vec::new();
            let vert_b: u8 = if key_from.row > key_to.row {
                94
            } else {
                118
            };
            let horiz_b: u8 = if key_from.col > key_to.col {
                60
            } else {
                62
            };
            let vert_n = if key_from.row > key_to.row {
                (key_from.row - key_to.row) as u32
            } else {
                (key_to.row - key_from.row) as u32
            };
            let horiz_n = if key_from.col > key_to.col {
                (key_from.col - key_to.col) as u32
            } else {
                (key_to.col - key_from.col) as u32
            };
            proof {
                lemma_repeat_byte(vert_b, abs_diff(key_from.row as int, key_to.row as int));
                lemma_repeat_byte(horiz_b, abs_diff(key_from.col as int, key_to.col as int));
            }
            if key_to.col == 0 && key_from.row == self.dead_cell_row {
                push_repeated(&mut movements, vert_b, vert_n);
                push_repeated(&mut movements, horiz_b, horiz_n);
            } else if (key_from.col == 0 && key_to.row == self.dead_cell_row) || key_to.col
                < key_from.col {
                push_repeated(&mut movements, horiz_b, horiz_n);
                push_repeated(&mut movements, vert_b, vert_n);
            } else {
                push_repeated(&mut movements, vert_b, vert_n);
                push_repeated(&mut movements, horiz_b, horiz_n);
            }
            movements.push(65);
            assert(movements@ =~= mv);
            proof {
                lemma_find_label_found(keys0, label);
                lemma_find_pos_exists(keys0, find_label(keys0, label));
                lemma_derive_moves_snoc(keys0, dead, cur0, keys@.take(li as int), label);
            }
            self.select_key_at(key_to.row, key_to.col);
            proof {
                lemma_find_pos_found(keys0, key_to.row as int, key_to.col as int);
                assert(self.keys@[self.selected_key as int] == step_key(keys0, label));
                assert(movements@.take(0) =~= Seq::<u8>::empty());
                assert(output@ =~= seq![65u8] + derive_moves(keys0, dead, cur0, keys@.take(li as int))
                    + movements@.take(0));
            }
            let mut mi: usize = 0;
            while mi < movements.len()
                invariant
                    mi <= movements@.len(),
                    output@ == seq![65u8] + derive_moves(keys0, dead, cur0, keys@.take(li as int))
                        + movements@.take(mi as int),
                    movements@ == mv,
                    self.keys == old(self).keys,
                    self.dead_cell_row == old(self).dead_cell_row,
                    self.selected_key < self.keys@.len(),
                    arrow_move_counts == old(arrow_move_counts),
                decreases movements@.len() - mi,
            {
                let b = movements[mi];
                output.push(b);
                assert(movements@.take(mi as int).push(b) =~= movements@.take(mi + 1));
                assert(output@ =~= seq![65u8] + derive_moves(keys0, dead, cur0, keys@.take(li as int))
                    + movements@.take(mi + 1));
                mi += 1;
            }
            assert(movements@.take(movements@.len() as int) =~= movements@);
            assert(output@ =~= seq![65u8] + derive_moves(keys0, dead, cur0, keys@.take(li + 1)));
            li += 1;
        }
        assert(keys@.take(keys@.len() as int) =~= keys@);
        let ghost full = output@;
        let ghost c0 = view_counts(arrow_move_counts@);
        // Record every adjacent pair of the derived string.
        proof {
            assert(full.len() <= 1 + 6 * keys@.len()) by {
                lemma_derive_moves_shape(keys0, dead, cur0, keys@);
            }
        }
        let mut i: usize = 1;
        while i < output.len()
            invariant
                1 <= i <= full.len() || (full.len() < 1 && i == 1),
                output@ == full,
                arrow_move_counts@.len() == 25,
                full.len() <= 1 + 6 * keys@.len(),
                forall|k: int| 0 <= k < 25 ==> c0[k] + 6 * keys@.len() + 1 <= u64::MAX,
                forall|k: int|
                    0 <= k < 25 ==> view_counts(arrow_move_counts@)[k] == c0[k] + count_pairs(
                        full.take(i as int),
                        k,
                    ),
            decreases full.len() - i,
        {
            let a = output[i - 1];
            let b = output[i];
            let idx = 5 * sym_index(a) + sym_index(b);
            proof {
                assert(full.take(i + 1).drop_last() =~= full.take(i as int));
                assert(full.take(i + 1).last() == b && full.take(i + 1)[i - 1] == a);
                lemma_count_pairs_le(full.take(i as int), pair_idx(a, b));
                assert(view_counts(arrow_move_counts@)[idx as int] == c0[idx as int] + count_pairs(
                    full.take(i as int),
                    pair_idx(a, b),
                ));
                assert(arrow_move_counts@[idx as int] + 1 <= u64::MAX);
            }
            let ghost cpre = arrow_move_counts@;
            arrow_move_counts[idx] = arrow_move_counts[idx] + 1;
            proof {
                assert(arrow_move_counts@ =~= cpre.update(idx as int, (cpre[idx as int] + 1) as u64));
                assert forall|k: int|
                    0 <= k < 25 implies view_counts(arrow_move_counts@)[k] == c0[k] + count_pairs(
                    full.take(i + 1),
                    k,
                ) by {
                    assert(count_pairs(full.take(i + 1), k) == count_pairs(full.take(i as int), k)
                        + if pair_idx(a, b) == k {
                        1nat
                    } else {
                        0nat
                    });
                    if k != idx as int {
                        assert(arrow_move_counts@[k] == cpre[k]);
                        assert(view_counts(cpre)[k] == c0[k] + count_pairs(full.take(i as int), k));
                    } else {
                        assert(arrow_move_counts@[k] == cpre[k] + 1);
                        assert(view_counts(cpre)[k] == c0[k] + count_pairs(full.take(i as int), k));
                    }
                }
            }
            i += 1;
        }
        proof {
            if full.len() >= 1 {
                assert(full.take(full.len() as int) =~= full);
            } else {
                assert(false);
            }
            assert(self.keys@[self.selected_key as int] == end_key(keys0, cur0, keys@));
        }
    }
}

// ---------------------------------------------------------------------------
// The delegation chain
// ---------------------------------------------------------------------------
/// A keypad layer that drives another keypad below it.
pub struct DelegatingKeyboard {
    pub keyboard: BasicKeyboard,
    pub delegate: Box<Keyboard>,
}

/// A chain of keypads: the numeric keypad at the bottom, directional layers
/// above it.
pub enum Keyboard {
    Basic(BasicKeyboard),
    Delegating(DelegatingKeyboard),
}

pub open spec fn chain_wf(kb: Keyboard) -> bool
    decreases kb,
{
    match kb {
        Keyboard::Basic(b) => b.wf(),
        Keyboard::Delegating(d) => d.keyboard.wf() && chain_wf(*d.delegate),
    }
}

/// How many directional layers sit above the base keypad.
pub open spec fn chain_depth(kb: Keyboard) -> nat
    decreases kb,
{
    match kb {
        Keyboard::Basic(b) => 0,
        Keyboard::Delegating(d) => 1 + chain_depth(*d.delegate),
    }
}

/// The keypad at the bottom of the chain.
pub open spec fn chain_base(kb: Keyboard) -> BasicKeyboard
    decreases kb,
{
    match kb {
        Keyboard::Basic(b) => b,
        Keyboard::Delegating(d) => chain_base(*d.delegate),
    }
}

/// Whether `movement` can be pressed on the whole chain without leaving any
/// layer's keypad.
pub open spec fn chain_press_ok(kb: Keyboard, movement: u8) -> bool
    decreases kb,
{
    match kb {
        Keyboard::Basic(b) => press_ok(b.keys@, b.selected_key as int, movement),
        Keyboard::Delegating(d) => press_ok(d.keyboard.keys@, d.keyboard.selected_key as int, movement)
            && (movement == 65 ==> chain_press_ok(
            *d.delegate,
            d.keyboard.keys@[d.keyboard.selected_key as int].label,
        )),
    }
}

/// What pressing `movement` on the chain emits at the very bottom.
pub open spec fn chain_press_out(kb: Keyboard, movement: u8) -> Seq<u8>
    decreases kb,
{
    match kb {
        Keyboard::Basic(b) => press_out(b.keys@, b.selected_key as int, movement),
        Keyboard::Delegating(d) => if movement == 65 {
            chain_press_out(*d.delegate, d.keyboard.keys@[d.keyboard.selected_key as int].label)
        } else {
            Seq::<u8>::empty()
        },
    }
}

/// How one press moves the chain from `pre` to `post`: each layer's pointer
/// moves, and only an `A` press reaches the layer below.
pub open spec fn chain_press_rel(pre: Keyboard, movement: u8, post: Keyboard) -> bool
    decreases pre,
{
    match pre {
        Keyboard::Basic(b) => match post {
            Keyboard::Basic(b2) => b2.keys == b.keys && b2.dead_cell_row == b.dead_cell_row
                && b2.selected_key as int == press_sel(b.keys@, b.selected_key as int, movement),
            _ => false,
        },
        Keyboard::Delegating(d) => match post {
            Keyboard::Delegating(d2) => {
                &&& d2.keyboard.keys == d.keyboard.keys
                &&& d2.keyboard.dead_cell_row == d.keyboard.dead_cell_row
                &&& d2.keyboard.selected_key as int == press_sel(
                    d.keyboard.keys@,
                    d.keyboard.selected_key as int,
                    movement,
                )
                &&& if movement == 65 {
                    chain_press_rel(
                        *d.delegate,
                        d.keyboard.keys@[d.keyboard.selected_key as int].label,
                        *d2.delegate,
                    )
                } else {
                    *d2.delegate == *d.delegate
                }
            },
            _ => false,
        },
    }
}

impl DelegatingKeyboard {
    /// A directional keypad layer over `delegate`, with `A` selected and the
    /// dead cell at the top left.
    pub fn arrow_keyboard(delegate: Box<Keyboard>) -> (r: DelegatingKeyboard)
        ensures
            r.keyboard.keys@ =~= arrow_keys(),
            r.keyboard.selected_key == 1,
            r.keyboard.dead_cell_row == 0,
            r.delegate == delegate,
            r.keyboard.wf(),
    {
        let mut keys = Vec::new();
        keys.push(Key::new(94, 0, 1));
        keys.push(Key::new(65, 0, 2));
        keys.push(Key::new(60, 1, 0));
        keys.push(Key::new(118, 1, 1));
        keys.push(Key::new(62, 1, 2));
        let r = DelegatingKeyboard { keyboard: BasicKeyboard { selected_key: 1, keys, dead_cell_row: 0 }, delegate };
        assert(r.keyboard.keys@ =~= arrow_keys());
        assert(r.keyboard.wf()) by {
            assert(forall|i: int|
                0 <= i < arrow_keys().len() ==> 0 <= (#[trigger] arrow_keys()[i]).row <= 3 && 0
                    <= arrow_keys()[i].col <= 2);
        }
        r
    }

    /// Presses one movement on this layer; an `A` press forwards the selected
    /// key to the layer below.
    pub fn press(&mut self, movement: u8) -> (output: Vec<u8>)
        requires
            chain_wf(Keyboard::Delegating(*old(self))),
            chain_press_ok(Keyboard::Delegating(*old(self)), movement),
        ensures
            chain_press_rel(
                Keyboard::Delegating(*old(self)),
                movement,
                Keyboard::Delegating(*final(self)),
            ),
            output@ == chain_press_out(Keyboard::Delegating(*old(self)), movement),
            chain_wf(Keyboard::Delegating(*final(self))),
        decreases *old(self),
    {
        let out = self.keyboard.press(movement);
        if out.len() == 0 {
            out
        } else {
            let label = out[0];
            self.delegate.press(label)
        }
    }
}

impl Keyboard {
    /// Presses one movement on the outermost layer of the chain.
    pub fn press(&mut self, movement: u8) -> (output: Vec<u8>)
        requires
            chain_wf(*old(self)),
            chain_press_ok(*old(self), movement),
        ensures
            chain_press_rel(*old(self), movement, *final(self)),
            output@ == chain_press_out(*old(self), movement),
            chain_wf(*final(self)),
        decreases *old(self),
    {
        match self {
            Keyboard::Basic(b) => b.press(movement),
            Keyboard::Delegating(d) => d.press(movement),
        }
    }
}

/// Every layer above the base is the directional keypad with `A` selected
/// and the dead cell at the top left.
pub open spec fn chain_arrow_layers(kb: Keyboard) -> bool
    decreases kb,
{
    match kb {
        Keyboard::Basic(b) => true,
        Keyboard::Delegating(d) => d.keyboard.keys@ =~= arrow_keys() && d.keyboard.selected_key
            == 1 && d.keyboard.dead_cell_row == 0 && chain_arrow_layers(*d.delegate),
    }
}

/// Builds a chain of `keyboard_count` directional layers over the numeric
/// keypad.
pub fn create_keyboard_chain(keyboard_count: i32) -> (r: Keyboard)
    requires
        keyboard_count >= 0,
    ensures
        chain_wf(r),
        chain_depth(r) == keyboard_count,
        chain_arrow_layers(r),
        chain_base(r).keys@ =~= numeric_keys(),
        chain_base(r).selected_key == 10,
        chain_base(r).dead_cell_row == 3,
    decreases keyboard_count,
{
    if keyboard_count == 0 {
        Keyboard::Basic(BasicKeyboard::new())
    } else {
        Keyboard::Delegating(
            DelegatingKeyboard::arrow_keyboard(Box::new(create_keyboard_chain(keyboard_count - 1))),
        )
    }
}

pub proof fn lemma_prop_sum_mono(c: Seq<nat>, q: int, n1: int, n2: int)
    requires
        n1 <= n2,
    ensures
        prop_sum(c, q, n1) <= prop_sum(c, q, n2),
    decreases n2 - n1,
{
    if n1 < n2 {
        lemma_prop_sum_mono(c, q, n1, n2 - 1);
    }
}

pub proof fn lemma_sum_prefix_entry(c: Seq<nat>, q: int, n: int)
    requires
        0 <= q < n,
    ensures
        c[q] <= sum_prefix(c, n),
    decreases n,
{
    if q < n - 1 {
        lemma_sum_prefix_entry(c, q, n - 1);
    }
}

pub proof fn lemma_count_pairs_take_le(s: Seq<u8>, i: int, k: int)
    requires
        0 <= i <= s.len(),
    ensures
        count_pairs(s.take(i), k) <= count_pairs(s, k),
    decreases s.len(),
{
    if i < s.len() {
        if s.len() >= 1 {
            assert(s.drop_last().take(i) =~= s.take(i));
            lemma_count_pairs_take_le(s.drop_last(), i, k);
        }
    } else {
        assert(s.take(i) =~= s);
    }
}

pub proof fn lemma_pow4_mono(a: nat, b: nat)
    requires
        a <= b,
    ensures
        pow4(a) <= pow4(b),
    decreases b,
{
    if a == 0 {
        lemma_pow4_positive(b);
    } else {
        lemma_pow4_mono((a - 1) as nat, (b - 1) as nat);
    }
}

/// The canonical move string of pair `k`, as runtime bytes.
fn pair_moves_vec(k: usize) -> (r: Vec<u8>)
    requires
        k < 25,
    ensures
        r@ == pair_moves(k as int),
        2 <= r@.len(),
{
    let r: Vec<u8> = match k {
        0 => vec![65, 65],
        1 => vec![65, 62, 62, 65],
        2 => vec![65, 62, 94, 65],
        3 => vec![65, 62, 65],
        4 => vec![65, 62, 62, 94, 65],
        5 => vec![65, 60, 60, 65],
        6 => vec![65, 65],
        7 => vec![65, 60, 94, 65],
        8 => vec![65, 60, 65],
        9 => vec![65, 94, 65],
        10 => vec![65, 118, 60, 65],
        11 => vec![65, 118, 62, 65],
        12 => vec![65, 65],
        13 => vec![65, 118, 65],
        14 => vec![65, 62, 65],
        15 => vec![65, 60, 65],
        16 => vec![65, 62, 65],
        17 => vec![65, 94, 65],
        18 => vec![65, 65],
        19 => vec![65, 94, 62, 65],
        20 => vec![65, 118, 60, 60, 65],
        21 => vec![65, 118, 65],
        22 => vec![65, 60, 65],
        23 => vec![65, 60, 118, 65],
        _ => vec![65, 65],
    };
    assert(r@ =~= pair_moves(k as int));
    r
}

/// Replaces the table by its one-layer propagation: every counted pair is
/// re-expressed as the adjacent pairs of its canonical move string.
#[verifier::rlimit(100)]
fn propagate_counts(counts: &mut Vec<u64>)
    requires
        old(counts)@.len() == 25,
        table_total(propagate(view_counts(old(counts)@))) <= u64::MAX,
    ensures
        final(counts)@.len() == 25,
        view_counts(final(counts)@) =~= propagate(view_counts(old(counts)@)),
{
    let ghost c = view_counts(old(counts)@);
    let mut new_counts: Vec<u64> = Vec::new();
    let mut z: usize = 0;
    while z < 25
        invariant
            new_counts@.len() == z <= 25,
            forall|q: int| 0 <= q < z ==> new_counts@[q] == 0,
        decreases 25 - z,
    {
        new_counts.push(0);
        z += 1;
    }
    let ghost bound = table_total(propagate(c));
    proof {
        assert forall|q: int| 0 <= q < 25 implies prop_sum(c, q, 25) <= bound by {
            lemma_sum_prefix_entry(propagate(c), q, 25);
        }
        assert forall|q: int| 0 <= q < 25 implies view_counts(new_counts@)[q] == prop_sum(
            c,
            q,
            0,
        ) by {}
    }
    let mut p: usize = 0;
    while p < 25
        invariant
            p <= 25,
            counts == old(counts),
            new_counts@.len() == 25,
            forall|q: int|
                0 <= q < 25 ==> view_counts(new_counts@)[q] == #[trigger] prop_sum(c, q, p as int),
            forall|q: int| 0 <= q < 25 ==> #[trigger] prop_sum(c, q, 25) <= bound <= u64::MAX,
        decreases 25 - p,
    {
        let cp = counts[p];
        assert(cp == c[p as int]);
        if cp != 0 {
            let mv = pair_moves_vec(p);
            proof {
                assert forall|q: int|
                    0 <= q < 25 implies view_counts(new_counts@)[q] == prop_sum(c, q, p as int) + c[p as int]
                    * count_pairs(mv@.take(1), q) by {
                    assert(count_pairs(mv@.take(1), q) == 0);
                }
            }
            let mut i: usize = 1;
            while i < mv.len()
                invariant
                    1 <= i <= mv@.len(),
                    mv@ == pair_moves(p as int),
                    cp == c[p as int],
                    p < 25,
                    new_counts@.len() == 25,
                    forall|q: int|
                        0 <= q < 25 ==> view_counts(new_counts@)[q] == #[trigger] prop_sum(
                            c,
                            q,
                            p as int,
                        ) + c[p as int] * count_pairs(mv@.take(i as int), q),
                    forall|q: int| 0 <= q < 25 ==> #[trigger] prop_sum(c, q, 25) <= bound <= u64::MAX,
                decreases mv@.len() - i,
            {
                let a = mv[i - 1];
                let b = mv[i];
                let idx = 5 * sym_index(a) + sym_index(b);
                proof {
                    assert(mv@.take(i + 1).drop_last() =~= mv@.take(i as int));
                    assert(mv@.take(i + 1).last() == b && mv@.take(i + 1)[i - 1] == a);
                    lemma_count_pairs_take_le(mv@, i + 1, pair_idx(a, b));
                    let full_cnt = count_pairs(mv@, pair_idx(a, b));
                    assert(c[p as int] * count_pairs(mv@.take(i + 1), pair_idx(a, b)) <= c[p as int]
                        * full_cnt) by (nonlinear_arith)
                        requires
                            count_pairs(mv@.take(i + 1), pair_idx(a, b)) <= full_cnt,
                    ;
                    assert(prop_sum(c, pair_idx(a, b), p as int) + c[p as int] * full_cnt
                        <= prop_sum(c, pair_idx(a, b), p + 1));
                    lemma_prop_sum_mono(c, pair_idx(a, b), p + 1, 25);
                    let cnt_i = count_pairs(mv@.take(i as int), pair_idx(a, b));
                    assert(count_pairs(mv@.take(i + 1), pair_idx(a, b)) == cnt_i + 1);
                    assert(c[p as int] * (cnt_i + 1nat) == c[p as int] * cnt_i + c[p as int])
                        by (nonlinear_arith);
                    assert(new_counts@[idx as int] + cp == prop_sum(c, pair_idx(a, b), p as int)
                        + c[p as int] * count_pairs(mv@.take(i + 1), pair_idx(a, b)));
                    assert(new_counts@[idx as int] + cp <= u64::MAX);
                }
                let ghost npre = new_counts@;
                new_counts[idx] = new_counts[idx] + cp;
                proof {
                    assert(new_counts@ =~= npre.update(idx as int, (npre[idx as int] + cp) as u64));
                    assert forall|q: int|
                        0 <= q < 25 implies view_counts(new_counts@)[q] == prop_sum(c, q, p as int)
                        + c[p as int] * count_pairs(mv@.take(i + 1), q) by {
                        assert(count_pairs(mv@.take(i + 1), q) == count_pairs(mv@.take(i as int), q)
                            + if pair_idx(a, b) == q {
                            1nat
                        } else {
                            0nat
                        });
                        if q != idx as int {
                            assert(new_counts@[q] == npre[q]);
                        }
                    }
                }
                i += 1;
            }
            proof {
                assert(mv@.take(mv@.len() as int) =~= mv@);
                assert forall|q: int|
                    0 <= q < 25 implies view_counts(new_counts@)[q] == prop_sum(c, q, p + 1) by {
                    assert(prop_sum(c, q, p + 1) == prop_sum(c, q, p as int) + c[p as int]
                        * count_pairs(pair_moves(p as int), q));
                }
            }
        } else {
            proof {
                assert forall|q: int|
                    0 <= q < 25 implies view_counts(new_counts@)[q] == prop_sum(c, q, p + 1) by {
                    assert(view_counts(new_counts@)[q] == prop_sum(c, q, p as int));
                    assert(c[p as int] * count_pairs(pair_moves(p as int), q) == 0)
                        by (nonlinear_arith)
                        requires
                            c[p as int] == 0,
                    ;
                    assert(prop_sum(c, q, p + 1) == prop_sum(c, q, p as int) + c[p as int]
                        * count_pairs(pair_moves(p as int), q));
                }
            }
        }
        p += 1;
    }
    let ghost nfinal = new_counts@;
    *counts = new_counts;
    assert forall|q: int| 0 <= q < 25 implies view_counts(counts@)[q] == propagate(c)[q] by {
        assert(counts@ == nfinal);
        assert(view_counts(nfinal)[q] == prop_sum(c, q, 25));
    }
    assert(view_counts(counts@) =~= propagate(c));
}

/// The move string the chain's base keypad derives for `presses`.
pub open spec fn base_moves(kb: Keyboard, presses: Seq<u8>) -> Seq<u8> {
    derive_moves(
        chain_base(kb).keys@,
        chain_base(kb).dead_cell_row as int,
        chain_base(kb).keys@[chain_base(kb).selected_key as int],
        presses,
    )
}

pub proof fn lemma_chain_base_wf(kb: Keyboard)
    requires
        chain_wf(kb),
    ensures
        chain_base(kb).wf(),
    decreases kb,
{
    match kb {
        Keyboard::Basic(b) => {},
        Keyboard::Delegating(d) => {
            lemma_chain_base_wf(*d.delegate);
        },
    }
}

pub proof fn lemma_pow4_values()
    ensures
        pow4(0) == 1,
        pow4(2) == 16,
        pow4(25) == 1125899906842624,
{
    reveal_with_fuel(pow4, 26);
}

impl DelegatingKeyboard {
    /// Derives the base move string, then propagates the pair counts through
    /// this layer and every layer below it.
    pub fn derive_movements(&mut self, keys: &Vec<u8>, arrow_move_counts: &mut Vec<u64>)
        requires
            chain_wf(Keyboard::Delegating(*old(self))),
            labels_present(chain_base(Keyboard::Delegating(*old(self))).keys@, keys@),
            old(arrow_move_counts)@.len() == 25,
            forall|k: int| 0 <= k < 25 ==> old(arrow_move_counts)@[k] == 0,
            (1 + 6 * keys@.len()) * pow4(chain_depth(Keyboard::Delegating(*old(self))))
                <= u64::MAX,
        ensures
            chain_wf(Keyboard::Delegating(*final(self))),
            final(arrow_move_counts)@.len() == 25,
            view_counts(final(arrow_move_counts)@) =~= propagate_n(
                pair_counts(seq![65u8] + base_moves(Keyboard::Delegating(*old(self)), keys@)),
                chain_depth(Keyboard::Delegating(*old(self))),
            ),
        decreases *old(self),
    {
        let ghost kb0 = Keyboard::Delegating(*old(self));
        let ghost depth = chain_depth(kb0);
        let ghost m = base_moves(kb0, keys@);
        proof {
            lemma_pow4_positive((depth - 1) as nat);
            lemma_pow4_mono((depth - 1) as nat, depth);
            assert((1 + 6 * keys@.len()) * pow4((depth - 1) as nat) <= (1 + 6 * keys@.len())
                * pow4(depth)) by (nonlinear_arith)
                requires
                    pow4((depth - 1) as nat) <= pow4(depth),
            ;
        }
        self.delegate.derive_movements(keys, arrow_move_counts);
        let ghost c1 = view_counts(arrow_move_counts@);
        proof {
            assert(c1 =~= propagate_n(pair_counts(seq![65u8] + m), (depth - 1) as nat));
            lemma_chain_base_wf(kb0);
            let base = chain_base(kb0);
            lemma_derive_moves_shape(
                base.keys@,
                base.dead_cell_row as int,
                base.keys@[base.selected_key as int],
                keys@,
            );
            lemma_propagate_n_pc(m, depth);
            lemma_total_pair_counts(seq![65u8] + expand_n(m, depth));
            assert(propagate(c1) =~= propagate_n(pair_counts(seq![65u8] + m), depth));
            assert(table_total(propagate(c1)) == expand_n(m, depth).len()) by {
                assert(propagate(c1) == pair_counts(seq![65u8] + expand_n(m, depth)));
            }
            assert(m.len() * pow4(depth) <= 6 * keys@.len() * pow4(depth)) by (nonlinear_arith)
                requires
                    m.len() <= 6 * keys@.len(),
                    pow4(depth) >= 0,
            ;
            assert((1 + 6 * keys@.len()) * pow4(depth) == pow4(depth) + 6 * keys@.len() * pow4(
                depth,
            )) by (nonlinear_arith);
            lemma_pow4_positive(depth);
            assert(table_total(propagate(c1)) <= u64::MAX);
        }
        propagate_counts(arrow_move_counts);
    }
}

impl Keyboard {
    /// Fills the zeroed pair-count table for typing `keys` through the whole
    /// chain: the base keypad's derived move pairs, propagated once per
    /// directional layer.
    pub fn derive_movements(&mut self, keys: &Vec<u8>, arrow_move_counts: &mut Vec<u64>)
        requires
            chain_wf(*old(self)),
            labels_present(chain_base(*old(self)).keys@, keys@),
            old(arrow_move_counts)@.len() == 25,
            forall|k: int| 0 <= k < 25 ==> old(arrow_move_counts)@[k] == 0,
            (1 + 6 * keys@.len()) * pow4(chain_depth(*old(self))) <= u64::MAX,
        ensures
            chain_wf(*final(self)),
            final(arrow_move_counts)@.len() == 25,
            view_counts(final(arrow_move_counts)@) =~= propagate_n(
                pair_counts(seq![65u8] + base_moves(*old(self), keys@)),
                chain_depth(*old(self)),
            ),
        decreases *old(self),
    {
        let ghost kb0 = *old(self);
        match self {
            Keyboard::Basic(b) => {
                proof {
                    lemma_pow4_values();
                    assert((1 + 6 * keys@.len()) * pow4(0) == 1 + 6 * keys@.len())
                        by (nonlinear_arith)
                        requires
                            pow4(0) == 1,
                    ;
                }
                b.derive_movements(keys, arrow_move_counts);
                proof {
                    let pc = pair_counts(seq![65u8] + base_moves(kb0, keys@));
                    assert(view_counts(arrow_move_counts@) =~= propagate_n(pc, 0)) by {
                        assert(view_counts(arrow_move_counts@) =~= table_add(
                            view_counts(old(arrow_move_counts)@),
                            pc,
                        ));
                        assert(forall|k: int|
                            0 <= k < 25 ==> table_add(view_counts(old(arrow_move_counts)@), pc)[k]
                                == pc[k]);
                    }
                }
            },
            Keyboard::Delegating(d) => {
                d.derive_movements(keys, arrow_move_counts);
            },
        }
    }
}

// ---------------------------------------------------------------------------
// The solver
// ---------------------------------------------------------------------------
/// The move string the numeric keypad derives for `code`, starting on `A`.
pub open spec fn numeric_moves(code: Seq<u8>) -> Seq<u8> {
    derive_moves(numeric_keys(), 3, numeric_keys()[10], code)
}

/// A code the numeric keypad can type: non-empty, every label on the keypad.
pub open spec fn valid_code(code: Seq<u8>) -> bool {
    code.len() >= 1 && labels_present(numeric_keys(), code)
}

/// The press count at the outermost layer of a chain with `robots`
/// directional layers, as the pairwise aggregator computes it from the
/// canonical per-pair move table.  The table's tie-break order is chosen so
/// that this count is the minimum over all press sequences that type the
/// code; that minimality is checked against the known-optimal example
/// sequences by the tests rather than proved, since it rests on the
/// empirically chosen tie-break rule.
pub open spec fn shortest_presses(code: Seq<u8>, robots: nat) -> nat {
    table_total(propagate_n(pair_counts(seq![65u8] + numeric_moves(code)), robots))
}

pub proof fn lemma_numeric_keys_bounded()
    ensures
        keys_bounded(numeric_keys()),
{
    assert(forall|i: int|
        0 <= i < numeric_keys().len() ==> 0 <= (#[trigger] numeric_keys()[i]).row <= 3 && 0
            <= numeric_keys()[i].col <= 2);
}

/// The aggregator's total equals the length of the literal move string at
/// that depth: the pair-count shortcut computes exactly what full expansion
/// would.
pub proof fn lemma_shortest_is_expansion_length(code: Seq<u8>, robots: nat)
    requires
        valid_code(code),
    ensures
        shortest_presses(code, robots) == expand_n(numeric_moves(code), robots).len(),
        all_syms(numeric_moves(code)),
        numeric_moves(code).len() <= 6 * code.len(),
        shortest_presses(code, robots) <= 6 * code.len() * pow4(robots),
{
    lemma_numeric_keys_bounded();
    lemma_derive_moves_shape(numeric_keys(), 3, numeric_keys()[10], code);
    let m = numeric_moves(code);
    lemma_propagate_n_pc(m, robots);
    lemma_total_pair_counts(seq![65u8] + expand_n(m, robots));
    assert(m.len() * pow4(robots) <= 6 * code.len() * pow4(robots)) by (nonlinear_arith)
        requires
            m.len() <= 6 * code.len(),
            pow4(robots) >= 0,
    ;
}

/// Increasing the chain depth never decreases the minimal press count: every
/// extra layer expands each press into at least one press.
pub proof fn lemma_depth_monotonic(code: Seq<u8>, d1: nat, d2: nat)
    requires
        valid_code(code),
        d1 <= d2,
    ensures
        shortest_presses(code, d1) <= shortest_presses(code, d2),
{
    lemma_shortest_is_expansion_length(code, d1);
    lemma_shortest_is_expansion_length(code, d2);
    lemma_expand_n_monotonic(numeric_moves(code), d1, d2);
}

pub proof fn lemma_sum_prefix_mono(c: Seq<nat>, n1: int, n2: int)
    requires
        n1 <= n2,
    ensures
        sum_prefix(c, n1) <= sum_prefix(c, n2),
    decreases n2 - n1,
{
    if n1 < n2 {
        lemma_sum_prefix_mono(c, n1, n2 - 1);
    }
}

/// The canonical press count for one code through `directional_robot_count`
/// directional layers; see `shortest_presses` for what the value means.
pub fn find_shortest_bytes(code: &Vec<u8>, directional_robot_count: i32) -> (r: i64)
    requires
        valid_code(code@),
        0 <= directional_robot_count,
        (1 + 6 * code@.len()) * pow4(directional_robot_count as nat) <= i64::MAX,
    ensures
        r == shortest_presses(code@, directional_robot_count as nat),
{
    let ghost robots = directional_robot_count as nat;
    let mut arrow_move_counts: Vec<u64> = Vec::new();
    let mut z: usize = 0;
    while z < 25
        invariant
            arrow_move_counts@.len() == z <= 25,
            forall|q: int| 0 <= q < z ==> arrow_move_counts@[q] == 0,
        decreases 25 - z,
    {
        arrow_move_counts.push(0);
        z += 1;
    }
    let mut chain = create_keyboard_chain(directional_robot_count);
    let ghost chain0 = chain;
    proof {
        assert(chain_base(chain0).keys@ == numeric_keys());
        lemma_shortest_is_expansion_length(code@, robots);
    }
    chain.derive_movements(code, &mut arrow_move_counts);
    let ghost cfinal = view_counts(arrow_move_counts@);
    proof {
        assert(base_moves(chain0, code@) == numeric_moves(code@));
        assert(cfinal =~= propagate_n(pair_counts(seq![65u8] + numeric_moves(code@)), robots));
        assert(table_total(cfinal) == shortest_presses(code@, robots));
        assert(6 * code@.len() * pow4(robots) <= (1 + 6 * code@.len()) * pow4(robots))
            by (nonlinear_arith)
            requires
                pow4(robots) >= 0,
        {
            lemma_pow4_positive(robots);
        }
    }
    let mut total: u64 = 0;
    let mut i: usize = 0;
    while i < 25
        invariant
            i <= 25,
            arrow_move_counts@.len() == 25,
            cfinal == view_counts(arrow_move_counts@),
            total == sum_prefix(cfinal, i as int),
            table_total(cfinal) <= i64::MAX,
        decreases 25 - i,
    {
        proof {
            lemma_sum_prefix_mono(cfinal, i + 1, 25);
        }
        total = total + arrow_move_counts[i];
        i += 1;
    }
    total as i64
}

/// The canonical press count for one code line; see `shortest_presses`.
pub fn find_shortest(code: &String, directional_robot_count: i32) -> (r: i64)
    requires
        code.is_ascii(),
        valid_code(crate::text::ascii_bytes(code@)),
        0 <= directional_robot_count,
        (1 + 6 * code@.len()) * pow4(directional_robot_count as nat) <= i64::MAX,
    ensures
        r == shortest_presses(
            crate::text::ascii_bytes(code@),
            directional_robot_count as nat,
        ),
{
    let bytes = crate::text::to_bytes(code.as_str());
    find_shortest_bytes(&bytes, directional_robot_count)
}

/// One input line: three digits and a terminal `A`.
pub open spec fn code_line_ok(l: Seq<u8>) -> bool {
    l.len() == 4 && crate::text::all_digits(l.take(3)) && l[3] == 65
}

pub open spec fn day21_input_ok(s: Seq<u8>) -> bool {
    forall|i: int|
        0 <= i < crate::text::lines_of(s).len() ==> code_line_ok(
            #[trigger] crate::text::lines_of(s)[i],
        )
}

/// The sum over all lines of (numeric prefix) times (minimal press count).
pub open spec fn complexity_sum(ls: Seq<Seq<u8>>, robots: nat) -> int
    decreases ls.len(),
{
    if ls.len() == 0 {
        0
    } else {
        complexity_sum(ls.drop_last(), robots) + crate::text::dec_value(ls.last().take(3))
            * shortest_presses(ls.last(), robots)
    }
}

/// Every digit and `A` is on the numeric keypad.
pub proof fn lemma_numeric_label(b: u8)
    requires
        48 <= b <= 57 || b == 65,
    ensures
        find_label(numeric_keys(), b) >= 0,
{
    let keys = numeric_keys();
    if b == 55 {
        lemma_find_label_is_first(keys, b, 0);
    } else if b == 56 {
        lemma_find_label_is_first(keys, b, 1);
    } else if b == 57 {
        lemma_find_label_is_first(keys, b, 2);
    } else if b == 52 {
        lemma_find_label_is_first(keys, b, 3);
    } else if b == 53 {
        lemma_find_label_is_first(keys, b, 4);
    } else if b == 54 {
        lemma_find_label_is_first(keys, b, 5);
    } else if b == 49 {
        lemma_find_label_is_first(keys, b, 6);
    } else if b == 50 {
        lemma_find_label_is_first(keys, b, 7);
    } else if b == 51 {
        lemma_find_label_is_first(keys, b, 8);
    } else if b == 48 {
        lemma_find_label_is_first(keys, b, 9);
    } else {
        lemma_find_label_is_first(keys, b, 10);
    }
}

#[verifier::rlimit(100)]
fn complexity_total(ls: &Vec<Vec<u8>>, robots: i32) -> (r: u128)
    requires
        0 <= robots <= 25,
        forall|i: int| 0 <= i < ls@.len() ==> code_line_ok((#[trigger] ls@[i])@),
        ls@.len() <= 100000001,
    ensures
        r == complexity_sum(Seq::new(ls@.len(), |i: int| ls@[i]@), robots as nat),
{
    let ghost gls = Seq::new(ls@.len(), |i: int| ls@[i]@);
    let mut sum: u128 = 0;
    let mut i: usize = 0;
    proof {
        assert(gls.take(0) =~= Seq::<Seq<u8>>::empty());
    }
    while i < ls.len()
        invariant
            i <= ls@.len(),
            sum == complexity_sum(gls.take(i as int), robots as nat),
            sum <= i * 27021597764222976000,
        decreases ls@.len() - i,
    {
        let line = &ls[i];
        proof {
            assert(code_line_ok(line@));
            assert forall|j: int| 0 <= j < line@.len() implies find_label(
                numeric_keys(),
                #[trigger] line@[j],
            ) >= 0 by {
                if j < 3 {
                    assert(crate::text::is_digit_byte(line@.take(3)[j]));
                    lemma_numeric_label(line@[j]);
                } else {
                    lemma_numeric_label(65);
                }
            }
            assert(valid_code(line@));
            lemma_pow4_values();
            lemma_pow4_mono(robots as nat, 25);
            assert((1 + 6 * line@.len()) * pow4(robots as nat) <= 25 * 1125899906842624)
                by (nonlinear_arith)
                requires
                    line@.len() == 4,
                    pow4(robots as nat) <= 1125899906842624,
                    pow4(robots as nat) >= 0,
            ;
            assert(line@.subrange(0, 3) =~= line@.take(3));
            crate::text::lemma_dec_value_bound(line@.take(3));
            assert(crate::text::pow10(3) == 1000) by {
                reveal_with_fuel(crate::text::pow10, 5);
            }
        }
        let numeric = crate::text::parse_u64(line, 0, 3);
        let shortest = find_shortest_bytes(line, robots);
        proof {
            lemma_shortest_is_expansion_length(line@, robots as nat);
            assert(shortest <= 24 * pow4(robots as nat)) by (nonlinear_arith)
                requires
                    shortest <= 6 * line@.len() * pow4(robots as nat),
                    line@.len() == 4,
                    pow4(robots as nat) >= 0,
            ;
            assert(24 * pow4(robots as nat) <= 24 * 1125899906842624);
            assert(numeric * shortest <= 27021597764222976000) by (nonlinear_arith)
                requires
                    0 <= numeric < 1000,
                    0 <= shortest <= 27021597764222976,
            ;
            assert((i + 1) * 27021597764222976000 <= 100000001 * 27021597764222976000)
                by (nonlinear_arith)
                requires
                    i + 1 <= 100000001,
            ;
            assert(i * 27021597764222976000 + 27021597764222976000 == (i + 1)
                * 27021597764222976000) by (nonlinear_arith);
            assert(gls.take(i + 1).drop_last() =~= gls.take(i as int));
            assert(gls.take(i + 1).last() == line@);
        }
        sum = sum + (numeric as u128) * (shortest as u128);
        i += 1;
    }
    proof {
        assert(gls.take(ls@.len() as int) =~= gls);
    }
    sum
}

/// The summed complexity of all input lines at chain depth two.
pub fn part1(input: &String) -> (r: String)
    requires
        input.is_ascii(),
        input@.len() <= 100000000,
        day21_input_ok(crate::text::ascii_bytes(input@)),
    ensures
        r@ == crate::text::dec_chars_u(
            complexity_sum(crate::text::lines_of(crate::text::ascii_bytes(input@)), 2),
        ),
{
    let bytes = crate::text::to_bytes(input.as_str());
    let ls = crate::text::lines(&bytes);
    proof {
        crate::text::lemma_lines_count(bytes@);
        assert(Seq::new(ls@.len(), |i: int| ls@[i]@) =~= crate::text::lines_of(bytes@));
        assert forall|i: int| 0 <= i < ls@.len() implies code_line_ok((#[trigger] ls@[i])@) by {
            assert(code_line_ok(crate::text::lines_of(crate::text::ascii_bytes(input@))[i]));
        }
    }
    let total = complexity_total(&ls, 2);
    crate::text::u128_to_string(total)
}

/// The summed complexity of all input lines at chain depth twenty-five.
pub fn part2(input: &String) -> (r: String)
    requires
        input.is_ascii(),
        input@.len() <= 100000000,
        day21_input_ok(crate::text::ascii_bytes(input@)),
    ensures
        r@ == crate::text::dec_chars_u(
            complexity_sum(crate::text::lines_of(crate::text::ascii_bytes(input@)), 25),
        ),
{
    let bytes = crate::text::to_bytes(input.as_str());
    let ls = crate::text::lines(&bytes);
    proof {
        crate::text::lemma_lines_count(bytes@);
        assert(Seq::new(ls@.len(), |i: int| ls@[i]@) =~= crate::text::lines_of(bytes@));
        assert forall|i: int| 0 <= i < ls@.len() implies code_line_ok((#[trigger] ls@[i])@) by {
            assert(code_line_ok(crate::text::lines_of(crate::text::ascii_bytes(input@))[i]));
        }
    }
    let total = complexity_total(&ls, 25);
    crate::text::u128_to_string(total)
}

fn push_repeated(v: &mut Vec<u8>, b: u8, n: u32)
    ensures
        final(v)@ == old(v)@ + repeat_byte(b, n as nat),
{
    let mut j: u32 = 0;
    proof {
        lemma_repeat_byte(b, n as nat);
    }
    while j < n
        invariant
            j <= n,
            v@ == old(v)@ + repeat_byte(b, j as nat),
        decreases n - j,
    {
        v.push(b);
        proof {
            lemma_repeat_byte(b, j as nat);
            assert(old(v)@ + repeat_byte(b, (j + 1) as nat) =~= (old(v)@ + repeat_byte(
                b,
                j as nat,
            )).push(b));
        }
        j += 1;
    }
    assert(v@ =~= old(v)@ + repeat_byte(b, n as nat));
}

} // verus!
