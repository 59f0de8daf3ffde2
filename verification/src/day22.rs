//! The secret-number market: each seed evolves through a mix-and-prune
//! pseudorandom step; buyers sell at the first occurrence of a four-change
//! price trend, and the best trend is the one with the highest summed price.
use vstd::prelude::*;

verus! {

/// One mix-and-prune evolution step of a secret number.
pub open spec fn next_secret(s: i64) -> i64 {
    let a = (((s * 64) as i64 ^ s) % 16777216) as i64;
    let b = (((a / 32) as i64 ^ a) % 16777216) as i64;
    (((b * 2048) as i64 ^ b) % 16777216) as i64
}

/// The secret number after `n` evolution steps.
pub open spec fn secret_at(seed: i64, n: nat) -> i64
    decreases n,
{
    if n == 0 {
        seed
    } else {
        next_secret(secret_at(seed, (n - 1) as nat))
    }
}

pub open spec fn in_range(s: i64) -> bool {
    0 <= s < 16777216
}

proof fn lemma_xor_nonneg(a: i64, b: i64)
    requires
        a >= 0,
        b >= 0,
    ensures
        a ^ b >= 0,
        a ^ b <= a + b,
{
    assert(a >= 0 && b >= 0 ==> (a ^ b >= 0) && (a ^ b <= a + b)) by (bit_vector);
}

pub proof fn lemma_next_secret_range(s: i64)
    requires
        in_range(s),
    ensures
        in_range(next_secret(s)),
{
    let a = (((s * 64) as i64 ^ s) % 16777216) as i64;
    lemma_xor_nonneg((s * 64) as i64, s);
    let b = (((a / 32) as i64 ^ a) % 16777216) as i64;
    lemma_xor_nonneg((a / 32) as i64, a);
    lemma_xor_nonneg((b * 2048) as i64, b);
}

pub proof fn lemma_secret_at_range(seed: i64, n: nat)
    requires
        in_range(seed),
    ensures
        in_range(secret_at(seed, n)),
    decreases n,
{
    if n > 0 {
        lemma_secret_at_range(seed, (n - 1) as nat);
        lemma_next_secret_range(secret_at(seed, (n - 1) as nat));
    }
}

/// Evolves `seed` through `iterations` steps.  Secrets live modulo the
/// prune constant, so seeds are required to lie in that range; a larger
/// seed would overflow the first mixing step.
pub fn generate(seed: i64, iterations: i32) -> (r: i64)
    requires
        in_range(seed),
        iterations >= 0,
    ensures
        r == secret_at(seed, iterations as nat),
        in_range(r),
{
    let mut s = seed;
    let mut k: i32 = 0;
    proof {
        lemma_secret_at_range(seed, 0);
    }
    while k < iterations
        invariant
            0 <= k <= iterations,
            s == secret_at(seed, k as nat),
            in_range(s),
        decreases iterations - k,
    {
        proof {
            lemma_xor_nonneg((s * 64) as i64, s);
        }
        let result = s * 64;
        s = result ^ s;
        s = s % 16777216;
        proof {
            lemma_xor_nonneg((s / 32) as i64, s);
        }
        let result = s / 32;
        s = result ^ s;
        s = s % 16777216;
        proof {
            lemma_xor_nonneg((s * 2048) as i64, s);
        }
        let result = s * 2048;
        s = result ^ s;
        s = s % 16777216;
        k += 1;
    }
    s
}

pub proof fn lemma_secret_at_add(seed: i64, a: nat, b: nat)
    ensures
        secret_at(secret_at(seed, a), b) == secret_at(seed, a + b),
    decreases b,
{
    if b > 0 {
        lemma_secret_at_add(seed, a, (b - 1) as nat);
    }
}

pub open spec fn all_in_range(seeds: Seq<i64>) -> bool {
    forall|i: int| 0 <= i < seeds.len() ==> in_range(#[trigger] seeds[i])
}

/// The sum of every seed's secret number after 2000 steps.
pub open spec fn spec_sum(seeds: Seq<i64>) -> int
    decreases seeds.len(),
{
    if seeds.len() == 0 {
        0
    } else {
        spec_sum(seeds.drop_last()) + secret_at(seeds.last(), 2000)
    }
}

/// Sums each seed's 2000th secret number.
pub fn sum(seeds: &Vec<i64>) -> (r: i64)
    requires
        all_in_range(seeds@),
        seeds@.len() <= 100000000,
    ensures
        r == spec_sum(seeds@),
{
    let mut total: i64 = 0;
    let mut i: usize = 0;
    proof {
        assert(seeds@.take(0) =~= Seq::<i64>::empty());
    }
    while i < seeds.len()
        invariant
            i <= seeds@.len(),
            total == spec_sum(seeds@.take(i as int)),
            0 <= total <= i * 16777216,
        decreases seeds@.len() - i,
    {
        proof {
            assert(seeds@.take(i + 1).drop_last() =~= seeds@.take(i as int));
            assert((i + 1) * 16777216 == i * 16777216 + 16777216) by (nonlinear_arith);
            assert(i * 16777216 <= 100000000int * 16777216) by (nonlinear_arith)
                requires
                    0 <= i <= 100000000,
            ;
        }
        total = total + generate(seeds[i], 2000);
        i += 1;
    }
    proof {
        assert(seeds@.take(seeds@.len() as int) =~= seeds@);
    }
    total
}

/// The price (last digit) of the secret at step `n`.
pub open spec fn price_at(seed: i64, n: nat) -> int {
    (secret_at(seed, n) % 10) as int
}

/// The encoded four-change trend that ends at step `n`.
pub open spec fn trend_at(seed: i64, n: nat) -> int {
    let d1 = price_at(seed, (n - 3) as nat) - price_at(seed, (n - 4) as nat) + 9;
    let d2 = price_at(seed, (n - 2) as nat) - price_at(seed, (n - 3) as nat) + 9;
    let d3 = price_at(seed, (n - 1) as nat) - price_at(seed, (n - 2) as nat) + 9;
    let d4 = price_at(seed, n) - price_at(seed, (n - 1) as nat) + 9;
    ((d1 * 100 + d2) * 100 + d3) * 100 + d4
}

/// The trend-to-price table of one seed: the price at the first step where
/// each trend completes, over steps `5 .. iterations`.
pub open spec fn trends_map(seed: i64, iterations: nat) -> Map<int, int>
    decreases iterations,
{
    if iterations <= 5 {
        Map::<int, int>::empty()
    } else {
        let m = trends_map(seed, (iterations - 1) as nat);
        let t = trend_at(seed, iterations);
        if m.contains_key(t) {
            m
        } else {
            m.insert(t, price_at(seed, iterations))
        }
    }
}

/// The encoded trend for five consecutive secret numbers.
fn trend_code(a: i64, b: i64, c: i64, d: i64, e: i64) -> (t: i64)
    requires
        in_range(a),
        in_range(b),
        in_range(c),
        in_range(d),
        in_range(e),
    ensures
        t as int == (((b % 10 - a % 10 + 9) * 100 + (c % 10 - b % 10 + 9)) * 100 + (d % 10 - c
            % 10 + 9)) * 100 + (e % 10 - d % 10 + 9),
{
    let mut trend = b % 10 - a % 10 + 9;
    trend = trend * 100 + c % 10 - b % 10 + 9;
    trend = trend * 100 + d % 10 - c % 10 + 9;
    trend = trend * 100 + e % 10 - d % 10 + 9;
    trend
}

/// A keyed map and its list of distinct keys, kept in step.
pub open spec fn keyed(m: Map<i64, i64>, keys: Seq<i64>) -> bool {
    &&& forall|j: int| 0 <= j < keys.len() ==> m.contains_key(#[trigger] keys[j])
    &&& forall|t: i64| m.contains_key(t) ==> keys.contains(t)
    &&& forall|j1: int, j2: int| 0 <= j1 < j2 < keys.len() ==> keys[j1] != keys[j2]
}

/// Records a trend's first price: inserts only when the trend is new, and
/// keeps the key list in step with the map.
fn record_trend(
    m: &mut std::collections::HashMap<i64, i64>,
    keys: &mut Vec<i64>,
    trend: i64,
    price: i64,
)
    requires
        keyed(old(m)@, old(keys)@),
    ensures
        final(m)@ == if old(m)@.contains_key(trend) {
            old(m)@
        } else {
            old(m)@.insert(trend, price)
        },
        keyed(final(m)@, final(keys)@),
{
    if !m.contains_key(&trend) {
        let ghost keys0 = keys@;
        m.insert(trend, price);
        keys.push(trend);
        proof {
            assert(forall|j: int| 0 <= j < keys0.len() ==> #[trigger] keys@[j] == keys0[j]);
            assert(keys@[keys@.len() - 1] == trend);
            assert forall|t: i64| m@.contains_key(t) implies keys@.contains(t) by {
                if t == trend {
                    assert(keys@[keys@.len() - 1] == t);
                } else {
                    assert(old(m)@.contains_key(t));
                    assert(keys0.contains(t));
                    let j = choose|ji: int| 0 <= ji < keys0.len() && #[trigger] keys0[ji] == t;
                    assert(0 <= j < keys0.len() && keys0[j] == t);
                    assert(keys@[j] == t);
                    assert(keys@.contains(t));
                }
            }
            assert forall|j1: int, j2: int|
                0 <= j1 < j2 < keys@.len() implies keys@[j1] != keys@[j2] by {
                if j2 == keys@.len() - 1 {
                    assert(!keys0.contains(keys@[j2]));
                    assert(keys@[j1] == keys0[j1]);
                }
            }
        }
    }
}

/// The first-occurrence price of each four-change trend of one seed, with
/// the distinct trends listed in first-completion order.
#[verifier::rlimit(100)]
#[verifier::loop_isolation(true)]
fn get_price_trends_with_keys(seed: i64, iterations: usize) -> (rk: (
    std::collections::HashMap<i64, i64>,
    Vec<i64>,
))
    requires
        in_range(seed),
        iterations <= 1000000000,
    ensures
        forall|t: i64| rk.0@.contains_key(t) <==> trends_map(
            seed,
            iterations as nat,
        ).contains_key(t as int),
        forall|t: i64|
            rk.0@.contains_key(t) ==> rk.0@[t] == trends_map(seed, iterations as nat)[t as int],
        keyed(rk.0@, rk.1@),
{
    let mut keys: Vec<i64> = Vec::new();
    let mut seeds: Vec<i64> = Vec::new();
    let mut price_trends: std::collections::HashMap<i64, i64> =
        std::collections::HashMap::new();
    seeds.push(generate(seed, 1));
    seeds.push(generate(seeds[0], 1));
    seeds.push(generate(seeds[1], 1));
    seeds.push(generate(seeds[2], 1));
    seeds.push(generate(seeds[3], 1));
    assert(seeds@[1] == secret_at(seed, 2)) by {
        lemma_secret_at_add(seed, 1, 1);
    }
    assert(seeds@[2] == secret_at(seed, 3)) by {
        lemma_secret_at_add(seed, 2, 1);
    }
    assert(seeds@[3] == secret_at(seed, 4)) by {
        lemma_secret_at_add(seed, 3, 1);
    }
    assert(seeds@[4] == secret_at(seed, 5)) by {
        lemma_secret_at_add(seed, 4, 1);
    }
    let mut i: usize = 5;
    while i < iterations
        invariant
            5 <= i <= iterations || (iterations <= 5 && i == 5),
            iterations <= 1000000000,
            in_range(seed),
            seeds@.len() == 5,
            all_in_range(seeds@),
            seeds@[((i + 4) % 5) as int] == secret_at(seed, i as nat),
            seeds@[((i + 3) % 5) as int] == secret_at(seed, (i - 1) as nat),
            seeds@[((i + 2) % 5) as int] == secret_at(seed, (i - 2) as nat),
            seeds@[((i + 1) % 5) as int] == secret_at(seed, (i - 3) as nat),
            seeds@[(i % 5) as int] == secret_at(seed, (i - 4) as nat),
            forall|t: i64|
                price_trends@.contains_key(t) <==> trends_map(seed, i as nat).contains_key(
                    t as int,
                ),
            forall|t: i64|
                price_trends@.contains_key(t) ==> price_trends@[t] == trends_map(
                    seed,
                    i as nat,
                )[t as int],
            keyed(price_trends@, keys@),
        decreases iterations - i,
    {
        let fresh = generate(seeds[(i + 4) % 5], 1);
        seeds[i % 5] = fresh;
        proof {
            lemma_secret_at_add(seed, i as nat, 1);
            assert(seeds@[(i % 5) as int] == secret_at(seed, (i + 1) as nat));
        }
        let trend = trend_code(
            seeds[(i + 1) % 5],
            seeds[(i + 2) % 5],
            seeds[(i + 3) % 5],
            seeds[(i + 4) % 5],
            seeds[i % 5],
        );
        proof {
            assert(trend == trend_at(seed, (i + 1) as nat));
            assert(price_at(seed, (i + 1) as nat) == seeds@[(i % 5) as int] % 10);
        }
        record_trend(&mut price_trends, &mut keys, trend, seeds[i % 5] % 10);
        i += 1;
    }
    (price_trends, keys)
}

/// The first-occurrence price of each four-change trend of one seed.
pub fn get_price_trends(seed: i64, iterations: usize) -> (r: std::collections::HashMap<
    i64,
    i64,
>)
    requires
        in_range(seed),
        iterations <= 1000000000,
    ensures
        forall|t: i64| r@.contains_key(t) <==> trends_map(seed, iterations as nat).contains_key(
            t as int,
        ),
        forall|t: i64|
            r@.contains_key(t) ==> r@[t] == trends_map(seed, iterations as nat)[t as int],
{
    let (price_trends, keys) = get_price_trends_with_keys(seed, iterations);
    price_trends
}

/// What one seed pays for trend `t`: its first-occurrence price, or nothing.
pub open spec fn seed_price(seed: i64, t: int) -> int {
    if trends_map(seed, 2000).contains_key(t) {
        trends_map(seed, 2000)[t]
    } else {
        0
    }
}

/// The total payout of trend `t` over all seeds.
pub open spec fn total_price(seeds: Seq<i64>, t: int) -> int
    decreases seeds.len(),
{
    if seeds.len() == 0 {
        0
    } else {
        total_price(seeds.drop_last(), t) + seed_price(seeds.last(), t)
    }
}

/// Trend keys are encodings of four changes, and prices are single digits.
pub proof fn lemma_trends_map_props(seed: i64, n: nat)
    requires
        in_range(seed),
    ensures
        forall|t: int|
            trends_map(seed, n).contains_key(t) ==> 0 <= t <= 18181818 && 0 <= trends_map(
                seed,
                n,
            )[t] <= 9,
    decreases n,
{
    if n > 5 {
        lemma_trends_map_props(seed, (n - 1) as nat);
        lemma_secret_at_range(seed, n);
        lemma_secret_at_range(seed, (n - 1) as nat);
        lemma_secret_at_range(seed, (n - 2) as nat);
        lemma_secret_at_range(seed, (n - 3) as nat);
        lemma_secret_at_range(seed, (n - 4) as nat);
        let m = trends_map(seed, (n - 1) as nat);
        let t0 = trend_at(seed, n);
        assert(0 <= price_at(seed, n) <= 9);
        assert(0 <= t0 <= 18181818);
        assert forall|t: int| trends_map(seed, n).contains_key(t) implies 0 <= t <= 18181818 && 0
            <= trends_map(seed, n)[t] <= 9 by {
            if m.contains_key(t) {
            } else {
                assert(t == t0);
            }
        }
    }
}

pub proof fn lemma_total_price_bounds(seeds: Seq<i64>, t: int)
    requires
        all_in_range(seeds),
    ensures
        0 <= total_price(seeds, t) <= 9 * seeds.len(),
        (t < 0 || t > 18181818) ==> total_price(seeds, t) == 0,
    decreases seeds.len(),
{
    if seeds.len() > 0 {
        assert(all_in_range(seeds.drop_last())) by {
            assert(forall|i: int|
                0 <= i < seeds.len() - 1 ==> #[trigger] seeds.drop_last()[i] == seeds[i]);
        }
        lemma_total_price_bounds(seeds.drop_last(), t);
        lemma_trends_map_props(seeds.last(), 2000);
    }
}

/// Some trend always completes within 2000 steps.
pub proof fn lemma_trends_map_nonempty(seed: i64, n: nat)
    requires
        n >= 6,
    ensures
        exists|t: int| #[trigger] trends_map(seed, n).contains_key(t),
    decreases n,
{
    if n == 6 {
        assert(trends_map(seed, 6).contains_key(trend_at(seed, 6)));
    } else {
        lemma_trends_map_nonempty(seed, (n - 1) as nat);
        let t = choose|t: int| #[trigger] trends_map(seed, (n - 1) as nat).contains_key(t);
        assert(trends_map(seed, n).contains_key(t));
    }
}

/// The best total payout any single trend earns across all seeds.
#[verifier::rlimit(100)]
#[verifier::loop_isolation(true)]
pub fn get_best_price(seeds: &Vec<i64>) -> (r: i64)
    requires
        all_in_range(seeds@),
        1 <= seeds@.len() <= 100000000,
    ensures
        forall|t: int| total_price(seeds@, t) <= r,
        exists|t: int| r == total_price(seeds@, t),
{
    let mut price_trends: std::collections::HashMap<i64, i64> =
        std::collections::HashMap::new();
    let mut all_keys: Vec<i64> = Vec::new();
    let mut s: usize = 0;
    proof {
        assert(seeds@.take(0) =~= Seq::<i64>::empty());
    }
    while s < seeds.len()
        invariant
            s <= seeds@.len() <= 100000000,
            all_in_range(seeds@),
            keyed(price_trends@, all_keys@),
            forall|t: i64| #[trigger]
                price_trends@.contains_key(t) ==> price_trends@[t] == total_price(
                    seeds@.take(s as int),
                    t as int,
                ),
            forall|t: i64|
                !(#[trigger] price_trends@.contains_key(t)) ==> total_price(
                    seeds@.take(s as int),
                    t as int,
                ) == 0,
            s >= 1 ==> all_keys@.len() >= 1,
        decreases seeds@.len() - s,
    {
        let seed = seeds[s];
        let (prices, pkeys) = get_price_trends_with_keys(seed, 2000);
        proof {
            assert(seeds@.take(s + 1).drop_last() =~= seeds@.take(s as int));
            assert(seeds@.take(s + 1).last() == seed);
            lemma_trends_map_props(seed, 2000);
        }
        let mut k: usize = 0;
        while k < pkeys.len()
            invariant
                k <= pkeys@.len(),
                in_range(seed),
                all_in_range(seeds@),
                s < seeds@.len() <= 100000000,
                seed == seeds@[s as int],
                seeds@.take(s + 1).drop_last() =~= seeds@.take(s as int),
                seeds@.take(s + 1).last() == seed,
                keyed(prices@, pkeys@),
                forall|t: i64| prices@.contains_key(t) <==> trends_map(seed, 2000).contains_key(
                    t as int,
                ),
                forall|t: i64|
                    prices@.contains_key(t) ==> prices@[t] == trends_map(seed, 2000)[t as int],
                keyed(price_trends@, all_keys@),
                forall|t: i64| #[trigger]
                    price_trends@.contains_key(t) ==> price_trends@[t] == total_price(
                        seeds@.take(s as int),
                        t as int,
                    ) + (if pkeys@.take(k as int).contains(t) {
                        seed_price(seed, t as int)
                    } else {
                        0
                    }),
                forall|t: i64|
                    !(#[trigger] price_trends@.contains_key(t)) ==> total_price(
                        seeds@.take(s as int),
                        t as int,
                    ) == 0 && !pkeys@.take(k as int).contains(t),
                pkeys@.len() >= 1 ==> (k >= 1 ==> all_keys@.len() >= 1),
            decreases pkeys@.len() - k,
        {
            let t = pkeys[k];
            let p = match prices.get(&t) {
                Some(v) => *v,
                None => 0,
            };
            proof {
                assert(prices@.contains_key(t));
                assert(p == seed_price(seed, t as int));
                assert(!pkeys@.take(k as int).contains(t)) by {
                    assert(forall|j: int|
                        0 <= j < k ==> #[trigger] pkeys@.take(k as int)[j] == pkeys@[j]);
                }
                assert(pkeys@.take(k + 1).contains(t)) by {
                    assert(pkeys@.take(k + 1)[k as int] == t);
                }
                lemma_total_price_bounds(seeds@.take(s as int), t as int);
                lemma_trends_map_props(seed, 2000);
                assert(9 * seeds@.take(s as int).len() <= 9 * 100000000) by (nonlinear_arith)
                    requires
                        seeds@.take(s as int).len() <= 100000000,
                ;
            }
            let ghost m0 = price_trends@;
            let ghost keys0 = all_keys@;
            let cur = match price_trends.get(&t) {
                Some(v) => *v,
                None => 0,
            };
            if price_trends.contains_key(&t) {
                proof {
                    assert(all_keys@.contains(t));
                    assert(all_keys@.len() >= 1);
                }
                price_trends.insert(t, cur + p);
                proof {
                    assert forall|u: i64|
                        !(#[trigger] price_trends@.contains_key(u)) implies total_price(
                        seeds@.take(s as int),
                        u as int,
                    ) == 0 && !pkeys@.take(k + 1).contains(u) by {
                        assert(!m0.contains_key(u));
                        if pkeys@.take(k + 1).contains(u) {
                            let j = choose|j: int|
                                0 <= j < k + 1 && #[trigger] pkeys@.take(k + 1)[j] == u;
                            if j < k {
                                assert(pkeys@.take(k as int)[j] == u);
                            } else {
                                assert(u == t);
                            }
                        }
                    }
                    assert forall|u: i64| #[trigger]
                        price_trends@.contains_key(u) implies price_trends@[u] == total_price(
                        seeds@.take(s as int),
                        u as int,
                    ) + (if pkeys@.take(k + 1).contains(u) {
                        seed_price(seed, u as int)
                    } else {
                        0
                    }) by {
                        if u != t {
                            assert(price_trends@[u] == m0[u]);
                            assert(pkeys@.take(k + 1).contains(u) == pkeys@.take(
                                k as int,
                            ).contains(u)) by {
                                assert(forall|j: int|
                                    0 <= j < k ==> #[trigger] pkeys@.take(k + 1)[j] == pkeys@.take(
                                        k as int,
                                    )[j]);
                                if pkeys@.take(k + 1).contains(u) {
                                    let j = choose|j: int|
                                        0 <= j < k + 1 && #[trigger] pkeys@.take(k + 1)[j] == u;
                                    assert(pkeys@.take(k as int)[j] == u);
                                }
                                if pkeys@.take(k as int).contains(u) {
                                    let j = choose|j: int|
                                        0 <= j < k && #[trigger] pkeys@.take(k as int)[j] == u;
                                    assert(pkeys@.take(k + 1)[j] == u);
                                }
                            }
                        }
                    }
                }
            } else {
                price_trends.insert(t, p);
                all_keys.push(t);
                proof {
                    assert(forall|j: int|
                        0 <= j < keys0.len() ==> #[trigger] all_keys@[j] == keys0[j]);
                    assert(all_keys@[all_keys@.len() - 1] == t);
                    assert forall|u: i64| price_trends@.contains_key(u) implies all_keys@.contains(
                        u,
                    ) by {
                        if u == t {
                            assert(all_keys@[all_keys@.len() - 1] == u);
                        } else {
                            assert(keys0.contains(u));
                            let j = choose|ji: int| 0 <= ji < keys0.len() && #[trigger] keys0[ji] == u;
                            assert(all_keys@[j] == u);
                        }
                    }
                    assert forall|j1: int, j2: int|
                        0 <= j1 < j2 < all_keys@.len() implies all_keys@[j1] != all_keys@[j2] by {
                        if j2 == all_keys@.len() - 1 {
                            assert(!keys0.contains(all_keys@[j2]));
                            assert(all_keys@[j1] == keys0[j1]);
                        }
                    }
                    assert forall|u: i64| #[trigger]
                        price_trends@.contains_key(u) implies price_trends@[u] == total_price(
                        seeds@.take(s as int),
                        u as int,
                    ) + (if pkeys@.take(k + 1).contains(u) {
                        seed_price(seed, u as int)
                    } else {
                        0
                    }) by {
                        if u != t {
                            assert(price_trends@[u] == m0[u]);
                            assert(pkeys@.take(k + 1).contains(u) == pkeys@.take(
                                k as int,
                            ).contains(u)) by {
                                assert(forall|j: int|
                                    0 <= j < k ==> #[trigger] pkeys@.take(k + 1)[j] == pkeys@.take(
                                        k as int,
                                    )[j]);
                                if pkeys@.take(k + 1).contains(u) {
                                    let j = choose|j: int|
                                        0 <= j < k + 1 && #[trigger] pkeys@.take(k + 1)[j] == u;
                                    if j < k {
                                        assert(pkeys@.take(k as int)[j] == u);
                                    }
                                }
                                if pkeys@.take(k as int).contains(u) {
                                    let j = choose|j: int|
                                        0 <= j < k && #[trigger] pkeys@.take(k as int)[j] == u;
                                    assert(pkeys@.take(k + 1)[j] == u);
                                }
                            }
                        } else {
                            assert(total_price(seeds@.take(s as int), t as int) == 0);
                        }
                    }
                    assert forall|u: i64|
                        !(#[trigger] price_trends@.contains_key(u)) implies total_price(
                        seeds@.take(s as int),
                        u as int,
                    ) == 0 && !pkeys@.take(k + 1).contains(u) by {
                        assert(!m0.contains_key(u));
                        if pkeys@.take(k + 1).contains(u) {
                            let j = choose|j: int| 0 <= j < k + 1 && #[trigger] pkeys@.take(k + 1)[j] == u;
                            if j < k {
                                assert(pkeys@.take(k as int)[j] == u);
                            } else {
                                assert(u == t);
                            }
                        }
                    }
                }
            }
            k += 1;
        }
        proof {
            assert(pkeys@.take(pkeys@.len() as int) =~= pkeys@);
            assert forall|t: i64| #[trigger]
                price_trends@.contains_key(t) implies price_trends@[t] == total_price(
                seeds@.take(s + 1),
                t as int,
            ) by {
                if !pkeys@.contains(t) {
                    assert(!prices@.contains_key(t)) by {
                        if prices@.contains_key(t) {
                            assert(pkeys@.contains(t));
                        }
                    }
                    assert(seed_price(seed, t as int) == 0);
                }
            }
            assert forall|t: i64|
                !(#[trigger] price_trends@.contains_key(t)) implies total_price(
                seeds@.take(s + 1),
                t as int,
            ) == 0 by {
                assert(!pkeys@.contains(t));
                assert(!prices@.contains_key(t)) by {
                    if prices@.contains_key(t) {
                        assert(pkeys@.contains(t));
                    }
                }
                assert(seed_price(seed, t as int) == 0);
            }
            lemma_trends_map_nonempty(seed, 2000);
            let tw = choose|t: int| trends_map(seed, 2000).contains_key(t);
            lemma_trends_map_props(seed, 2000);
            assert(prices@.contains_key(tw as i64));
            assert(pkeys@.contains(tw as i64));
            assert(pkeys@.len() >= 1);
        }
        s += 1;
    }
    proof {
        assert(seeds@.take(seeds@.len() as int) =~= seeds@);
    }
    // Take the maximum accumulated payout.
    let first = all_keys[0];
    let mut best = match price_trends.get(&first) {
        Some(v) => *v,
        None => 0,
    };
    let ghost mut wit: i64 = first;
    let mut j: usize = 1;
    proof {
        assert(price_trends@.contains_key(first));
        assert(best == total_price(seeds@, first as int));
    }
    while j < all_keys.len()
        invariant
            1 <= j <= all_keys@.len(),
            all_in_range(seeds@),
            seeds@.len() <= 100000000,
            keyed(price_trends@, all_keys@),
            forall|t: i64| #[trigger]
                price_trends@.contains_key(t) ==> price_trends@[t] == total_price(
                    seeds@,
                    t as int,
                ),
            forall|t: i64|
                !(#[trigger] price_trends@.contains_key(t)) ==> total_price(seeds@, t as int)
                    == 0,
            best == total_price(seeds@, wit as int),
            forall|ji: int|
                0 <= ji < j ==> total_price(seeds@, (#[trigger] all_keys@[ji]) as int) <= best,
        decreases all_keys@.len() - j,
    {
        let t = all_keys[j];
        let v = match price_trends.get(&t) {
            Some(v) => *v,
            None => 0,
        };
        proof {
            assert(price_trends@.contains_key(t));
        }
        if v > best {
            best = v;
            proof {
                wit = t;
            }
        }
        j += 1;
    }
    proof {
        assert forall|t: int| total_price(seeds@, t) <= best by {
            lemma_total_price_bounds(seeds@, t);
            if 0 <= t <= 18181818 {
                let ti = t as i64;
                if price_trends@.contains_key(ti) {
                    assert(all_keys@.contains(ti));
                    let ji = choose|ji: int| 0 <= ji < all_keys@.len() && #[trigger] all_keys@[ji] == ti;
                    assert(total_price(seeds@, (all_keys@[ji]) as int) <= best);
                } else {
                    assert(total_price(seeds@, t) == 0);
                    lemma_total_price_bounds(seeds@, wit as int);
                }
            } else {
                lemma_total_price_bounds(seeds@, wit as int);
            }
        }
    }
    best
}

} // verus!
