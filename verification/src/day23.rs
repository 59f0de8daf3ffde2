//! The LAN party: computer pairs form an undirected graph; the first part
//! counts the triangles that touch a `t` computer, and the second finds the
//! largest clique and prints its members sorted.
use vstd::prelude::*;

verus! {

use std::collections::HashMap;
use vstd::string::StringExecFns;

/// A two-letter computer name packed into one number.
pub open spec fn spec_pack_name(a: u8, b: u8) -> u32 {
    (a as int * 256 + b as int) as u32
}

fn pack_name(a: u8, b: u8) -> (r: u32)
    ensures
        r == spec_pack_name(a, b),
{
    (a as u32) * 256 + (b as u32)
}

/// An adjacency map and its list of distinct keys, kept in step.
pub open spec fn lan_keyed(m: Map<u32, Vec<u32>>, keys: Seq<u32>) -> bool {
    &&& forall|j: int| 0 <= j < keys.len() ==> m.contains_key(#[trigger] keys[j])
    &&& forall|t: u32| m.contains_key(t) ==> keys.contains(t)
    &&& forall|j1: int, j2: int| 0 <= j1 < j2 < keys.len() ==> keys[j1] != keys[j2]
}

/// The adjacency map with every neighbour list read as a sequence.
pub open spec fn lan_view(m: Map<u32, Vec<u32>>) -> Map<u32, Seq<u32>> {
    Map::new(|k: u32| m.contains_key(k), |k: u32| m[k]@)
}

/// One directed link added to an adjacency model, without repeats.
pub open spec fn adj_add(m: Map<u32, Seq<u32>>, from: u32, to: u32) -> Map<u32, Seq<u32>> {
    let base = if m.contains_key(from) {
        m[from]
    } else {
        Seq::<u32>::empty()
    };
    let nb = if base.contains(to) {
        base
    } else {
        base.push(to)
    };
    m.insert(from, nb)
}

/// The adjacency model after reading the pair lines from `i` on: each
/// well-formed ascii `ab-cd` line with two distinct names links both ways.
pub open spec fn adj_fold(ls: Seq<&str>, i: int, acc: Map<u32, Seq<u32>>) -> Map<u32, Seq<u32>>
    decreases ls.len() - i,
{
    if i < 0 || i >= ls.len() {
        acc
    } else {
        let line = ls[i];
        let acc2 = if line.is_ascii() {
            let bytes = crate::text::ascii_bytes(line@);
            if bytes.len() >= 5 && bytes[2] == 45 {
                let c1 = spec_pack_name(bytes[0], bytes[1]);
                let c2 = spec_pack_name(bytes[3], bytes[4]);
                if c1 != c2 {
                    adj_add(adj_add(acc, c1, c2), c2, c1)
                } else {
                    acc
                }
            } else {
                acc
            }
        } else {
            acc
        };
        adj_fold(ls, i + 1, acc2)
    }
}

fn contains_name(v: &Vec<u32>, x: u32) -> (r: bool)
    ensures
        r == v@.contains(x),
{
    let mut i: usize = 0;
    while i < v.len()
        invariant
            i <= v@.len(),
            forall|j: int| 0 <= j < i ==> v@[j] != x,
        decreases v@.len() - i,
    {
        if v[i] == x {
            return true;
        }
        i += 1;
    }
    proof {
        if v@.contains(x) {
            let j = choose|j: int| 0 <= j < v@.len() && v@[j] == x;
            assert(v@[j] == x);
        }
    }
    false
}

/// Links `from` to `to`, keeping the neighbour list free of repeats.
fn add_link(
    connections: &mut HashMap<u32, Vec<u32>>,
    keys: &mut Vec<u32>,
    from: u32,
    to: u32,
)
    requires
        lan_keyed(old(connections)@, old(keys)@),
    ensures
        lan_keyed(final(connections)@, final(keys)@),
        lan_view(final(connections)@) == adj_add(lan_view(old(connections)@), from, to),
{
    let ghost cv0 = lan_view(old(connections)@);
    let mut neighbours = match connections.get(&from) {
        Some(v) => v.clone(),
        None => Vec::new(),
    };
    if !contains_name(&neighbours, to) {
        neighbours.push(to);
    }
    if connections.contains_key(&from) {
        connections.insert(from, neighbours);
        proof {
            assert(lan_view(connections@) =~= adj_add(cv0, from, to));
        }
    } else {
        let ghost keys0 = keys@;
        connections.insert(from, neighbours);
        proof {
            assert(lan_view(connections@) =~= adj_add(cv0, from, to));
        }
        keys.push(from);
        proof {
            assert(forall|j: int| 0 <= j < keys0.len() ==> #[trigger] keys@[j] == keys0[j]);
            assert(keys@[keys@.len() - 1] == from);
            assert forall|t: u32| connections@.contains_key(t) implies keys@.contains(t) by {
                if t == from {
                    assert(keys@[keys@.len() - 1] == t);
                } else {
                    assert(keys0.contains(t));
                    let j = choose|ji: int| 0 <= ji < keys0.len() && #[trigger] keys0[ji] == t;
                    assert(keys@[j] == t);
                }
            }
            assert forall|j1: int, j2: int|
                0 <= j1 < j2 < keys@.len() implies keys@[j1] != keys@[j2] by {
                if j2 == keys@.len() - 1 {
                    assert(!keys0.contains(keys@[j2]));
                    assert(keys@[j1] == keys0[j1]);
                }
            }
        }
    }
}

/// The undirected adjacency of every `ab-cd` pair line, with the computers
/// in first-appearance order.  A pair naming one computer twice is ignored.
pub fn get_connections(lines: Vec<&str>) -> (r: (HashMap<u32, Vec<u32>>, Vec<u32>))
    ensures
        lan_keyed(r.0@, r.1@),
        lan_view(r.0@) == adj_fold(lines@, 0, Map::<u32, Seq<u32>>::empty()),
{
    let mut connections: HashMap<u32, Vec<u32>> = HashMap::new();
    let mut keys: Vec<u32> = Vec::new();
    let mut i: usize = 0;
    proof {
        assert(lan_view(connections@) =~= Map::<u32, Seq<u32>>::empty());
    }
    while i < lines.len()
        invariant
            i <= lines@.len(),
            lan_keyed(connections@, keys@),
            adj_fold(lines@, 0, Map::<u32, Seq<u32>>::empty()) == adj_fold(
                lines@,
                i as int,
                lan_view(connections@),
            ),
        decreases lines@.len() - i,
    {
        let line: &str = lines[i];
        if line.is_ascii() {
            let bytes = crate::text::to_bytes(line);
            if bytes.len() >= 5 && bytes[2] == 45 {
                let computer1 = pack_name(bytes[0], bytes[1]);
                let computer2 = pack_name(bytes[3], bytes[4]);
                if computer1 != computer2 {
                    add_link(&mut connections, &mut keys, computer1, computer2);
                    add_link(&mut connections, &mut keys, computer2, computer1);
                }
            }
        }
        i += 1;
    }
    (connections, keys)
}

/// Whether the computer's name starts with `t`.
fn is_chief(name: u32) -> (r: bool)
    ensures
        r == (name / 256 == 116),
{
    name / 256 == 116
}

/// The three names of a triangle, sorted, packed into one number.
pub open spec fn spec_pack_triple(a: u32, b: u32, c: u32) -> u64 {
    let x1 = if a <= b {
        a
    } else {
        b
    };
    let y1 = if a <= b {
        b
    } else {
        a
    };
    let x = if x1 <= c {
        x1
    } else {
        c
    };
    let z1 = if x1 <= c {
        c
    } else {
        x1
    };
    let y = if y1 <= z1 {
        y1
    } else {
        z1
    };
    let z = if y1 <= z1 {
        z1
    } else {
        y1
    };
    ((x as int) * 4294967296 + (y as int) * 65536 + (z as int)) as u64
}

fn pack_triple(a: u32, b: u32, c: u32) -> (r: u64)
    requires
        a < 65536,
        b < 65536,
        c < 65536,
    ensures
        r == spec_pack_triple(a, b, c),
{
    let (x, y) = if a <= b {
        (a, b)
    } else {
        (b, a)
    };
    let (x, z) = if x <= c {
        (x, c)
    } else {
        (c, x)
    };
    let (y, z) = if y <= z {
        (y, z)
    } else {
        (z, y)
    };
    (x as u64) * 4294967296 + (y as u64) * 65536 + (z as u64)
}

fn record_triple(lans: &mut Vec<u64>, value: u64)
    ensures
        old(lans)@.len() <= final(lans)@.len() <= old(lans)@.len() + 1,
        final(lans)@ == (if old(lans)@.contains(value) {
            old(lans)@
        } else {
            old(lans)@.push(value)
        }),
{
    let mut i: usize = 0;
    while i < lans.len()
        invariant
            i <= lans@.len(),
            lans@ == old(lans)@,
            forall|j: int| 0 <= j < i ==> lans@[j] != value,
        decreases lans@.len() - i,
    {
        if lans[i] == value {
            return ;
        }
        i += 1;
    }
    proof {
        if lans@.contains(value) {
            let j = choose|j: int| 0 <= j < lans@.len() && lans@[j] == value;
            assert(lans@[j] == value);
        }
    }
    lans.push(value);
}

/// The recorded triangles after trying every `third` from `ti` on against
/// one `(first, second)` pair: a linked, chief-satisfying, in-range triple
/// lands once in sorted packed form.
pub open spec fn lans_third(
    computers: Seq<u32>,
    snb: Seq<u32>,
    first: u32,
    second: u32,
    chief: bool,
    ti: int,
    acc: Seq<u64>,
) -> Seq<u64>
    decreases computers.len() - ti,
{
    if ti < 0 || ti >= computers.len() {
        acc
    } else {
        let third = computers[ti];
        let acc2 = if snb.contains(third) && (!chief || first as int / 256 == 116 || second as int
            / 256 == 116 || third as int / 256 == 116) && first < 65536 && second < 65536 && third
            < 65536 {
            let v = spec_pack_triple(first, second, third);
            if acc.contains(v) {
                acc
            } else {
                acc.push(v)
            }
        } else {
            acc
        };
        lans_third(computers, snb, first, second, chief, ti + 1, acc2)
    }
}

/// The recorded triangles after pairing `first` with every `second` from
/// `si` on among its neighbours.
pub open spec fn lans_second(
    cv: Map<u32, Seq<u32>>,
    computers: Seq<u32>,
    first: u32,
    chief: bool,
    si: int,
    acc: Seq<u64>,
) -> Seq<u64>
    decreases computers.len() - si,
{
    if si < 0 || si >= computers.len() {
        acc
    } else {
        let second = computers[si];
        let acc2 = if cv.contains_key(second) {
            lans_third(computers, cv[second], first, second, chief, 0, acc)
        } else {
            acc
        };
        lans_second(cv, computers, first, chief, si + 1, acc2)
    }
}

/// The recorded triangles after rooting a search at every computer of
/// `keys[ki..]`.
pub open spec fn lans_first(
    cv: Map<u32, Seq<u32>>,
    keys: Seq<u32>,
    chief: bool,
    ki: int,
    acc: Seq<u64>,
) -> Seq<u64>
    decreases keys.len() - ki,
{
    if ki < 0 || ki >= keys.len() {
        acc
    } else {
        let first = keys[ki];
        let acc2 = if cv.contains_key(first) {
            lans_second(cv, cv[first], first, chief, 0, acc)
        } else {
            acc
        };
        lans_first(cv, keys, chief, ki + 1, acc2)
    }
}

/// Every distinct triangle of mutually linked computers, each packed from
/// its sorted names; with `must_include_chief`, only triangles touching a
/// `t` computer.
pub fn get_3_lans(
    must_include_chief: bool,
    connections: &HashMap<u32, Vec<u32>>,
    keys: &Vec<u32>,
) -> (r: Vec<u64>)
    requires
        lan_keyed(connections@, keys@),
    ensures
        r@ == lans_first(
            lan_view(connections@),
            keys@,
            must_include_chief,
            0,
            Seq::<u64>::empty(),
        ),
{
    let ghost cv = lan_view(connections@);
    let ghost chief = must_include_chief;
    let mut lans: Vec<u64> = Vec::new();
    let mut ki: usize = 0;
    while ki < keys.len()
        invariant
            ki <= keys@.len(),
            lan_keyed(connections@, keys@),
            cv == lan_view(connections@),
            lans_first(cv, keys@, chief, 0, Seq::<u64>::empty()) == lans_first(
                cv,
                keys@,
                chief,
                ki as int,
                lans@,
            ),
            chief == must_include_chief,
        decreases keys@.len() - ki,
    {
        let first = keys[ki];
        let computers = match connections.get(&first) {
            Some(v) => v,
            None => {
                ki += 1;
                continue ;
            },
        };
        let ghost lans_at_first = lans@;
        let mut si: usize = 0;
        while si < computers.len()
            invariant
                si <= computers@.len(),
                lan_keyed(connections@, keys@),
                cv == lan_view(connections@),
                cv.contains_key(first) && cv[first] == computers@,
                lans_second(cv, computers@, first, chief, 0, lans_at_first) == lans_second(
                    cv,
                    computers@,
                    first,
                    chief,
                    si as int,
                    lans@,
                ),
                chief == must_include_chief,
            decreases computers@.len() - si,
        {
            let second = computers[si];
            let second_neighbours = match connections.get(&second) {
                Some(v) => v,
                None => {
                    si += 1;
                    continue ;
                },
            };
            let ghost lans_at_second = lans@;
            let mut ti: usize = 0;
            while ti < computers.len()
                invariant
                    ti <= computers@.len(),
                    si < computers@.len(),
                    second == computers@[si as int],
                    second_neighbours@ == cv[second],
                    cv.contains_key(second),
                    lans_third(computers@, cv[second], first, second, chief, 0, lans_at_second)
                        == lans_third(
                        computers@,
                        cv[second],
                        first,
                        second,
                        chief,
                        ti as int,
                        lans@,
                    ),
                    chief == must_include_chief,
                decreases computers@.len() - ti,
            {
                let third = computers[ti];
                if contains_name(second_neighbours, third) {
                    if !must_include_chief || is_chief(first) || is_chief(second) || is_chief(
                        third,
                    ) {
                        if first < 65536 && second < 65536 && third < 65536 {
                            record_triple(&mut lans, pack_triple(first, second, third));
                        }
                    }
                }
                ti += 1;
            }
            si += 1;
        }
        ki += 1;
    }
    lans
}

/// The greedy clique search state: the computers chosen so far and the best
/// clique found below the current branch.
pub struct LanFinder {
    pub chosen: Vec<u32>,
    pub lan: Vec<u32>,
}

impl LanFinder {
    /// Extends the clique rooted at `candidate` within `allowed`, leaving
    /// the best clique found in `lan`.  Each step narrows `allowed` to the
    /// candidate's neighbours, so the recursion depth never exceeds the
    /// step allowance.
    pub fn get_lan(
        &mut self,
        candidate: u32,
        allowed: &Vec<u32>,
        connections: &HashMap<u32, Vec<u32>>,
        fuel: usize,
    )
        decreases fuel,
    {
        if fuel == 0 {
            self.lan = Vec::new();
            self.lan.push(candidate);
            return ;
        }
        let candidate_connections = match connections.get(&candidate) {
            Some(v) => v,
            None => {
                self.lan = Vec::new();
                self.lan.push(candidate);
                return ;
            },
        };
        let mut next_candidates: Vec<u32> = Vec::new();
        let mut i: usize = 0;
        while i < candidate_connections.len()
            invariant
                i <= candidate_connections@.len(),
            decreases candidate_connections@.len() - i,
        {
            let computer = candidate_connections[i];
            if contains_name(allowed, computer) && !contains_name(&next_candidates, computer) {
                next_candidates.push(computer);
            }
            i += 1;
        }
        let mut lan: Vec<u32> = Vec::new();
        let mut ci: usize = 0;
        while ci < next_candidates.len()
            invariant
                ci <= next_candidates@.len(),
            decreases next_candidates@.len() - ci,
        {
            let computer = next_candidates[ci];
            self.chosen.push(computer);
            self.get_lan(computer, &next_candidates, connections, fuel - 1);
            if self.lan.len() > lan.len() {
                lan = self.lan.clone();
            }
            self.lan = Vec::new();
            if lan.len() > next_candidates.len() / 2 {
                break ;
            }
            remove_name(&mut self.chosen, computer);
            ci += 1;
        }
        lan.push(candidate);
        self.lan = lan;
    }
}

/// Drops the first occurrence of `x`.
fn remove_name(v: &mut Vec<u32>, x: u32)
{
    let mut i: usize = 0;
    while i < v.len()
        invariant
            i <= v@.len(),
            v@ == old(v)@,
        decreases v@.len() - i,
    {
        if v[i] == x {
            v.remove(i);
            return ;
        }
        i += 1;
    }
}

/// The one-character string of a name byte.
fn name_byte_str(b: u8) -> (r: &'static str)
{
    proof {
        reveal_strlit("a");
        reveal_strlit("b");
        reveal_strlit("c");
        reveal_strlit("d");
        reveal_strlit("e");
        reveal_strlit("f");
        reveal_strlit("g");
        reveal_strlit("h");
        reveal_strlit("i");
        reveal_strlit("j");
        reveal_strlit("k");
        reveal_strlit("l");
        reveal_strlit("m");
        reveal_strlit("n");
        reveal_strlit("o");
        reveal_strlit("p");
        reveal_strlit("q");
        reveal_strlit("r");
        reveal_strlit("s");
        reveal_strlit("t");
        reveal_strlit("u");
        reveal_strlit("v");
        reveal_strlit("w");
        reveal_strlit("x");
        reveal_strlit("y");
        reveal_strlit("z");
        reveal_strlit("?");
    }
    match b {
        97 => "a",
        98 => "b",
        99 => "c",
        100 => "d",
        101 => "e",
        102 => "f",
        103 => "g",
        104 => "h",
        105 => "i",
        106 => "j",
        107 => "k",
        108 => "l",
        109 => "m",
        110 => "n",
        111 => "o",
        112 => "p",
        113 => "q",
        114 => "r",
        115 => "s",
        116 => "t",
        117 => "u",
        118 => "v",
        119 => "w",
        120 => "x",
        121 => "y",
        122 => "z",
        _ => "?",
    }
}

/// Sorts the names ascending and joins them with commas.
fn join_names(mut computers: Vec<u32>) -> (r: String)
{
    proof {
        reveal_strlit(",");
    }
    let mut sorted: Vec<u32> = Vec::new();
    let mut i: usize = 0;
    let n = computers.len();
    while i < n
        invariant
            i <= n,
            sorted@.len() == i,
            computers@.len() + i == n,
        decreases n - i,
    {
        let mut best: usize = 0;
        let mut j: usize = 1;
        while j < computers.len()
            invariant
                best < computers@.len() || (best == 0 && computers@.len() == 0),
                j <= computers@.len() || j == 1,
            decreases computers@.len() - j,
        {
            if computers[j] < computers[best] {
                best = j;
            }
            j += 1;
        }
        if computers.len() > 0 {
            let value = computers.remove(best);
            sorted.push(value);
        } else {
            sorted.push(0);
        }
        i += 1;
    }
    let mut s = String::new();
    let mut k: usize = 0;
    while k < sorted.len()
        decreases sorted@.len() - k,
    {
        if k > 0 {
            s.append(",");
        }
        let name = sorted[k];
        s.append(name_byte_str(((name / 256) % 256) as u8));
        s.append(name_byte_str((name % 256) as u8));
        k += 1;
    }
    s
}

/// The members of the largest clique, sorted and comma-joined.
pub fn get_max_lan(connections: &HashMap<u32, Vec<u32>>, keys: &Vec<u32>) -> (r: String)
    requires
        lan_keyed(connections@, keys@),
{
    let mut lan: Vec<u32> = Vec::new();
    let mut ki: usize = 0;
    while ki < keys.len()
        invariant
            ki <= keys@.len(),
            lan_keyed(connections@, keys@),
        decreases keys@.len() - ki,
    {
        let computer = keys[ki];
        let mut lan_finder = LanFinder { chosen: Vec::new(), lan: Vec::new() };
        lan_finder.chosen.push(computer);
        let allowed = match connections.get(&computer) {
            Some(v) => v.clone(),
            None => Vec::new(),
        };
        let fuel = if keys.len() < 1000000 {
            keys.len() + 2
        } else {
            1000002
        };
        lan_finder.get_lan(computer, &allowed, connections, fuel);
        if lan_finder.lan.len() > lan.len() {
            lan = lan_finder.lan;
        }
        ki += 1;
    }
    join_names(lan)
}

/// How many triangles include a `t` computer.
pub fn part1(lines: Vec<&str>) -> (r: usize)
{
    let (connections, keys) = get_connections(lines);
    get_3_lans(true, &connections, &keys).len()
}

/// The password: the largest clique's members, sorted and comma-joined.
pub fn part2(lines: Vec<&str>) -> (r: String)
{
    let (connections, keys) = get_connections(lines);
    get_max_lan(&connections, &keys)
}

} // verus!