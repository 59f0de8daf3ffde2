//! Garden regions: flood-fill each region of equal plots, pricing it by
//! area times perimeter, or area times side count (corners) for the bulk
//! discount.
use vstd::prelude::*;

use crate::text::{ascii_bytes, dec_chars_u, lines, lines_of, to_bytes, u128_to_string};

verus! {

pub struct Position {
    pub row: i32,
    pub col: i32,
}

pub struct Perimeter {
    pub length: i32,
    pub sides: i32,
}

/// A square map with each side at most 10000 plots.
pub open spec fn map_wf(map: Seq<Vec<u8>>) -> bool {
    map.len() <= 10000 && forall|i: int|
        0 <= i < map.len() ==> (#[trigger] map[i])@.len() == map.len()
}

pub open spec fn in_region(map: Seq<Vec<u8>>, row: int, col: int, region: u8) -> bool {
    row != -1 && col != -1 && row != map.len() && col != map.len() && 0 <= row < map.len() && 0
        <= col < map.len() && map[row]@[col] == region
}

/// Whether the plot at `(row, col)` exists and belongs to `region`.
pub fn is_in_region(map: &Vec<Vec<u8>>, row: i32, col: i32, region: u8) -> (r: bool)
    requires
        map_wf(map@),
    ensures
        r == in_region(map@, row as int, col as int, region),
{
    row != -1 && col != -1 && (row as usize) < map.len() && (col as usize) < map.len() && row >= 0
        && col >= 0 && map[row as usize][col as usize] == region
}

/// A corner sits between two neighbours when both are outside, or both are
/// inside but the diagonal is outside.
pub open spec fn corner_present(neighbour1: bool, neighbour2: bool, neighbour3: bool) -> bool {
    (!neighbour1 && !neighbour2) || (neighbour1 && neighbour2 && !neighbour3)
}

/// How many of the four corners around `(row, col)` belong to the region's
/// outline.
pub open spec fn corner_count(map: Seq<Vec<u8>>, row: int, col: int, region: u8) -> int {
    (if corner_present(
        in_region(map, row + 1, col, region),
        in_region(map, row, col + 1, region),
        in_region(map, row + 1, col + 1, region),
    ) {
        1int
    } else {
        0int
    }) + (if corner_present(
        in_region(map, row + 1, col, region),
        in_region(map, row, col - 1, region),
        in_region(map, row + 1, col - 1, region),
    ) {
        1int
    } else {
        0int
    }) + (if corner_present(
        in_region(map, row - 1, col, region),
        in_region(map, row, col - 1, region),
        in_region(map, row - 1, col - 1, region),
    ) {
        1int
    } else {
        0int
    }) + (if corner_present(
        in_region(map, row - 1, col, region),
        in_region(map, row, col + 1, region),
        in_region(map, row - 1, col + 1, region),
    ) {
        1int
    } else {
        0int
    })
}

/// Whether the three neighbours make a region corner.
pub fn evaluate_corner(neighbour1: bool, neighbour2: bool, neighbour3: bool) -> (r: bool)
    ensures
        r == corner_present(neighbour1, neighbour2, neighbour3),
{
    (!neighbour1 && !neighbour2) || (neighbour1 && neighbour2 && !neighbour3)
}

/// Adds the number of region corners that meet at `(row, col)`.
pub fn evaluate_corners(
    map: &Vec<Vec<u8>>,
    row: i32,
    col: i32,
    region: u8,
    perimeter: &mut Perimeter,
)
    requires
        map_wf(map@),
        -10001 <= row <= 10001,
        -10001 <= col <= 10001,
        old(perimeter).sides <= 2000000000,
    ensures
        final(perimeter).length == old(perimeter).length,
        final(perimeter).sides == old(perimeter).sides + corner_count(
            map@,
            row as int,
            col as int,
            region,
        ),
        old(perimeter).sides <= final(perimeter).sides <= old(perimeter).sides + 4,
{
    if evaluate_corner(
        is_in_region(map, row + 1, col, region),
        is_in_region(map, row, col + 1, region),
        is_in_region(map, row + 1, col + 1, region),
    ) {
        perimeter.sides += 1;
    }
    if evaluate_corner(
        is_in_region(map, row + 1, col, region),
        is_in_region(map, row, col - 1, region),
        is_in_region(map, row + 1, col - 1, region),
    ) {
        perimeter.sides += 1;
    }
    if evaluate_corner(
        is_in_region(map, row - 1, col, region),
        is_in_region(map, row, col - 1, region),
        is_in_region(map, row - 1, col - 1, region),
    ) {
        perimeter.sides += 1;
    }
    if evaluate_corner(
        is_in_region(map, row - 1, col, region),
        is_in_region(map, row, col + 1, region),
        is_in_region(map, row - 1, col + 1, region),
    ) {
        perimeter.sides += 1;
    }
}

pub open spec fn search_wf(search_map: Seq<Vec<bool>>, n: int) -> bool {
    search_map.len() == n && forall|i: int|
        0 <= i < search_map.len() ==> (#[trigger] search_map[i])@.len() == n
}

/// Visits one neighbour: an outside plot lengthens the perimeter, an
/// unvisited region plot is queued.
pub fn evaluate_position(
    map: &Vec<Vec<u8>>,
    search_map: &mut Vec<Vec<bool>>,
    row: i32,
    col: i32,
    region: u8,
    queue: &mut Vec<Position>,
    perimeter: &mut Perimeter,
)
    requires
        map_wf(map@),
        search_wf(old(search_map)@, map@.len() as int),
        -10001 <= row <= 10001,
        -10001 <= col <= 10001,
        old(perimeter).length <= 2000000000,
        old(perimeter).sides <= 2000000000,
    ensures
        search_wf(final(search_map)@, map@.len() as int),
        old(queue)@.len() <= final(queue)@.len() <= old(queue)@.len() + 1,
        old(perimeter).length <= final(perimeter).length <= old(perimeter).length + 1,
        old(perimeter).sides <= final(perimeter).sides <= old(perimeter).sides + 4,
        !in_region(map@, row as int, col as int, region) ==> final(perimeter).length == old(
            perimeter,
        ).length + 1 && final(perimeter).sides == old(perimeter).sides && final(search_map)@
            == old(search_map)@ && final(queue)@ == old(queue)@,
        in_region(map@, row as int, col as int, region) && old(search_map)@[row as int]@[col as int]
            ==> *final(perimeter) == *old(perimeter) && final(search_map)@ == old(search_map)@
            && final(queue)@ == old(queue)@,
        in_region(map@, row as int, col as int, region) && !old(search_map)@[row as int]@[col as int]
            ==> final(perimeter).length == old(perimeter).length && final(perimeter).sides == old(
            perimeter,
        ).sides + corner_count(map@, row as int, col as int, region) && final(queue)@ == old(
            queue,
        )@.push((Position { row, col })) && final(search_map)@[row as int]@ == old(
            search_map,
        )@[row as int]@.update(col as int, true) && forall|i: int|
            0 <= i < old(search_map)@.len() && i != row as int
                ==> #[trigger] final(search_map)@[i] == old(search_map)@[i],
{
    if !is_in_region(map, row, col, region) {
        perimeter.length += 1;
    } else if !search_map[row as usize][col as usize] {
        let ghost sm0 = search_map@;
        search_map[row as usize][col as usize] = true;
        proof {
            assert(search_map@[row as int]@.len() == sm0[row as int]@.len());
            assert(forall|i: int|
                0 <= i < search_map@.len() && i != row as int ==> #[trigger] search_map@[i]
                    == sm0[i]);
        }
        queue.push(Position { row, col });
        evaluate_corners(map, row, col, region, perimeter);
    }
}

/// The search rows read as sequences.
pub open spec fn bool_rows(g: Seq<Vec<bool>>) -> Seq<Seq<bool>> {
    g.map_values(|v: Vec<bool>| v@)
}

/// What visiting one neighbour does: an outside plot lengthens the
/// perimeter, a plot already marked changes nothing, and a fresh region
/// plot is marked, queued, and adds its corners to the side count.
pub open spec fn eval_spec(
    map: Seq<Vec<u8>>,
    sm: Seq<Seq<bool>>,
    row: int,
    col: int,
    region: u8,
    q: Seq<Position>,
    per: Perimeter,
) -> (Seq<Seq<bool>>, Seq<Position>, Perimeter) {
    if !in_region(map, row, col, region) {
        (sm, q, (Perimeter { length: (per.length + 1) as i32, sides: per.sides }))
    } else if sm[row][col] {
        (sm, q, per)
    } else {
        (
            sm.update(row, sm[row].update(col, true)),
            q.push((Position { row: row as i32, col: col as i32 })),
            (Perimeter {
                length: per.length,
                sides: (per.sides + corner_count(map, row, col, region)) as i32,
            }),
        )
    }
}

/// What the whole fill leaves behind, worked off a stack of pending plots:
/// each step settles the most recently queued plot, counts it, and offers
/// its four neighbours, until the stack or the step budget runs out or a
/// plot outside the coordinate window stops the walk.
pub open spec fn fill_spec(
    map: Seq<Vec<u8>>,
    region: u8,
    sm: Seq<Seq<bool>>,
    q: Seq<Position>,
    area: int,
    per: Perimeter,
    budget: int,
) -> (Seq<Seq<bool>>, int, Perimeter)
    decreases budget,
{
    if budget <= 0 || q.len() == 0 {
        (sm, area, per)
    } else {
        let p = q.last();
        let q1 = q.drop_last();
        if p.row < 0 || p.row >= 10001 || p.col < 0 || p.col >= 10001 {
            (sm, area, per)
        } else {
            let r1 = eval_spec(map, sm, p.row + 1, p.col as int, region, q1, per);
            let r2 = eval_spec(map, r1.0, p.row as int, p.col + 1, region, r1.1, r1.2);
            let r3 = eval_spec(map, r2.0, p.row - 1, p.col as int, region, r2.1, r2.2);
            let r4 = eval_spec(map, r3.0, p.row as int, p.col - 1, region, r3.1, r3.2);
            fill_spec(map, region, r4.0, r4.1, area + 1, r4.2, budget - 1)
        }
    }
}

/// Flood-fills the region containing `(row, col)`, returning its area and
/// accumulating its perimeter and corner count.
#[verifier::rlimit(100)]
pub fn get_region_area(
    map: &Vec<Vec<u8>>,
    search_map: &mut Vec<Vec<bool>>,
    row: i32,
    col: i32,
    perimeter: &mut Perimeter,
) -> (area: i32)
    requires
        map_wf(map@),
        search_wf(old(search_map)@, map@.len() as int),
        0 <= row < map@.len(),
        0 <= col < map@.len(),
        old(perimeter).length == 0,
        old(perimeter).sides == 0,
    ensures
        search_wf(final(search_map)@, map@.len() as int),
        0 <= area <= map@.len() * map@.len() + 1,
        0 <= final(perimeter).length <= 16 * (map@.len() * map@.len() + 1) + 4,
        0 <= final(perimeter).sides <= 16 * (map@.len() * map@.len() + 1) + 4,
        ({
            let region = map@[row as int]@[col as int];
            let sm1 = bool_rows(old(search_map)@).update(
                row as int,
                bool_rows(old(search_map)@)[row as int].update(col as int, true),
            );
            let per1 = (Perimeter {
                length: old(perimeter).length,
                sides: (old(perimeter).sides + corner_count(
                    map@,
                    row as int,
                    col as int,
                    region,
                )) as i32,
            });
            let r = fill_spec(
                map@,
                region,
                sm1,
                seq![(Position { row, col })],
                0,
                per1,
                (map@.len() * map@.len() + 1) as int,
            );
            bool_rows(final(search_map)@) == r.0 && area as int == r.1 && *final(perimeter) == r.2
        }),
{
    let mut area: i32 = 0;
    let region = map[row as usize][col as usize];
    let n = map.len();
    let mut queue: Vec<Position> = Vec::new();
    queue.push(Position { row, col });
    let ghost sm0 = search_map@;
    search_map[row as usize][col as usize] = true;
    proof {
        assert(search_map@[row as int]@.len() == sm0[row as int]@.len());
        assert(forall|i: int|
            0 <= i < search_map@.len() && i != row as int ==> #[trigger] search_map@[i] == sm0[i]);
        assert(bool_rows(search_map@) =~~= bool_rows(sm0).update(
            row as int,
            bool_rows(sm0)[row as int].update(col as int, true),
        ));
    }
    evaluate_corners(map, row, col, region, perimeter);
    // The fill marks a plot before queueing it, so it visits each plot at
    // most once; the step budget covers every plot of the map.
    proof {
        assert(n * n <= 10000 * 10000) by (nonlinear_arith)
            requires
                0 <= n <= 10000,
        ;
    }
    let ghost target = fill_spec(
        map@,
        region,
        bool_rows(search_map@),
        seq![(Position { row, col })],
        0,
        *perimeter,
        (map@.len() * map@.len() + 1) as int,
    );
    proof {
        assert(queue@ =~= seq![(Position { row, col })]);
    }
    let mut done = false;
    let mut budget: usize = n * n + 1;
    while budget > 0 && !done
        invariant
            map_wf(map@),
            search_wf(search_map@, map@.len() as int),
            budget <= map@.len() * map@.len() + 1,
            0 <= area <= (map@.len() * map@.len() + 1) - budget,
            0 <= perimeter.length <= 16 * ((map@.len() * map@.len() + 1) - budget) + 4,
            0 <= perimeter.sides <= 16 * ((map@.len() * map@.len() + 1) - budget) + 4,
            !done ==> target == fill_spec(
                map@,
                region,
                bool_rows(search_map@),
                queue@,
                area as int,
                *perimeter,
                budget as int,
            ),
            done ==> target == (bool_rows(search_map@), area as int, *perimeter),
        decreases budget,
    {
        let ghost q_entry = queue@;
        let ghost area_entry = area as int;
        let ghost per_entry = *perimeter;
        let ghost sm_entry = bool_rows(search_map@);
        let ghost budget_entry = budget as int;
        budget -= 1;
        match queue.pop() {
            None => {
                done = true;
                continue ;
            },
            Some(position) => {
                if position.row < 0 || position.row >= 10001 || position.col < 0 || position.col
                    >= 10001 {
                    done = true;
                    continue ;
                }
                area += 1;
                let ghost qb1 = queue@;
                let ghost r1s = eval_spec(
                    map@,
                    sm_entry,
                    position.row as int + 1,
                    position.col as int,
                    region,
                    qb1,
                    per_entry,
                );
                let ghost r2s = eval_spec(
                    map@,
                    r1s.0,
                    position.row as int,
                    position.col as int + 1,
                    region,
                    r1s.1,
                    r1s.2,
                );
                let ghost r3s = eval_spec(
                    map@,
                    r2s.0,
                    position.row as int - 1,
                    position.col as int,
                    region,
                    r2s.1,
                    r2s.2,
                );
                let ghost r4s = eval_spec(
                    map@,
                    r3s.0,
                    position.row as int,
                    position.col as int - 1,
                    region,
                    r3s.1,
                    r3s.2,
                );
                evaluate_position(
                    map,
                    search_map,
                    position.row + 1,
                    position.col,
                    region,
                    &mut queue,
                    perimeter,
                );
                proof {
                    assert(bool_rows(search_map@) =~~= r1s.0);
                    assert(queue@ == r1s.1);
                    assert(*perimeter == r1s.2);
                }
                evaluate_position(
                    map,
                    search_map,
                    position.row,
                    position.col + 1,
                    region,
                    &mut queue,
                    perimeter,
                );
                proof {
                    assert(bool_rows(search_map@) =~~= r2s.0);
                    assert(queue@ == r2s.1);
                    assert(*perimeter == r2s.2);
                }
                evaluate_position(
                    map,
                    search_map,
                    position.row - 1,
                    position.col,
                    region,
                    &mut queue,
                    perimeter,
                );
                proof {
                    assert(bool_rows(search_map@) =~~= r3s.0);
                    assert(queue@ == r3s.1);
                    assert(*perimeter == r3s.2);
                }
                evaluate_position(
                    map,
                    search_map,
                    position.row,
                    position.col - 1,
                    region,
                    &mut queue,
                    perimeter,
                );
                proof {
                    assert(bool_rows(search_map@) =~~= r4s.0);
                    assert(queue@ == r4s.1);
                    assert(*perimeter == r4s.2);
                    assert(q_entry.last() == position);
                    assert(q_entry.drop_last() == qb1);
                    assert(fill_spec(map@, region, sm_entry, q_entry, area_entry, per_entry, budget_entry)
                        == fill_spec(map@, region, r4s.0, r4s.1, area_entry + 1, r4s.2, budget_entry - 1));
                    assert(target == fill_spec(
                        map@,
                        region,
                        bool_rows(search_map@),
                        queue@,
                        area as int,
                        *perimeter,
                        budget as int,
                    ));
                }
            },
        }
    }
    area
}

pub open spec fn day12_input_ok(s: Seq<u8>) -> bool {
    let ls = lines_of(s);
    ls.len() <= 10000 && forall|i: int| 0 <= i < ls.len() ==> (#[trigger] ls[i]).len() == ls.len()
}

fn parse_map(input: &String) -> (map: Vec<Vec<u8>>)
    requires
        input.is_ascii(),
        day12_input_ok(ascii_bytes(input@)),
    ensures
        map_wf(map@),
{
    let bytes = to_bytes(input.as_str());
    let ls = lines(&bytes);
    proof {
        assert forall|i: int| 0 <= i < ls@.len() implies (#[trigger] ls@[i])@.len()
            == ls@.len() by {
            assert(ls@[i]@ == lines_of(bytes@)[i]);
            assert(lines_of(bytes@)[i].len() == lines_of(bytes@).len());
        }
    }
    ls
}

/// The total fencing price: each region's area times its perimeter.
pub fn part1(input: &String) -> (r: String)
    requires
        input.is_ascii(),
        day12_input_ok(ascii_bytes(input@)),
{
    let map = parse_map(input);
    let size = map.len();
    let mut total_score: u128 = 0;
    let mut search_map: Vec<Vec<bool>> = Vec::new();
    let mut i: usize = 0;
    while i < size
        invariant
            search_map@.len() == i <= size,
            forall|j: int| 0 <= j < i ==> (#[trigger] search_map@[j])@.len() == size,
        decreases size - i,
    {
        let mut row: Vec<bool> = Vec::new();
        let mut j: usize = 0;
        while j < size
            invariant
                row@.len() == j <= size,
            decreases size - j,
        {
            row.push(false);
            j += 1;
        }
        search_map.push(row);
        i += 1;
    }
    let mut row: usize = 0;
    while row < size
        invariant
            map_wf(map@),
            map@.len() == size,
            search_wf(search_map@, size as int),
            row <= size,
        decreases size - row,
    {
        let mut col: usize = 0;
        while col < size
            invariant
                map_wf(map@),
                map@.len() == size,
                search_wf(search_map@, size as int),
                row < size,
                col <= size,
            decreases size - col,
        {
            if !search_map[row][col] {
                let mut perimeter = Perimeter { length: 0, sides: 0 };
                let area = get_region_area(
                    &map,
                    &mut search_map,
                    row as i32,
                    col as i32,
                    &mut perimeter,
                );
                proof {
                    assert(map@.len() * map@.len() <= 10000int * 10000) by (nonlinear_arith)
                        requires
                            0 <= map@.len() <= 10000,
                    ;
                }
                proof {
                    assert(area as int * (perimeter.length as int) <= 2147483647int * 2147483647)
                        by (nonlinear_arith)
                        requires
                            0 <= area <= 2147483647,
                            0 <= perimeter.length <= 2147483647,
                    ;
                }
                let term = (area as u128) * (perimeter.length as u128);
                if term <= u128::MAX - total_score {
                    total_score = total_score + term;
                }
            }
            col += 1;
        }
        row += 1;
    }
    u128_to_string(total_score)
}

/// The discounted price: each region's area times its number of sides.
pub fn part2(input: &String) -> (r: String)
    requires
        input.is_ascii(),
        day12_input_ok(ascii_bytes(input@)),
{
    let map = parse_map(input);
    let size = map.len();
    let mut total_score: u128 = 0;
    let mut search_map: Vec<Vec<bool>> = Vec::new();
    let mut i: usize = 0;
    while i < size
        invariant
            search_map@.len() == i <= size,
            forall|j: int| 0 <= j < i ==> (#[trigger] search_map@[j])@.len() == size,
        decreases size - i,
    {
        let mut row: Vec<bool> = Vec::new();
        let mut j: usize = 0;
        while j < size
            invariant
                row@.len() == j <= size,
            decreases size - j,
        {
            row.push(false);
            j += 1;
        }
        search_map.push(row);
        i += 1;
    }
    let mut row: usize = 0;
    while row < size
        invariant
            map_wf(map@),
            map@.len() == size,
            search_wf(search_map@, size as int),
            row <= size,
        decreases size - row,
    {
        let mut col: usize = 0;
        while col < size
            invariant
                map_wf(map@),
                map@.len() == size,
                search_wf(search_map@, size as int),
                row < size,
                col <= size,
            decreases size - col,
        {
            if !search_map[row][col] {
                let mut perimeter = Perimeter { length: 0, sides: 0 };
                let area = get_region_area(
                    &map,
                    &mut search_map,
                    row as i32,
                    col as i32,
                    &mut perimeter,
                );
                proof {
                    assert(map@.len() * map@.len() <= 10000int * 10000) by (nonlinear_arith)
                        requires
                            0 <= map@.len() <= 10000,
                    ;
                }
                proof {
                    assert(area as int * (perimeter.sides as int) <= 2147483647int * 2147483647)
                        by (nonlinear_arith)
                        requires
                            0 <= area <= 2147483647,
                            0 <= perimeter.sides <= 2147483647,
                    ;
                }
                let term = (area as u128) * (perimeter.sides as u128);
                if term <= u128::MAX - total_score {
                    total_score = total_score + term;
                }
            }
            col += 1;
        }
        row += 1;
    }
    u128_to_string(total_score)
}

} // verus!