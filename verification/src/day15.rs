//! The box-pushing warehouse: a robot shoves boxes (or, widened, two-cell
//! boxes) around a walled grid, and the final box coordinates are summed.
use vstd::prelude::*;

use crate::text::{ascii_bytes, lines, to_bytes, u128_to_string};

verus! {

#[derive(PartialEq, Eq, Structural, Clone, Copy)]
pub enum Entity {
    Wall,
    Box,
    Space,
    BoxLeft,
    BoxRight,
}

/// How many steps remain before the moving front leaves the grid.
pub open spec fn push_distance(
    map_len: int,
    map_width: int,
    position_x: int,
    position_y: int,
    direction_x: int,
    direction_y: int,
) -> int {
    if direction_x == 1 {
        if position_x < map_width {
            map_width - position_x
        } else {
            0
        }
    } else if direction_x == -1 {
        if position_x >= 0 {
            position_x + 1
        } else {
            0
        }
    } else if direction_y == 1 {
        if position_y < map_len {
            map_len - position_y
        } else {
            0
        }
    } else {
        if position_y >= 0 {
            position_y + 1
        } else {
            0
        }
    }
}

pub open spec fn unit_direction(direction_x: int, direction_y: int) -> bool {
    (direction_x == 1 && direction_y == 0) || (direction_x == -1 && direction_y == 0) || (
    direction_x == 0 && direction_y == 1) || (direction_x == 0 && direction_y == -1)
}

/// The rows of the map read as sequences.
pub open spec fn rows_of(m: Seq<Vec<Entity>>) -> Seq<Seq<Entity>> {
    m.map_values(|v: Vec<Entity>| v@)
}

/// What one straight push does: scanning ahead of `(px, py)`, a Wall or the
/// grid edge refuses the push, a Space accepts it, and a box cell pushes the
/// chain beyond it first; on success each vacated cell takes the entity
/// shoved into it, so the whole chain shifts one step.
pub open spec fn push_spec(
    m: Seq<Seq<Entity>>,
    w: int,
    px: int,
    py: int,
    dx: int,
    dy: int,
    entity: Entity,
) -> (bool, Seq<Seq<Entity>>)
    decreases push_distance(m.len() as int, w, px, py, dx, dy),
{
    let tx = px + dx;
    let ty = py + dy;
    if !unit_direction(dx, dy) || tx < 0 || ty < 0 || tx >= w || ty >= m.len() {
        (false, m)
    } else if tx >= m[ty].len() {
        (false, m)
    } else {
        let sub = match m[ty][tx] {
            Entity::Wall => (false, m),
            Entity::Box => push_spec(m, w, tx, ty, dx, dy, Entity::Box),
            Entity::BoxLeft => push_spec(m, w, tx, ty, dx, dy, Entity::BoxLeft),
            Entity::BoxRight => push_spec(m, w, tx, ty, dx, dy, Entity::BoxRight),
            Entity::Space => (true, m),
        };
        if sub.0 {
            if tx < sub.1[ty].len() {
                (true, sub.1.update(ty, sub.1[ty].update(tx, entity)))
            } else {
                (true, sub.1)
            }
        } else {
            (false, sub.1)
        }
    }
}

/// Shoves the chain of boxes ahead of `(position_x, position_y)` one step,
/// writing `entity` into the vacated cell on success.
pub fn push(
    map: &mut Vec<Vec<Entity>>,
    map_width: i32,
    position_x: i32,
    position_y: i32,
    direction_x: i32,
    direction_y: i32,
    entity: Entity,
) -> (success: bool)
    requires
        unit_direction(direction_x as int, direction_y as int),
        0 <= map_width <= 1000000,
        old(map)@.len() <= 1000000,
        -1000000 <= position_x <= 1000000,
        -1000000 <= position_y <= 1000000,
    ensures
        final(map)@.len() == old(map)@.len(),
        forall|i: int|
            0 <= i < final(map)@.len() ==> (#[trigger] final(map)@[i])@.len() == old(map)@[i]@.len(),
        !success ==> final(map)@ == old(map)@,
        success ==> 0 <= position_y + direction_y < old(map)@.len() && 0 <= position_x
            + direction_x < map_width,
        success && position_x + direction_x < old(map)@[position_y + direction_y]@.len()
            ==> final(map)@[position_y + direction_y]@[position_x + direction_x] == entity,
        success == push_spec(
            rows_of(old(map)@),
            map_width as int,
            position_x as int,
            position_y as int,
            direction_x as int,
            direction_y as int,
            entity,
        ).0,
        rows_of(final(map)@) == push_spec(
            rows_of(old(map)@),
            map_width as int,
            position_x as int,
            position_y as int,
            direction_x as int,
            direction_y as int,
            entity,
        ).1,
    decreases
            push_distance(
                old(map)@.len() as int,
                map_width as int,
                position_x as int,
                position_y as int,
                direction_x as int,
                direction_y as int,
            ),
{
    let ghost m0 = rows_of(old(map)@);
    let ghost spec_r = push_spec(
        rows_of(old(map)@),
        map_width as int,
        position_x as int,
        position_y as int,
        direction_x as int,
        direction_y as int,
        entity,
    );
    proof {
        assert(m0.len() == old(map)@.len());
        assert(forall|i: int| 0 <= i < m0.len() ==> m0[i] == old(map)@[i]@);
    }
    let destination_x = position_x + direction_x;
    let destination_y = position_y + direction_y;
    if destination_x < 0 || destination_y < 0 || destination_x >= map_width || destination_y
        >= map.len() as i32 {
        return false;
    }
    if destination_x as usize >= map[destination_y as usize].len() {
        return false;
    }
    let cell = map[destination_y as usize][destination_x as usize];
    let success = match cell {
        Entity::Wall => false,
        Entity::Box => push(
            map,
            map_width,
            destination_x,
            destination_y,
            direction_x,
            direction_y,
            Entity::Box,
        ),
        Entity::BoxLeft => push(
            map,
            map_width,
            destination_x,
            destination_y,
            direction_x,
            direction_y,
            Entity::BoxLeft,
        ),
        Entity::BoxRight => push(
            map,
            map_width,
            destination_x,
            destination_y,
            direction_x,
            direction_y,
            Entity::BoxRight,
        ),
        Entity::Space => true,
    };
    proof {
        assert(rows_of(map@).len() == map@.len());
        assert(forall|i: int| 0 <= i < map@.len() ==> rows_of(map@)[i] == map@[i]@);
    }
    if success {
        if (destination_x as usize) < map[destination_y as usize].len() {
            let ghost mid = map@;
            map[destination_y as usize][destination_x as usize] = entity;
            proof {
                assert(map@[destination_y as int]@.len() == mid[destination_y as int]@.len());
                assert(forall|i: int|
                    0 <= i < map@.len() && i != destination_y as int ==> #[trigger] map@[i]
                        == mid[i]);
                assert(rows_of(map@) =~~= rows_of(mid).update(
                    destination_y as int,
                    rows_of(mid)[destination_y as int].update(destination_x as int, entity),
                ));
                assert(rows_of(map@) =~~= spec_r.1);
            }
        } else {
            proof {
                assert(rows_of(map@) =~~= spec_r.1);
            }
        }
    } else {
        proof {
            assert(rows_of(map@) =~~= spec_r.1);
        }
    }
    success
}

/// Shoves a widened box column vertically; a dry run only tests the move.
/// What one vertical wide push does: a Wall or the edge refuses it, a Space
/// accepts it, and a box half pushes both halves of its box a row further
/// first; a wet run then writes the shoved entity over the freed cell and
/// clears the cells its box left, while a dry run leaves the map untouched.
pub open spec fn push_wide_spec(
    m: Seq<Seq<Entity>>,
    n: int,
    px: int,
    py: int,
    dy: int,
    entity: Entity,
    dry: bool,
) -> (bool, Seq<Seq<Entity>>)
    decreases push_distance(n, 0, 0, py, 0, dy),
{
    let ty = py + dy;
    if !(dy == 1 || dy == -1) || ty < 0 || ty >= n {
        (false, m)
    } else if px < 0 || px >= m[ty].len() {
        (false, m)
    } else {
        let sub = match m[ty][px] {
            Entity::Wall => (false, m),
            Entity::BoxLeft => {
                let s1 = push_wide_spec(m, n, px, ty, dy, Entity::BoxLeft, dry);
                if s1.0 {
                    push_wide_spec(s1.1, n, px + 1, ty, dy, Entity::BoxRight, dry)
                } else {
                    (false, s1.1)
                }
            },
            Entity::BoxRight => {
                let s1 = push_wide_spec(m, n, px, ty, dy, Entity::BoxRight, dry);
                if s1.0 {
                    push_wide_spec(s1.1, n, px - 1, ty, dy, Entity::BoxLeft, dry)
                } else {
                    (false, s1.1)
                }
            },
            Entity::Space => (true, m),
            _ => (false, m),
        };
        if sub.0 && !dry {
            let m1 = sub.1;
            if 0 <= px < m1[ty].len() {
                let m2 = m1.update(ty, m1[ty].update(px, entity));
                if 0 <= py < n && px < m2[py].len() {
                    match entity {
                        Entity::BoxLeft => {
                            let m3 = m2.update(py, m2[py].update(px, Entity::Space));
                            if px + 1 < m3[py].len() {
                                (true, m3.update(py, m3[py].update(px + 1, Entity::Space)))
                            } else {
                                (true, m3)
                            }
                        },
                        Entity::BoxRight => {
                            let m3 = m2.update(py, m2[py].update(px, Entity::Space));
                            if px >= 1 {
                                (true, m3.update(py, m3[py].update(px - 1, Entity::Space)))
                            } else {
                                (true, m3)
                            }
                        },
                        _ => (true, m2),
                    }
                } else {
                    (true, m2)
                }
            } else {
                (true, m1)
            }
        } else {
            sub
        }
    }
}

pub fn push_wide(
    map: &mut Vec<Vec<Entity>>,
    position_x: i32,
    position_y: i32,
    direction_y: i32,
    entity: Entity,
    dry_run: bool,
) -> (success: bool)
    requires
        direction_y == 1 || direction_y == -1,
        old(map)@.len() <= 1000000,
        forall|i: int| 0 <= i < old(map)@.len() ==> (#[trigger] old(map)@[i])@.len() <= 2000000,
        -4000000 <= position_x <= 4000000,
        -1000000 <= position_y <= 1000000,
    ensures
        final(map)@.len() == old(map)@.len(),
        forall|i: int|
            0 <= i < final(map)@.len() ==> (#[trigger] final(map)@[i])@.len() == old(map)@[i]@.len(),
        dry_run ==> final(map)@ == old(map)@,
        success == push_wide_spec(
            rows_of(old(map)@),
            old(map)@.len() as int,
            position_x as int,
            position_y as int,
            direction_y as int,
            entity,
            dry_run,
        ).0,
        rows_of(final(map)@) == push_wide_spec(
            rows_of(old(map)@),
            old(map)@.len() as int,
            position_x as int,
            position_y as int,
            direction_y as int,
            entity,
            dry_run,
        ).1,
    decreases
            push_distance(
                old(map)@.len() as int,
                0,
                0,
                position_y as int,
                0,
                direction_y as int,
            ),
{
    let ghost n = old(map)@.len() as int;
    let ghost spec_r = push_wide_spec(
        rows_of(old(map)@),
        n,
        position_x as int,
        position_y as int,
        direction_y as int,
        entity,
        dry_run,
    );
    proof {
        assert(rows_of(old(map)@).len() == old(map)@.len());
        assert(forall|i: int|
            0 <= i < old(map)@.len() ==> rows_of(old(map)@)[i] == old(map)@[i]@);
    }
    let destination_y = position_y + direction_y;
    if destination_y < 0 || destination_y >= map.len() as i32 {
        return false;
    }
    if position_x < 0 || position_x as usize >= map[destination_y as usize].len() {
        return false;
    }
    let cell = map[destination_y as usize][position_x as usize];
    let ghost sub_spec = match cell {
        Entity::Wall => (false, rows_of(old(map)@)),
        Entity::BoxLeft => {
            let s1 = push_wide_spec(
                rows_of(old(map)@),
                n,
                position_x as int,
                destination_y as int,
                direction_y as int,
                Entity::BoxLeft,
                dry_run,
            );
            if s1.0 {
                push_wide_spec(
                    s1.1,
                    n,
                    position_x as int + 1,
                    destination_y as int,
                    direction_y as int,
                    Entity::BoxRight,
                    dry_run,
                )
            } else {
                (false, s1.1)
            }
        },
        Entity::BoxRight => {
            let s1 = push_wide_spec(
                rows_of(old(map)@),
                n,
                position_x as int,
                destination_y as int,
                direction_y as int,
                Entity::BoxRight,
                dry_run,
            );
            if s1.0 {
                push_wide_spec(
                    s1.1,
                    n,
                    position_x as int - 1,
                    destination_y as int,
                    direction_y as int,
                    Entity::BoxLeft,
                    dry_run,
                )
            } else {
                (false, s1.1)
            }
        },
        Entity::Space => (true, rows_of(old(map)@)),
        _ => (false, rows_of(old(map)@)),
    };
    let success = match cell {
        Entity::Wall => false,
        Entity::BoxLeft => push_wide(map, position_x, destination_y, direction_y, Entity::BoxLeft, dry_run)
            && push_wide(
            map,
            position_x + 1,
            destination_y,
            direction_y,
            Entity::BoxRight,
            dry_run,
        ),
        Entity::BoxRight => push_wide(
            map,
            position_x,
            destination_y,
            direction_y,
            Entity::BoxRight,
            dry_run,
        ) && push_wide(
            map,
            position_x - 1,
            destination_y,
            direction_y,
            Entity::BoxLeft,
            dry_run,
        ),
        Entity::Space => true,
        _ => false,
    };
    proof {
        assert(map@.len() == old(map)@.len());
        assert(rows_of(map@).len() == map@.len());
        assert(forall|i: int| 0 <= i < map@.len() ==> rows_of(map@)[i] == map@[i]@);
        assert(success == sub_spec.0);
        assert(rows_of(map@) =~~= sub_spec.1);
    }
    let ghost sub1 = sub_spec.1;
    if success && !dry_run {
        if 0 <= position_x && (position_x as usize) < map[destination_y as usize].len() {
            let ghost m0 = map@;
            map[destination_y as usize][position_x as usize] = entity;
            proof {
                assert(map@[destination_y as int]@.len() == m0[destination_y as int]@.len());
                assert(forall|i: int|
                    0 <= i < map@.len() && i != destination_y as int ==> #[trigger] map@[i]
                        == m0[i]);
                assert(rows_of(map@) =~~= sub1.update(
                    destination_y as int,
                    sub1[destination_y as int].update(position_x as int, entity),
                ));
            }
            let ghost m2s = rows_of(map@);
            let moved = map[destination_y as usize][position_x as usize];
            if 0 <= position_y && (position_y as usize) < map.len() && (position_x as usize)
                < map[position_y as usize].len() {
                match moved {
                    Entity::BoxLeft => {
                        let ghost m1 = map@;
                        map[position_y as usize][position_x as usize] = Entity::Space;
                        proof {
                            assert(map@[position_y as int]@.len() == m1[position_y as int]@.len());
                            assert(forall|i: int|
                                0 <= i < map@.len() && i != position_y as int ==> #[trigger] map@[i]
                                    == m1[i]);
                            assert(rows_of(map@) =~~= m2s.update(
                                position_y as int,
                                m2s[position_y as int].update(position_x as int, Entity::Space),
                            ));
                        }
                        let ghost m3s = rows_of(map@);
                        if position_x as usize + 1 < map[position_y as usize].len() {
                            let ghost m2 = map@;
                            map[position_y as usize][position_x as usize + 1] = Entity::Space;
                            proof {
                                assert(map@[position_y as int]@.len() == m2[position_y as int]@.len());
                                assert(forall|i: int|
                                    0 <= i < map@.len() && i != position_y as int
                                        ==> #[trigger] map@[i] == m2[i]);
                                assert(rows_of(map@) =~~= m3s.update(
                                    position_y as int,
                                    m3s[position_y as int].update(
                                        position_x as int + 1,
                                        Entity::Space,
                                    ),
                                ));
                            }
                        }
                    },
                    Entity::BoxRight => {
                        let ghost m1 = map@;
                        map[position_y as usize][position_x as usize] = Entity::Space;
                        proof {
                            assert(map@[position_y as int]@.len() == m1[position_y as int]@.len());
                            assert(forall|i: int|
                                0 <= i < map@.len() && i != position_y as int ==> #[trigger] map@[i]
                                    == m1[i]);
                            assert(rows_of(map@) =~~= m2s.update(
                                position_y as int,
                                m2s[position_y as int].update(position_x as int, Entity::Space),
                            ));
                        }
                        let ghost m3s = rows_of(map@);
                        if position_x >= 1 {
                            let ghost m2 = map@;
                            map[position_y as usize][position_x as usize - 1] = Entity::Space;
                            proof {
                                assert(map@[position_y as int]@.len() == m2[position_y as int]@.len());
                                assert(forall|i: int|
                                    0 <= i < map@.len() && i != position_y as int
                                        ==> #[trigger] map@[i] == m2[i]);
                                assert(rows_of(map@) =~~= m3s.update(
                                    position_y as int,
                                    m3s[position_y as int].update(
                                        position_x as int - 1,
                                        Entity::Space,
                                    ),
                                ));
                            }
                        }
                    },
                    _ => {},
                }
            }
        }
    }
    proof {
        assert(success == spec_r.0);
        assert(rows_of(map@) =~~= spec_r.1);
    }
    success
}

/// Runs the narrow warehouse and sums `100 * row + column` over the boxes.
pub fn part1(input: &String) -> (r: String)
    requires
        input.is_ascii(),
        input@.len() <= 1000000,
{
    let bytes = to_bytes(input.as_str());
    let ls = lines(&bytes);
    let mut map: Vec<Vec<Entity>> = Vec::new();
    let mut robot_x: i32 = 0;
    let mut robot_y: i32 = 0;
    let mut li: usize = 0;
    proof {
        crate::text::lemma_lines_count(bytes@);
        crate::text::lemma_line_lens(bytes@);
        assert forall|j: int| 0 <= j < ls@.len() implies (#[trigger] ls@[j])@.len()
            <= 1000000 by {
            assert(ls@[j]@ == crate::text::lines_of(bytes@)[j]);
        }
    }
    while li < ls.len() && ls[li].len() > 0
        invariant
            li <= ls@.len() <= 1000001,
            map@.len() == li,
            forall|j: int| 0 <= j < ls@.len() ==> (#[trigger] ls@[j])@.len() <= 1000000,
            forall|j: int| 0 <= j < map@.len() ==> (#[trigger] map@[j])@.len() <= 1000000,
            -1000000 <= robot_x <= 1000000,
            -1000000 <= robot_y <= 1000000,
        decreases ls@.len() - li,
    {
        let line = &ls[li];
        let mut row: Vec<Entity> = Vec::new();
        let mut ci: usize = 0;
        while ci < line.len()
            invariant
                ci <= line@.len() <= 1000000,
                row@.len() == ci,
                li < ls@.len() <= 1000001,
                map@.len() == li,
                -1000000 <= robot_x <= 1000000,
                -1000000 <= robot_y <= 1000000,
            decreases line@.len() - ci,
        {
            let b = line[ci];
            if b == 35 {
                row.push(Entity::Wall);
            } else if b == 79 {
                row.push(Entity::Box);
            } else if b == 64 {
                robot_x = ci as i32;
                robot_y = li as i32;
                row.push(Entity::Space);
            } else {
                row.push(Entity::Space);
            }
            ci += 1;
        }
        map.push(row);
        li += 1;
    }
    let size = map.len();
    let mut ii: usize = li + 1;
    while ii < ls.len()
        invariant
            map@.len() == size <= 1000001,
            forall|j: int| 0 <= j < map@.len() ==> (#[trigger] map@[j])@.len() <= 1000000,
            forall|j: int| 0 <= j < ls@.len() ==> (#[trigger] ls@[j])@.len() <= 1000000,
            ii <= ls@.len() + 1,
            -1000000 <= robot_x <= 1000000,
            -1000000 <= robot_y <= 1000000,
        decreases ls@.len() + 1 - ii,
    {
        let line = &ls[ii];
        let mut ci: usize = 0;
        while ci < line.len()
            invariant
                ci <= line@.len() <= 1000000,
                map@.len() == size <= 1000001,
                forall|j: int| 0 <= j < map@.len() ==> (#[trigger] map@[j])@.len() <= 1000000,
                -1000000 <= robot_x <= 1000000,
                -1000000 <= robot_y <= 1000000,
            decreases line@.len() - ci,
        {
            let b = line[ci];
            let mut direction_x: i32 = 0;
            let mut direction_y: i32 = 0;
            if b == 60 {
                direction_x = -1;
            } else if b == 62 {
                direction_x = 1;
            } else if b == 94 {
                direction_y = -1;
            } else if b == 118 {
                direction_y = 1;
            }
            if direction_x != 0 || direction_y != 0 {
                if size <= 1000000 && -999999 <= robot_x && robot_x <= 999999 && -999999 <= robot_y
                    && robot_y <= 999999 {
                    if push(
                        &mut map,
                        size as i32,
                        robot_x,
                        robot_y,
                        direction_x,
                        direction_y,
                        Entity::Space,
                    ) {
                        robot_x += direction_x;
                        robot_y += direction_y;
                    }
                }
            }
            ci += 1;
        }
        ii += 1;
    }
    let mut coordinate_sum: u128 = 0;
    let mut height: usize = 0;
    while height < size
        invariant
            map@.len() == size,
            height <= size,
        decreases size - height,
    {
        let mut width: usize = 0;
        while width < size
            invariant
                map@.len() == size,
                height < size,
                width <= size,
            decreases size - width,
        {
            if width < map[height].len() {
                if map[height][width] == Entity::Box {
                    let term = (height as u128) * 100 + (width as u128);
                    if term <= u128::MAX - coordinate_sum {
                        coordinate_sum = coordinate_sum + term;
                    }
                }
            }
            width += 1;
        }
        height += 1;
    }
    u128_to_string(coordinate_sum)
}

/// Runs the widened warehouse and sums `100 * row + column` over the left
/// halves of the boxes.
pub fn part2(input: &String) -> (r: String)
    requires
        input.is_ascii(),
        input@.len() <= 1000000,
{
    let bytes = to_bytes(input.as_str());
    let ls = lines(&bytes);
    let mut map: Vec<Vec<Entity>> = Vec::new();
    let mut robot_x: i32 = 0;
    let mut robot_y: i32 = 0;
    let mut li: usize = 0;
    proof {
        crate::text::lemma_lines_count(bytes@);
        crate::text::lemma_line_lens(bytes@);
        assert forall|j: int| 0 <= j < ls@.len() implies (#[trigger] ls@[j])@.len()
            <= 1000000 by {
            assert(ls@[j]@ == crate::text::lines_of(bytes@)[j]);
        }
    }
    while li < ls.len() && ls[li].len() > 0
        invariant
            li <= ls@.len() <= 1000001,
            map@.len() == li,
            forall|j: int| 0 <= j < ls@.len() ==> (#[trigger] ls@[j])@.len() <= 1000000,
            forall|j: int| 0 <= j < map@.len() ==> (#[trigger] map@[j])@.len() <= 2000000,
            -2000000 <= robot_x <= 2000000,
            -1000000 <= robot_y <= 1000000,
        decreases ls@.len() - li,
    {
        let line = &ls[li];
        let mut row: Vec<Entity> = Vec::new();
        let mut ci: usize = 0;
        while ci < line.len()
            invariant
                ci <= line@.len() <= 1000000,
                row@.len() == 2 * ci,
                li < ls@.len() <= 1000001,
                map@.len() == li,
                -2000000 <= robot_x <= 2000000,
                -1000000 <= robot_y <= 1000000,
            decreases line@.len() - ci,
        {
            let b = line[ci];
            if b == 35 {
                row.push(Entity::Wall);
                row.push(Entity::Wall);
            } else if b == 79 {
                row.push(Entity::BoxLeft);
                row.push(Entity::BoxRight);
            } else if b == 64 {
                robot_x = (ci as i32) * 2;
                robot_y = li as i32;
                row.push(Entity::Space);
                row.push(Entity::Space);
            } else {
                row.push(Entity::Space);
                row.push(Entity::Space);
            }
            ci += 1;
        }
        map.push(row);
        li += 1;
    }
    let size = map.len();
    let mut ii: usize = li + 1;
    while ii < ls.len()
        invariant
            map@.len() == size <= 1000001,
            forall|j: int| 0 <= j < map@.len() ==> (#[trigger] map@[j])@.len() <= 2000000,
            forall|j: int| 0 <= j < ls@.len() ==> (#[trigger] ls@[j])@.len() <= 1000000,
            ii <= ls@.len() + 1,
            -2000000 <= robot_x <= 2000000,
            -1000000 <= robot_y <= 1000000,
        decreases ls@.len() + 1 - ii,
    {
        let line = &ls[ii];
        let mut ci: usize = 0;
        while ci < line.len()
            invariant
                ci <= line@.len() <= 1000000,
                map@.len() == size <= 1000001,
                forall|j: int| 0 <= j < map@.len() ==> (#[trigger] map@[j])@.len() <= 2000000,
                -2000000 <= robot_x <= 2000000,
                -1000000 <= robot_y <= 1000000,
            decreases line@.len() - ci,
        {
            let b = line[ci];
            let mut direction_x: i32 = 0;
            let mut direction_y: i32 = 0;
            if b == 60 {
                direction_x = -1;
            } else if b == 62 {
                direction_x = 1;
            } else if b == 94 {
                direction_y = -1;
            } else if b == 118 {
                direction_y = 1;
            }
            if size <= 500000 && -999999 <= robot_x && robot_x <= 999999 && -999999 <= robot_y
                && robot_y <= 999999 {
                if direction_y == 0 && direction_x != 0 {
                    if push(
                        &mut map,
                        (size as i32) * 2,
                        robot_x,
                        robot_y,
                        direction_x,
                        direction_y,
                        Entity::Space,
                    ) {
                        robot_x += direction_x;
                    }
                } else if direction_y != 0 {
                    if push_wide(&mut map, robot_x, robot_y, direction_y, Entity::Space, true) {
                        push_wide(&mut map, robot_x, robot_y, direction_y, Entity::Space, false);
                        robot_y += direction_y;
                    }
                }
            }
            ci += 1;
        }
        ii += 1;
    }
    let mut coordinate_sum: u128 = 0;
    let mut row_i: usize = 0;
    while row_i < size
        invariant
            map@.len() == size,
            row_i <= size,
            size <= 1000001,
        decreases size - row_i,
    {
        let mut col: usize = 0;
        let bound = if size <= 1000000 {
            size * 2
        } else {
            size
        };
        while col < bound
            invariant
                map@.len() == size,
                row_i < size,
                col <= bound,
            decreases bound - col,
        {
            if col < map[row_i].len() {
                if map[row_i][col] == Entity::BoxLeft {
                    let term = (row_i as u128) * 100 + (col as u128);
                    if term <= u128::MAX - coordinate_sum {
                        coordinate_sum = coordinate_sum + term;
                    }
                }
            }
            col += 1;
        }
        row_i += 1;
    }
    u128_to_string(coordinate_sum)
}

} // verus!