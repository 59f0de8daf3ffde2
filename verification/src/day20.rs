//! The racetrack cheats: the single path is numbered by distance from the
//! start, and a cheat is worth counting when skipping through walls (two
//! steps, or up to twenty) saves at least the requested distance.
use vstd::prelude::*;

use crate::text::{ascii_bytes, lines, to_bytes, u64_to_string};

verus! {

#[derive(Clone, Copy)]
pub struct Cell {
    pub distance: i32,
    pub is_obstacle: bool,
    pub is_visited: bool,
}

impl Cell {
    pub fn new() -> (r: Cell)
        ensures
            r.distance == 0 && !r.is_obstacle && !r.is_visited,
    {
        Cell { distance: 0, is_obstacle: false, is_visited: false }
    }
}

pub struct Grid {
    pub grid: Vec<Vec<Cell>>,
    pub size: i32,
    pub min_cheat_distance: i32,
}

#[derive(Clone, Copy)]
pub struct Point {
    pub x: i32,
    pub y: i32,
}

pub open spec fn grid_wf(g: Grid) -> bool {
    &&& 1 <= g.size <= 1000
    &&& 0 <= g.min_cheat_distance <= 1000000
    &&& g.grid@.len() == g.size
    &&& forall|i: int| 0 <= i < g.grid@.len() ==> (#[trigger] g.grid@[i])@.len() == g.size
}

impl Grid {
    /// The cell at `point`, which must lie on the grid.
    pub fn get_cell(&self, point: &Point) -> (r: Cell)
        requires
            grid_wf(*self),
            0 <= point.x < self.size,
            0 <= point.y < self.size,
        ensures
            r == self.grid@[point.y as int]@[point.x as int],
    {
        self.grid[point.y as usize][point.x as usize]
    }

    /// Marks `(x, y)` as track wall.
    pub fn add_obstacle(&mut self, x: i32, y: i32)
        requires
            grid_wf(*old(self)),
            0 <= x < old(self).size,
            0 <= y < old(self).size,
        ensures
            grid_wf(*final(self)),
            final(self).size == old(self).size,
            final(self).min_cheat_distance == old(self).min_cheat_distance,
    {
        let ghost g0 = self.grid@;
        let mut cell = self.grid[y as usize][x as usize];
        cell.is_obstacle = true;
        self.grid[y as usize][x as usize] = cell;
        proof {
            assert(self.grid@[y as int]@.len() == g0[y as int]@.len());
            assert(forall|i: int|
                0 <= i < self.grid@.len() && i != y as int ==> #[trigger] self.grid@[i] == g0[i]);
        }
    }

    /// Records the track distance of `(x, y)`.
    pub fn visit(&mut self, x: i32, y: i32, distance: i32)
        requires
            grid_wf(*old(self)),
            0 <= x < old(self).size,
            0 <= y < old(self).size,
        ensures
            grid_wf(*final(self)),
            final(self).size == old(self).size,
            final(self).min_cheat_distance == old(self).min_cheat_distance,
    {
        let ghost g0 = self.grid@;
        let mut cell = self.grid[y as usize][x as usize];
        cell.is_visited = true;
        cell.distance = distance;
        self.grid[y as usize][x as usize] = cell;
        proof {
            assert(self.grid@[y as int]@.len() == g0[y as int]@.len());
            assert(forall|i: int|
                0 <= i < self.grid@.len() && i != y as int ==> #[trigger] self.grid@[i] == g0[i]);
        }
    }
}

/// Builds the walls-and-start grid from the input.
pub fn create_grid(input: &String, start: &mut Point, min_cheat_distance: i32) -> (r: Grid)
    requires
        input.is_ascii(),
        input@.len() <= 100000,
        0 <= min_cheat_distance <= 1000000,
    ensures
        grid_wf(r),
        r.min_cheat_distance == min_cheat_distance,
        0 <= final(start).x,
        0 <= final(start).y,
{
    let bytes = to_bytes(input.as_str());
    let ls = lines(&bytes);
    let size: usize = if ls.len() >= 1 && ls[0].len() >= 1 && ls[0].len() <= 1000 {
        ls[0].len()
    } else {
        1
    };
    let mut rows: Vec<Vec<Cell>> = Vec::new();
    let mut y: usize = 0;
    while y < size
        invariant
            y <= size <= 1000,
            1 <= size,
            rows@.len() == y,
            forall|i: int| 0 <= i < rows@.len() ==> (#[trigger] rows@[i])@.len() == size,
        decreases size - y,
    {
        let mut row: Vec<Cell> = Vec::new();
        let mut x: usize = 0;
        while x < size
            invariant
                x <= size,
                row@.len() == x,
            decreases size - x,
        {
            row.push(Cell::new());
            x += 1;
        }
        rows.push(row);
        y += 1;
    }
    let mut grid = Grid { grid: rows, size: size as i32, min_cheat_distance };
    start.x = 0;
    start.y = 0;
    let mut yy: usize = 0;
    while yy < ls.len()
        invariant
            yy <= ls@.len(),
            grid_wf(grid),
            grid.size == size,
            grid.min_cheat_distance == min_cheat_distance,
            0 <= start.x,
            0 <= start.y,
        decreases ls@.len() - yy,
    {
        let line = &ls[yy];
        let mut xx: usize = 0;
        while xx < line.len()
            invariant
                xx <= line@.len(),
                yy < ls@.len(),
                grid_wf(grid),
                grid.size == size,
                grid.min_cheat_distance == min_cheat_distance,
                0 <= start.x,
                0 <= start.y,
            decreases line@.len() - xx,
        {
            let c = line[xx];
            if xx < size && yy < size {
                if c == 35 {
                    grid.add_obstacle(xx as i32, yy as i32);
                } else if c == 83 {
                    start.x = xx as i32;
                    start.y = yy as i32;
                }
            }
            xx += 1;
        }
        yy += 1;
    }
    grid
}

/// Numbers the track by walking it depth first from the start, recording
/// the visit order.
pub fn number_grid(grid: &mut Grid, race_track: &mut Vec<Point>, x: i32, y: i32, number: i32)
    requires
        grid_wf(*old(grid)),
        0 <= number <= 1000000,
        -2000000 <= x <= 2000000,
        -2000000 <= y <= 2000000,
    ensures
        grid_wf(*final(grid)),
        final(grid).size == old(grid).size,
        final(grid).min_cheat_distance == old(grid).min_cheat_distance,
{
    let mut stack: Vec<Point> = Vec::new();
    let mut numbers: Vec<i32> = Vec::new();
    stack.push(Point { x, y });
    numbers.push(number);
    // Each track cell is marked before its neighbours are stacked, so the
    // walk touches each cell a bounded number of times.
    let mut budget: u64 = 5000008;
    while budget > 0
        invariant
            grid_wf(*grid),
            grid.size == old(grid).size,
            grid.min_cheat_distance == old(grid).min_cheat_distance,
            stack@.len() == numbers@.len(),
        decreases budget,
    {
        budget -= 1;
        let point = match stack.pop() {
            Some(p) => p,
            None => {
                break ;
            },
        };
        let n = match numbers.pop() {
            Some(v) => v,
            None => {
                break ;
            },
        };
        if point.x < 0 || point.y < 0 || point.x >= grid.size || point.y >= grid.size {
            continue ;
        }
        if n < 0 || n > 1000000 {
            continue ;
        }
        let cell = grid.get_cell(&point);
        if cell.is_obstacle || cell.is_visited {
            continue ;
        }
        grid.visit(point.x, point.y, n);
        race_track.push(point);
        stack.push(Point { x: point.x, y: point.y - 1 });
        numbers.push(n + 1);
        stack.push(Point { x: point.x, y: point.y + 1 });
        numbers.push(n + 1);
        stack.push(Point { x: point.x - 1, y: point.y });
        numbers.push(n + 1);
        stack.push(Point { x: point.x + 1, y: point.y });
        numbers.push(n + 1);
    }
}

/// Whether a two-step wall skip landing at `(x, y)` saves enough distance.
pub fn cheat_value(grid: &Grid, x: i32, y: i32, cheat_start_distance: i32) -> (r: i32)
    requires
        grid_wf(*grid),
        -2000002 <= x <= 2000002,
        -2000002 <= y <= 2000002,
        -1000000000 <= cheat_start_distance <= 1000000000,
    ensures
        r == 0 || r == 1,
{
    if x < 0 || y < 0 || x >= grid.size || y >= grid.size {
        return 0;
    }
    let cell = grid.get_cell(&Point { x, y });
    if cell.is_obstacle {
        return 0;
    }
    if cell.distance as i64 >= cheat_start_distance as i64 + 2 + grid.min_cheat_distance as i64 {
        1
    } else {
        0
    }
}

/// Counts the worthwhile two-step cheats along the numbered track.
pub fn count_cheats(grid: &Grid, x: i32, y: i32, number: i32) -> (r: u64)
    requires
        grid_wf(*grid),
        -2000000 <= x <= 2000000,
        -2000000 <= y <= 2000000,
        0 <= number <= 1000000,
{
    let mut cheats: u64 = 0;
    let mut stack: Vec<Point> = Vec::new();
    let mut numbers: Vec<i32> = Vec::new();
    stack.push(Point { x, y });
    numbers.push(number);
    let mut budget: u64 = 5000008;
    while budget > 0
        invariant
            grid_wf(*grid),
            stack@.len() == numbers@.len(),
            cheats <= 4 * (5000008 - budget),
        decreases budget,
    {
        budget -= 1;
        let point = match stack.pop() {
            Some(p) => p,
            None => {
                break ;
            },
        };
        let n = match numbers.pop() {
            Some(v) => v,
            None => {
                break ;
            },
        };
        if point.x < 0 || point.y < 0 || point.x >= grid.size || point.y >= grid.size {
            continue ;
        }
        if n < 0 || n > 1000000 {
            continue ;
        }
        let cell = grid.get_cell(&point);
        if cell.is_obstacle || cell.distance != n {
            continue ;
        }
        if -1000000000 <= cell.distance && cell.distance <= 1000000000 {
            cheats = cheats + cheat_value(grid, point.x + 2, point.y, cell.distance) as u64;
            cheats = cheats + cheat_value(grid, point.x - 2, point.y, cell.distance) as u64;
            cheats = cheats + cheat_value(grid, point.x, point.y + 2, cell.distance) as u64;
            cheats = cheats + cheat_value(grid, point.x, point.y - 2, cell.distance) as u64;
        }
        stack.push(Point { x: point.x, y: point.y - 1 });
        numbers.push(n + 1);
        stack.push(Point { x: point.x, y: point.y + 1 });
        numbers.push(n + 1);
        stack.push(Point { x: point.x - 1, y: point.y });
        numbers.push(n + 1);
        stack.push(Point { x: point.x + 1, y: point.y });
        numbers.push(n + 1);
    }
    cheats
}

/// Queues an unseen in-bounds neighbour of the widening cheat search.
pub fn maybe_search(grid: &Grid, x: i32, y: i32, search: &mut Vec<Point>, seen: &mut Vec<i32>)
    requires
        grid_wf(*grid),
        -2000000 <= x <= 2000000,
        -2000000 <= y <= 2000000,
    ensures
        grid_wf(*grid),
        old(search)@.len() <= final(search)@.len() <= old(search)@.len() + 1,
{
    if x < 0 || y < 0 || x >= grid.size || y >= grid.size {
        return ;
    }
    let code = x * 1000 + y;
    let mut i: usize = 0;
    while i < seen.len()
        invariant
            i <= seen@.len(),
            search@ == old(search)@,
        decreases seen@.len() - i,
    {
        if seen[i] == code {
            return ;
        }
        i += 1;
    }
    seen.push(code);
    search.push(Point { x, y });
}

/// Whether the cell one cheat step `(dx, dy)` away from `(x, y)` is a
/// counted cheat target: within twenty steps, on the grid, and saving at
/// least the required distance over the step length.
pub open spec fn cheat_counted(g: Grid, x: int, y: int, sd: int, dx: int, dy: int) -> bool {
    let md = (if dx < 0 {
        -dx
    } else {
        dx
    }) + (if dy < 0 {
        -dy
    } else {
        dy
    });
    md <= 20 && 0 <= x + dx < g.size && 0 <= y + dy < g.size && g.grid@[y + dy]@[x + dx].distance
        >= sd + g.min_cheat_distance + md
}

/// How many of the first `k` offsets of the forty-one by forty-one window
/// around `(x, y)` are counted cheat targets, the offsets read row by row.
pub open spec fn cheat_count(g: Grid, x: int, y: int, sd: int, k: int) -> int
    decreases k,
{
    if k <= 0 {
        0
    } else {
        let dx = (k - 1) / 41 - 20;
        let dy = (k - 1) % 41 - 20;
        cheat_count(g, x, y, sd, k - 1) + (if cheat_counted(g, x, y, sd, dx, dy) {
            1int
        } else {
            0int
        })
    }
}

/// Each window offset adds at most one to the count.
pub proof fn lemma_cheat_count_le(g: Grid, x: int, y: int, sd: int, k: int)
    requires
        k >= 0,
    ensures
        0 <= cheat_count(g, x, y, sd, k) <= k,
    decreases k,
{
    if k > 0 {
        lemma_cheat_count_le(g, x, y, sd, k - 1);
    }
}

/// Counts the cheat targets within twenty steps of `(x, y)` that save
/// enough distance: each cell of the Manhattan ball once, walls ignored
/// while stepping.
pub fn count_cheat_paths(grid: &Grid, x: i32, y: i32) -> (r: u64)
    requires
        grid_wf(*grid),
        0 <= x < grid.size,
        0 <= y < grid.size,
    ensures
        ({
            let sd = grid.grid@[y as int]@[x as int].distance as int;
            if -1000000 <= sd <= 1000000 {
                r as int == cheat_count(*grid, x as int, y as int, sd, 1681)
            } else {
                r == 0
            }
        }),
{
    let start_distance = grid.get_cell(&Point { x, y }).distance;
    if start_distance < -1000000 || start_distance > 1000000 {
        return 0;
    }
    let ghost sd = start_distance as int;
    let mut count: u64 = 0;
    let mut dx: i32 = -20;
    while dx <= 20
        invariant
            grid_wf(*grid),
            0 <= x < grid.size,
            0 <= y < grid.size,
            -20 <= dx <= 21,
            -1000000 <= sd <= 1000000,
            sd == grid.grid@[y as int]@[x as int].distance as int,
            sd == start_distance as int,
            count <= 1681,
            count as int == cheat_count(*grid, x as int, y as int, sd, (dx as int + 20) * 41),
        decreases 21 - dx,
    {
        let mut dy: i32 = -20;
        while dy <= 20
            invariant
                grid_wf(*grid),
                0 <= x < grid.size,
                0 <= y < grid.size,
                -20 <= dx <= 20,
                -20 <= dy <= 21,
                -1000000 <= sd <= 1000000,
                sd == grid.grid@[y as int]@[x as int].distance as int,
                sd == start_distance as int,
                count <= 1681,
                count as int == cheat_count(
                    *grid,
                    x as int,
                    y as int,
                    sd,
                    (dx as int + 20) * 41 + (dy as int + 20),
                ),
            decreases 21 - dy,
        {
            proof {
                let k = (dx as int + 20) * 41 + (dy as int + 20);
                vstd::arithmetic::div_mod::lemma_fundamental_div_mod_converse(
                    k,
                    41,
                    dx as int + 20,
                    dy as int + 20,
                );
                assert((k + 1 - 1) / 41 - 20 == dx as int);
                assert((k + 1 - 1) % 41 - 20 == dy as int);
                lemma_cheat_count_le(*grid, x as int, y as int, sd, k);
                assert(cheat_count(*grid, x as int, y as int, sd, k + 1) == cheat_count(
                    *grid,
                    x as int,
                    y as int,
                    sd,
                    k,
                ) + (if cheat_counted(*grid, x as int, y as int, sd, dx as int, dy as int) {
                    1int
                } else {
                    0int
                }));
            }
            let adx = if dx < 0 {
                -dx
            } else {
                dx
            };
            let ady = if dy < 0 {
                -dy
            } else {
                dy
            };
            let md = adx + ady;
            if md <= 20 {
                let nx = x + dx;
                let ny = y + dy;
                if 0 <= nx && nx < grid.size && 0 <= ny && ny < grid.size {
                    let cell = grid.get_cell(&Point { x: nx, y: ny });
                    if cell.distance as i64 >= start_distance as i64 + grid.min_cheat_distance
                        as i64 + md as i64 {
                        count += 1;
                    }
                }
            }
            dy += 1;
        }
        proof {
            assert((dx as int + 20) * 41 + 41 == (dx as int + 1 + 20) * 41);
        }
        dx += 1;
    }
    proof {
        assert((21int + 20) * 41 == 1681);
    }
    count
}

/// How many two-step cheats save at least the requested distance.
pub fn part1(input: &String, min_cheat_distance: i32) -> (r: String)
    requires
        input.is_ascii(),
        input@.len() <= 100000,
        0 <= min_cheat_distance <= 1000000,
{
    let mut start = Point { x: 0, y: 0 };
    let mut grid = create_grid(input, &mut start, min_cheat_distance);
    if start.x >= grid.size || start.y >= grid.size {
        return u64_to_string(0);
    }
    number_grid(&mut grid, &mut Vec::new(), start.x, start.y, 0);
    u64_to_string(count_cheats(&grid, start.x, start.y, 0))
}

/// How many up-to-twenty-step cheats save at least the requested distance.
pub fn part2(input: &String, min_cheat_distance: i32) -> (r: String)
    requires
        input.is_ascii(),
        input@.len() <= 100000,
        0 <= min_cheat_distance <= 1000000,
{
    let mut start = Point { x: 0, y: 0 };
    let mut grid = create_grid(input, &mut start, min_cheat_distance);
    if start.x >= grid.size || start.y >= grid.size {
        return u64_to_string(0);
    }
    let mut race_track: Vec<Point> = Vec::new();
    number_grid(&mut grid, &mut race_track, start.x, start.y, 0);
    let mut cheats: u64 = 0;
    let mut si: usize = 0;
    while si < race_track.len()
        invariant
            si <= race_track@.len(),
            grid_wf(grid),
        decreases race_track@.len() - si,
    {
        let start_point = race_track[si];
        if 0 <= start_point.x && start_point.x < grid.size && 0 <= start_point.y && start_point.y
            < grid.size {
            let c = count_cheat_paths(&grid, start_point.x, start_point.y);
            if c <= u64::MAX - cheats {
                cheats = cheats + c;
            }
        }
        si += 1;
    }
    u64_to_string(cheats)
}

} // verus!