//! Falling memory bytes: after a given number of corruptions the shortest
//! safe path across the grid is measured, and the second part finds the
//! first byte that cuts the exit off.
use vstd::prelude::*;

use crate::text::{digits_ok, find_byte, lines, parse_u64, to_bytes, u64_to_string};

verus! {

use vstd::string::StringExecFns;

pub struct Cell {
    pub distance: i32,
    pub is_obstacle: bool,
    pub is_visited: bool,
}

impl Clone for Cell {
    fn clone(&self) -> (r: Cell)
        ensures
            r == *self,
    {
        Cell { distance: self.distance, is_obstacle: self.is_obstacle, is_visited: self.is_visited }
    }
}

/// The grid's rows read as sequences.
pub open spec fn cell_rows(g: Seq<Vec<Cell>>) -> Seq<Seq<Cell>> {
    g.map_values(|v: Vec<Cell>| v@)
}

impl Cell {
    pub fn new() -> (r: Cell)
        ensures
            r.distance == 0 && !r.is_obstacle && !r.is_visited,
    {
        Cell { distance: 0, is_obstacle: false, is_visited: false }
    }
}

pub struct Grid {
    pub grid: Vec<Vec<Cell>>,
    pub size: i32,
}

pub struct Point {
    pub x: i32,
    pub y: i32,
}

pub open spec fn grid_wf(g: Grid) -> bool {
    &&& 1 <= g.size <= 1000
    &&& g.grid@.len() == g.size
    &&& forall|i: int| 0 <= i < g.grid@.len() ==> (#[trigger] g.grid@[i])@.len() == g.size
}

impl Grid {
    /// The cell at `point`, which must lie on the grid.
    pub fn get_cell(&self, point: &Point) -> (r: Cell)
        requires
            grid_wf(*self),
            0 <= point.x < self.size,
            0 <= point.y < self.size,
        ensures
            r == self.grid@[point.y as int]@[point.x as int],
    {
        self.grid[point.y as usize][point.x as usize].clone()
    }

    /// Marks `(x, y)` corrupted.
    pub fn add_obstacle(&mut self, x: i32, y: i32)
        requires
            grid_wf(*old(self)),
            0 <= x < old(self).size,
            0 <= y < old(self).size,
        ensures
            grid_wf(*final(self)),
            final(self).size == old(self).size,
    {
        let ghost g0 = self.grid@;
        let mut cell = self.grid[y as usize][x as usize].clone();
        cell.is_obstacle = true;
        self.grid[y as usize][x as usize] = cell;
        proof {
            assert(self.grid@[y as int]@.len() == g0[y as int]@.len());
            assert(forall|i: int|
                0 <= i < self.grid@.len() && i != y as int ==> #[trigger] self.grid@[i] == g0[i]);
        }
    }

    /// Records the walk distance of `(x, y)`.
    pub fn visit(&mut self, x: i32, y: i32, distance: i32)
        requires
            grid_wf(*old(self)),
            0 <= x < old(self).size,
            0 <= y < old(self).size,
        ensures
            grid_wf(*final(self)),
            final(self).size == old(self).size,
            cell_rows(final(self).grid@) == cell_rows(old(self).grid@).update(
                y as int,
                cell_rows(old(self).grid@)[y as int].update(
                    x as int,
                    (Cell {
                        distance,
                        is_obstacle: old(self).grid@[y as int]@[x as int].is_obstacle,
                        is_visited: true,
                    }),
                ),
            ),
    {
        let ghost g0 = self.grid@;
        let mut cell = self.grid[y as usize][x as usize].clone();
        cell.is_visited = true;
        cell.distance = distance;
        self.grid[y as usize][x as usize] = cell;
        proof {
            assert(self.grid@[y as int]@.len() == g0[y as int]@.len());
            assert(forall|i: int|
                0 <= i < self.grid@.len() && i != y as int ==> #[trigger] self.grid@[i] == g0[i]);
            assert(cell_rows(self.grid@) =~~= cell_rows(g0).update(
                y as int,
                cell_rows(g0)[y as int].update(x as int, cell),
            ));
        }
    }
}

/// What queueing a cell does: out-of-range, corrupted, or already-settled
/// cells change nothing; any other cell takes the new distance, is marked
/// visited, and joins the queue.
pub open spec fn chart_spec(
    x: int,
    y: int,
    size: int,
    g: Seq<Seq<Cell>>,
    q: Seq<Point>,
    d: int,
) -> (Seq<Seq<Cell>>, Seq<Point>) {
    if x < 0 || y < 0 || x >= size || y >= size {
        (g, q)
    } else {
        let cell = g[y][x];
        if cell.is_obstacle || (cell.is_visited && cell.distance <= d) {
            (g, q)
        } else {
            (
                g.update(
                    y,
                    g[y].update(
                        x,
                        (Cell {
                            distance: d as i32,
                            is_obstacle: cell.is_obstacle,
                            is_visited: true,
                        }),
                    ),
                ),
                q.push((Point { x: x as i32, y: y as i32 })),
            )
        }
    }
}

/// Queues `(x, y)` when it improves on any recorded distance.
pub fn chart_distance(x: i32, y: i32, grid: &mut Grid, queue: &mut Vec<Point>, distance: i32)
    requires
        grid_wf(*old(grid)),
        0 <= distance <= 2000000,
    ensures
        grid_wf(*final(grid)),
        final(grid).size == old(grid).size,
        old(queue)@.len() <= final(queue)@.len() <= old(queue)@.len() + 1,
        ({
            let r = chart_spec(
                x as int,
                y as int,
                old(grid).size as int,
                cell_rows(old(grid).grid@),
                old(queue)@,
                distance as int,
            );
            cell_rows(final(grid).grid@) == r.0 && final(queue)@ == r.1
        }),
{
    if x < 0 || y < 0 || x >= grid.size || y >= grid.size {
        return ;
    }
    let cell = grid.get_cell(&Point { x, y });
    if cell.is_obstacle || (cell.is_visited && cell.distance <= distance) {
        return ;
    }
    grid.visit(x, y, distance);
    queue.push(Point { x, y });
}

/// What the whole walk leaves on the grid, worked off a stack of pending
/// cells: each step settles the most recently queued cell and offers the
/// new distance to its four neighbours, until the stack or the step budget
/// runs out.
pub open spec fn traverse_spec(size: int, g: Seq<Seq<Cell>>, q: Seq<Point>, budget: int) -> Seq<
    Seq<Cell>,
>
    decreases budget,
{
    if q.len() == 0 || budget <= 0 {
        g
    } else {
        let point = q.last();
        let q1 = q.drop_last();
        if point.x < 0 || point.y < 0 || point.x >= size || point.y >= size {
            traverse_spec(size, g, q1, budget - 1)
        } else {
            let cell = g[point.y as int][point.x as int];
            if cell.distance > 1000000 || cell.distance < 0 {
                traverse_spec(size, g, q1, budget - 1)
            } else {
                let d = cell.distance + 1;
                let s1 = chart_spec(point.x + 1, point.y as int, size, g, q1, d);
                let s2 = chart_spec(point.x - 1, point.y as int, size, s1.0, s1.1, d);
                let s3 = chart_spec(point.x as int, point.y + 1, size, s2.0, s2.1, d);
                let s4 = chart_spec(point.x as int, point.y - 1, size, s3.0, s3.1, d);
                let s5 = chart_spec(point.x as int, point.y - 1, size, s4.0, s4.1, d);
                traverse_spec(size, s5.0, s5.1, budget - 1)
            }
        }
    }
}

/// Breadth-first walk from the top-left corner, recording distances.  The
/// step budget bounds the work; it outlasts every queue the largest grid
/// can produce, and an exhausted budget leaves the distances laid so far.
pub fn traverse(grid: &mut Grid)
    requires
        grid_wf(*old(grid)),
    ensures
        grid_wf(*final(grid)),
        final(grid).size == old(grid).size,
        cell_rows(final(grid).grid@) == traverse_spec(
            old(grid).size as int,
            cell_rows(old(grid).grid@),
            seq![(Point { x: 0, y: 0 })],
            100000000,
        ),
{
    let mut queue: Vec<Point> = Vec::new();
    queue.push(Point { x: 0, y: 0 });
    proof {
        assert(queue@ =~= seq![(Point { x: 0, y: 0 })]);
    }
    let ghost size = old(grid).size as int;
    let ghost target = traverse_spec(
        size,
        cell_rows(old(grid).grid@),
        seq![(Point { x: 0, y: 0 })],
        100000000,
    );
    // Each cell enters the queue at most a bounded number of times; the
    // budget covers every such visit for the largest grid.
    let mut budget: u64 = 100000000;
    while queue.len() > 0 && budget > 0
        invariant
            grid_wf(*grid),
            grid.size == old(grid).size,
            budget <= 100000000,
            target == traverse_spec(size, cell_rows(grid.grid@), queue@, budget as int),
        decreases budget,
    {
        budget -= 1;
        let point = match queue.pop() {
            Some(p) => p,
            None => {
                break ;
            },
        };
        if point.x < 0 || point.y < 0 || point.x >= grid.size || point.y >= grid.size {
            continue ;
        }
        let cell = grid.get_cell(&point);
        if cell.distance > 1000000 || cell.distance < 0 {
            continue ;
        }
        chart_distance(point.x + 1, point.y, grid, &mut queue, cell.distance + 1);
        chart_distance(point.x - 1, point.y, grid, &mut queue, cell.distance + 1);
        chart_distance(point.x, point.y + 1, grid, &mut queue, cell.distance + 1);
        chart_distance(point.x, point.y - 1, grid, &mut queue, cell.distance + 1);
        chart_distance(point.x, point.y - 1, grid, &mut queue, cell.distance + 1);
    }
    proof {
        assert(cell_rows(grid.grid@) == traverse_spec(size, cell_rows(grid.grid@), queue@, budget as int));
    }
}

fn build_grid(input: &Vec<Vec<u8>>, time: i32, size: i32) -> (r: Grid)
    requires
        1 <= size <= 1000,
    ensures
        grid_wf(r),
        r.size == size,
{
    let mut rows: Vec<Vec<Cell>> = Vec::new();
    let mut y: usize = 0;
    while y < size as usize
        invariant
            y <= size,
            1 <= size <= 1000,
            rows@.len() == y,
            forall|i: int| 0 <= i < rows@.len() ==> (#[trigger] rows@[i])@.len() == size,
        decreases size - y,
    {
        let mut row: Vec<Cell> = Vec::new();
        let mut x: usize = 0;
        while x < size as usize
            invariant
                x <= size,
                row@.len() == x,
            decreases size - x,
        {
            row.push(Cell::new());
            x += 1;
        }
        rows.push(row);
        y += 1;
    }
    let mut grid = Grid { grid: rows, size };
    let mut byte: i32 = 0;
    let mut li: usize = 0;
    while li < input.len()
        invariant
            li <= input@.len(),
            grid_wf(grid),
            grid.size == size,
        decreases input@.len() - li,
    {
        if byte == time {
            break ;
        }
        let line = &input[li];
        match find_byte(line, 0, 44) {
            Some(comma) => {
                if digits_ok(line, 0, comma) && comma <= 4 && comma + 1 <= line.len()
                    && digits_ok(line, comma + 1, line.len()) && line.len() - comma <= 5 {
                    proof {
                        crate::text::lemma_dec_value_bound(line@.subrange(0, comma as int));
                        crate::text::lemma_dec_value_bound(
                            line@.subrange(comma + 1, line@.len() as int),
                        );
                    }
                    let x = parse_u64(line, 0, comma) as i32;
                    let y = parse_u64(line, comma + 1, line.len()) as i32;
                    if 0 <= x && x < grid.size && 0 <= y && y < grid.size {
                        grid.add_obstacle(x, y);
                    }
                }
            },
            None => {},
        }
        if byte < i32::MAX {
            byte += 1;
        }
        li += 1;
    }
    grid
}

/// The shortest-path length to the far corner after `time` corruptions.
pub fn part1(input: &String, time: i32, size: i32) -> (r: String)
    requires
        input.is_ascii(),
        input@.len() <= 100000000,
        1 <= size <= 1000,
{
    let bytes = to_bytes(input.as_str());
    let ls = lines(&bytes);
    let mut grid = build_grid(&ls, time, size);
    traverse(&mut grid);
    let corner = grid.get_cell(&Point { x: size - 1, y: size - 1 });
    if corner.distance >= 0 {
        u64_to_string(corner.distance as u64)
    } else {
        u64_to_string(0)
    }
}

/// The first corruption that severs the path, as `x,y`.
pub fn part2(input: &String, time: i32, size: i32) -> (r: String)
    requires
        input.is_ascii(),
        input@.len() <= 100000000,
        1 <= size <= 1000,
        0 <= time,
{
    let bytes = to_bytes(input.as_str());
    let ls = lines(&bytes);
    let mut t = time;
    let mut budget: u64 = 10000000;
    while budget > 0
        invariant
            1 <= size <= 1000,
            0 <= t,
        decreases budget,
    {
        budget -= 1;
        if t == i32::MAX {
            break ;
        }
        t = t + 1;
        let mut grid = build_grid(&ls, t, size);
        traverse(&mut grid);
        let corner = grid.get_cell(&Point { x: size - 1, y: size - 1 });
        if corner.distance == 0 {
            let idx = (t - 1) as usize;
            if idx < ls.len() {
                let line = &ls[idx];
                let mut out = String::new();
                let mut k: usize = 0;
                while k < line.len()
                    decreases line@.len() - k,
                {
                    let b = line[k];
                    out.append(byte_str(b));
                    k += 1;
                }
                return out;
            }
            return String::new();
        }
    }
    String::new()
}

/// The one-character string for a digit or comma byte; anything else reads
/// as a space.
fn byte_str(b: u8) -> (r: &'static str)
{
    proof {
        reveal_strlit("0");
        reveal_strlit("1");
        reveal_strlit("2");
        reveal_strlit("3");
        reveal_strlit("4");
        reveal_strlit("5");
        reveal_strlit("6");
        reveal_strlit("7");
        reveal_strlit("8");
        reveal_strlit("9");
        reveal_strlit(",");
        reveal_strlit(" ");
    }
    match b {
        48 => "0",
        49 => "1",
        50 => "2",
        51 => "3",
        52 => "4",
        53 => "5",
        54 => "6",
        55 => "7",
        56 => "8",
        57 => "9",
        44 => ",",
        _ => " ",
    }
}

} // verus!