//! The patrolling guard: she walks straight until an obstacle turns her
//! right and eventually leaves the room; the second part tries one extra
//! obstacle on each visited spot and watches for a loop.
use vstd::prelude::*;

use crate::text::{ascii_bytes, lines, to_bytes, u64_to_string};

verus! {

pub struct State {
    pub row: i32,
    pub col: i32,
}

pub struct Grid {
    pub rows: Vec<Vec<u8>>,
    pub cols: Vec<Vec<u8>>,
}

pub open spec fn room_wf(rows: Seq<Vec<u8>>) -> bool {
    rows.len() <= 1000 && forall|i: int|
        0 <= i < rows.len() ==> (#[trigger] rows[i])@.len() == rows.len()
}

/// The columns of a square character grid.
pub fn rotate(rows: &Vec<Vec<u8>>) -> (r: Vec<Vec<u8>>)
    requires
        room_wf(rows@),
    ensures
        room_wf(r@),
        r@.len() == rows@.len(),
{
    let n = rows.len();
    let mut cols: Vec<Vec<u8>> = Vec::new();
    let mut c: usize = 0;
    while c < n
        invariant
            c <= n,
            room_wf(rows@),
            rows@.len() == n,
            cols@.len() == c,
            forall|i: int| 0 <= i < cols@.len() ==> (#[trigger] cols@[i])@.len() == n,
        decreases n - c,
    {
        let mut col: Vec<u8> = Vec::new();
        let mut rr: usize = 0;
        while rr < n
            invariant
                rr <= n,
                c < n,
                room_wf(rows@),
                rows@.len() == n,
                col@.len() == rr,
            decreases n - rr,
        {
            col.push(rows[rr][c]);
            rr += 1;
        }
        cols.push(col);
        c += 1;
    }
    cols
}

/// The index of the nearest obstacle strictly below `guard_index`, or -1
/// when the way out of the room is clear in that direction.
pub open spec fn spec_reverse_find(room: Seq<u8>, guard_index: int) -> int
    decreases guard_index,
{
    if guard_index <= 0 {
        -1
    } else if guard_index - 1 < room.len() && room[guard_index - 1] == 35 {
        guard_index - 1
    } else {
        spec_reverse_find(room, guard_index - 1)
    }
}

/// The index of the nearest obstacle at or after `guard_index`, or the room
/// length when the way out is clear in that direction.
pub open spec fn spec_find(room: Seq<u8>, guard_index: int) -> int
    decreases room.len() - guard_index,
{
    if guard_index < 0 || guard_index >= room.len() {
        room.len() as int
    } else if room[guard_index] == 35 {
        guard_index
    } else {
        spec_find(room, guard_index + 1)
    }
}

/// The nearest obstacle strictly below `guard_index`, or -1.
pub fn reverse_find(room: &Vec<u8>, guard_index: usize) -> (r: i32)
    requires
        room@.len() <= 1000,
        guard_index <= 1000,
    ensures
        r == spec_reverse_find(room@, guard_index as int),
        -1 <= r && r < guard_index,
        r >= 0 ==> r < room@.len() && room@[r as int] == 35,
        forall|j: int| r < j < guard_index && 0 <= j < room@.len() ==> room@[j] != 35,
{
    let mut i: i32 = guard_index as i32 - 1;
    while i >= 0
        invariant
            -1 <= i && i < guard_index,
            i < 1000,
            spec_reverse_find(room@, guard_index as int) == spec_reverse_find(room@, i + 1),
            forall|j: int| i < j < guard_index && 0 <= j < room@.len() ==> room@[j] != 35,
        decreases i + 1,
    {
        if (i as usize) < room.len() && room[i as usize] == 35 {
            return i;
        }
        i -= 1;
    }
    -1
}

/// The nearest obstacle at or after `guard_index`, or the room length.
pub fn find(room: &Vec<u8>, guard_index: usize) -> (r: usize)
    requires
        room@.len() <= 1000,
    ensures
        r == spec_find(room@, guard_index as int),
        guard_index <= r <= room@.len() || (r == room@.len() && guard_index > room@.len()),
        r < room@.len() ==> room@[r as int] == 35,
        forall|j: int| guard_index <= j < r && j < room@.len() ==> room@[j] != 35,
{
    let mut i = guard_index;
    while i < room.len()
        invariant
            guard_index <= i <= room@.len() || i == guard_index,
            spec_find(room@, guard_index as int) == spec_find(room@, i as int),
            forall|j: int| guard_index <= j < i && j < room@.len() ==> room@[j] != 35,
        decreases room@.len() - i,
    {
        if room[i] == 35 {
            return i;
        }
        i += 1;
    }
    room.len()
}

/// The room rows and columns.
pub fn get_grid(input: &String) -> (r: Grid)
    requires
        input.is_ascii(),
        input@.len() <= 1000000,
    ensures
        room_wf(r.rows@),
        room_wf(r.cols@),
        r.cols@.len() == r.rows@.len(),
{
    let bytes = to_bytes(input.as_str());
    let ls = lines(&bytes);
    let n: usize = if ls.len() <= 1000 {
        ls.len()
    } else {
        1000
    };
    let mut rows: Vec<Vec<u8>> = Vec::new();
    let mut i: usize = 0;
    while i < n
        invariant
            i <= n <= 1000,
            n <= ls@.len(),
            rows@.len() == i,
            forall|j: int| 0 <= j < rows@.len() ==> (#[trigger] rows@[j])@.len() == n,
        decreases n - i,
    {
        let line = &ls[i];
        let mut row: Vec<u8> = Vec::new();
        let mut c: usize = 0;
        while c < n
            invariant
                c <= n,
                row@.len() == c,
                i < ls@.len(),
            decreases n - c,
        {
            if c < line.len() {
                row.push(line[c]);
            } else {
                row.push(46);
            }
            c += 1;
        }
        rows.push(row);
        i += 1;
    }
    let cols = rotate(&rows);
    Grid { rows, cols }
}

/// Where the guard starts: the row and column of the `^` marker.
pub fn get_starting_position(rows: &Vec<Vec<u8>>) -> (r: State)
    requires
        room_wf(rows@),
    ensures
        0 <= r.row <= rows@.len(),
        0 <= r.col < rows@.len() || r.col == 0,
{
    let mut state = State { row: 0, col: 0 };
    let mut i: usize = 0;
    while i < rows.len()
        invariant
            i <= rows@.len() <= 1000,
            room_wf(rows@),
            state.row == i,
            0 <= state.col < rows@.len() || state.col == 0,
        decreases rows@.len() - i,
    {
        let row = &rows[i];
        let mut c: usize = 0;
        while c < row.len()
            invariant
                c <= row@.len(),
                i < rows@.len(),
                room_wf(rows@),
                row@ == rows@[i as int]@,
                state.row == i,
                0 <= state.col < rows@.len() || state.col == 0,
            decreases row@.len() - c,
        {
            if row[c] == 94 {
                return State { row: i as i32, col: c as i32 };
            }
            c += 1;
        }
        state.row += 1;
        i += 1;
    }
    state
}

/// Records a visited position when new.
fn record(found: &mut Vec<i32>, value: i32) -> (added: bool)
{
    let mut i: usize = 0;
    while i < found.len()
        invariant
            i <= found@.len(),
        decreases found@.len() - i,
    {
        if found[i] == value {
            return false;
        }
        i += 1;
    }
    found.push(value);
    true
}

fn contains_code(found: &Vec<i32>, value: i32) -> (r: bool)
    ensures
        r == found@.contains(value),
{
    let mut i: usize = 0;
    while i < found.len()
        invariant
            i <= found@.len(),
            forall|j: int| 0 <= j < i ==> found@[j] != value,
        decreases found@.len() - i,
    {
        if found[i] == value {
            return true;
        }
        i += 1;
    }
    proof {
        if found@.contains(value) {
            let j = choose|j: int| 0 <= j < found@.len() && found@[j] == value;
            assert(found@[j] == value);
        }
    }
    false
}

/// The distinct positions the guard visits before leaving the room.
pub fn find_path(grid: &Grid) -> (found: Vec<i32>)
    requires
        room_wf(grid.rows@),
        room_wf(grid.cols@),
        grid.cols@.len() == grid.rows@.len(),
{
    let mut found: Vec<i32> = Vec::new();
    let mut state = get_starting_position(&grid.rows);
    if state.row >= grid.rows.len() as i32 || state.col >= grid.rows.len() as i32 {
        return found;
    }
    record(&mut found, 1000 * state.row + state.col);
    // Every leg either leaves the room or ends on a fresh turning spot, so
    // the walk cannot outlast the room's area four times over.
    let mut budget: u64 = 4000004;
    while budget > 0
        invariant
            room_wf(grid.rows@),
            room_wf(grid.cols@),
            grid.cols@.len() == grid.rows@.len(),
            0 <= state.row <= grid.rows@.len(),
            0 <= state.col <= grid.rows@.len(),
        decreases budget,
    {
        budget -= 1;
        let n = grid.rows.len() as i32;
        if state.row >= n || state.col >= n {
            break ;
        }
        // up
        let obstacle_index = reverse_find(&grid.cols[state.col as usize], state.row as usize);
        let mut i = obstacle_index + 1;
        while i < state.row
            invariant
                state.col < grid.rows@.len(),
                -1000 <= i <= state.row <= 1000,
            decreases state.row - i,
        {
            record(&mut found, 1000 * i + state.col);
            i += 1;
        }
        if obstacle_index == -1 {
            break ;
        }
        state.row = obstacle_index + 1;
        // right
        let obstacle_index = find(&grid.rows[state.row as usize], state.col as usize) as i32;
        let mut i = state.col + 1;
        while i < obstacle_index
            invariant
                state.row < grid.rows@.len(),
                -1000 <= i <= 1001,
                obstacle_index <= 1000,
            decreases obstacle_index - i,
        {
            record(&mut found, 1000 * state.row + i);
            i += 1;
        }
        if obstacle_index == n {
            break ;
        }
        state.col = obstacle_index - 1;
        if state.col < 0 {
            break ;
        }
        // down
        let obstacle_index = find(&grid.cols[state.col as usize], state.row as usize) as i32;
        let mut i = state.row + 1;
        while i < obstacle_index
            invariant
                state.col < grid.rows@.len(),
                -1000 <= i <= 1001,
                obstacle_index <= 1000,
            decreases obstacle_index - i,
        {
            record(&mut found, 1000 * i + state.col);
            i += 1;
        }
        if obstacle_index == n {
            break ;
        }
        state.row = obstacle_index - 1;
        if state.row < 0 {
            break ;
        }
        // left
        let obstacle_index = reverse_find(&grid.rows[state.row as usize], state.col as usize);
        let mut i = obstacle_index + 1;
        while i < state.col
            invariant
                state.row < grid.rows@.len(),
                -1000 <= i <= state.col <= 1000,
            decreases state.col - i,
        {
            record(&mut found, 1000 * state.row + i);
            i += 1;
        }
        if obstacle_index == -1 {
            break ;
        }
        state.col = obstacle_index + 1;
    }
    found
}

/// How many positions the guard visits.
pub fn part1(input: &String) -> (r: String)
    requires
        input.is_ascii(),
        input@.len() <= 1000000,
{
    let grid = get_grid(input);
    let found = find_path(&grid);
    u64_to_string(found.len() as u64)
}

/// The rooms of a map, as plain character rows.
pub open spec fn room_view(map: Seq<Vec<u8>>) -> Seq<Seq<u8>> {
    Seq::new(map.len(), |i: int| map[i]@)
}

/// The map with one cell turned into an obstacle.
pub open spec fn with_obstacle(
    map: Seq<Seq<u8>>,
    map_index: int,
    string_index: int,
) -> Seq<Seq<u8>> {
    if 0 <= map_index < map.len() {
        map.update(
            map_index,
            Seq::new(
                map[map_index].len(),
                |j: int|
                    if j == string_index {
                        35u8
                    } else {
                        map[map_index][j]
                    },
            ),
        )
    } else {
        map
    }
}

/// A copy of the room map with one extra obstacle.
pub fn add_obstacle(original_map: &Vec<Vec<u8>>, map_index: i32, string_index: i32) -> (r: Vec<
    Vec<u8>,
>)
    requires
        room_wf(original_map@),
    ensures
        room_wf(r@),
        r@.len() == original_map@.len(),
        room_view(r@) == with_obstacle(
            room_view(original_map@),
            map_index as int,
            string_index as int,
        ),
{
    let n = original_map.len();
    let mut map: Vec<Vec<u8>> = Vec::new();
    let mut i: usize = 0;
    while i < n
        invariant
            i <= n,
            room_wf(original_map@),
            original_map@.len() == n,
            map@.len() == i,
            forall|j: int| 0 <= j < map@.len() ==> (#[trigger] map@[j])@.len() == n,
            forall|m: int|
                0 <= m < i ==> (#[trigger] map@[m])@ == with_obstacle(
                    room_view(original_map@),
                    map_index as int,
                    string_index as int,
                )[m],
        decreases n - i,
    {
        if map_index >= 0 && i == map_index as usize {
            let mut line: Vec<u8> = Vec::new();
            let mut j: usize = 0;
            while j < n
                invariant
                    j <= n,
                    i < n == original_map@.len(),
                    i == map_index,
                    room_wf(original_map@),
                    line@.len() == j,
                    forall|m: int|
                        0 <= m < j ==> #[trigger] line@[m] == (if m == string_index {
                            35u8
                        } else {
                            original_map@[i as int]@[m]
                        }),
                decreases n - j,
            {
                if string_index >= 0 && j == string_index as usize {
                    line.push(35);
                } else {
                    line.push(original_map[i][j]);
                }
                j += 1;
            }
            proof {
                assert(line@ =~= with_obstacle(
                    room_view(original_map@),
                    map_index as int,
                    string_index as int,
                )[i as int]);
            }
            map.push(line);
        } else {
            map.push(original_map[i].clone());
        }
        i += 1;
    }
    proof {
        assert(room_view(map@) =~= with_obstacle(
            room_view(original_map@),
            map_index as int,
            string_index as int,
        ));
    }
    map
}

/// Whether the guard's walk from `(row, col)` revisits a direction-tagged
/// position within the step allowance: each pass walks up, right, down and
/// left to the nearest obstacle, recording each leg's start, and reports a
/// loop on the first repeat or an exit when a leg leaves the room.
pub open spec fn guard_loops(
    rows: Seq<Seq<u8>>,
    cols: Seq<Seq<u8>>,
    row: int,
    col: int,
    seen: Seq<i32>,
    fuel: nat,
) -> bool
    decreases fuel,
{
    let n = rows.len() as int;
    if fuel == 0 {
        false
    } else if row >= n || col >= n {
        false
    } else {
        let p1 = (row * 1000 + col) as i32;
        if seen.contains(p1) {
            true
        } else {
            let seen1 = seen.push(p1);
            let o1 = spec_reverse_find(cols[col], row);
            if o1 == -1 {
                false
            } else {
                let row1 = o1 + 1;
                if row1 >= n {
                    false
                } else {
                    let p2 = (1000000 + row1 * 1000 + col) as i32;
                    if seen1.contains(p2) {
                        true
                    } else {
                        let seen2 = seen1.push(p2);
                        let o2 = spec_find(rows[row1], col);
                        if o2 == n {
                            false
                        } else {
                            let col2 = o2 - 1;
                            if col2 < 0 {
                                false
                            } else {
                                let p3 = (2000000 + row1 * 1000 + col2) as i32;
                                if seen2.contains(p3) {
                                    true
                                } else {
                                    let seen3 = seen2.push(p3);
                                    let o3 = spec_find(cols[col2], row1);
                                    if o3 == n {
                                        false
                                    } else {
                                        let row3 = o3 - 1;
                                        if row3 < 0 {
                                            false
                                        } else {
                                            let p4 = (3000000 + row3 * 1000 + col2) as i32;
                                            if seen3.contains(p4) {
                                                true
                                            } else {
                                                let seen4 = seen3.push(p4);
                                                let o4 = spec_reverse_find(rows[row3], col2);
                                                if o4 == -1 {
                                                    false
                                                } else {
                                                    guard_loops(
                                                        rows,
                                                        cols,
                                                        row3,
                                                        o4 + 1,
                                                        seen4,
                                                        (fuel - 1) as nat,
                                                    )
                                                }
                                            }
                                        }
                                    }
                                }
                            }
                        }
                    }
                }
            }
        }
    }
}

/// Whether the guard loops forever once the extra obstacle stands at
/// `(obstacle_row, obstacle_col)`.
#[verifier::rlimit(100)]
pub fn test_loop(
    original_rows: &Vec<Vec<u8>>,
    original_cols: &Vec<Vec<u8>>,
    start_row: i32,
    start_col: i32,
    obstacle_row: i32,
    obstacle_col: i32,
) -> (r: bool)
    requires
        room_wf(original_rows@),
        room_wf(original_cols@),
        original_cols@.len() == original_rows@.len(),
        0 <= start_row <= 1000,
        0 <= start_col <= 1000,
    ensures
        r == guard_loops(
            with_obstacle(room_view(original_rows@), obstacle_row as int, obstacle_col as int),
            with_obstacle(room_view(original_cols@), obstacle_col as int, obstacle_row as int),
            start_row as int,
            start_col as int,
            Seq::<i32>::empty(),
            4000004,
        ),
{
    let rows = add_obstacle(original_rows, obstacle_row, obstacle_col);
    let cols = add_obstacle(original_cols, obstacle_col, obstacle_row);
    let ghost rv = room_view(rows@);
    let ghost cv = room_view(cols@);
    let n = rows.len() as i32;
    let mut row = start_row;
    let mut col = start_col;
    let mut found: Vec<i32> = Vec::new();
    let mut budget: u64 = 4000004;
    while budget > 0
        invariant
            room_wf(rows@),
            room_wf(cols@),
            cols@.len() == rows@.len(),
            n == rows@.len(),
            0 <= row <= 1000,
            0 <= col <= 1000,
            rv == room_view(rows@),
            cv == room_view(cols@),
            guard_loops(rv, cv, start_row as int, start_col as int, Seq::<i32>::empty(), 4000004)
                == guard_loops(rv, cv, row as int, col as int, found@, budget as nat),
        decreases budget,
    {
        budget -= 1;
        if row >= n || col >= n {
            break ;
        }
        // up
        let position = row * 1000 + col;
        if contains_code(&found, position) {
            return true;
        }
        found.push(position);
        let obstacle_index = reverse_find(&cols[col as usize], row as usize);
        if obstacle_index == -1 {
            break ;
        }
        row = obstacle_index + 1;
        if row >= n {
            break ;
        }
        // right
        let position = 1000000 + row * 1000 + col;
        if contains_code(&found, position) {
            return true;
        }
        found.push(position);
        let obstacle_index = find(&rows[row as usize], col as usize) as i32;
        if obstacle_index == n {
            break ;
        }
        col = obstacle_index - 1;
        if col < 0 {
            break ;
        }
        // down
        let position = 2000000 + row * 1000 + col;
        if contains_code(&found, position) {
            return true;
        }
        found.push(position);
        let obstacle_index = find(&cols[col as usize], row as usize) as i32;
        if obstacle_index == n {
            break ;
        }
        row = obstacle_index - 1;
        if row < 0 {
            break ;
        }
        // left
        let position = 3000000 + row * 1000 + col;
        if contains_code(&found, position) {
            return true;
        }
        found.push(position);
        let obstacle_index = reverse_find(&rows[row as usize], col as usize);
        if obstacle_index == -1 {
            break ;
        }
        col = obstacle_index + 1;
    }
    false
}

/// How many single extra obstacles trap the guard in a loop.
pub fn part2(input: &String) -> (r: String)
    requires
        input.is_ascii(),
        input@.len() <= 1000000,
{
    let grid = get_grid(input);
    let start = get_starting_position(&grid.rows);
    if start.row > 1000 || start.col > 1000 || start.row < 0 || start.col < 0 {
        return u64_to_string(0);
    }
    let mut found: Vec<i32> = Vec::new();
    let path = find_path(&grid);
    let mut pi: usize = 0;
    while pi < path.len()
        invariant
            pi <= path@.len(),
            room_wf(grid.rows@),
            room_wf(grid.cols@),
            grid.cols@.len() == grid.rows@.len(),
            0 <= start.row <= 1000,
            0 <= start.col <= 1000,
        decreases path@.len() - pi,
    {
        let path_element = path[pi];
        let obstacle_row = path_element / 1000;
        let obstacle_col = path_element % 1000;
        if test_loop(&grid.rows, &grid.cols, start.row, start.col, obstacle_row, obstacle_col) {
            record(&mut found, path_element);
        }
        pi += 1;
    }
    u64_to_string(found.len() as u64)
}

} // verus!