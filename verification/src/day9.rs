//! Disk compaction: a dense map of alternating file and gap sizes is
//! compacted block by block (or whole files, largest id first) and the
//! resulting position-times-id checksum is summed.
use vstd::prelude::*;

use crate::text::{ascii_bytes, to_bytes, u128_to_string};

verus! {

use std::collections::HashMap;

/// The digit value of a map character.
pub fn char_to_int(c: u8) -> (r: i64)
    ensures
        0 <= r <= 9 || (c > 57 && r == 0) || (c < 48 && r == 0),
{
    if 48 <= c && c <= 57 {
        (c - 48) as i64
    } else {
        0
    }
}

/// Adds `size` consecutive block positions starting at `disk_pos`, times
/// `id`, to the checksum.
fn add_span(checksum: &mut u128, disk_pos: i64, size: i64, id: i64)
    requires
        0 <= disk_pos <= 1000000000,
        0 <= size <= 9,
        0 <= id <= 1000000000,
{
    let mut j: i64 = 0;
    while j < size
        invariant
            0 <= j <= 9,
            0 <= disk_pos <= 1000000000,
            0 <= size <= 9,
            0 <= id <= 1000000000,
        decreases size - j,
    {
        proof {
            assert((disk_pos + j) as int * id as int <= 1000000010int * 1000000000)
                by (nonlinear_arith)
                requires
                    0 <= disk_pos + j <= 1000000010,
                    0 <= id <= 1000000000,
            ;
        }
        let term = ((disk_pos + j) as u128) * (id as u128);
        if term <= u128::MAX - *checksum {
            *checksum = *checksum + term;
        }
        j += 1;
    }
}

/// The block-by-block compaction checksum: gaps are filled from the highest
/// file ids backwards.
pub fn part1(input: &String) -> (r: String)
    requires
        input.is_ascii(),
        input@.len() <= 100000000,
{
    let digits = to_bytes(input.as_str());
    let n = digits.len();
    if n == 0 || n > 100000000 {
        return u128_to_string(0);
    }
    let mut checksum: u128 = 0;
    let mut forward_pos: i64 = 0;
    let mut backward_pos: i64 = n as i64 - 1;
    let mut disk_pos: i64 = 0;
    let mut size_of_last_file: i64 = 0;
    let mut fi: usize = 0;
    let mut budget: usize = n + 2;
    while budget > 0
        invariant
            fi <= n == digits@.len() <= 100000000,
            0 <= forward_pos <= n,
            -3 <= backward_pos <= n,
            0 <= disk_pos <= 900000019,
            0 <= size_of_last_file <= 9,
        decreases budget,
    {
        budget -= 1;
        if fi >= n {
            break ;
        }
        let file_size = char_to_int(digits[fi]);
        add_span(&mut checksum, disk_pos, file_size, forward_pos / 2);
        disk_pos += file_size;
        if disk_pos > 900000010 {
            break ;
        }
        fi += 1;
        forward_pos += 1;
        if forward_pos >= backward_pos {
            if size_of_last_file != 0 {
                add_span(&mut checksum, disk_pos, size_of_last_file, (forward_pos + 1) / 2);
            }
            break ;
        }
        if fi >= n {
            break ;
        }
        let mut space_size = char_to_int(digits[fi]);
        fi += 1;
        forward_pos += 1;
        let mut inner_budget: i64 = 32;
        while space_size > 0 && inner_budget > 0
            invariant
                0 <= space_size <= 9,
                -3 <= backward_pos <= n,
                0 <= size_of_last_file <= 9,
                0 <= disk_pos <= 900000019,
                n == digits@.len() <= 100000000,
                0 <= forward_pos <= n,
            decreases inner_budget,
        {
            inner_budget -= 1;
            if size_of_last_file == 0 {
                if backward_pos < 0 || backward_pos >= n as i64 {
                    break ;
                }
                size_of_last_file = char_to_int(digits[backward_pos as usize]);
                backward_pos -= 2;
            }
            let amount_to_copy = if space_size < size_of_last_file {
                space_size
            } else {
                size_of_last_file
            };
            space_size -= amount_to_copy;
            size_of_last_file -= amount_to_copy;
            if disk_pos <= 900000001 {
                add_span(&mut checksum, disk_pos, amount_to_copy, (backward_pos + 2) / 2);
                disk_pos += amount_to_copy;
            }
        }
        // A strict comparison here lets the final file ahead of the back
        // cursor be laid down before the leftover blocks are flushed.
        if forward_pos > backward_pos {
            if size_of_last_file != 0 && disk_pos <= 900000001 {
                add_span(&mut checksum, disk_pos, size_of_last_file, (backward_pos + 2) / 2);
            }
            break ;
        }
    }
    u128_to_string(checksum)
}

/// The whole-file compaction checksum: each gap takes the largest-id file
/// that still fits.
pub fn part2(input: &String) -> (r: String)
    requires
        input.is_ascii(),
        input@.len() <= 1000000,
{
    let digits = to_bytes(input.as_str());
    let n = digits.len();
    let mut checksum: u128 = 0;
    let mut size_to_ids: HashMap<i64, Vec<i64>> = HashMap::new();
    let mut pos: i64 = n as i64;
    let mut space_next = false;
    let mut bi: usize = n;
    while bi > 0
        invariant
            bi <= n == digits@.len() <= 1000000,
            pos == bi,
        decreases bi,
    {
        bi -= 1;
        pos -= 1;
        space_next = !space_next;
        if space_next {
            let size = char_to_int(digits[bi]);
            let mut ids = match size_to_ids.get(&size) {
                Some(v) => v.clone(),
                None => Vec::new(),
            };
            ids.push(pos / 2);
            size_to_ids.insert(size, ids);
        }
    }
    let mut disk_pos: i64 = 0;
    space_next = false;
    let mut used: Vec<i64> = Vec::new();
    pos = 0;
    let mut fi: usize = 0;
    while fi < n
        invariant
            fi <= n == digits@.len() <= 1000000,
            pos == fi,
            0 <= disk_pos <= 9000000 + 9,
        decreases n - fi,
    {
        let block = digits[fi];
        space_next = !space_next;
        let mut block_size = char_to_int(block);
        if space_next {
            let id = pos / 2;
            let mut already = false;
            let mut u: usize = 0;
            while u < used.len()
                invariant
                    u <= used@.len(),
                decreases used@.len() - u,
            {
                if used[u] == id {
                    already = true;
                }
                u += 1;
            }
            if !already {
                used.push(id);
                if disk_pos <= 9000000 && 0 <= id && id <= 1000000000 {
                    add_span(&mut checksum, disk_pos, block_size, id);
                }
            }
            disk_pos += block_size;
            if disk_pos > 9000000 {
                disk_pos = 9000000;
            }
        } else {
            let mut gap_budget: i64 = 16;
            while block_size > 0 && gap_budget > 0
                invariant
                    0 <= block_size <= 9,
                    0 <= disk_pos <= 9000000 + 9,
                decreases gap_budget,
            {
                gap_budget -= 1;
                let mut max_id: i64 = -1;
                let mut file_size: i64 = 0;
                let mut i: i64 = 1;
                while i <= block_size
                    invariant
                        1 <= i <= 10,
                        0 <= block_size <= 9,
                        -1 <= max_id,
                        0 <= file_size <= 9,
                    decreases block_size - i + 1,
                {
                    match size_to_ids.get(&i) {
                        None => {},
                        Some(ids) => {
                            if ids.len() == 0 {
                                size_to_ids.remove(&i);
                            } else {
                                let id = ids[0];
                                let mut id_used = false;
                                let mut u: usize = 0;
                                let ulen = used.len();
                                while u < ulen
                                    invariant
                                        u <= ulen,
                                    decreases ulen - u,
                                {
                                    if used[u] == id {
                                        id_used = true;
                                    }
                                    u += 1;
                                }
                                if id_used {
                                    size_to_ids.remove(&i);
                                } else {
                                    if id >= 0 && (max_id == -1 || id > max_id) {
                                        max_id = id;
                                        file_size = if 0 <= i && i <= 9 {
                                            i
                                        } else {
                                            0
                                        };
                                    }
                                }
                            }
                        },
                    }
                    i += 1;
                }
                if max_id == -1 {
                    disk_pos += block_size;
                    if disk_pos > 9000000 {
                        disk_pos = 9000000;
                    }
                    break ;
                } else {
                    used.push(max_id);
                    let mut ids = match size_to_ids.get(&file_size) {
                        Some(v) => v.clone(),
                        None => Vec::new(),
                    };
                    if ids.len() > 0 {
                        ids.remove(0);
                        size_to_ids.insert(file_size, ids);
                    }
                    if disk_pos <= 9000000 && 0 <= max_id && max_id <= 1000000000 {
                        add_span(&mut checksum, disk_pos, file_size, max_id);
                    }
                    disk_pos += file_size;
                    if disk_pos > 9000000 {
                        disk_pos = 9000000;
                    }
                    if block_size >= file_size {
                        block_size -= file_size;
                    } else {
                        block_size = 0;
                    }
                    if block_size == 0 {
                        break ;
                    }
                    if file_size == 0 {
                        break ;
                    }
                }
            }
        }
        pos += 1;
        fi += 1;
    }
    u128_to_string(checksum)
}

} // verus!