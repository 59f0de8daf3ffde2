//! Print-queue ordering: page-order rules say which pages must not follow
//! which; correctly ordered updates contribute their middle page, wrongly
//! ordered ones are first sorted by the rules.
use vstd::prelude::*;

use crate::text::{all_digits, dec_value, digits_ok, lines, parse_u64, to_bytes, u64_to_string};

verus! {

use std::collections::HashMap;

/// Whether the rules order `page1` before `page2`.
pub fn check_page_order(page1: &i32, page2: &i32, rules: &HashMap<i32, Vec<i32>>) -> (r: bool)
    ensures
        r == (rules@.contains_key(*page1) && rules@[*page1]@.contains(*page2)),
{
    match rules.get(page1) {
        Some(followers) => {
            let mut i: usize = 0;
            while i < followers.len()
                invariant
                    i <= followers@.len(),
                    followers@ == rules@[*page1]@,
                    rules@.contains_key(*page1),
                    forall|j: int| 0 <= j < i ==> followers@[j] != *page2,
                decreases followers@.len() - i,
            {
                if followers[i] == *page2 {
                    return true;
                }
                i += 1;
            }
            proof {
                if followers@.contains(*page2) {
                    let j = choose|j: int| 0 <= j < followers@.len() && followers@[j] == *page2;
                    assert(followers@[j] == *page2);
                }
            }
            false
        },
        None => false,
    }
}

/// The two-digit page at `index`, or zero when the bytes are not digits.
pub open spec fn page_of(l: Seq<u8>, index: int) -> i32 {
    if all_digits(l.subrange(index, index + 2)) {
        dec_value(l.subrange(index, index + 2)) as i32
    } else {
        0i32
    }
}

/// The middle page the scan reports from `index` on, with `illegal` the
/// pages ruled out so far and `mid` the middle page already seen: the scan
/// reports zero the moment an illegal page appears, and otherwise extends
/// the illegal set with the rules of each page it passes.
pub open spec fn middle_scan(
    l: Seq<u8>,
    rules: Map<i32, Vec<i32>>,
    index: int,
    illegal: Seq<i32>,
    mid: i32,
) -> i32
    decreases l.len() + 2 - index,
{
    if index < 0 || index + 2 > l.len() {
        mid
    } else {
        let page = page_of(l, index);
        if illegal.contains(page) {
            0i32
        } else {
            let mid2: i32 = if l.len() >= 2 && index == l.len() as int / 2 - 1 {
                page
            } else {
                mid
            };
            let illegal2 = illegal + (if rules.contains_key(page) {
                rules[page]@
            } else {
                Seq::<i32>::empty()
            });
            middle_scan(l, rules, index + 3, illegal2, mid2)
        }
    }
}

/// Reads the two-digit page at `index`, or zero when the bytes are not
/// digits.
fn page_at(line: &Vec<u8>, index: usize) -> (r: i32)
    requires
        index + 2 <= line@.len(),
        line@.len() <= 100000000,
    ensures
        0 <= r < 100,
        r == page_of(line@, index as int),
{
    if digits_ok(line, index, index + 2) {
        proof {
            crate::text::lemma_dec_value_bound(line@.subrange(index as int, index + 2));
            assert(crate::text::pow10(2) == 100) by {
                reveal_with_fuel(crate::text::pow10, 4);
            }
        }
        parse_u64(line, index, index + 2) as i32
    } else {
        0
    }
}

/// The middle page of an update line, or zero once an illegal page appears.
pub fn get_middle_page(line: &Vec<u8>, page_order: &HashMap<i32, Vec<i32>>) -> (r: i32)
    requires
        line@.len() <= 100000000,
    ensures
        0 <= r < 100,
        r == middle_scan(line@, page_order@, 0, Seq::<i32>::empty(), 0),
{
    let mut illegal_pages: Vec<i32> = Vec::new();
    let mut middle_page: i32 = 0;
    let mut index: usize = 0;
    proof {
        assert(illegal_pages@ =~= Seq::<i32>::empty());
    }
    while index + 2 <= line.len()
        invariant
            index <= line@.len() + 2,
            line@.len() <= 100000000,
            0 <= middle_page < 100,
            middle_scan(line@, page_order@, 0, Seq::<i32>::empty(), 0) == middle_scan(
                line@,
                page_order@,
                index as int,
                illegal_pages@,
                middle_page,
            ),
        decreases line@.len() + 2 - index,
    {
        let page = page_at(line, index);
        let mut k: usize = 0;
        while k < illegal_pages.len()
            invariant
                k <= illegal_pages@.len(),
                forall|j: int| 0 <= j < k ==> illegal_pages@[j] != page,
            decreases illegal_pages@.len() - k,
        {
            if illegal_pages[k] == page {
                proof {
                    assert(illegal_pages@.contains(page));
                }
                return 0;
            }
            k += 1;
        }
        proof {
            if illegal_pages@.contains(page) {
                let j = choose|j: int|
                    0 <= j < illegal_pages@.len() && illegal_pages@[j] == page;
                assert(illegal_pages@[j] == page);
            }
        }
        if line.len() >= 2 && index == line.len() / 2 - 1 {
            middle_page = page;
        }
        let ghost illegal0 = illegal_pages@;
        match page_order.get(&page) {
            Some(followers) => {
                let mut k: usize = 0;
                while k < followers.len()
                    invariant
                        k <= followers@.len(),
                        followers@ == page_order@[page]@,
                        illegal_pages@ == illegal0 + followers@.take(k as int),
                    decreases followers@.len() - k,
                {
                    proof {
                        assert(followers@.take(k + 1) =~= followers@.take(k as int).push(
                            followers@[k as int],
                        ));
                        assert(illegal0 + followers@.take(k + 1) =~= (illegal0 + followers@.take(
                            k as int,
                        )).push(followers@[k as int]));
                    }
                    illegal_pages.push(followers[k]);
                    k += 1;
                }
                proof {
                    assert(followers@.take(followers@.len() as int) =~= followers@);
                }
            },
            None => {
                proof {
                    assert(illegal_pages@ =~= illegal0 + Seq::<i32>::empty());
                }
            },
        }
        index += 3;
    }
    middle_page
}

/// Inserts `page` before the first already-sorted page it must precede, and
/// returns the middle of the sorted update.
pub fn get_sorted_middle_page(line: &Vec<u8>, forward_rules: &HashMap<i32, Vec<i32>>) -> (r: i32)
    requires
        line@.len() <= 100000000,
    ensures
        0 <= r < 100,
{
    let mut sorted: Vec<i32> = Vec::new();
    let mut index: usize = 0;
    while index + 2 <= line.len()
        invariant
            index <= line@.len() + 2,
            line@.len() <= 100000000,
            sorted@.len() <= index,
            forall|j: int| 0 <= j < sorted@.len() ==> 0 <= #[trigger] sorted@[j] < 100,
        decreases line@.len() + 2 - index,
    {
        let page = page_at(line, index);
        let mut destination_index: usize = 0;
        let mut k: usize = 0;
        let mut found = false;
        while k < sorted.len()
            invariant
                k <= sorted@.len(),
                destination_index <= k,
            decreases sorted@.len() - k,
        {
            if !found {
                let sorted_page = sorted[k];
                if check_page_order(&page, &sorted_page, forward_rules) {
                    found = true;
                } else {
                    destination_index += 1;
                }
            }
            k += 1;
        }
        sorted.insert(destination_index, page);
        index += 3;
    }
    if sorted.len() == 0 {
        0
    } else {
        sorted[sorted.len() / 2]
    }
}

/// Adds `value` to the rule list of `key`.
fn add_rule(rules: &mut HashMap<i32, Vec<i32>>, key: i32, value: i32)
{
    let mut list = match rules.get(&key) {
        Some(existing) => existing.clone(),
        None => Vec::new(),
    };
    list.push(value);
    rules.insert(key, list);
}

/// Sums the middle pages of the correctly ordered updates.
pub fn part1(input: &String) -> (r: String)
    requires
        input.is_ascii(),
        input@.len() <= 100000000,
{
    let bytes = to_bytes(input.as_str());
    let ls = lines(&bytes);
    let mut page_order: HashMap<i32, Vec<i32>> = HashMap::new();
    let mut loaded = false;
    let mut sum: u64 = 0;
    let mut i: usize = 0;
    proof {
        crate::text::lemma_lines_count(bytes@);
        crate::text::lemma_line_lens(bytes@);
        assert forall|j: int| 0 <= j < ls@.len() implies (#[trigger] ls@[j])@.len()
            <= 100000000 by {
            assert(ls@[j]@ == crate::text::lines_of(bytes@)[j]);
        }
    }
    while i < ls.len()
        invariant
            i <= ls@.len() <= 100000001,
            forall|j: int| 0 <= j < ls@.len() ==> (#[trigger] ls@[j])@.len() <= 100000000,
            sum <= i * 100,
        decreases ls@.len() - i,
    {
        let line = &ls[i];
        if loaded {
            let m = get_middle_page(line, &page_order);
            proof {
                assert((i + 1) * 100 == i * 100 + 100) by (nonlinear_arith);
                assert(i * 100 <= 100000001int * 100) by (nonlinear_arith)
                    requires
                        0 <= i <= 100000001,
                ;
            }
            sum = sum + m as u64;
        } else if line.len() == 0 {
            loaded = true;
        } else if line.len() >= 5 {
            let before = page_at(line, 0);
            let after = page_at(line, 3);
            add_rule(&mut page_order, after, before);
        }
        i += 1;
    }
    u64_to_string(sum)
}

/// Sums the rule-sorted middle pages of the wrongly ordered updates.
pub fn part2(input: &String) -> (r: String)
    requires
        input.is_ascii(),
        input@.len() <= 100000000,
{
    let bytes = to_bytes(input.as_str());
    let ls = lines(&bytes);
    let mut backward_rules: HashMap<i32, Vec<i32>> = HashMap::new();
    let mut forward_rules: HashMap<i32, Vec<i32>> = HashMap::new();
    let mut loaded = false;
    let mut sum: u64 = 0;
    let mut i: usize = 0;
    proof {
        crate::text::lemma_lines_count(bytes@);
        crate::text::lemma_line_lens(bytes@);
        assert forall|j: int| 0 <= j < ls@.len() implies (#[trigger] ls@[j])@.len()
            <= 100000000 by {
            assert(ls@[j]@ == crate::text::lines_of(bytes@)[j]);
        }
    }
    while i < ls.len()
        invariant
            i <= ls@.len() <= 100000001,
            forall|j: int| 0 <= j < ls@.len() ==> (#[trigger] ls@[j])@.len() <= 100000000,
            sum <= i * 100,
        decreases ls@.len() - i,
    {
        let line = &ls[i];
        if loaded {
            proof {
                assert((i + 1) * 100 == i * 100 + 100) by (nonlinear_arith);
                assert(i * 100 <= 100000001int * 100) by (nonlinear_arith)
                    requires
                        0 <= i <= 100000001,
                ;
            }
            if get_middle_page(line, &backward_rules) == 0 {
                let m = get_sorted_middle_page(line, &forward_rules);
                sum = sum + m as u64;
            }
        } else if line.len() == 0 {
            loaded = true;
        } else if line.len() >= 5 {
            let before = page_at(line, 0);
            let after = page_at(line, 3);
            add_rule(&mut forward_rules, before, after);
            add_rule(&mut backward_rules, after, before);
        }
        i += 1;
    }
    u64_to_string(sum)
}

} // verus!