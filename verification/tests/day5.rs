use puzzles::day5::{part1, part2};

const EXAMPLE: &str = r#"47|53
97|13
97|61
97|47
75|29
61|13
75|53
29|13
97|29
53|29
61|53
97|53
61|29
47|13
75|47
97|75
47|61
75|61
47|29
75|13
53|13

75,47,61,53,29
97,61,53,29,13
75,29,13
75,97,47,61,53
61,13,29
97,13,75,29,47"#;

#[test]
fn day5_test_part1() {
    let expected1 = "143".to_string();

    assert_eq!(part1(&EXAMPLE.to_string()), expected1);
}

#[test]
fn day5_test_part2() {
    let expected1 = "123".to_string();

    assert_eq!(part2(&EXAMPLE.to_string()), expected1);
}
