use puzzles::day7::{part1, part2};

#[test]
fn day7_test_part1() {
    let example1 = r#"190: 10 19
3267: 81 40 27
83: 17 5
156: 15 6
7290: 6 8 6 15
161011: 16 10 13
192: 17 8 14
21037: 9 7 18 13
292: 11 6 16 20"#;
    let expected1 = "3749".to_string();

    assert_eq!(part1(&example1.to_string()), expected1);
}

#[test]
fn day7_test_part2() {
    let example1 = r#"190: 10 19
3267: 81 40 27
83: 17 5
156: 15 6
7290: 6 8 6 15
161011: 16 10 13
192: 17 8 14
21037: 9 7 18 13
292: 11 6 16 20"#;
    let expected1 = "11387".to_string();

    assert_eq!(part2(&example1.to_string()), expected1);
}
