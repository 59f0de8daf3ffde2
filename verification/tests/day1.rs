use puzzles::day1::{part1, part2};

#[test]
fn day1_test_part1() {
    let example1 = r#"3   4
4   3
2   5
1   3
3   9
3   3"#;
    let expected1 = "11".to_string();

    assert_eq!(part1(&example1.to_string()), expected1);
}

#[test]
fn day1_test_part2() {
    let example1 = r#"3   4
4   3
2   5
1   3
3   9
3   3"#;
    let expected1 = "31".to_string();

    assert_eq!(part2(&example1.to_string()), expected1);
}
