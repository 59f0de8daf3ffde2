use puzzles::day2::{part1, part2};

#[test]
fn day2_test_part1() {
    let example1 = r#"7 6 4 2 1
1 2 7 8 9
9 7 6 2 1
1 3 2 4 5
8 6 4 4 1
1 3 6 7 9"#;
    let expected1 = "2".to_string();

    assert_eq!(part1(&example1.to_string()), expected1);
}

#[test]
fn day2_test_part2() {
    let example1 = r#"7 6 4 2 1
1 2 7 8 9
9 7 6 2 1
1 3 2 4 5
8 6 4 4 1
1 3 6 7 9"#;
    let expected1 = "4".to_string();

    assert_eq!(part2(&example1.to_string()), expected1);
}

#[test]
fn test_part2_hard() {
    let example1 = r#"7 6 6 3 1"#;
    let expected1 = "1".to_string();

    assert_eq!(part2(&example1.to_string()), expected1);
}
