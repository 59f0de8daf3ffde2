use puzzles::day9::{part1, part2};

#[test]
fn day9_test_part1() {
    let example1 = r#"2333133121414131402"#;
    let expected1 = "1928".to_string();

    assert_eq!(part1(&example1.to_string()), expected1);
}

#[test]
fn day9_test_part2() {
    let example1 = r#"2333133121414131402"#;
    let expected1 = "2858".to_string();

    assert_eq!(part2(&example1.to_string()), expected1);
}
