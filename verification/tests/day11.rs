use puzzles::day11::part1;

#[test]
fn day11_test_part1() {
    let example1 = r#"125 17"#;
    let expected1 = "55312".to_string();

    assert_eq!(part1(&example1.to_string()), expected1);
}
