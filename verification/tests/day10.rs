use puzzles::day10::{part1, part2};

const EXAMPLE: &str = r#"89010123
78121874
87430965
96549874
45678903
32019012
01329801
10456732"#;

#[test]
fn day10_test_part1() {
    let expected1 = "36".to_string();

    assert_eq!(part1(&EXAMPLE.to_string()), expected1);
}

#[test]
fn day10_test_part2() {
    let expected1 = "81".to_string();

    assert_eq!(part2(&EXAMPLE.to_string()), expected1);
}
