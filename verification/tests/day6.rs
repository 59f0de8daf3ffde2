use puzzles::day6::{part1, part2};

const EXAMPLE: &str = r#"....#.....
.........#
..........
..#.......
.......#..
..........
.#..^.....
........#.
#.........
......#..."#;

#[test]
fn day6_test_part1() {
    let expected1 = "41".to_string();

    assert_eq!(part1(&EXAMPLE.to_string()), expected1);
}

#[test]
fn day6_test_part2() {
    let expected1 = "6".to_string();

    assert_eq!(part2(&EXAMPLE.to_string()), expected1);
}
