use puzzles::day20::{part1, part2};

const EXAMPLE: &str = "###############
#...#...#.....#
#.#.#.#.#.###.#
#S#...#.#.#...#
#######.#.#.###
#######.#.#...#
#######.#.###.#
###..E#...#...#
###.#######.###
#...###...#...#
#.#####.#.###.#
#.#...#.#.#...#
#.#.#.#.#.#.###
#...#...#...###
###############
";

#[test]
fn day20_test_part1() {
    let expected1 = "4".to_string();

    assert_eq!(part1(&EXAMPLE.to_string(), 36), expected1);
}

#[test]
fn day20_test_part2() {
    let expected = 32 + 31 + 29 + 39 + 25 + 23 + 20 + 19 + 12 + 14 + 12 + 22 + 4 + 3;

    assert_eq!(part2(&EXAMPLE.to_string(), 50), expected.to_string());
}

#[test]
fn test_part2_max() {
    assert_eq!(part2(&EXAMPLE.to_string(), 76), 3.to_string());
}
