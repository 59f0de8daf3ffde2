use puzzles::day16::{part1, part2};

const SMALL: &str = r#"###############
#.......#....E#
#.#.###.#.###.#
#.....#.#...#.#
#.###.#####.#.#
#.#.#.......#.#
#.#.#####.###.#
#...........#.#
###.#.#####.#.#
#...#.....#.#.#
#.#.#.###.#.#.#
#.....#...#.#.#
#.###.#.#.#.#.#
#S..#.....#...#
###############"#;

const LARGE: &str = r#"#################
#...#...#...#..E#
#.#.#.#.#.#.#.#.#
#.#.#.#...#...#.#
#.#.#.#.###.#.#.#
#...#.#.#.....#.#
#.#.#.#.#.#####.#
#.#...#.#.#.....#
#.#.#####.#.###.#
#.#.#.......#...#
#.#.###.#####.###
#.#.#...#.....#.#
#.#.#.#####.###.#
#.#.#.........#.#
#.#.#.#########.#
#S#.............#
#################"#;

#[test]
fn day16_test_part1_small() {
    let expected1 = "7036".to_string();

    assert_eq!(part1(&SMALL.to_string()), expected1);
}

#[test]
fn day16_test_part1_large() {
    let expected1 = "11048".to_string();

    assert_eq!(part1(&LARGE.to_string()), expected1);
}

#[test]
fn day16_test_part2_small() {
    let expected1 = "45".to_string();

    assert_eq!(part2(&SMALL.to_string()), expected1);
}

#[test]
fn day16_test_part2_large() {
    let expected1 = "64".to_string();

    assert_eq!(part2(&LARGE.to_string()), expected1);
}
