use puzzles::day8::{part1, part2};

const EXAMPLE: &str = r#"............
........0...
.....0......
.......0....
....0.......
......A.....
............
............
........A...
.........A..
............
............"#;

#[test]
fn day8_test_part1() {
    let expected1 = "14".to_string();

    assert_eq!(part1(&EXAMPLE.to_string()), expected1);
}

#[test]
fn day8_test_part2() {
    let expected1 = "34".to_string();

    assert_eq!(part2(&EXAMPLE.to_string()), expected1);
}
