use puzzles::day4::{part1, part2};

const EXAMPLE: &str = r#"MMMSXXMASM
MSAMXMSMSA
AMXSXMAAMM
MSAMASMSMX
XMASAMXAMM
XXAMMXXAMA
SMSMSASXSS
SAXAMASAAA
MAMMMXMMMM
MXMXAXMASX"#;

#[test]
fn day4_test_part1() {
    let expected1 = "18".to_string();

    assert_eq!(part1(EXAMPLE.to_string()), expected1);
}

#[test]
fn day4_test_part2() {
    let expected1 = "9".to_string();

    assert_eq!(part2(&EXAMPLE.to_string()), expected1);
}
