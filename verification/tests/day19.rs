use puzzles::day19::{part1, part2};

#[test]
fn day19_test_part1() {
    let example1 = r#"r, wr, b, g, bwu, rb, gb, br

brwrr
bggr
gbbr
rrbgbr
ubwu
bwurrg
brgr
bbrgwb"#;
    let expected1 = "6".to_string();

    assert_eq!(part1(&example1.to_string()), expected1);
}

#[test]
fn day19_test_part2() {
    let example1 = r#"r, wr, b, g, bwu, rb, gb, br

brwrr
bggr
gbbr
rrbgbr
ubwu
bwurrg
brgr
bbrgwb"#;
    let expected1 = "16".to_string();

    assert_eq!(part2(&example1.to_string()), expected1);
}
