use puzzles::day12::{part1, part2};

#[test]
fn day12_test_part1_small() {
    let example1 = r#"AAAA
BBCD
BBCC
EEEC"#;
    let expected1 = "140".to_string();

    assert_eq!(part1(&example1.to_string()), expected1);
}

#[test]
fn test_part1_medium() {
    let example1 = r#"OOOOO
OXOXO
OOOOO
OXOXO
OOOOO"#;
    let expected1 = "772".to_string();

    assert_eq!(part1(&example1.to_string()), expected1);
}

#[test]
fn day12_test_part1_large() {
    let example1 = r#"RRRRIICCFF
RRRRIICCCF
VVRRRCCFFF
VVRCCCJFFF
VVVVCJJCFE
VVIVCCJJEE
VVIIICJJEE
MIIIIIJJEE
MIIISIJEEE
MMMISSJEEE"#;
    let expected1 = "1930".to_string();

    assert_eq!(part1(&example1.to_string()), expected1);
}

#[test]
fn day12_test_part2_small() {
    let example1 = r#"AAAA
BBCD
BBCC
EEEC"#;
    let expected1 = "80".to_string();

    assert_eq!(part2(&example1.to_string()), expected1);
}

#[test]
fn test_part2_e() {
    let example1 = r#"EEEEE
EXXXX
EEEEE
EXXXX
EEEEE"#;
    let expected1 = "236".to_string();

    assert_eq!(part2(&example1.to_string()), expected1);
}

#[test]
fn test_part2_medium() {
    let example1 = r#"OOOOO
OXOXO
OOOOO
OXOXO
OOOOO"#;
    let expected1 = "436".to_string();

    assert_eq!(part2(&example1.to_string()), expected1);
}

#[test]
fn test_part2_a_b() {
    let example1 = "AAAAAA\nAAABBA\nAAABBA\nABBAAA\nABBAAA\nAAAAAA\n";
    let expected1 = "368".to_string();

    assert_eq!(part2(&example1.to_string()), expected1);
}

#[test]
fn day12_test_part2_large() {
    let example1 = r#"RRRRIICCFF
RRRRIICCCF
VVRRRCCFFF
VVRCCCJFFF
VVVVCJJCFE
VVIVCCJJEE
VVIIICJJEE
MIIIIIJJEE
MIIISIJEEE
MMMISSJEEE"#;
    let expected1 = "1206".to_string();

    assert_eq!(part2(&example1.to_string()), expected1);
}
