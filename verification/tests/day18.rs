use puzzles::day18::{part1, part2};

const EXAMPLE: &str = r#"5,4
4,2
4,5
3,0
2,1
6,3
2,4
1,5
0,6
3,3
2,6
5,1
1,2
5,5
2,5
6,5
1,4
0,4
6,4
1,1
6,1
1,0
0,5
1,6
2,0"#;

#[test]
fn day18_test_part1() {
    let expected1 = "22".to_string();

    assert_eq!(part1(&EXAMPLE.to_string(), 12, 7), expected1);
}

#[test]
fn day18_test_part2() {
    let expected1 = "6,1".to_string();

    assert_eq!(part2(&EXAMPLE.to_string(), 12, 7), expected1);
}
