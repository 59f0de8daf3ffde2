use puzzles::day3::{part1, part2};

#[test]
fn main_test_part1() {
    let example1 = r#"xmul(2,4)%&mul[3,7]!@^do_not_mul(5,5)+mul(32,64]then(mul(11,8)mul(8,5))"#;
    let expected1 = "161".to_string();

    assert_eq!(part1(&example1.to_string()), expected1);
}

#[test]
fn main_test_part2() {
    let example1 = r#"xmul(2,4)&mul[3,7]!^don't()_mul(5,5)+mul(32,64](mul(11,8)undo()?mul(8,5))"#;
    let expected1 = "48".to_string();

    assert_eq!(part2(&example1.to_string()), expected1);
}
