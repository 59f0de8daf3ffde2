use puzzles::day13::{part1, part2};

#[test]
fn day13_test_part1_small() {
    let example1 = r#"Button A: X+94, Y+34
Button B: X+22, Y+67
Prize: X=8400, Y=5400

Button A: X+26, Y+66
Button B: X+67, Y+21
Prize: X=12748, Y=12176

Button A: X+17, Y+86
Button B: X+84, Y+37
Prize: X=7870, Y=6450

Button A: X+69, Y+23
Button B: X+27, Y+71
Prize: X=18641, Y=10279"#;
    let expected1 = "480".to_string();

    assert_eq!(part1(&example1.to_string()), expected1);
}

#[test]
fn day13_offset_prizes() {
    let example1 = r#"Button A: X+94, Y+34
Button B: X+22, Y+67
Prize: X=8400, Y=5400"#;

    assert_eq!(part2(&example1.to_string()), "0");
}
