use puzzles::day17::part1;

#[test]
fn day17_test_part1() {
    let example1 = r#"Register A: 729
Register B: 0
Register C: 0

Program: 0,1,5,4,3,0"#;
    let expected1 = "4,6,3,5,6,3,5,2,1,0".to_string();

    assert_eq!(part1(&example1.to_string()), expected1);
}

#[test]
fn day17_test_part1_actual() {
    let example1 = r#"Register A: 61156655
Register B: 0
Register C: 0

Program: 2,4,1,5,7,5,4,3,1,6,0,3,5,5,3,0"#;
    let expected1 = "7,3,5,7,5,7,4,3,0".to_string();

    assert_eq!(part1(&example1.to_string()), expected1);
}
