use puzzles::day14::part1;

#[test]
fn day14_test_part1() {
    let example1 = r#"p=0,4 v=3,-3
p=6,3 v=-1,-3
p=10,3 v=-1,2
p=2,0 v=2,-1
p=0,0 v=1,3
p=3,0 v=-2,-2
p=7,6 v=-1,-3
p=3,0 v=-1,-2
p=9,3 v=2,3
p=7,3 v=-1,2
p=2,4 v=2,-3
p=9,5 v=-3,-3"#;
    let expected1 = "12".to_string();

    assert_eq!(part1(&example1.to_string(), 11, 7), expected1);
}
