use puzzles::day23::{part1, part2};

fn example_lines() -> Vec<&'static str> {
    vec![
        "kh-tc", "qp-kh", "de-cg", "ka-co", "yn-aq", "qp-ub", "cg-tb", "vc-aq", "tb-ka", "wh-tc",
        "yn-cg", "kh-ub", "ta-co", "de-co", "tc-td", "tb-wq", "wh-td", "ta-ka", "td-qp", "aq-cg",
        "wq-ub", "ub-vc", "de-ta", "wq-aq", "wq-vc", "wh-yn", "ka-de", "kh-ta", "co-tc", "wh-qp",
        "tb-vc", "td-yn",
    ]
}

#[test]
fn day23_test_part1() {
    assert_eq!(part1(example_lines()), 7);
}

#[test]
fn day23_test_part2() {
    assert_eq!(part2(example_lines()), "co,de,ka,ta".to_string());
}
