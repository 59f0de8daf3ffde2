use puzzles::day21::{find_shortest, part1, BasicKeyboard, DelegatingKeyboard, Keyboard};

fn press_all(keyboard: &mut Keyboard, movements: &str) -> String {
    let mut output = Vec::new();
    for movement in movements.bytes() {
        output.extend(keyboard.press(movement));
    }
    String::from_utf8(output).unwrap()
}

#[test]
fn test_numeric_keyboard() {
    let mut keyboard = Keyboard::Basic(BasicKeyboard::new());

    assert_eq!(press_all(&mut keyboard, "<A^A>^^AvvvA"), "029A");
    assert_eq!(press_all(&mut keyboard, "<A^A^>^AvvvA"), "029A");
    assert_eq!(press_all(&mut keyboard, "<A^A^^>AvvvA"), "029A");
}

#[test]
fn test_single_arrow_keyboard() {
    let numenor = BasicKeyboard::new();
    let keyboard = DelegatingKeyboard::arrow_keyboard(Box::new(Keyboard::Basic(numenor)));
    let mut chain = Keyboard::Delegating(keyboard);

    assert_eq!(press_all(&mut chain, "v<<A>>^A<A>AvA<^AA>A<vAAA>^A"), "029A");
}

#[test]
fn test_double_arrow_keyboard() {
    let numenor = BasicKeyboard::new();
    let radioactive_arrows =
        DelegatingKeyboard::arrow_keyboard(Box::new(Keyboard::Basic(numenor)));
    let angled_arrows = DelegatingKeyboard::arrow_keyboard(Box::new(Keyboard::Delegating(
        radioactive_arrows,
    )));
    let mut chain = Keyboard::Delegating(angled_arrows);

    assert_eq!(
        press_all(
            &mut chain,
            "v<A<AA>>^AvAA^<A>Av<<A>>^AvA^Av<<A>>^AAv<A>A^A<A>Av<A<A>>^AAA<Av>A^A"
        ),
        "029A"
    );
}

#[test]
fn test_shortest() {
    assert_eq!(
        find_shortest(&"029A".to_owned(), 2) as usize,
        "<vA<AA>>^AvAA<^A>A<v<A>>^AvA^A<vA>^A<v<A>^A>AAvA^A<v<A>A>^AAAvA<^A>A".len()
    );
    assert_eq!(
        find_shortest(&"980A".to_owned(), 2) as usize,
        "<v<A>>^AAAvA^A<vA<AA>>^AvAA<^A>A<v<A>A>^AAAvA<^A>A<vA>^A<A>A".len()
    );
    assert_eq!(
        find_shortest(&"179A".to_owned(), 2) as usize,
        "<v<A>>^A<vA<A>>^AAvAA<^A>A<v<A>>^AAvA^A<vA>^AA<A>A<v<A>A>^AAAvA<^A>A".len()
    );
    assert_eq!(
        find_shortest(&"456A".to_owned(), 2) as usize,
        "<v<A>>^AA<vA<A>>^AAvAA<^A>A<vA>^A<A>A<vA>^A<A>A<v<A>A>^AAvA<^A>A".len()
    );
    assert_eq!(
        find_shortest(&"379A".to_owned(), 2) as usize,
        "<v<A>>^AvA^A<vA<AA>>^AAvA<^A>AAvA^A<vA>^AA<A>A<v<A>A>^AAAvA<^A>A".len()
    );
}

#[test]
fn day21_test_part1() {
    let example1 = r#"029A
980A
179A
456A
379A"#;

    assert_eq!(part1(&example1.to_string()), "126384");
}

#[test]
fn day21_test_part1_actual() {
    let example1 = r#"169A
279A
540A
869A
789A"#;

    assert_eq!(part1(&example1.to_string()), "184716");
}

#[test]
fn day21_deeper_chain_never_shorter() {
    let mut previous = 0;
    for depth in 0..6 {
        let count = find_shortest(&"029A".to_owned(), depth);
        assert!(count >= previous);
        previous = count;
    }
}

#[test]
fn day21_aggregate_matches_single_expansion() {
    assert_eq!(
        find_shortest(&"029A".to_owned(), 1) as usize,
        "v<<A>>^A<A>AvA<^AA>A<vAAA>^A".len()
    );
}
