use puzzles::day22::{generate, get_best_price, get_price_trends, sum};

#[test]
fn test_generate() {
    assert_eq!(generate(123, 1), 15887950);
    assert_eq!(generate(123, 2), 16495136);
    assert_eq!(generate(123, 3), 527345);
    assert_eq!(generate(123, 4), 704524);
    assert_eq!(generate(123, 5), 1553684);
    assert_eq!(generate(123, 6), 12683156);
    assert_eq!(generate(123, 7), 11100544);
    assert_eq!(generate(123, 8), 12249484);
    assert_eq!(generate(123, 9), 7753432);
    assert_eq!(generate(123, 10), 5908254);

    assert_eq!(generate(1, 2000), 8685429);
    assert_eq!(generate(10, 2000), 4700978);
    assert_eq!(generate(100, 2000), 15273692);
    assert_eq!(generate(2024, 2000), 8667524);
}

#[test]
fn test_sum() {
    assert_eq!(sum(&vec![1, 10, 100, 2024]), 37327623);
}

#[test]
fn test_price_trends() {
    let price_trends = get_price_trends(123, 10);
    assert_eq!(price_trends.values().max().unwrap(), &6);
}

#[test]
fn test_best_price() {
    assert_eq!(get_best_price(&vec![1, 2, 3, 2024]), 23);
}
