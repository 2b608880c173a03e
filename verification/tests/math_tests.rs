use lykoi_data::math::approach;

#[test]
fn math_approach_integer_cases() {
    assert_eq!(approach(10, 20, 2), 12);
    assert_eq!(approach(10, 20, 12), 20);
    assert_eq!(approach(20, 10, 12), 10);
}

#[test]
fn math_approach_already_there() {
    assert_eq!(approach(5, 5, 3), 5);
    assert_eq!(approach(-4, -9, 2), -6);
}
