use lykoi_data::point::Point;

#[test]
fn point_test_build_0() {
    let p0 = Point::new([1i64, 2]);
    let p1 = Point::new([2i64, 3]);

    assert_eq!(p0.unpack(), &[1, 2]);
    assert_eq!(p1.unpack(), &[2, 3]);

    let p2 = p0.add(p1);

    assert_eq!(p2.unpack(), &[3, 5]);

    let p2 = p2.sub(Point::new([4i64, 2]));

    assert_eq!(p2.unpack(), &[-1, 3]);
}

#[test]
fn point_get_set_unwrap() {
    let mut p = Point::new([10i64, 20, 30]);
    assert_eq!(p.get(1), Some(20));
    assert_eq!(p.get(3), None);
    p.set(0, 7);
    p.set(9, 99); // out of range: ignored
    assert_eq!(p.unwrap(), [7, 20, 30]);
}

#[test]
fn point_mul_div_rem_signed() {
    let a = Point::new([7i64, -7, 6]);
    let b = Point::new([2i64, 2, -4]);
    assert_eq!(a.mul(b).unwrap(), [14, -14, -24]);
    // Division truncates towards zero, as Rust's `/` does.
    assert_eq!(a.div(b).unwrap(), [3, -3, -1]);
    assert_eq!(a.rem(b).unwrap(), [1, -1, 2]);
}

#[test]
fn point_dot_and_cross() {
    let a = Point::new([1i64, 2, 3]);
    let b = Point::new([4i64, 5, 6]);
    assert_eq!(a.dot(b), 32);
    // The middle component keeps the original formula's sign.
    let c = a.cross(b);
    assert_eq!(c.unwrap(), [2 * 6 - 3 * 5, 1 * 6 - 3 * 4, 1 * 5 - 2 * 4]);
}

#[test]
fn point_unary_binary_neg() {
    let a = Point::new([1i64, -2]);
    let doubled = a.unary(|x| x * 2);
    assert_eq!(doubled.unwrap(), [2, -4]);
    let summed = a.binary(Point::new([10i64, 10]), |x, y| x + y);
    assert_eq!(summed.unwrap(), [11, 8]);
    assert_eq!(a.neg().unwrap(), [-1, 2]);
}

#[test]
fn point_mag_floor_length() {
    assert_eq!(Point::new([3i64, 4, 0]).mag(), 5);
    assert_eq!(Point::new([1i64, 1, 1]).mag(), 1);
    assert_eq!(Point::new([2i64, -3, 6]).mag(), 7);
    assert_eq!(Point::new([0i64, 0, 0]).mag(), 0);
}

#[test]
fn point_unpack_mut() {
    let mut p = Point::new([1i64, 2]);
    p.unpack_mut()[0] = 5;
    assert_eq!(p.unwrap(), [5, 2]);
}
