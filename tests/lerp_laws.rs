use pixels_graphics_lib::math::lerp::{Lerp, Progress};
use pixels_graphics_lib::math::Point;

#[test]
fn progress_new_keeps_fraction() {
    let p = Progress::new(-3, 7);
    assert_eq!(p.num, -3);
    assert_eq!(p.den, 7);
}

#[test]
fn endpoints_for_every_type() {
    let start = Progress::new(0, 9);
    let end = Progress::new(9, 9);
    assert_eq!(isize::MIN.lerp(isize::MAX, start), isize::MIN);
    assert_eq!(isize::MIN.lerp(isize::MAX, end), isize::MAX);
    assert_eq!(usize::MAX.lerp(3, start), usize::MAX);
    assert_eq!(usize::MAX.lerp(3, end), 3);
    let a = Point::new(-7, 40);
    let b = Point::new(13, -2);
    assert_eq!(a.lerp(b, start), a);
    assert_eq!(a.lerp(b, end), b);
}

#[test]
fn degenerate_segment_is_fixed() {
    for (n, d) in [(0, 1), (1, 3), (-5, 2), (17, 4), (i32::MAX, 1), (i32::MIN, 1)] {
        let p = Progress::new(n, d);
        assert_eq!(21_isize.lerp(21, p), 21);
        assert_eq!((-8_isize).lerp(-8, p), -8);
        assert_eq!(42_usize.lerp(42, p), 42);
        assert_eq!(Point::new(3, -4).lerp(Point::new(3, -4), p), Point::new(3, -4));
    }
}

#[test]
fn rounding_goes_away_from_zero() {
    let half = Progress::new(1, 2);
    assert_eq!(785_isize.lerp(787, half), 786);
    assert_eq!(10_isize.lerp(1, half), 6);
    assert_eq!((-5_isize).lerp(5, half), 0);
    assert_eq!(5_isize.lerp(-5, half), 0);
    assert_eq!(0_isize.lerp(10, Progress::new(1, 5)), 2);
    assert_eq!(0_isize.lerp(1, half), 1);
    assert_eq!(0_isize.lerp(-1, half), -1);
    assert_eq!((-10_isize).lerp(-1, half), -6);
    assert_eq!(0_isize.lerp(3, half), 2);
    assert_eq!(0_isize.lerp(-3, half), -2);
    assert_eq!(10_usize.lerp(1, half), 6);
    assert_eq!(0_usize.lerp(3, half), 2);
}

#[test]
fn rounding_to_nearest() {
    assert_eq!(0_isize.lerp(10, Progress::new(1, 3)), 3);
    assert_eq!(0_isize.lerp(10, Progress::new(2, 3)), 7);
    assert_eq!(0_isize.lerp(-10, Progress::new(2, 3)), -7);
    assert_eq!(0_usize.lerp(100, Progress::new(1, 7)), 14);
}

#[test]
fn extrapolation_past_either_end() {
    assert_eq!(0_isize.lerp(10, Progress::new(2, 1)), 20);
    assert_eq!(0_isize.lerp(10, Progress::new(-1, 1)), -10);
    assert_eq!(0_usize.lerp(10, Progress::new(2, 1)), 20);
    assert_eq!(4_isize.lerp(6, Progress::new(-3, 2)), 1);
}

#[test]
fn saturation_at_type_limits() {
    assert_eq!(0_usize.lerp(10, Progress::new(-1, 1)), 0);
    assert_eq!(5_usize.lerp(0, Progress::new(3, 1)), 0);
    assert_eq!(usize::MAX.lerp(usize::MAX - 1, Progress::new(-2, 1)), usize::MAX);
    assert_eq!(0_isize.lerp(isize::MAX, Progress::new(2, 1)), isize::MAX);
    assert_eq!(0_isize.lerp(isize::MIN, Progress::new(2, 1)), isize::MIN);
    assert_eq!(isize::MIN.lerp(isize::MAX, Progress::new(1, 2)), -1);
    assert_eq!(isize::MAX.lerp(isize::MIN, Progress::new(-1, 1)), isize::MAX);
}

#[test]
fn large_values_are_exact() {
    let big: isize = 1 << 40;
    assert_eq!(big.lerp(big + 2, Progress::new(1, 2)), big + 1);
    assert_eq!(0_usize.lerp(usize::MAX, Progress::new(1, 1)), usize::MAX);
    assert_eq!(0_usize.lerp(1 << 62, Progress::new(1, 4)), 1 << 60);
}

#[test]
fn reverse_with_complement_agrees() {
    let cases: [(isize, isize, i32, u32); 6] =
        [(0, 10, 1, 5), (10, 1, 1, 2), (-5, 5, 1, 2), (785, 787, 1, 3), (3, -8, 2, 7), (0, 1, 1, 2)];
    for (a, b, n, d) in cases {
        let p = Progress::new(n, d);
        let q = Progress::new(d as i32 - n, d);
        assert_eq!(b.lerp(a, q), a.lerp(b, p));
        let s = Point::new(a, b);
        let t = Point::new(b, a);
        assert_eq!(t.lerp(s, q), s.lerp(t, p));
    }
    assert_eq!(9_usize.lerp(2, Progress::new(3, 10)), 2_usize.lerp(9, Progress::new(7, 10)));
}

#[test]
fn rising_segment_never_falls() {
    let steps: u32 = 20;
    let mut prev_i = isize::MIN;
    let mut prev_u = 0_usize;
    for k in 0..=steps {
        let p = Progress::new(k as i32, steps);
        let vi = (-7_isize).lerp(31, p);
        let vu = 3_usize.lerp(50, p);
        assert!(vi >= prev_i);
        assert!(vu >= prev_u);
        prev_i = vi;
        prev_u = vu;
    }
    assert_eq!(prev_i, 31);
    assert_eq!(prev_u, 50);
}

#[test]
fn point_axes_are_independent() {
    let half = Progress::new(1, 2);
    assert_eq!(Point::new(0, 0).lerp(Point::new(10, 10), half), Point::new(5, 5));
    assert_eq!(Point::new(1, -1).lerp(Point::new(-1, 1), half), Point::new(0, 0));
    let a = Point::new(0, 100).lerp(Point::new(10, -100), half);
    let b = Point::new(0, 7).lerp(Point::new(10, 9), half);
    assert_eq!(a.x, b.x);
    assert_eq!(a, Point::new(5, 0));
    assert_eq!(b, Point::new(5, 8));
}
