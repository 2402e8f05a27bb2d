use terrain_mesh::arith::{div_floor, div_toward_zero, isqrt, magnitude, Ratio};
use terrain_mesh::geo::{orient, BarycentricCoords, Bbox, Circle, Vec2, COORD_LIMIT};

fn boxed(x0: i64, y0: i64, x1: i64, y1: i64) -> Bbox {
    let mut b = Bbox::new(Vec2::new(x0, y0));
    b.expand(Vec2::new(x1, y1));
    b
}

fn area(b: &Bbox) -> i64 {
    (b.max().x - b.min().x) * (b.max().y - b.min().y)
}

fn overlap_area(a: &Bbox, b: &Bbox) -> i64 {
    let w = a.max().x.min(b.max().x) - a.min().x.max(b.min().x);
    let h = a.max().y.min(b.max().y) - a.min().y.max(b.min().y);
    if w <= 0 || h <= 0 {
        0
    } else {
        w * h
    }
}

/// Sign of the in-circle determinant of `d` against the circle through the
/// counter-clockwise `a`, `b`, `c`: positive inside, zero on the circle.
fn in_circle(a: Vec2, b: Vec2, c: Vec2, d: Vec2) -> i128 {
    let (ax, ay) = ((a.x - d.x) as i128, (a.y - d.y) as i128);
    let (bx, by) = ((b.x - d.x) as i128, (b.y - d.y) as i128);
    let (cx, cy) = ((c.x - d.x) as i128, (c.y - d.y) as i128);
    let det = (ax * ax + ay * ay) * (bx * cy - cx * by) - (bx * bx + by * by) * (ax * cy - cx * ay)
        + (cx * cx + cy * cy) * (ax * by - bx * ay);
    det.signum()
}

#[test]
fn vector_arithmetic_is_componentwise() {
    let a = Vec2::new(6, -8);
    let b = Vec2::new(2, 4);
    assert_eq!(a + b, Vec2::new(8, -4));
    assert_eq!(a - b, Vec2::new(4, -12));
    assert_eq!(a * b, Vec2::new(12, -32));
    assert_eq!(a / b, Vec2::new(3, -2));
    assert_eq!(a + 1, Vec2::new(7, -7));
    assert_eq!(a - 1, Vec2::new(5, -9));
    assert_eq!(a * 3, Vec2::new(18, -24));
    assert_eq!(a / 4, Vec2::new(1, -2));
    assert_eq!(Vec2::zero(), Vec2::new(0, 0));
}

#[test]
fn division_rounds_toward_zero() {
    assert_eq!(Vec2::new(-7, 7) / 2, Vec2::new(-3, 3));
    assert_eq!(Vec2::new(-7, 7) / -2, Vec2::new(3, -3));
    assert_eq!(div_toward_zero(-9, 4), -2);
    assert_eq!(div_toward_zero(i64::MIN, 2), i64::MIN / 2);
    assert_eq!(div_floor(-9, 4), -3);
    assert_eq!(div_floor(9, 4), 2);
    assert_eq!(div_floor(-8, 4), -2);
    assert_eq!(magnitude(i64::MIN), 1u64 << 63);
}

#[test]
fn norms_and_distances() {
    let v = Vec2::new(3, -4);
    assert_eq!(v.norm2(), 25);
    assert_eq!(v.norm(), 5);
    assert_eq!(Vec2::new(1, 1).norm2(), 2);
    assert_eq!(Vec2::new(1, 1).norm(), 1);
    assert_eq!(Vec2::new(1, 2).dist2(Vec2::new(4, 6)), 25);
    assert_eq!(Vec2::new(1, 2).dist(Vec2::new(4, 6)), 5);
    assert_eq!(Vec2::new(0, 0).dist(Vec2::new(2, 2)), 2);
    assert_eq!(Vec2::new(i64::MIN, i64::MIN).norm2(), 1u128 << 127);
}

#[test]
fn integer_square_root_rounds_down() {
    assert_eq!(isqrt(0), 0);
    assert_eq!(isqrt(1), 1);
    assert_eq!(isqrt(15), 3);
    assert_eq!(isqrt(16), 4);
    assert_eq!(isqrt(17), 4);
    assert_eq!(isqrt(u128::MAX), u64::MAX);
    assert_eq!(isqrt((1u128 << 64) - 1), (1u64 << 32) - 1);
}

#[test]
fn range_of_coordinates() {
    assert!(Vec2::new(COORD_LIMIT, -COORD_LIMIT).is_in_range());
    assert!(!Vec2::new(COORD_LIMIT + 1, 0).is_in_range());
    assert!(!Vec2::new(0, -COORD_LIMIT - 1).is_in_range());
}

#[test]
fn bbox_of_a_point_and_expansion() {
    let mut b = Bbox::new(Vec2::new(3, 4));
    assert_eq!(b.min(), Vec2::new(3, 4));
    assert_eq!(b.max(), Vec2::new(3, 4));
    assert!(b.contains(Vec2::new(3, 4)));
    assert!(!b.contains(Vec2::new(3, 5)));
    b.expand(Vec2::new(-1, 9));
    assert_eq!(b.min(), Vec2::new(-1, 4));
    assert_eq!(b.max(), Vec2::new(3, 9));
    let before = b;
    b.expand(Vec2::new(0, 5));
    assert_eq!(b, before);
}

#[test]
fn bbox_contains_is_closed_on_both_axes() {
    let b = boxed(0, 0, 10, 10);
    assert!(b.contains(Vec2::new(0, 0)));
    assert!(b.contains(Vec2::new(10, 10)));
    assert!(b.contains(Vec2::new(0, 10)));
    assert!(b.contains(Vec2::new(5, 5)));
    assert!(!b.contains(Vec2::new(11, 5)));
    assert!(!b.contains(Vec2::new(5, -1)));
}

#[test]
fn bbox_center_rounds_down() {
    assert_eq!(boxed(0, 0, 10, 10).center(), Vec2::new(5, 5));
    assert_eq!(boxed(0, 0, 5, 7).center(), Vec2::new(2, 3));
    assert_eq!(boxed(-5, -7, 0, 0).center(), Vec2::new(-3, -4));
    assert_eq!(boxed(i64::MAX - 2, 0, i64::MAX, 0).center(), Vec2::new(i64::MAX - 1, 0));
}

#[test]
fn bbox_clamp_moves_a_point_into_the_box() {
    let b = boxed(0, 0, 10, 10);
    assert_eq!(b.clamp(Vec2::new(3, 4)), Vec2::new(3, 4));
    assert_eq!(b.clamp(Vec2::new(-3, 40)), Vec2::new(0, 10));
    assert_eq!(b.clamp(Vec2::new(30, -4)), Vec2::new(10, 0));
}

#[test]
fn split_at_the_center_quarters_the_box() {
    let parent = boxed(0, 0, 10, 10);
    let quarters = parent.split(parent.center());
    assert_eq!(quarters[0], boxed(0, 0, 5, 5));
    assert_eq!(quarters[1], boxed(5, 0, 10, 5));
    assert_eq!(quarters[2], boxed(0, 5, 5, 10));
    assert_eq!(quarters[3], boxed(5, 5, 10, 10));
    let total: i64 = quarters.iter().map(area).sum();
    assert_eq!(total, area(&parent));
    assert_eq!(total, 100);
    for i in 0..4 {
        for j in (i + 1)..4 {
            assert_eq!(overlap_area(&quarters[i], &quarters[j]), 0);
        }
    }
}

#[test]
fn split_at_an_uneven_pivot_covers_the_box() {
    let parent = boxed(-3, 2, 9, 7);
    let pivot = Vec2::new(1, 6);
    let quarters = parent.split(pivot);
    let total: i64 = quarters.iter().map(area).sum();
    assert_eq!(total, area(&parent));
    for x in -3..=9 {
        for y in 2..=7 {
            let p = Vec2::new(x, y);
            let holders = quarters.iter().filter(|q| q.contains(p)).count();
            assert!(holders >= 1);
            if holders > 1 {
                assert!(x == pivot.x || y == pivot.y);
            }
        }
    }
}

#[test]
fn orientation_is_twice_the_signed_area() {
    let a = Vec2::new(0, 0);
    let b = Vec2::new(4, 0);
    let c = Vec2::new(0, 3);
    assert_eq!(orient(a, b, c), 12);
    assert_eq!(orient(a, c, b), -12);
    assert_eq!(orient(a, b, Vec2::new(8, 0)), 0);
}

#[test]
fn circle_around_a_center_is_inclusive() {
    let c = Circle::new(Vec2::new(1, 1), 5);
    assert!(c.contains(Vec2::new(1, 1)));
    assert!(c.contains(Vec2::new(6, 1)));
    assert!(c.contains(Vec2::new(4, 5)));
    assert!(!c.contains(Vec2::new(5, 5)));
    assert!(!c.contains(Vec2::new(7, 1)));
    assert_eq!(c.center(), Vec2::new(1, 1));
    let point = Circle::new(Vec2::new(2, 3), 0);
    assert!(point.contains(Vec2::new(2, 3)));
    assert!(!point.contains(Vec2::new(2, 4)));
}

#[test]
fn circumcircle_passes_through_its_three_points() {
    let a = Vec2::new(0, 0);
    let b = Vec2::new(4, 0);
    let c = Vec2::new(0, 4);
    let circle = Circle::circumcircle(a, b, c).unwrap();
    assert!(circle.contains(a));
    assert!(circle.contains(b));
    assert!(circle.contains(c));
    assert_eq!(circle.center(), Vec2::new(2, 2));
    assert!(circle.contains(Vec2::new(4, 4)));
    assert!(circle.contains(Vec2::new(2, 2)));
    assert!(!circle.contains(Vec2::new(5, 4)));
    assert!(!circle.contains(Vec2::new(-1, 2)));
    assert!(!circle.contains(Vec2::new(2, 5)));
}

#[test]
fn circumcircle_does_not_depend_on_the_winding() {
    let a = Vec2::new(-3, 1);
    let b = Vec2::new(7, 2);
    let c = Vec2::new(1, 9);
    let one = Circle::circumcircle(a, b, c).unwrap();
    let other = Circle::circumcircle(a, c, b).unwrap();
    for x in -12..=16 {
        for y in -8..=18 {
            let p = Vec2::new(x, y);
            assert_eq!(one.contains(p), other.contains(p));
        }
    }
}

#[test]
fn circumcircle_agrees_with_the_in_circle_determinant() {
    let mut state: u64 = 12345;
    let mut next = move || {
        state = state.wrapping_mul(6364136223846793005).wrapping_add(1442695040888963407);
        ((state >> 33) % 2001) as i64 - 1000
    };
    let mut checked = 0;
    while checked < 200 {
        let a = Vec2::new(next(), next());
        let b = Vec2::new(next(), next());
        let c = Vec2::new(next(), next());
        let turn = orient(a, b, c);
        if turn == 0 {
            assert!(Circle::circumcircle(a, b, c).is_none());
            continue;
        }
        let (b, c) = if turn > 0 { (b, c) } else { (c, b) };
        let circle = Circle::circumcircle(a, b, c).unwrap();
        assert!(circle.contains(a) && circle.contains(b) && circle.contains(c));
        for _ in 0..20 {
            let d = Vec2::new(next(), next());
            assert_eq!(circle.contains(d), in_circle(a, b, c, d) >= 0);
        }
        checked += 1;
    }
}

#[test]
fn circumcircle_of_points_on_a_line_is_none() {
    assert!(Circle::circumcircle(Vec2::new(0, 0), Vec2::new(1, 1), Vec2::new(5, 5)).is_none());
    assert!(Circle::circumcircle(Vec2::new(2, 3), Vec2::new(2, 3), Vec2::new(5, 5)).is_none());
    assert!(Circle::circumcircle(Vec2::new(2, 3), Vec2::new(2, 3), Vec2::new(2, 3)).is_none());
}

#[test]
fn circumcircle_of_a_thin_triangle_is_exact_and_its_center_is_kept_in_range() {
    let a = Vec2::new(-COORD_LIMIT, 0);
    let b = Vec2::new(COORD_LIMIT, 0);
    let c = Vec2::new(0, 1);
    let circle = Circle::circumcircle(a, b, c).unwrap();
    assert!(circle.contains(a) && circle.contains(b) && circle.contains(c));
    assert!(!circle.contains(Vec2::new(0, 2)));
    assert!(circle.contains(Vec2::new(0, -COORD_LIMIT)));
    assert_eq!(circle.center(), Vec2::new(0, -COORD_LIMIT));
}

#[test]
fn circle_center_rounds_down() {
    let circle = Circle::circumcircle(Vec2::new(0, 0), Vec2::new(1, 0), Vec2::new(0, 1)).unwrap();
    assert_eq!(circle.center(), Vec2::new(0, 0));
    let circle = Circle::circumcircle(Vec2::new(0, 0), Vec2::new(-1, 0), Vec2::new(0, -1)).unwrap();
    assert_eq!(circle.center(), Vec2::new(-1, -1));
}

#[test]
fn barycentric_weights_locate_the_point() {
    let v = [Vec2::new(0, 0), Vec2::new(4, 0), Vec2::new(0, 4)];
    let coords = BarycentricCoords::triangle(v, Vec2::new(1, 1)).unwrap();
    assert_eq!(coords.denominator(), 16);
    let mix = coords.interpolate([0, 16, 32]);
    assert_eq!(mix.denominator(), 16);
    assert_eq!(mix.numerator(), 8 * 0 + 4 * 16 + 4 * 32);
    let at_corner = BarycentricCoords::triangle(v, Vec2::new(4, 0)).unwrap();
    assert_eq!(at_corner.interpolate([5, 7, 9]).numerator(), 7 * 16);
    let on_edge = BarycentricCoords::triangle(v, Vec2::new(2, 2)).unwrap();
    assert_eq!(on_edge.interpolate([100, 10, 30]).numerator(), 8 * 10 + 8 * 30);
}

#[test]
fn barycentric_of_a_point_outside_is_none() {
    let v = [Vec2::new(0, 0), Vec2::new(4, 0), Vec2::new(0, 4)];
    assert!(BarycentricCoords::triangle(v, Vec2::new(3, 3)).is_none());
    assert!(BarycentricCoords::triangle(v, Vec2::new(-1, 0)).is_none());
    assert!(BarycentricCoords::triangle(v, Vec2::new(0, 5)).is_none());
}

#[test]
fn barycentric_of_a_triangle_without_area_is_none() {
    let v = [Vec2::new(0, 0), Vec2::new(2, 2), Vec2::new(4, 4)];
    assert!(BarycentricCoords::triangle(v, Vec2::new(1, 1)).is_none());
    assert!(BarycentricCoords::triangle(v, Vec2::new(0, 0)).is_none());
}

#[test]
fn barycentric_does_not_depend_on_the_winding() {
    let ccw = [Vec2::new(0, 0), Vec2::new(6, 0), Vec2::new(0, 6)];
    let cw = [Vec2::new(0, 0), Vec2::new(0, 6), Vec2::new(6, 0)];
    let one = BarycentricCoords::triangle(ccw, Vec2::new(2, 1)).unwrap();
    let other = BarycentricCoords::triangle(cw, Vec2::new(2, 1)).unwrap();
    assert_eq!(one.denominator(), 36);
    assert_eq!(other.denominator(), 36);
    assert_eq!(one.interpolate([1, 2, 3]).numerator(), other.interpolate([1, 3, 2]).numerator());
}

#[test]
fn interpolation_of_a_plane_is_exact() {
    let v = [Vec2::new(1, 2), Vec2::new(9, 3), Vec2::new(4, 11)];
    let plane = |p: Vec2| (3 * p.x - 2 * p.y + 7) as i32;
    for x in 1..=9 {
        for y in 2..=11 {
            let p = Vec2::new(x, y);
            if let Some(coords) = BarycentricCoords::triangle(v, p) {
                let mix = coords.interpolate([plane(v[0]), plane(v[1]), plane(v[2])]);
                assert_eq!(mix.numerator(), plane(p) as i128 * mix.denominator());
            }
        }
    }
}

#[test]
fn ratios_compare_by_cross_multiplication() {
    let third = Ratio::new(1, 3);
    let half = Ratio::new(2, 4);
    let same = Ratio::new(1, 2);
    assert!(half.exceeds(&third));
    assert!(!third.exceeds(&half));
    assert!(!half.exceeds(&same));
    assert!(!same.exceeds(&half));
    assert!(third.exceeds(&Ratio::new(-1, 3)));
    assert!(third.is_positive());
    assert!(!Ratio::new(0, 5).is_positive());
    assert!(!Ratio::new(-2, 5).is_positive());
    assert_eq!(half.numerator(), 2);
    assert_eq!(half.denominator(), 4);
}

#[test]
fn a_circle_gives_its_exact_numbers() {
    let circle = Circle::new(Vec2::new(3, -2), 5);
    assert_eq!(circle.denominator(), 1);
    assert_eq!(circle.center_numerators(), (3, -2));
    assert_eq!(circle.constant_term(), 9 + 4 - 25);
    let circle = Circle::circumcircle(Vec2::new(0, 0), Vec2::new(1, 0), Vec2::new(0, 1)).unwrap();
    let d = circle.denominator();
    let (cx, cy) = circle.center_numerators();
    // The centre (1/2, 1/2) and the squared radius 1/2.
    assert!(d > 0);
    assert_eq!((2 * cx, 2 * cy), (d, d));
    assert_eq!(2 * (cx * cx + cy * cy - d * circle.constant_term()), d * d);
}
