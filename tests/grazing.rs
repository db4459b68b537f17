use goat_on_a_rope::circle::Circle;
use goat_on_a_rope::grazing::{classify, compute, formula, generate, total_area, GrazingError, GrazingResult};
use goat_on_a_rope::rational::Rational;

fn q(n: u64, d: u64) -> Rational {
    Rational::new(n, d)
}

fn parts(r: &Rational) -> (bool, u64, u64) {
    (r.negative, r.numer, r.denom)
}

fn run(sides: u32, position: Rational) -> GrazingResult {
    compute(sides, &position).expect("valid input")
}

fn gcd(a: i128, b: i128) -> i128 {
    if b == 0 { a.abs() } else { gcd(b, a % b) }
}

fn parse_fraction(text: &str) -> (i128, i128) {
    match text.split_once('/') {
        Some((n, d)) => (n.parse().unwrap(), d.parse().unwrap()),
        None => (text.parse().unwrap(), 1),
    }
}

/// Evaluates a formula of terms `(a/b)(c/d)²` joined by `" + "`.
fn evaluate(formula: &str) -> (i128, i128) {
    let (mut num, mut den) = (0i128, 1i128);
    for term in formula.split(" + ") {
        let inner = term.strip_prefix('(').unwrap().strip_suffix(")²").unwrap();
        let (share, radius) = inner.split_once(")(").unwrap();
        let (sn, sd) = parse_fraction(share);
        let (rn, rd) = parse_fraction(radius);
        let (tn, td) = (sn * rn * rn, sd * rd * rd);
        num = num * td + tn * den;
        den *= td;
        let g = gcd(num, den);
        num /= g;
        den /= g;
    }
    (num, den)
}

#[test]
fn square_vertex_anchor() {
    let g = run(4, q(0, 1));
    let anchor = classify(4, &q(0, 1)).unwrap();
    assert!(anchor.on_vertex);
    assert_eq!(parts(&anchor.outside_angle), (false, 90, 1));
    assert_eq!(parts(&anchor.side_length), (false, 1, 2));
    assert_eq!(parts(&anchor.initial_angle), (false, 270, 1));
    assert_eq!(g.circles.len(), 3);
    assert_eq!((g.left_count, g.right_count), (1, 1));
    assert_eq!(parts(&g.circles[0].radius), (false, 1, 1));
    assert_eq!(parts(&g.circles[0].angle), (false, 270, 1));
    assert_eq!(parts(&g.circles[0].area().unwrap()), (false, 3, 4));
    assert_eq!(parts(&g.circles[1].radius), (false, 1, 2));
    assert_eq!(parts(&g.circles[1].angle), (false, 90, 1));
    assert_eq!(parts(&g.circles[1].area().unwrap()), (false, 1, 16));
    assert_eq!(parts(&g.circles[2].radius), (false, 1, 2));
    assert_eq!(parts(&g.total_area), (false, 7, 8));
    assert_eq!(g.formula, "(3/4)(1)² + (1/4)(1/2)² + (1/4)(1/2)²");
}

#[test]
fn triangle_mid_edge_anchor() {
    let g = run(3, q(1, 2));
    let anchor = classify(3, &q(1, 2)).unwrap();
    assert!(!anchor.on_vertex);
    assert_eq!(parts(&anchor.outside_angle), (false, 120, 1));
    assert_eq!(parts(&anchor.inside_angle), (false, 60, 1));
    assert_eq!(parts(&anchor.side_length), (false, 2, 3));
    assert_eq!(parts(&anchor.initial_angle), (false, 180, 1));
    assert_eq!(g.circles.len(), 3);
    assert_eq!((g.left_count, g.right_count), (1, 1));
    assert_eq!(parts(&g.circles[0].area().unwrap()), (false, 1, 2));
    assert_eq!(parts(&g.circles[1].radius), (false, 2, 3));
    assert_eq!(parts(&g.circles[1].area().unwrap()), (false, 4, 27));
    assert_eq!(parts(&g.circles[2].radius), (false, 2, 3));
    assert_eq!(parts(&g.total_area), (false, 43, 54));
}

#[test]
fn too_few_sides_is_invalid_polygon() {
    for p in [q(0, 1), q(1, 2), q(1, 1), q(11, 10), Rational::new_neg(1, 10)] {
        assert_eq!(compute(2, &p).unwrap_err(), GrazingError::InvalidPolygon);
        assert_eq!(compute(0, &p).unwrap_err(), GrazingError::InvalidPolygon);
        assert_eq!(classify(2, &p).unwrap_err(), GrazingError::InvalidPolygon);
    }
}

#[test]
fn position_off_the_edge_is_invalid() {
    for n in [3u32, 4, 7, 20] {
        assert_eq!(compute(n, &Rational::new_neg(1, 10)).unwrap_err(), GrazingError::InvalidPosition);
        assert_eq!(compute(n, &q(11, 10)).unwrap_err(), GrazingError::InvalidPosition);
    }
}

#[test]
fn counts_add_up_and_radii_are_positive() {
    for n in [3u32, 4, 5, 6, 9, 12, 20] {
        for (a, b) in [(0u64, 1u64), (1, 1), (1, 2), (1, 3), (37, 100), (99, 100), (1, 7)] {
            let g = run(n, q(a, b));
            assert_eq!(g.circles.len(), 1 + g.left_count + g.right_count);
            assert!(g.left_count >= 1 && g.right_count >= 1);
            for c in &g.circles {
                assert!(!c.radius.negative && c.radius.numer > 0);
            }
        }
    }
}

#[test]
fn vertex_anchor_is_symmetric() {
    for n in [3u32, 4, 5, 8, 13, 20] {
        for p in [q(0, 1), q(1, 1)] {
            let g = run(n, p);
            assert_eq!(g.left_count, g.right_count);
            for k in 0..g.left_count {
                assert_eq!(g.circles[1 + k], g.circles[1 + g.left_count + k]);
            }
        }
    }
}

#[test]
fn formula_evaluates_to_total_area() {
    for n in [3u32, 4, 5, 6, 10, 20] {
        for (a, b) in [(0u64, 1u64), (1, 1), (1, 2), (1, 4), (2, 5), (37, 100)] {
            let g = run(n, q(a, b));
            let (num, den) = evaluate(&g.formula);
            assert_eq!((num, den), (g.total_area.numer as i128, g.total_area.denom as i128));
        }
    }
}

#[test]
fn hexagon_mid_edge_sequence() {
    // side 1/3, offset 1/2: radii 5/6, 1/2, 1/6, then -1/6 stops.
    let g = run(6, q(1, 2));
    assert_eq!((g.left_count, g.right_count), (3, 3));
    let radii: Vec<(bool, u64, u64)> = g.circles.iter().map(|c| parts(&c.radius)).collect();
    assert_eq!(
        radii,
        vec![(false, 1, 1), (false, 5, 6), (false, 1, 2), (false, 1, 6), (false, 5, 6), (false, 1, 2), (false, 1, 6)]
    );
    assert_eq!(parts(&g.circles[0].angle), (false, 180, 1));
    assert_eq!(parts(&g.circles[1].angle), (false, 60, 1));
}

#[test]
fn off_center_anchor_splits_unevenly() {
    // square, position 1/4: left offset 1/4, right offset 3/4, side 1/2.
    let g = run(4, q(1, 4));
    let radii: Vec<(bool, u64, u64)> = g.circles.iter().map(|c| parts(&c.radius)).collect();
    assert_eq!(radii, vec![(false, 1, 1), (false, 7, 8), (false, 3, 8), (false, 5, 8), (false, 1, 8)]);
    assert_eq!((g.left_count, g.right_count), (2, 2));
}

#[test]
fn generate_first_sector_is_unconditional() {
    // offset 1 with side 1: the first radius is 0 and is still emitted.
    let cs = generate(&q(1, 1), &q(1, 1), &q(90, 1)).unwrap();
    assert_eq!(cs.len(), 1);
    assert_eq!(parts(&cs[0].radius), (false, 0, 1));
    // offset 0 with side 1/3: 1, 2/3, 1/3.
    let cs = generate(&q(0, 1), &q(1, 3), &q(120, 1)).unwrap();
    let radii: Vec<(bool, u64, u64)> = cs.iter().map(|c| parts(&c.radius)).collect();
    assert_eq!(radii, vec![(false, 1, 1), (false, 2, 3), (false, 1, 3)]);
    assert_eq!(parts(&cs[2].angle), (false, 120, 1));
}

#[test]
fn rational_new_reduces() {
    assert_eq!(parts(&q(2, 4)), (false, 1, 2));
    assert_eq!(parts(&q(0, 5)), (false, 0, 1));
    assert_eq!(parts(&Rational::new_neg(6, 4)), (true, 3, 2));
    assert_eq!(parts(&Rational::integer(7)), (false, 7, 1));
    assert!(q(1, 3).is_positive());
    assert!(!q(0, 3).is_positive());
    assert!(!Rational::new_neg(1, 3).is_positive());
}

#[test]
fn circle_constructors_and_areas() {
    let full = Circle::full(q(1, 2));
    assert_eq!(parts(&full.angle), (false, 360, 1));
    assert_eq!(parts(&full.area().unwrap()), (false, 1, 4));
    let part = Circle::partial(q(2, 3), q(120, 1));
    assert_eq!(parts(&part.radius), (false, 2, 3));
    assert_eq!(parts(&part.area().unwrap()), (false, 4, 27));
    assert_eq!(parts(&part.partial_area(q(90, 1)).unwrap()), (false, 1, 9));
    assert_eq!(part.area_formula().unwrap(), "(1/3)(2/3)²");
    assert_eq!(Circle::full(q(3, 1)).area_formula().unwrap(), "(1)(3)²");
}

#[test]
fn total_area_and_formula_of_a_list() {
    let cs = vec![Circle::full(q(1, 1)), Circle::partial(q(1, 2), q(180, 1))];
    assert_eq!(parts(&total_area(&cs).unwrap()), (false, 9, 8));
    assert_eq!(formula(&cs).unwrap(), "(1)(1)² + (1/2)(1/2)²");
    let empty: Vec<Circle> = Vec::new();
    assert_eq!(parts(&total_area(&empty).unwrap()), (false, 0, 1));
    assert_eq!(formula(&empty).unwrap(), "");
}

#[test]
fn overflow_is_reported() {
    let big = Rational::integer(u64::MAX);
    let c = Circle::partial(big, q(360, 1));
    assert!(c.area().is_none());
    let huge_den = q(1, u64::MAX - 2);
    assert_eq!(compute(3, &huge_den).unwrap_err(), GrazingError::ArithmeticOverflow);
}

