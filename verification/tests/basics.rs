//! Numbers, windows and the heap.
use trackfinder::geo::{Bounds, LatLon};
use trackfinder::heap::MinHeap;
use trackfinder::number::{Real, Single, LARGEST, SMALLEST};
use trackfinder::text::{contains_text, same_text, starts_with_char};

fn num(x: f64) -> Real {
    Real { bits: x.to_bits() }
}

fn single(x: f32) -> Single {
    Single { bits: x.to_bits() }
}

#[test]
fn numbers_compare_as_floats_do() {
    let all = [
        f64::NEG_INFINITY,
        f64::MIN,
        -1.5,
        -f64::MIN_POSITIVE,
        -0.0,
        0.0,
        1e-300,
        1.0,
        f64::MAX,
        f64::INFINITY,
        f64::NAN,
        -f64::NAN,
    ];
    for a in all {
        for b in all {
            assert_eq!(num(a).lt(num(b)), a < b, "{a} < {b}");
            assert_eq!(num(a).le(num(b)), a <= b, "{a} <= {b}");
            assert_eq!(num(a).same(num(b)), a == b, "{a} == {b}");
            let max = f64::from_bits(num(a).max(num(b)).bits);
            assert!(max == a.max(b) || (max.is_nan() && a.max(b).is_nan()));
            let min = f64::from_bits(num(a).min(num(b)).bits);
            assert!(min == a.min(b) || (min.is_nan() && a.min(b).is_nan()));
        }
    }
    assert_eq!(f64::from_bits(LARGEST), f64::MAX);
    assert_eq!(f64::from_bits(SMALLEST), f64::MIN);
}

#[test]
fn short_numbers_compare_as_floats_do() {
    let all = [f32::NEG_INFINITY, -1.5, -0.0, 0.0, 1.0, f32::MAX, f32::INFINITY, f32::NAN];
    for a in all {
        assert_eq!(single(a).is_finite(), a.is_finite());
        for b in all {
            assert_eq!(single(a).lt(single(b)), a < b, "{a} < {b}");
            assert_eq!(single(a).le(single(b)), a <= b, "{a} <= {b}");
        }
    }
}

#[test]
fn a_window_holds_its_points() {
    let points = vec![
        LatLon::new(num(45.0), num(6.5)),
        LatLon::new(num(44.0), num(7.5)),
        LatLon::new(num(46.0), num(6.0)),
    ];
    let b = Bounds::around(&points);
    for p in &points {
        assert!(b.contains(*p));
    }
    assert_eq!(b.south, num(44.0));
    assert_eq!(b.west, num(6.0));
    assert_eq!(b.north, num(46.0));
    assert_eq!(b.east, num(7.5));
    assert!(!b.contains(LatLon::new(num(43.9), num(6.5))));
    assert!(points[0].same(points[0]));
    assert!(LatLon::new(num(0.0), num(1.0)).same(LatLon::new(num(-0.0), num(1.0))));
}

#[test]
fn the_least_comes_out_first() {
    let mut heap = MinHeap::new();
    for (cost, node) in [(5, 1), (3, 9), (5, 0), (3, 9), (8, 2), (1, 7)] {
        heap.push((cost, node));
    }
    let mut out = Vec::new();
    while let Some(e) = heap.pop() {
        out.push(e);
    }
    assert_eq!(out, vec![(1, 7), (3, 9), (3, 9), (5, 0), (5, 1), (8, 2)]);
}

#[test]
fn texts_are_searched() {
    assert!(same_text("été", "été"));
    assert!(!same_text("a", "ab"));
    assert!(contains_text("application/xml", "xml"));
    assert!(!contains_text("image/png", "xml"));
    assert!(contains_text("x", ""));
    assert!(starts_with_char("\u{a0}\n {", '{'));
    assert!(!starts_with_char("", '{'));
}
