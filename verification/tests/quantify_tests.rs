//! The buffers that overlaps are measured with.
use sparrow::quantify::circles_soa::{Circle, CirclesSoA, SOA_LANES};
use sparrow::scalar::Scalar;

fn scalar(v: f32) -> Scalar {
    Scalar { bits: v.to_bits() }
}

fn number(s: Scalar) -> f32 {
    f32::from_bits(s.bits)
}

fn circle(x: f32, y: f32, r: f32) -> Circle {
    Circle { x: scalar(x), y: scalar(y), r: scalar(r) }
}

fn circles(n: usize) -> Vec<Circle> {
    (0..n).map(|i| circle(i as f32, 2.0 * i as f32, 0.5 + i as f32)).collect()
}

#[test]
fn buffers_are_padded_to_whole_chunks() {
    for (n, expected) in [(0, 0), (1, 8), (7, 8), (8, 8), (9, 16), (16, 16), (17, 24)] {
        let soa = CirclesSoA::from_circles(&circles(n));
        assert_eq!(soa.n, n);
        assert_eq!(soa.padded_len(), expected, "{n} circles");
        assert_eq!(soa.padded_len() % SOA_LANES, 0);
        assert_eq!((soa.x.len(), soa.y.len(), soa.r.len()), (expected, expected, expected));
        for (i, c) in circles(n).iter().enumerate() {
            assert_eq!((soa.x[i], soa.y[i], soa.r[i]), (c.x, c.y, c.r));
        }
        for i in n..expected {
            assert_eq!((number(soa.x[i]), number(soa.y[i]), number(soa.r[i])), (0.0, 0.0, 0.0));
        }
    }
}

#[test]
fn loading_replaces_what_was_there() {
    let mut soa = CirclesSoA::from_circles(&circles(17));
    let loaded = soa.load(&circles(3));
    assert_eq!(loaded.n, 3);
    assert_eq!(soa.padded_len(), 8);
    assert_eq!(number(soa.r[2]), 2.5);
    assert_eq!(number(soa.r[3]), 0.0);
    soa.load(&[]);
    assert_eq!((soa.n, soa.padded_len()), (0, 0));
    assert_eq!(CirclesSoA::default().padded_len(), CirclesSoA::new().padded_len());
}

#[test]
fn loading_is_the_same_as_building() {
    for n in [0, 3, 8, 17] {
        let built = CirclesSoA::from_circles(&circles(n));
        let mut loaded = CirclesSoA::from_circles(&circles(11));
        for _ in 0..2 {
            loaded.load(&circles(n));
            assert_eq!(loaded.n, built.n);
            assert_eq!((&loaded.x, &loaded.y, &loaded.r), (&built.x, &built.y, &built.r));
        }
    }
}

#[test]
fn null_circles_count_for_nothing() {
    let all = circles(11);
    let soa = CirclesSoA::from_circles(&all);
    let weighed = |r: f32| 3.0 * r.min(2.0);
    let direct: f32 = all.iter().map(|c| weighed(number(c.r))).sum();
    let padded: f32 = (0..soa.padded_len()).map(|i| weighed(number(soa.r[i]))).sum();
    assert_eq!(direct, padded);
}
