use rinnd::distance::alternatives::{
    correct_alternative_cosine, true_angular_from_alt_cosine, AlternativeCosine, AlternativeDot,
    AlternativeInnerProduct, DirectNormalizedCosine, ProxyInnerProduct,
};
use rinnd::distance::{Distance, PairSum, Supplied};
use rinnd::single::Single;

fn of(x: f32) -> Single {
    Single { bits: x.to_bits() }
}

fn to(x: Single) -> f32 {
    f32::from_bits(x.bits)
}

fn row(values: &[f32]) -> Vec<Single> {
    values.iter().map(|&v| of(v)).collect()
}

fn add_product(acc: Single, a: Single, b: Single) -> Single {
    of(to(acc) + to(a) * to(b))
}

fn times(a: Single, b: Single) -> Single {
    of(to(a) * to(b))
}

fn plus(a: Single, b: Single) -> Single {
    of(to(a) + to(b))
}

fn neg_log2(s: Single) -> Single {
    of(-to(s).log2())
}

fn one_minus(s: Single) -> Single {
    of(1.0 - to(s))
}

fn reciprocal(s: Single) -> Single {
    of(1.0 / to(s))
}

fn alternative_dot(a: &[f32], b: &[f32]) -> f32 {
    to(AlternativeDot.distance(&row(a), &row(b), &times, &plus, &neg_log2))
}

fn direct(a: &[f32], b: &[f32]) -> f32 {
    to(DirectNormalizedCosine.distance(&row(a), &row(b), &times, &plus, &one_minus))
}

#[test]
fn test_alternative_dot_identical_normalized() {
    // A normalized vector has the product 1 with itself, and -log2(1) = 0
    let norm = 1.0 / 3.0f32.sqrt();
    let a = vec![norm, norm, norm];
    let d = alternative_dot(&a, &a);
    assert!(d.abs() < 1e-5);
}

#[test]
fn test_alternative_dot_matches_scalar_for_remainders() {
    for dim in [1, 7, 8, 31, 32, 100, 128] {
        let a: Vec<f32> = (0..dim).map(|i| ((i * 13 + 5) as f32).sin()).collect();
        let b: Vec<f32> = (0..dim).map(|i| ((i * 7 + 3) as f32).cos()).collect();
        let dot: f32 = a.iter().zip(&b).map(|(x, y)| x * y).sum();
        let expected = if dot <= 0.0 { f32::MAX } else { -dot.log2() };
        let actual = alternative_dot(&a, &b);

        if expected == f32::MAX {
            assert_eq!(actual, f32::MAX);
        } else {
            assert!(
                (actual - expected).abs() < 1e-4,
                "dim={dim}: {actual} != {expected}"
            );
        }
    }
}

#[test]
fn test_direct_normalized_cosine() {
    let a = [1.0, 0.0, 0.0];
    let same = direct(&a, &a);
    let orthogonal = direct(&a, &[0.0, 1.0, 0.0]);
    let opposite = direct(&a, &[-1.0, 0.0, 0.0]);
    assert!(same.abs() < 1e-6);
    assert!((orthogonal - 1.0).abs() < 1e-6);
    assert!((opposite - 2.0).abs() < 1e-6);
}

#[test]
fn test_alternative_inner_product_basic() {
    let a = row(&[1.0, 2.0, 3.0]);
    let b = row(&[1.0, 1.0, 1.0]);
    // The product is 6, and 1/6 is about 0.1667
    let d = to(AlternativeInnerProduct.distance(&a, &b, &times, &plus, &reciprocal));
    assert!((d - 1.0 / 6.0).abs() < 1e-6);
}

#[test]
fn products_are_summed_by_fours() {
    // Sums that rounding makes depend on their order
    let big = 16_777_216.0f32;
    let inner = |a: &[f32]| {
        let ones = vec![1.0; a.len()];
        to(AlternativeInnerProduct.distance(&row(a), &row(&ones), &times, &plus, &|s: Single| s))
    };
    assert_eq!(inner(&[big, 1.0, 1.0, 1.0]), big);
    assert_eq!(inner(&[big, 0.0, 0.0, 0.0, 1.0, 1.0, 1.0, 1.0]), big + 4.0);
    assert_eq!(inner(&[big, 0.0, 0.0, 0.0, 1.0, 1.0, 1.0]), big);
    assert_eq!(inner(&[1.0, 1.0, 1.0, 1.0, big]), big + 4.0);
    assert_eq!(inner(&[]), f32::MAX);
}

#[test]
fn alternative_cosine_of_vectors() {
    let finish = |d: Single, a: Single, b: Single| of(((to(a) * to(b)).sqrt() / to(d)).log2());
    let distance = |a: &[f32], b: &[f32]| {
        to(AlternativeCosine.distance(&row(a), &row(b), &add_product, &finish))
    };
    assert_eq!(distance(&[0.0, 0.0], &[0.0, 0.0]), 0.0);
    assert_eq!(distance(&[0.0, 0.0], &[1.0, 0.0]), f32::MAX);
    assert_eq!(distance(&[1.0, 0.0], &[-1.0, 0.0]), f32::MAX);
    assert_eq!(distance(&[2.0, 0.0], &[3.0, 0.0]), 0.0);
}

#[test]
fn proxy_inner_product_of_vectors() {
    let finish = |ip: Single, a: Single, b: Single| {
        of(-(to(ip) / (to(a) * to(b)).sqrt()).log2() + 1.0 / to(ip).sqrt())
    };
    let distance = |a: &[f32], b: &[f32]| {
        to(ProxyInnerProduct.distance(&row(a), &row(b), &add_product, &finish))
    };
    assert_eq!(distance(&[0.0], &[1.0]), f32::MAX);
    assert_eq!(distance(&[1.0], &[-1.0]), f32::MAX);
    assert_eq!(distance(&[4.0], &[1.0]), 0.5);
}

#[test]
fn names_and_defaults() {
    assert_eq!(AlternativeDot::default().name(), "alternative_dot");
    assert_eq!(DirectNormalizedCosine::default().name(), "direct_normalized_cosine");
    assert_eq!(AlternativeInnerProduct::default().name(), "alternative_inner_product");
    assert_eq!(AlternativeCosine::default().name(), "alternative_cosine");
    assert_eq!(ProxyInnerProduct::default().name(), "proxy_inner_product");
}

#[test]
fn a_pair_sum_is_a_distance() {
    let add_square = |acc: Single, a: Single, b: Single| {
        let diff = to(a) - to(b);
        of(to(acc) + diff * diff)
    };
    let root = |s: Single| of(to(s).sqrt());
    let euclidean = PairSum::new(add_square, root, "euclidean");
    assert_eq!(to(euclidean.distance(&row(&[0.0, 3.0]), &row(&[4.0, 0.0]))), 5.0);
    assert_eq!(euclidean.name(), "euclidean");
}

#[test]
fn a_supplied_function_is_a_distance() {
    let manhattan = Supplied::new(
        |a: &[Single], b: &[Single]| {
            of(a.iter().zip(b).map(|(&x, &y)| (to(x) - to(y)).abs()).sum())
        },
        "manhattan",
    );
    assert_eq!(to(manhattan.distance(&row(&[0.0, 3.0]), &row(&[4.0, 0.0]))), 7.0);
    assert_eq!(manhattan.name(), "manhattan");
}

fn half_power(d: Single) -> Single {
    of(2.0f32.powf(-to(d)))
}

#[test]
fn test_correct_alternative_cosine() {
    let correct = |d: f32| to(correct_alternative_cosine(of(d), &half_power, &one_minus));
    // d_alt = 0 gives 1 - 2^0 = 0 (identical)
    assert!((correct(0.0)).abs() < 1e-6);
    // d_alt = 1 gives 1 - 2^(-1) = 0.5
    assert!((correct(1.0) - 0.5).abs() < 1e-6);
}

#[test]
fn true_angular_distances_are_in_half_turns() {
    let half_turns = |s: Single| of(to(s).acos() / std::f32::consts::PI);
    let correct = |d: f32| {
        to(true_angular_from_alt_cosine(of(d), &half_power, &half_turns, &one_minus))
    };
    assert!((correct(0.0) - 1.0).abs() < 1e-6);
    // The arc cosine of a half is a third of pi.
    assert!((correct(1.0) - 2.0 / 3.0).abs() < 1e-6);
}
