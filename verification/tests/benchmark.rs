use rinnd::benchmark::{
    benchmark_distances, benchmark_quantized_angular_i8, benchmark_quantized_distances_u8,
    ByteCoding, PairError,
};
use rinnd::distance::{Metric, PairSum};
use rinnd::normalize::normalize_rows_inplace;
use rinnd::single::Single;

fn of(x: f32) -> Single {
    Single { bits: x.to_bits() }
}

fn to(x: Single) -> f32 {
    f32::from_bits(x.bits)
}

fn row(values: &[f32]) -> Vec<Single> {
    values.iter().map(|&v| of(v)).collect()
}

fn floats(values: &[Single]) -> Vec<f32> {
    values.iter().map(|&v| to(v)).collect()
}

type Combine = fn(Single, Single, Single) -> Single;
type Finish = fn(Single) -> Single;

fn add_square(acc: Single, a: Single, b: Single) -> Single {
    let diff = to(a) - to(b);
    of(to(acc) + diff * diff)
}

fn add_product(acc: Single, a: Single, b: Single) -> Single {
    of(to(acc) + to(a) * to(b))
}

fn root(x: Single) -> Single {
    of(to(x).sqrt())
}

fn negated(x: Single) -> Single {
    of(-to(x))
}

fn kernel(metric: Metric) -> PairSum<Combine, Finish> {
    if metric == Metric::InnerProduct {
        PairSum::new(add_product as Combine, negated as Finish, "inner_product")
    } else {
        PairSum::new(add_square as Combine, root as Finish, "euclidean")
    }
}

#[test]
fn distances_of_pairs() {
    let data = row(&[0.0, 0.0, 3.0, 4.0, 1.0, 1.0]);
    let measure = |is: &[i32], js: &[i32], metric: &str| {
        benchmark_distances(&data, 3, 2, is, js, metric, &kernel).map(|d| floats(&d))
    };
    assert_eq!(measure(&[0, 1], &[1, 1], "euclidean"), Ok(vec![5.0, 0.0]));
    assert_eq!(measure(&[1], &[2], "inner_product"), Ok(vec![-7.0]));
    assert_eq!(measure(&[], &[], "l2"), Ok(vec![]));
    assert_eq!(measure(&[0], &[], "what"), Err(PairError::LengthMismatch));
    assert_eq!(measure(&[-1], &[0], "what"), Err(PairError::UnknownMetric));
    assert_eq!(measure(&[-1], &[0], "jaccard"), Err(PairError::UnsupportedMetric));
    let wrong = |i: i32, j: i32| measure(&[0, i], &[0, j], "dot").unwrap_err();
    assert_eq!(wrong(-1, -1), PairError::FirstNegative { pair: 1 });
    assert_eq!(wrong(3, -1), PairError::SecondNegative { pair: 1 });
    assert_eq!(wrong(3, 3), PairError::FirstOutOfRange { pair: 1 });
    assert_eq!(wrong(2, 3), PairError::SecondOutOfRange { pair: 1 });
}

#[test]
fn distances_to_unsigned_codes() {
    let coding = ByteCoding {
        step: |min: Single, max: Single| of((to(max) - to(min)).max(1e-12) / 255.0),
        entry: |min: Single, step: Single, i: u8| of(to(min) + to(step) * i as f32),
        code: |x: Single, min: Single, step: Single| {
            ((to(x) - to(min)) / to(step)).round().clamp(0.0, 255.0) as u8
        },
        add_square,
    };
    // In steps of one, every number is met exactly.
    let data = row(&[-5.0, 250.0, 10.0, 20.0]);
    let r = benchmark_quantized_distances_u8(&data, 2, 2, &[0, 1], &[1, 1], &coding).unwrap();
    assert_eq!(floats(&r), vec![225.0 + 230.0 * 230.0, 0.0]);
    // Between two steps, the nearer one is taken.
    let data = row(&[0.0, 255.0, 10.25, 20.0]);
    let r = benchmark_quantized_distances_u8(&data, 2, 2, &[1], &[1], &coding).unwrap();
    assert_eq!(floats(&r), vec![0.0625]);
    assert_eq!(
        benchmark_quantized_distances_u8(&data, 2, 2, &[1], &[], &coding),
        Err(PairError::LengthMismatch),
    );
    assert_eq!(
        benchmark_quantized_distances_u8(&data, 2, 2, &[1], &[2], &coding),
        Err(PairError::SecondOutOfRange { pair: 0 }),
    );
}

#[test]
fn distances_of_signed_codes() {
    let scaled = |dot: i32, x: Single, y: Single| of(dot as f32 * to(x) * to(y));
    let neg_log2 = |s: Single| of(-to(s).log2());
    let data = [2i8, 0, 0, 4, -2, 0, 1, 0];
    let inv_norms = row(&[0.5, 0.25, 0.5, 0.5]);
    let measure = |is: &[i32], js: &[i32], transformed: bool| {
        benchmark_quantized_angular_i8(
            &data, 4, 2, &inv_norms, is, js, transformed, &scaled, &neg_log2,
        )
        .map(|d| floats(&d))
    };
    assert_eq!(measure(&[0, 0, 0], &[0, 2, 3], false), Ok(vec![-1.0, 1.0, -0.5]));
    assert_eq!(measure(&[0, 0, 0], &[0, 2, 3], true), Ok(vec![0.0, f32::MAX, 1.0]));
    assert_eq!(measure(&[0], &[-1], true), Err(PairError::SecondNegative { pair: 0 }));
    assert_eq!(
        benchmark_quantized_angular_i8(
            &data, 4, 2, &inv_norms[..3], &[0], &[], true, &scaled, &neg_log2,
        ),
        Err(PairError::NormsMismatch),
    );
}

#[test]
fn rows_are_normalized_unless_they_vanish() {
    let add = |acc: Single, x: Single| of(to(acc) + to(x) * to(x));
    let inverse = |n: Single| of(to(n).sqrt().recip());
    let times = |x: Single, s: Single| of(to(x) * to(s));
    let normalize = |values: &[f32], dim: usize| {
        let mut data = row(values);
        normalize_rows_inplace(&mut data, dim, &add, &inverse, &times);
        floats(&data)
    };
    let r = normalize(&[3.0, 4.0, 0.0, 0.0, 0.0, -2.0], 2);
    let expected = [0.6, 0.8, 0.0, 0.0, 0.0, -1.0];
    assert!(r.iter().zip(expected).all(|(x, y)| (x - y).abs() < 1e-6));
    assert_eq!(normalize(&[1e-7, 1e-7], 2), vec![1e-7, 1e-7]);
    // The last row may be shorter.
    assert_eq!(normalize(&[0.0, 2.0, 4.0], 2), vec![0.0, 1.0, 1.0]);
    assert_eq!(normalize(&[3.0, 4.0], 0), vec![3.0, 4.0]);
}
