use rinnd::distance::alternatives::{
    clamp_similarity, correct_alternative_inner_product, AlternativeCosine, AlternativeDot,
    AlternativeInnerProduct, DirectNormalizedCosine, ProxyInnerProduct,
};
use rinnd::distance::quantized::{
    decode_signed_i4, dequant_u4, encode_signed_i4, quantized_i4_dot,
    quantized_i8_alternative_dot, quantized_i8_dot, quantized_i8_per_dimension_dot,
    quantized_u4_alternative_cosine, quantized_u4_alternative_dot, quantized_u4_sq_euclidean,
    quantized_u8_alternative_cosine, quantized_u8_alternative_dot, quantized_u8_sq_euclidean,
};
use rinnd::single::Single;

fn of(x: f32) -> Single {
    Single { bits: x.to_bits() }
}

fn to(x: Single) -> f32 {
    f32::from_bits(x.bits)
}

fn row(values: &[f32]) -> Vec<Single> {
    values.iter().map(|&v| of(v)).collect()
}

fn add_square(acc: Single, a: Single, b: Single) -> Single {
    let diff = to(a) - to(b);
    of(to(acc) + diff * diff)
}

fn add_product(acc: Single, a: Single, b: Single) -> Single {
    of(to(acc) + to(a) * to(b))
}

fn cosine_finish(dot: Single, a: Single, b: Single) -> Single {
    let sim = to(dot) / (to(a) * to(b)).sqrt();
    of(-((sim + 1.0) / 2.0).log2())
}

fn dot_finish(dot: Single, norm: Single) -> Single {
    of(-(to(dot) / to(norm).sqrt()).log2())
}

#[test]
fn test_quantized_i8_dot_matches_scalar_for_remainders() {
    for len in [1, 7, 31, 32, 33, 100, 128, 784] {
        let x: Vec<i8> = (0..len)
            .map(|i| ((i * 37) % 255) as i16 - 127)
            .map(|v| v as i8)
            .collect();
        let y: Vec<i8> = (0..len)
            .map(|i| ((i * 73 + 11) % 255) as i16 - 127)
            .map(|v| v as i8)
            .collect();
        let expected: i32 = x
            .iter()
            .zip(&y)
            .map(|(&a, &b)| i32::from(a) * i32::from(b))
            .sum();
        assert_eq!(quantized_i8_dot(&x, &y), expected, "len={len}");
        assert_eq!(quantized_i8_dot(&y, &x), expected, "len={len}");
    }
}

#[test]
fn test_quantized_i8_alternative_dot_identical() {
    let x = [12i8, -35, 72, 4, -8];
    let norm = (quantized_i8_dot(&x, &x) as f32).sqrt();
    let scaled = |d: i32, a: Single, b: Single| of(d as f32 * to(a) * to(b));
    let neg_log2 = |s: Single| of(-to(s).log2());
    let distance =
        to(quantized_i8_alternative_dot(&x, &x, of(norm.recip()), of(norm.recip()), &scaled, &neg_log2));
    assert!(distance.abs() < 1e-6, "distance={distance}");
    let opposite = [-12i8, 35, -72, -4, 8];
    let far = quantized_i8_alternative_dot(
        &x,
        &opposite,
        of(norm.recip()),
        of(norm.recip()),
        &scaled,
        &neg_log2,
    );
    assert_eq!(to(far), f32::MAX);
}

#[test]
fn test_per_dimension_i8_reconstructs_negative_inner_product() {
    let x = [2i8, -3, 4];
    let y = [-5i8, -2, -1];
    let scales = [0.5f32, 0.25, 2.0];
    let expected = -10.0 * 0.25 + 6.0 * 0.0625 - 4.0 * 4.0;
    let add_term = |acc: Single, a: i32, b: i32, scale: Single| {
        of(to(acc) + a as f32 * b as f32 * to(scale) * to(scale))
    };
    let actual = to(quantized_i8_per_dimension_dot(&x, &y, &row(&scales), &add_term));
    assert!((actual - expected).abs() < 1e-6);
}

#[test]
fn test_signed_i4_encoding_and_odd_dimension_dot() {
    for value in -7i8..=7 {
        assert_eq!(decode_signed_i4(encode_signed_i4(value)), value);
    }
    assert_eq!(decode_signed_i4(15), 0);

    let x = [
        encode_signed_i4(-7) | (encode_signed_i4(3) << 4),
        encode_signed_i4(-2) | (encode_signed_i4(7) << 4),
    ];
    let y = [
        encode_signed_i4(2) | (encode_signed_i4(-4) << 4),
        encode_signed_i4(-5) | (encode_signed_i4(-7) << 4),
    ];
    // The high nibble of the last byte is padding and must be ignored.
    assert_eq!(quantized_i4_dot(&x, &y, 3), -14 - 12 + 10);
    assert_eq!(quantized_i4_dot(&x, &y, 4), -14 - 12 + 10 - 49);
}

fn make_codebook_256() -> Vec<Single> {
    // Simple identity codebook: index i is value i as float
    (0..256).map(|i| of(i as f32 / 255.0)).collect()
}

fn make_codebook_16() -> Vec<Single> {
    (0..16).map(|i| of(i as f32 / 15.0)).collect()
}

#[test]
fn test_u8_sq_euclidean_identical() {
    let cb = make_codebook_256();
    let x = row(&[0.0 / 255.0, 128.0 / 255.0, 255.0 / 255.0]);
    let y = vec![0u8, 128u8, 255u8];
    let d = to(quantized_u8_sq_euclidean(&x, &y, &cb, &add_square));
    assert!(d.abs() < 1e-6);
}

#[test]
fn test_u8_sq_euclidean_basic() {
    let cb = make_codebook_256();
    let x = row(&[0.0; 4]);
    let y = vec![1u8, 1u8, 1u8, 1u8];
    // Each dequantized y_i = 1/255, diff = 1/255
    // sq_euc = 4 * (1/255)^2
    let expected = 4.0 * (1.0 / 255.0) * (1.0 / 255.0);
    let d = to(quantized_u8_sq_euclidean(&x, &y, &cb, &add_square));
    assert!((d - expected).abs() < 1e-8);
}

#[test]
fn test_u4_sq_euclidean_identical() {
    let cb = make_codebook_16();
    // 4 dimensions packed into 2 bytes
    // dim0 = idx 0 (lower nibble byte 0), dim1 = idx 7 (upper nibble byte 0)
    // dim2 = idx 15 (lower nibble byte 1), dim3 = idx 8 (upper nibble byte 1)
    let y = vec![0x70u8, 0x8Fu8]; // nibbles: 0, 7, 15, 8
    let x = row(&[0.0 / 15.0, 7.0 / 15.0, 15.0 / 15.0, 8.0 / 15.0]);
    let d = to(quantized_u4_sq_euclidean(&x, &y, &cb, &add_square));
    assert!(d.abs() < 1e-6);
    assert_eq!(dequant_u4(&y, 1, &cb), of(7.0 / 15.0));
}

#[test]
fn test_u8_alt_cosine_identical() {
    let cb: Vec<Single> = (0..256).map(|i| of((i as f32 + 1.0) / 256.0)).collect();
    let y: Vec<u8> = (0..8).collect();
    let x: Vec<Single> = y.iter().map(|&i| cb[i as usize]).collect();
    let d = to(quantized_u8_alternative_cosine(&x, &y, &cb, &add_product, &cosine_finish));
    // Cosine similarity of identical vectors should be ~1
    // -log2((1+1)/2) = -log2(1) = 0
    assert!(d.abs() < 1e-4, "expected ~0, got {}", d);
}

#[test]
fn similarities_beyond_one_count_as_one() {
    let neg_log2 = |s: Single| of(-to(s).log2());
    let distance = |similarity: f32| {
        let scaled = |_: i32, _: Single, _: Single| of(similarity);
        to(quantized_i8_alternative_dot(&[1], &[1], of(1.0), of(1.0), &scaled, &neg_log2))
    };
    assert_eq!(distance(0.25), 2.0);
    assert_eq!(distance(1.0), 0.0);
    assert_eq!(distance(4.0), 0.0);
    assert_eq!(distance(f32::INFINITY), 0.0);
    assert_eq!(distance(f32::NAN), 0.0);
    assert_eq!(distance(0.0), f32::MAX);
    assert_eq!(distance(-0.25), f32::MAX);
}

#[test]
fn opposed_vectors_have_a_mapped_cosine() {
    let finish = |d: Single, a: Single, b: Single| {
        of(-((to(d) / (to(a) * to(b)).sqrt() + 1.0) / 2.0).log2())
    };
    let cosine = |x: &[f32], y: &[u8], cb: &[f32]| {
        to(quantized_u8_alternative_cosine(&row(x), y, &row(cb), &add_product, &finish))
    };
    // The similarity is -0.5, which maps to 0.25
    assert_eq!(cosine(&[1.0; 4], &[0, 0, 0, 1], &[-1.0, 1.0]), 2.0);
    // Orthogonal vectors map to 0.5
    assert_eq!(cosine(&[1.0; 4], &[0, 0, 1, 1], &[-1.0, 1.0]), 1.0);
    assert_eq!(cosine(&[1.0; 4], &[1; 4], &[-1.0, 1.0]), 0.0);
    assert_eq!(cosine(&[1.0; 4], &[0; 4], &[-1.0, 1.0]), f32::INFINITY);
    assert_eq!(cosine(&[0.0; 2], &[0, 0], &[0.0, 1.0]), 0.0);
    assert_eq!(cosine(&[0.0; 2], &[0, 1], &[0.0, 1.0]), f32::MAX);
    assert_eq!(cosine(&[1.0; 2], &[0, 0], &[0.0, 1.0]), f32::MAX);
}

#[test]
fn alternative_distances_of_extreme_vectors() {
    let cb: Vec<Single> = (0..16).map(|i| of(i as f32 - 8.0)).collect();
    let zero_x = row(&[0.0, 0.0]);
    let zero_y = [0x88u8];
    let some_y = [0x9Au8];
    let minus_y = [0x67u8];
    let x = row(&[1.0, 1.0]);
    let cosine = |x: &[Single], y: &[u8]| {
        to(quantized_u4_alternative_cosine(x, y, &cb, &add_product, &cosine_finish))
    };
    assert_eq!(cosine(&zero_x, &zero_y), 0.0);
    assert_eq!(cosine(&x, &zero_y), f32::MAX);
    assert_eq!(cosine(&x, &minus_y), f32::MAX);
    assert!(cosine(&x, &some_y) < 0.2);
    let dot4 = |x: &[Single], y: &[u8]| {
        to(quantized_u4_alternative_dot(x, y, &cb, &add_product, &dot_finish))
    };
    assert_eq!(dot4(&x, &minus_y), f32::MAX);
    let expected = -((3.0f32) / (5.0f32).sqrt()).log2();
    assert_eq!(dot4(&x, &some_y), expected);
    let dot8 = to(quantized_u8_alternative_dot(&x, &[10u8, 9], &cb, &add_product, &dot_finish));
    assert_eq!(dot8, expected);
}

#[test]
fn proxy_distances_take_their_branches() {
    let neg_log2 = |s: Single| of(-to(s).log2());
    let reciprocal = |s: Single| of(1.0 / to(s));
    let one_minus = |s: Single| of(1.0 - to(s));
    assert_eq!(to(AlternativeDot.from_similarity(of(0.25), &neg_log2)), 2.0);
    assert_eq!(to(AlternativeDot.from_similarity(of(-0.25), &neg_log2)), f32::MAX);
    assert_eq!(to(AlternativeInnerProduct.from_similarity(of(4.0), &reciprocal)), 0.25);
    assert_eq!(to(AlternativeInnerProduct.from_similarity(of(0.0), &reciprocal)), f32::MAX);
    assert_eq!(to(DirectNormalizedCosine.from_similarity(of(1.5), &one_minus)), 0.0);
    assert_eq!(to(DirectNormalizedCosine.from_similarity(of(-7.0), &one_minus)), 2.0);
    assert_eq!(to(clamp_similarity(of(0.5))), 0.5);
    let finish = |d: Single, a: Single, b: Single| of(((to(a) * to(b)).sqrt() / to(d)).log2());
    assert_eq!(to(AlternativeCosine.from_sums(of(1.0), of(4.0), of(4.0), &finish)), 2.0);
    assert_eq!(to(AlternativeCosine.from_sums(of(0.0), of(0.0), of(0.0), &finish)), 0.0);
    let proxy = |d: Single, a: Single, b: Single| {
        of(-(to(d) / (to(a) * to(b)).sqrt()).log2() + 1.0 / to(d).sqrt())
    };
    assert_eq!(to(ProxyInnerProduct.from_sums(of(4.0), of(4.0), of(4.0), &proxy)), 0.5);
    assert_eq!(to(ProxyInnerProduct.from_sums(of(-4.0), of(4.0), of(4.0), &proxy)), f32::MAX);
    assert_eq!(to(ProxyInnerProduct.from_sums(of(4.0), of(0.0), of(4.0), &proxy)), f32::MAX);
    assert_eq!(AlternativeDot.name(), "alternative_dot");
    assert_eq!(DirectNormalizedCosine.name(), "direct_normalized_cosine");
    assert_eq!(AlternativeInnerProduct.name(), "alternative_inner_product");
    assert_eq!(AlternativeCosine.name(), "alternative_cosine");
    assert_eq!(ProxyInnerProduct.name(), "proxy_inner_product");
}

#[test]
fn test_correct_alternative_inner_product() {
    let negative_reciprocal = |d: Single| of(-1.0 / to(d));
    let correct = |d: f32| to(correct_alternative_inner_product(of(d), &negative_reciprocal));
    // d_alt = 0.5 gives -1/0.5 = -2
    assert!((correct(0.5) - (-2.0)).abs() < 1e-6);
    // d_alt = the largest number gives 0.0
    assert!((correct(f32::MAX)).abs() < 1e-6);
}
