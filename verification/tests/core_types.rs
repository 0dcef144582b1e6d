//! Distance kernels, vectors, values, payloads, filters and errors.

use polarisdb::dist::{
    euclidean_distance, euclidean_distance_squared, euclidean_distance_squared_scalar,
    cosine_distance, dot_product, dot_product_scalar, hamming_distance, DistanceMetric,
};
use polarisdb::value::Value;
use polarisdb::payload::Payload;
use polarisdb::filter::Filter;
use polarisdb::error::Error;
use polarisdb::vector::Vector;

fn bits(v: &[f32]) -> Vec<u32> {
    v.iter().map(|x| x.to_bits()).collect()
}

fn val(u: u32) -> f32 {
    f32::from_bits(u)
}

#[test]
fn test_euclidean_distance() {
    let a = bits(&[0.0, 0.0]);
    let b = bits(&[3.0, 4.0]);
    assert!((val(euclidean_distance(&a, &b)) - 5.0).abs() < 1e-6);
}

#[test]
fn test_euclidean_same_vector() {
    let a = bits(&[1.0, 2.0, 3.0]);
    assert!(val(euclidean_distance(&a, &a)) < 1e-10);
}

#[test]
fn test_cosine_distance_identical() {
    let a = bits(&[1.0, 0.0]);
    let b = bits(&[2.0, 0.0]);
    assert!(val(cosine_distance(&a, &b)).abs() < 1e-6);
}

#[test]
fn test_cosine_distance_orthogonal() {
    let a = bits(&[1.0, 0.0]);
    let b = bits(&[0.0, 1.0]);
    assert!((val(cosine_distance(&a, &b)) - 1.0).abs() < 1e-6);
}

#[test]
fn test_cosine_distance_zero_vector() {
    let z = bits(&[0.0, 0.0, 0.0]);
    let b = bits(&[1.0, 2.0, 3.0]);
    assert_eq!(val(cosine_distance(&z, &b)), 1.0);
    assert_eq!(val(cosine_distance(&b, &z)), 1.0);
    assert_eq!(val(cosine_distance(&z, &z)), 1.0);
}

#[test]
fn test_number_token_rejects_exponent() {
    assert!(Value::from_number_token("1e5").is_none());
    assert!(Value::from_number_token("2.5E-3").is_none());
    assert!(Value::from_number_token("1e+2").is_none());
    assert!(Value::from_number_token("100000").is_some());
    assert!(Value::from_number_token("0.0025").is_some());
}

#[test]
fn test_payload_json_rejects_exponent() {
    assert!(Payload::from_json(b"{\"a\":1e5}").is_none());
    assert!(Payload::from_json(b"{\"a\":100000}").is_some());
}

#[test]
fn test_cosine_distance_opposite() {
    let a = bits(&[1.0, 0.0]);
    let b = bits(&[-1.0, 0.0]);
    assert!((val(cosine_distance(&a, &b)) - 2.0).abs() < 1e-6);
}

#[test]
fn test_dot_product() {
    let a = bits(&[1.0, 2.0, 3.0]);
    let b = bits(&[4.0, 5.0, 6.0]);
    assert!((val(dot_product(&a, &b)) - 32.0).abs() < 1e-6);
}

#[test]
fn test_hamming_distance() {
    let a = bits(&[1.0, 0.0, 1.0, 0.0]);
    let b = bits(&[1.0, 1.0, 0.0, 0.0]);
    assert!((val(hamming_distance(&a, &b)) - 2.0).abs() < 1e-6);
}

#[test]
fn test_distance_metric_compute() {
    let a = bits(&[3.0, 4.0]);
    let b = bits(&[0.0, 0.0]);
    assert!((val(DistanceMetric::Euclidean.compute(&a, &b)) - 5.0).abs() < 1e-6);
}

#[test]
fn test_all_metrics_lower_is_better() {
    assert!(DistanceMetric::Euclidean.lower_is_better());
    assert!(DistanceMetric::Cosine.lower_is_better());
    assert!(DistanceMetric::DotProduct.lower_is_better());
    assert!(DistanceMetric::Hamming.lower_is_better());
}

#[test]
fn metric_symmetry_on_samples() {
    let a = bits(&[0.25, -1.5, 3.25, 0.5]);
    let b = bits(&[1.125, 2.5, -0.75, 0.0]);
    assert_eq!(euclidean_distance(&a, &b), euclidean_distance(&b, &a));
    assert_eq!(dot_product(&a, &b), dot_product(&b, &a));
    assert_eq!(cosine_distance(&a, &b), cosine_distance(&b, &a));
    assert_eq!(hamming_distance(&a, &b), hamming_distance(&b, &a));
}

#[test]
fn metric_identity_on_samples() {
    let a = bits(&[0.25, -1.5, 3.25, 0.5]);
    assert_eq!(val(euclidean_distance(&a, &a)), 0.0);
    assert_eq!(val(hamming_distance(&a, &a)), 0.0);
    assert!(val(cosine_distance(&a, &a)).abs() < 1e-5);
}

#[test]
fn block_and_scalar_kernels_agree() {
    let a: Vec<f32> = (0..37).map(|i| ((i as f32) * 0.17).sin()).collect();
    let b: Vec<f32> = (0..37).map(|i| ((i as f32) * 0.31).cos()).collect();
    let ab = bits(&a);
    let bb = bits(&b);
    let blocked = val(dot_product(&ab, &bb));
    let scalar = val(dot_product_scalar(&ab, &bb));
    assert!((blocked - scalar).abs() < 1e-4);
    let blocked_e = val(euclidean_distance_squared(&ab, &bb));
    let scalar_e = val(euclidean_distance_squared_scalar(&ab, &bb));
    assert!((blocked_e - scalar_e).abs() < 1e-3);
}

#[test]
fn test_error_display() {
    let err = Error::DimensionMismatch { expected: 384, got: 512 };
    assert_eq!(err.message(), "dimension mismatch: expected 384, got 512");
}

#[test]
fn test_vector_creation() {
    let v = Vector::new(&bits(&[1.0, 2.0, 3.0]));
    assert_eq!(v.dimension(), 3);
    assert_eq!(val(v.as_slice()[0]), 1.0);
    assert_eq!(val(v.as_slice()[1]), 2.0);
    assert_eq!(val(v.as_slice()[2]), 3.0);
}

#[test]
fn test_vector_from_vec() {
    let v = Vector::from_vec(bits(&[1.0, 2.0]));
    assert_eq!(v.dimension(), 2);
}

#[test]
fn test_vector_norm() {
    let v = Vector::new(&bits(&[3.0, 4.0]));
    assert!((val(v.norm()) - 5.0).abs() < 1e-6);
}

#[test]
fn test_vector_normalized() {
    let v = Vector::new(&bits(&[3.0, 4.0]));
    let normalized = v.normalized().unwrap();
    assert!((val(normalized.norm()) - 1.0).abs() < 1e-5);
    assert!((val(normalized.as_slice()[0]) - 0.6).abs() < 1e-6);
    assert!((val(normalized.as_slice()[1]) - 0.8).abs() < 1e-6);
}

#[test]
fn test_zero_vector_normalized() {
    let v = Vector::new(&bits(&[0.0, 0.0]));
    assert!(v.normalized().is_none());
}

#[test]
fn test_payload_new() {
    let p = Payload::new();
    assert!(p.is_empty());
}

#[test]
fn test_payload_with_field() {
    let p = Payload::new()
        .with_field("name", Value::from_text("test"))
        .with_field("count", Value::from_i64(42));
    assert_eq!(p.len(), 2);
    assert_eq!(p.get_str("name"), Some("test"));
    assert_eq!(p.get_i64("count"), Some(42));
}

#[test]
fn test_payload_set_and_get() {
    let mut p = Payload::new();
    p.set("key", Value::from_text("value"));
    assert_eq!(p.get_str("key"), Some("value"));
}

#[test]
fn test_payload_get_typed() {
    let p = Payload::new()
        .with_field("str_field", Value::from_text("hello"))
        .with_field("int_field", Value::from_i64(123))
        .with_field("float_field", Value::from_number_token("3.14").unwrap())
        .with_field("bool_field", Value::from_bool(true));
    assert_eq!(p.get_str("str_field"), Some("hello"));
    assert_eq!(p.get_i64("int_field"), Some(123));
    let token = p.get_num("float_field").unwrap();
    let f: f64 = String::from_utf8(token.clone()).unwrap().parse().unwrap();
    assert!((f - 3.14).abs() < 1e-10);
    assert_eq!(p.get_bool("bool_field"), Some(true));
}

#[test]
fn test_payload_remove() {
    let mut p = Payload::new().with_field("key", Value::from_text("value"));
    assert!(p.contains_key("key"));
    let removed = p.remove("key");
    assert!(removed.is_some());
    assert!(!p.contains_key("key"));
}

#[test]
fn test_payload_serialization() {
    let p = Payload::new()
        .with_field("name", Value::from_text("test"))
        .with_field("count", Value::from_i64(42));
    let json = p.to_json();
    let back = Payload::from_json(&json).unwrap();
    assert_eq!(back.len(), 2);
    assert_eq!(back.get_str("name"), Some("test"));
    assert_eq!(back.get_i64("count"), Some(42));
}

fn test_payload() -> Payload {
    Payload::new()
        .with_field("category", Value::from_text("documents"))
        .with_field("year", Value::from_i64(2024))
        .with_field("score", Value::from_number_token("0.95").unwrap())
        .with_field("active", Value::from_bool(true))
        .with_field("name", Value::from_text("test document"))
}

#[test]
fn test_filter_eq() {
    let p = test_payload();
    let filter = Filter::field("category").eq(Value::from_text("documents"));
    assert!(filter.matches(&p));
    let filter = Filter::field("category").eq(Value::from_text("images"));
    assert!(!filter.matches(&p));
}

#[test]
fn test_filter_ne() {
    let p = test_payload();
    let filter = Filter::field("category").ne(Value::from_text("images"));
    assert!(filter.matches(&p));
}

#[test]
fn test_filter_numeric_comparisons() {
    let p = test_payload();
    assert!(Filter::field("year").gt(Value::from_i64(2020)).matches(&p));
    assert!(Filter::field("year").gte(Value::from_i64(2024)).matches(&p));
    assert!(Filter::field("year").lt(Value::from_i64(2025)).matches(&p));
    assert!(Filter::field("year").lte(Value::from_i64(2024)).matches(&p));
}

#[test]
fn test_filter_in() {
    let p = test_payload();
    let filter = Filter::field("category").contained_in(vec![
        Value::from_text("documents"),
        Value::from_text("images"),
    ]);
    assert!(filter.matches(&p));
    let filter = Filter::field("category").contained_in(vec![
        Value::from_text("audio"),
        Value::from_text("video"),
    ]);
    assert!(!filter.matches(&p));
}

#[test]
fn test_filter_contains() {
    let p = test_payload();
    let filter = Filter::field("name").contains("document");
    assert!(filter.matches(&p));
}

#[test]
fn test_filter_exists() {
    let p = test_payload();
    assert!(Filter::field("category").present().matches(&p));
    assert!(!Filter::field("nonexistent").present().matches(&p));
}

#[test]
fn test_filter_and() {
    let p = test_payload();
    let filter = Filter::field("category")
        .eq(Value::from_text("documents"))
        .and(Filter::field("year").gte(Value::from_i64(2024)));
    assert!(filter.matches(&p));
    let filter = Filter::field("category")
        .eq(Value::from_text("documents"))
        .and(Filter::field("year").gt(Value::from_i64(2024)));
    assert!(!filter.matches(&p));
}

#[test]
fn test_filter_or() {
    let p = test_payload();
    let filter = Filter::field("category")
        .eq(Value::from_text("images"))
        .or(Filter::field("year").eq(Value::from_i64(2024)));
    assert!(filter.matches(&p));
}

#[test]
fn test_filter_not() {
    let p = test_payload();
    let filter = Filter::field("category").eq(Value::from_text("images")).negate();
    assert!(filter.matches(&p));
}

#[test]
fn test_filter_complex() {
    let p = test_payload();
    let filter = Filter::field("category")
        .eq(Value::from_text("documents"))
        .and(Filter::field("year").gte(Value::from_i64(2024)))
        .or(Filter::field("active").eq(Value::from_bool(true)));
    assert!(filter.matches(&p));
}

#[test]
fn fractional_comparison_is_exact() {
    let p = Payload::new().with_field("score", Value::from_number_token("0.95").unwrap());
    assert!(Filter::field("score").gt(Value::from_number_token("0.9").unwrap()).matches(&p));
    assert!(Filter::field("score").lt(Value::from_number_token("1.5").unwrap()).matches(&p));
    assert!(Filter::field("score").lte(Value::from_number_token("0.95").unwrap()).matches(&p));
    assert!(!Filter::field("score").lt(Value::from_number_token("0.95").unwrap()).matches(&p));
}
