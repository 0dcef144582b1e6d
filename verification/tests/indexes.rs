//! The bitmap inverted index, the exact index and the graph index.

use polarisdb::bitmap::BitmapIndex;
use polarisdb::brute::BruteForceIndex;
use polarisdb::hnsw::{HnswIndex, HnswConfig};
use polarisdb::dist::DistanceMetric;
use polarisdb::filter::Filter;
use polarisdb::payload::Payload;
use polarisdb::value::Value;

fn bits(v: &[f32]) -> Vec<u32> {
    v.iter().map(|x| x.to_bits()).collect()
}

fn val(u: u32) -> f32 {
    f32::from_bits(u)
}

#[test]
fn test_insert_and_query_eq() {
    let mut index = BitmapIndex::new();
    index.insert(1, &Payload::new().with_field("category", Value::from_text("electronics")));
    index.insert(2, &Payload::new().with_field("category", Value::from_text("books")));
    index.insert(3, &Payload::new().with_field("category", Value::from_text("electronics")));
    let filter = Filter::field("category").eq(Value::from_text("electronics"));
    let matches = index.query(&filter);
    assert_eq!(matches.len(), 2);
    assert!(matches.contains(1));
    assert!(matches.contains(3));
    assert!(!matches.contains(2));
}

#[test]
fn test_query_ne() {
    let mut index = BitmapIndex::new();
    index.insert(1, &Payload::new().with_field("status", Value::from_text("active")));
    index.insert(2, &Payload::new().with_field("status", Value::from_text("inactive")));
    index.insert(3, &Payload::new().with_field("status", Value::from_text("active")));
    let filter = Filter::field("status").ne(Value::from_text("active"));
    let matches = index.query(&filter);
    assert_eq!(matches.len(), 1);
    assert!(matches.contains(2));
}

#[test]
fn test_query_in() {
    let mut index = BitmapIndex::new();
    index.insert(1, &Payload::new().with_field("color", Value::from_text("red")));
    index.insert(2, &Payload::new().with_field("color", Value::from_text("blue")));
    index.insert(3, &Payload::new().with_field("color", Value::from_text("green")));
    let filter = Filter::field("color").contained_in(vec![
        Value::from_text("red"),
        Value::from_text("blue"),
    ]);
    let matches = index.query(&filter);
    assert_eq!(matches.len(), 2);
    assert!(matches.contains(1));
    assert!(matches.contains(2));
}

#[test]
fn test_query_and() {
    let mut index = BitmapIndex::new();
    index.insert(
        1,
        &Payload::new()
            .with_field("category", Value::from_text("electronics"))
            .with_field("brand", Value::from_text("sony")),
    );
    index.insert(
        2,
        &Payload::new()
            .with_field("category", Value::from_text("electronics"))
            .with_field("brand", Value::from_text("lg")),
    );
    index.insert(
        3,
        &Payload::new()
            .with_field("category", Value::from_text("books"))
            .with_field("brand", Value::from_text("sony")),
    );
    let filter = Filter::field("category")
        .eq(Value::from_text("electronics"))
        .and(Filter::field("brand").eq(Value::from_text("sony")));
    let matches = index.query(&filter);
    assert_eq!(matches.len(), 1);
    assert!(matches.contains(1));
}

#[test]
fn test_query_or() {
    let mut index = BitmapIndex::new();
    index.insert(1, &Payload::new().with_field("category", Value::from_text("electronics")));
    index.insert(2, &Payload::new().with_field("category", Value::from_text("books")));
    index.insert(3, &Payload::new().with_field("category", Value::from_text("clothing")));
    let filter = Filter::field("category")
        .eq(Value::from_text("electronics"))
        .or(Filter::field("category").eq(Value::from_text("books")));
    let matches = index.query(&filter);
    assert_eq!(matches.len(), 2);
    assert!(matches.contains(1));
    assert!(matches.contains(2));
}

#[test]
fn test_query_not() {
    let mut index = BitmapIndex::new();
    index.insert(1, &Payload::new().with_field("active", Value::from_bool(true)));
    index.insert(2, &Payload::new().with_field("active", Value::from_bool(false)));
    let filter = Filter::field("active").eq(Value::from_bool(true)).negate();
    let matches = index.query(&filter);
    assert_eq!(matches.len(), 1);
    assert!(matches.contains(2));
}

#[test]
fn bitmap_index_test_delete() {
    let mut index = BitmapIndex::new();
    let payload = Payload::new().with_field("category", Value::from_text("electronics"));
    index.insert(1, &payload);
    index.insert(2, &payload);
    assert_eq!(index.len(), 2);
    index.delete(1, &payload);
    assert_eq!(index.len(), 1);
    let filter = Filter::field("category").eq(Value::from_text("electronics"));
    let matches = index.query(&filter);
    assert_eq!(matches.len(), 1);
    assert!(matches.contains(2));
}

#[test]
fn test_numeric_range() {
    let mut index = BitmapIndex::new();
    index.insert(1, &Payload::new().with_field("price", Value::from_i64(10)));
    index.insert(2, &Payload::new().with_field("price", Value::from_i64(25)));
    index.insert(3, &Payload::new().with_field("price", Value::from_i64(50)));
    let filter = Filter::field("price").gt(Value::from_i64(20));
    let matches = index.query(&filter);
    assert_eq!(matches.len(), 2);
    assert!(matches.contains(2));
    assert!(matches.contains(3));
}

#[test]
fn test_exists() {
    let mut index = BitmapIndex::new();
    index.insert(1, &Payload::new().with_field("name", Value::from_text("test")));
    index.insert(2, &Payload::new());
    let filter = Filter::field("name").present();
    let matches = index.query(&filter);
    assert_eq!(matches.len(), 1);
    assert!(matches.contains(1));
}

#[test]
fn bitmap_matches_per_payload_evaluation() {
    let mut index = BitmapIndex::new();
    let payloads = vec![
        Payload::new()
            .with_field("kind", Value::from_text("a"))
            .with_field("n", Value::from_i64(1)),
        Payload::new()
            .with_field("kind", Value::from_text("b"))
            .with_field("n", Value::from_i64(2)),
        Payload::new()
            .with_field("kind", Value::from_text("a"))
            .with_field("n", Value::from_i64(3)),
    ];
    for (i, p) in payloads.iter().enumerate() {
        index.insert(i as u64 + 1, p);
    }
    let filter = Filter::field("kind")
        .eq(Value::from_text("a"))
        .and(Filter::field("n").gte(Value::from_i64(2)));
    let matches = index.query(&filter);
    for (i, p) in payloads.iter().enumerate() {
        let id = i as u64 + 1;
        assert_eq!(matches.contains(id as u32), filter.matches(p));
    }
}

fn create_test_index() -> BruteForceIndex {
    let mut index = BruteForceIndex::new(DistanceMetric::Euclidean, 3);
    index
        .insert(1, bits(&[1.0, 0.0, 0.0]), Payload::new().with_field("type", Value::from_text("a")))
        .unwrap();
    index
        .insert(2, bits(&[0.0, 1.0, 0.0]), Payload::new().with_field("type", Value::from_text("b")))
        .unwrap();
    index
        .insert(3, bits(&[0.0, 0.0, 1.0]), Payload::new().with_field("type", Value::from_text("a")))
        .unwrap();
    index
}

#[test]
fn brute_force_test_new_index() {
    let index = BruteForceIndex::new(DistanceMetric::Cosine, 384);
    assert_eq!(index.dimension(), 384);
    assert_eq!(index.metric(), DistanceMetric::Cosine);
    assert!(index.is_empty());
}

#[test]
fn test_insert_and_len() {
    let mut index = BruteForceIndex::new(DistanceMetric::Euclidean, 3);
    assert!(index.is_empty());
    index.insert(1, bits(&[1.0, 2.0, 3.0]), Payload::new()).unwrap();
    assert_eq!(index.len(), 1);
    index.insert(2, bits(&[4.0, 5.0, 6.0]), Payload::new()).unwrap();
    assert_eq!(index.len(), 2);
}

#[test]
fn brute_force_test_insert_dimension_mismatch() {
    let mut index = BruteForceIndex::new(DistanceMetric::Euclidean, 3);
    let result = index.insert(1, bits(&[1.0, 2.0]), Payload::new());
    assert!(matches!(result, Err(polarisdb::error::Error::DimensionMismatch { .. })));
}

#[test]
fn test_insert_duplicate_id() {
    let mut index = BruteForceIndex::new(DistanceMetric::Euclidean, 3);
    index.insert(1, bits(&[1.0, 2.0, 3.0]), Payload::new()).unwrap();
    let result = index.insert(1, bits(&[4.0, 5.0, 6.0]), Payload::new());
    assert!(matches!(result, Err(polarisdb::error::Error::DuplicateId(1))));
}

#[test]
fn test_insert_auto() {
    let mut index = BruteForceIndex::new(DistanceMetric::Euclidean, 3);
    let id1 = index.insert_auto(bits(&[1.0, 2.0, 3.0]), Payload::new()).unwrap();
    let id2 = index.insert_auto(bits(&[4.0, 5.0, 6.0]), Payload::new()).unwrap();
    assert_eq!(id1, 1);
    assert_eq!(id2, 2);
    assert_eq!(index.len(), 2);
}

#[test]
fn brute_force_test_get() {
    let index = create_test_index();
    let (vector, payload) = index.get(1).unwrap();
    assert_eq!(vector.as_slice(), bits(&[1.0, 0.0, 0.0]).as_slice());
    assert_eq!(payload.get_str("type"), Some("a"));
    assert!(index.get(999).is_none());
}

#[test]
fn test_update() {
    let mut index = create_test_index();
    index
        .update(
            1,
            bits(&[0.5, 0.5, 0.0]),
            Payload::new().with_field("type", Value::from_text("updated")),
        )
        .unwrap();
    let (vector, payload) = index.get(1).unwrap();
    assert_eq!(vector.as_slice(), bits(&[0.5, 0.5, 0.0]).as_slice());
    assert_eq!(payload.get_str("type"), Some("updated"));
}

#[test]
fn test_update_not_found() {
    let mut index = create_test_index();
    let result = index.update(999, bits(&[1.0, 2.0, 3.0]), Payload::new());
    assert!(matches!(result, Err(polarisdb::error::Error::NotFound(999))));
}

#[test]
fn brute_force_test_delete() {
    let mut index = create_test_index();
    assert_eq!(index.len(), 3);
    assert!(index.delete(1));
    assert_eq!(index.len(), 2);
    assert!(index.get(1).is_none());
    assert!(!index.delete(1));
}

#[test]
fn test_search_basic() {
    let index = create_test_index();
    let results = index.search(&bits(&[1.0, 0.0, 0.0]), 3, None);
    assert_eq!(results.len(), 3);
    assert_eq!(results[0].id, 1);
    assert!(val(results[0].distance) < f32::EPSILON);
}

#[test]
fn test_search_k_limit() {
    let index = create_test_index();
    let results = index.search(&bits(&[1.0, 0.0, 0.0]), 1, None);
    assert_eq!(results.len(), 1);
    assert_eq!(results[0].id, 1);
}

#[test]
fn brute_force_test_search_with_filter() {
    let index = create_test_index();
    let filter = Filter::field("type").eq(Value::from_text("a"));
    let results = index.search(&bits(&[0.5, 0.5, 0.5]), 10, Some(filter));
    assert_eq!(results.len(), 2);
    for result in &results {
        assert_eq!(result.payload.as_ref().unwrap().get_str("type"), Some("a"));
    }
}

#[test]
fn brute_force_test_search_empty_index() {
    let index = BruteForceIndex::new(DistanceMetric::Euclidean, 3);
    let results = index.search(&bits(&[1.0, 0.0, 0.0]), 10, None);
    assert!(results.is_empty());
}

#[test]
fn brute_force_test_clear() {
    let mut index = create_test_index();
    assert!(!index.is_empty());
    index.clear();
    assert!(index.is_empty());
}

#[test]
fn test_cosine_search() {
    let mut index = BruteForceIndex::new(DistanceMetric::Cosine, 3);
    index.insert(1, bits(&[1.0, 0.0, 0.0]), Payload::new()).unwrap();
    index.insert(2, bits(&[2.0, 0.0, 0.0]), Payload::new()).unwrap();
    let results = index.search(&bits(&[0.5, 0.0, 0.0]), 2, None);
    assert!(val(results[0].distance) < 1e-5);
    assert!(val(results[1].distance) < 1e-5);
}

fn create_test_hnsw() -> HnswIndex {
    let config = HnswConfig::with_m(4);
    let mut index = HnswIndex::new(DistanceMetric::Euclidean, 3, config);
    index
        .insert(1, bits(&[1.0, 0.0, 0.0]), Payload::new().with_field("name", Value::from_text("x")))
        .unwrap();
    index
        .insert(2, bits(&[0.0, 1.0, 0.0]), Payload::new().with_field("name", Value::from_text("y")))
        .unwrap();
    index
        .insert(3, bits(&[0.0, 0.0, 1.0]), Payload::new().with_field("name", Value::from_text("z")))
        .unwrap();
    index
        .insert(
            4,
            bits(&[1.0, 1.0, 0.0]),
            Payload::new().with_field("name", Value::from_text("xy")),
        )
        .unwrap();
    index
        .insert(
            5,
            bits(&[1.0, 0.0, 1.0]),
            Payload::new().with_field("name", Value::from_text("xz")),
        )
        .unwrap();
    index
}

#[test]
fn hnsw_test_new_index() {
    let config = HnswConfig::default();
    let index = HnswIndex::new(DistanceMetric::Cosine, 128, config);
    assert!(index.is_empty());
    assert_eq!(index.dimension(), 128);
}

#[test]
fn test_insert_single() {
    let config = HnswConfig::default();
    let mut index = HnswIndex::new(DistanceMetric::Euclidean, 3, config);
    index.insert(1, bits(&[1.0, 2.0, 3.0]), Payload::new()).unwrap();
    assert_eq!(index.len(), 1);
}

#[test]
fn test_insert_multiple() {
    let index = create_test_hnsw();
    assert_eq!(index.len(), 5);
}

#[test]
fn test_insert_duplicate() {
    let mut index = create_test_hnsw();
    let result = index.insert(1, bits(&[0.0, 0.0, 0.0]), Payload::new());
    assert!(matches!(result, Err(polarisdb::error::Error::DuplicateId(1))));
}

#[test]
fn hnsw_test_insert_dimension_mismatch() {
    let config = HnswConfig::default();
    let mut index = HnswIndex::new(DistanceMetric::Euclidean, 3, config);
    let result = index.insert(1, bits(&[1.0, 2.0]), Payload::new());
    assert!(matches!(result, Err(polarisdb::error::Error::DimensionMismatch { .. })));
}

#[test]
fn test_search_exact_match() {
    let index = create_test_hnsw();
    let results = index.search(&bits(&[1.0, 0.0, 0.0]), 1, None, None);
    assert_eq!(results.len(), 1);
    assert_eq!(results[0].id, 1);
    assert!(val(results[0].distance) < 1e-6);
}

#[test]
fn test_search_k_results() {
    let index = create_test_hnsw();
    let results = index.search(&bits(&[1.0, 0.0, 0.0]), 3, None, None);
    assert_eq!(results.len(), 3);
    for i in 1..results.len() {
        assert!(val(results[i - 1].distance) <= val(results[i].distance));
    }
}

#[test]
fn hnsw_test_search_with_filter() {
    let index = create_test_hnsw();
    let filter = Filter::field("name").eq(Value::from_text("x"));
    let results = index.search(&bits(&[0.5, 0.5, 0.5]), 10, None, Some(filter));
    assert_eq!(results.len(), 1);
    assert_eq!(results[0].id, 1);
}

#[test]
fn hnsw_test_search_empty_index() {
    let config = HnswConfig::default();
    let index = HnswIndex::new(DistanceMetric::Euclidean, 3, config);
    let results = index.search(&bits(&[1.0, 0.0, 0.0]), 10, None, None);
    assert!(results.is_empty());
}

#[test]
fn hnsw_test_get() {
    let index = create_test_hnsw();
    let (vector, payload) = index.get(1).unwrap();
    assert_eq!(vector.as_slice(), bits(&[1.0, 0.0, 0.0]).as_slice());
    assert_eq!(payload.get_str("name"), Some("x"));
    assert!(index.get(999).is_none());
}

#[test]
fn hnsw_test_delete() {
    let mut index = create_test_hnsw();
    assert_eq!(index.len(), 5);
    assert!(index.delete(1));
    assert_eq!(index.len(), 4);
    assert!(index.get(1).is_none());
    let results = index.search(&bits(&[1.0, 0.0, 0.0]), 10, None, None);
    assert!(results.iter().all(|r| r.id != 1));
    assert!(!index.delete(1));
}

#[test]
fn hnsw_test_clear() {
    let mut index = create_test_hnsw();
    index.clear();
    assert!(index.is_empty());
}

#[test]
fn prefiltered_search_with_bitmap() {
    let config = HnswConfig::default();
    let mut index = HnswIndex::new(DistanceMetric::Euclidean, 3, config);
    let mut bitmap_index = BitmapIndex::new();
    let p1 = Payload::new().with_field("category", Value::from_text("a"));
    let p2 = Payload::new().with_field("category", Value::from_text("b"));
    index.insert(1, bits(&[1.0, 0.0, 0.0]), p1.duplicate()).unwrap();
    index.insert(2, bits(&[0.9, 0.1, 0.0]), p2.duplicate()).unwrap();
    bitmap_index.insert(1, &p1);
    bitmap_index.insert(2, &p2);
    let filter = Filter::field("category").eq(Value::from_text("a"));
    let valid_ids = bitmap_index.query(&filter);
    let results = index.search_with_bitmap(&bits(&[1.0, 0.0, 0.0]), 10, None, &valid_ids);
    assert_eq!(results.len(), 1);
    assert_eq!(results[0].id, 1);
}

#[test]
fn test_recall_vs_brute_force() {
    let config = HnswConfig { m: 16, m_max0: 32, ef_construction: 200, ef_search: 100 };
    let mut index = HnswIndex::new(DistanceMetric::Euclidean, 8, config);
    let mut vectors = Vec::new();
    for i in 0..200u64 {
        let v: Vec<f32> = (0..8).map(|j| (((i * 8 + j) as f32).sin())).collect();
        vectors.push((i, bits(&v)));
        index.insert(i, bits(&v), Payload::new()).unwrap();
    }
    let mut total_recall = 0.0f64;
    let num_queries = 10u64;
    let k = 10usize;
    for q in 0..num_queries {
        let query: Vec<f32> = (0..8).map(|j| (((q * 7 + j) as f32).cos())).collect();
        let qb = bits(&query);
        let hnsw_ids: Vec<u64> = index.search(&qb, k, Some(200), None).iter().map(|r| r.id).collect();
        let mut distances: Vec<(u64, f32)> = vectors
            .iter()
            .map(|(id, v)| (*id, val(DistanceMetric::Euclidean.compute(&qb, v))))
            .collect();
        distances.sort_by(|a, b| a.1.partial_cmp(&b.1).unwrap());
        let bf_ids: Vec<u64> = distances.iter().take(k).map(|(id, _)| *id).collect();
        let intersection = hnsw_ids.iter().filter(|id| bf_ids.contains(id)).count();
        total_recall += intersection as f64 / k as f64;
    }
    let avg_recall = total_recall / num_queries as f64;
    assert!(avg_recall >= 0.7, "average recall {:.2} is below threshold 0.7", avg_recall);
}
