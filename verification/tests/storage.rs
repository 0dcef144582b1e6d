//! The record log, the write-ahead log and the collection, including the
//! crash-recovery scenarios.

use polarisdb::record::DataFile;
use polarisdb::wal::{Wal, WalEntry, WalEntryKind, SyncMode};
use polarisdb::collection::{Collection, CollectionConfig};
use polarisdb::dist::DistanceMetric;
use polarisdb::payload::Payload;
use polarisdb::filter::Filter;
use polarisdb::value::Value;

fn bits(v: &[f32]) -> Vec<u32> {
    v.iter().map(|x| x.to_bits()).collect()
}

fn val(u: u32) -> f32 {
    f32::from_bits(u)
}

#[test]
fn test_data_file_append_and_read() {
    let mut df = DataFile::open_new();
    let offset = df
        .append(1, &bits(&[1.0, 2.0, 3.0]), &Payload::new().with_field("key", Value::from_text("value")))
        .unwrap();
    let record = df.read_at(offset).unwrap();
    assert_eq!(record.id, 1);
    assert_eq!(record.vector, bits(&[1.0, 2.0, 3.0]));
    assert_eq!(record.payload.get_str("key"), Some("value"));
    assert!(!record.deleted);
}

#[test]
fn test_data_file_delete() {
    let mut df = DataFile::open_new();
    let offset = df.append(1, &bits(&[1.0]), &Payload::new()).unwrap();
    df.mark_deleted(offset).unwrap();
    let record = df.read_at(offset).unwrap();
    assert!(record.deleted);
    assert_eq!(record.id, 1);
    assert_eq!(record.vector, bits(&[1.0]));
}

#[test]
fn test_data_file_iter_active() {
    let mut df = DataFile::open_new();
    let offset1 = df.append(1, &bits(&[1.0]), &Payload::new()).unwrap();
    df.append(2, &bits(&[2.0]), &Payload::new()).unwrap();
    df.append(3, &bits(&[3.0]), &Payload::new()).unwrap();
    df.mark_deleted(offset1).unwrap();
    let active = df.iter_active();
    assert_eq!(active.len(), 2);
    assert_eq!(active[0].id, 2);
    assert_eq!(active[1].id, 3);
}

#[test]
fn data_file_bytes_roundtrip() {
    let mut df = DataFile::open_new();
    let off1 = df
        .append(1, &bits(&[1.5, -2.0]), &Payload::new().with_field("k", Value::from_i64(7)))
        .unwrap();
    df.append(2, &bits(&[0.0, 4.0]), &Payload::new()).unwrap();
    df.mark_deleted(off1).unwrap();
    let image = df.to_bytes();
    let back = DataFile::from_bytes(&image);
    let active = back.iter_active();
    assert_eq!(active.len(), 1);
    assert_eq!(active[0].id, 2);
    assert_eq!(active[0].vector, bits(&[0.0, 4.0]));
}

#[test]
fn test_wal_append_and_read() {
    let mut wal = Wal::open_new(SyncMode::Immediate);
    wal.append(WalEntry::insert(1, bits(&[1.0, 2.0, 3.0]), Payload::new())).unwrap();
    wal.append(WalEntry::insert(
        2,
        bits(&[4.0, 5.0, 6.0]),
        Payload::new().with_field("key", Value::from_text("value")),
    ))
    .unwrap();
    wal.append(WalEntry::delete(1)).unwrap();
    let image = wal.to_bytes();
    let entries = Wal::read_all(&image).unwrap();
    assert_eq!(entries.len(), 3);
    assert_eq!(entries[0].kind, WalEntryKind::Insert);
    assert_eq!(entries[0].id, 1);
    assert_eq!(entries[1].id, 2);
    assert_eq!(entries[1].payload.get_str("key"), Some("value"));
    assert_eq!(entries[2].kind, WalEntryKind::Delete);
}

#[test]
fn test_wal_checkpoint() {
    let mut wal = Wal::open_new(SyncMode::Immediate);
    wal.append(WalEntry::insert(1, bits(&[1.0]), Payload::new())).unwrap();
    wal.checkpoint();
    let image = wal.to_bytes();
    let entries = Wal::read_all(&image).unwrap();
    assert!(entries.is_empty());
}

#[test]
fn test_wal_empty_file() {
    let entries = Wal::read_all(&[]).unwrap();
    assert!(entries.is_empty());
}

#[test]
fn test_wal_entry_serialization() {
    let mut wal = Wal::open_new(SyncMode::Immediate);
    wal.append(WalEntry::insert(
        42,
        bits(&[1.0, 2.0, 3.0]),
        Payload::new().with_field("test", Value::from_text("value")),
    ))
    .unwrap();
    let image = wal.to_bytes();
    let recovered = Wal::read_all(&image).unwrap();
    assert_eq!(recovered.len(), 1);
    assert_eq!(recovered[0].kind, WalEntryKind::Insert);
    assert_eq!(recovered[0].id, 42);
    assert_eq!(recovered[0].vector, bits(&[1.0, 2.0, 3.0]));
    assert_eq!(recovered[0].payload.get_str("test"), Some("value"));
}

#[test]
fn wal_detects_a_flipped_byte() {
    let mut wal = Wal::open_new(SyncMode::Immediate);
    wal.append(WalEntry::insert(7, bits(&[1.0]), Payload::new())).unwrap();
    let mut image = wal.to_bytes();
    // flip one byte inside the entry region, past the checksum and length
    image[10] ^= 1;
    assert!(Wal::read_all(&image).is_err());
}

#[test]
fn wal_tolerates_a_torn_tail() {
    let mut wal = Wal::open_new(SyncMode::Immediate);
    wal.append(WalEntry::insert(7, bits(&[1.0]), Payload::new())).unwrap();
    wal.append(WalEntry::delete(7)).unwrap();
    let image = wal.to_bytes();
    // drop the last few bytes, as a crash mid-write would
    let torn = &image[..image.len() - 3];
    let entries = Wal::read_all(torn).unwrap();
    assert_eq!(entries.len(), 1);
    assert_eq!(entries[0].id, 7);
}

fn fresh(dimension: usize, metric: DistanceMetric) -> Collection {
    let config = CollectionConfig::new(dimension, metric);
    Collection::open_or_create(None, &[], &[], config).unwrap()
}

#[test]
fn test_collection_create_and_insert() {
    let mut col = fresh(3, DistanceMetric::Euclidean);
    col.insert(1, bits(&[1.0, 2.0, 3.0]), Payload::new().with_field("key", Value::from_text("val")))
        .unwrap();
    assert_eq!(col.len(), 1);
    let (vector, payload) = col.get(1).unwrap();
    assert_eq!(vector, bits(&[1.0, 2.0, 3.0]));
    assert_eq!(payload.get_str("key"), Some("val"));
}

#[test]
fn test_collection_persistence() {
    let config = CollectionConfig::new(3, DistanceMetric::Euclidean);
    let (meta, data, wal) = {
        let mut col = Collection::open_or_create(None, &[], &[], config).unwrap();
        col.insert(1, bits(&[1.0, 2.0, 3.0]), Payload::new()).unwrap();
        col.insert(2, bits(&[4.0, 5.0, 6.0]), Payload::new()).unwrap();
        col.flush().unwrap();
        (col.meta_bytes(), col.data_bytes(), col.wal_bytes())
    };
    let col = Collection::open_or_create(Some(&meta), &data, &wal, config).unwrap();
    assert_eq!(col.len(), 2);
    assert!(col.get(1).is_some());
    assert!(col.get(2).is_some());
}

#[test]
fn test_collection_delete() {
    let mut col = fresh(3, DistanceMetric::Euclidean);
    col.insert(1, bits(&[1.0, 2.0, 3.0]), Payload::new()).unwrap();
    assert_eq!(col.len(), 1);
    col.delete(1).unwrap();
    assert_eq!(col.len(), 0);
    assert!(col.get(1).is_none());
}

#[test]
fn test_collection_search() {
    let mut col = fresh(3, DistanceMetric::Euclidean);
    col.insert(1, bits(&[1.0, 0.0, 0.0]), Payload::new()).unwrap();
    col.insert(2, bits(&[0.0, 1.0, 0.0]), Payload::new()).unwrap();
    col.insert(3, bits(&[0.0, 0.0, 1.0]), Payload::new()).unwrap();
    let results = col.search(&bits(&[1.0, 0.0, 0.0]), 1, None);
    assert_eq!(results.len(), 1);
    assert_eq!(results[0].id, 1);
    assert_eq!(val(results[0].distance), 0.0);
}

#[test]
fn test_collection_update() {
    let mut col = fresh(3, DistanceMetric::Euclidean);
    col.insert(1, bits(&[1.0, 2.0, 3.0]), Payload::new().with_field("v", Value::from_i64(1)))
        .unwrap();
    col.update(1, bits(&[4.0, 5.0, 6.0]), Payload::new().with_field("v", Value::from_i64(2)))
        .unwrap();
    let (vector, payload) = col.get(1).unwrap();
    assert_eq!(vector, bits(&[4.0, 5.0, 6.0]));
    assert_eq!(payload.get_i64("v"), Some(2));
    assert_eq!(col.len(), 1);
    // the same holds after a flush and a reopen
    col.flush().unwrap();
    let config = CollectionConfig::new(3, DistanceMetric::Euclidean);
    let meta = col.meta_bytes();
    let back = Collection::open_or_create(Some(&meta), &col.data_bytes(), &col.wal_bytes(), config)
        .unwrap();
    let (vector, payload) = back.get(1).unwrap();
    assert_eq!(vector, bits(&[4.0, 5.0, 6.0]));
    assert_eq!(payload.get_i64("v"), Some(2));
    assert_eq!(back.len(), 1);
}

#[test]
fn test_collection_recovery_after_crash() {
    let config = CollectionConfig::new(3, DistanceMetric::Euclidean);
    // writes without a flush, as a crash would leave them
    let (data, wal) = {
        let mut col = Collection::open_or_create(None, &[], &[], config).unwrap();
        col.insert(1, bits(&[1.0, 2.0, 3.0]), Payload::new()).unwrap();
        col.insert(2, bits(&[4.0, 5.0, 6.0]), Payload::new()).unwrap();
        (col.data_bytes(), col.wal_bytes())
    };
    let mut col = Collection::open_or_create(None, &data, &wal, config).unwrap();
    assert_eq!(col.len(), 2);
    assert!(col.get(1).is_some());
    assert!(col.get(2).is_some());
    col.insert(3, bits(&[7.0, 8.0, 9.0]), Payload::new()).unwrap();
    assert_eq!(col.len(), 3);
}

#[test]
fn recovery_equivalence_with_and_without_flush() {
    let config = CollectionConfig::new(2, DistanceMetric::Euclidean);
    let run = |flush: bool| -> Vec<(u64, Vec<u32>, Option<i64>)> {
        let mut col = Collection::open_or_create(None, &[], &[], config).unwrap();
        col.insert(1, bits(&[1.0, 2.0]), Payload::new().with_field("n", Value::from_i64(1)))
            .unwrap();
        col.insert(2, bits(&[3.0, 4.0]), Payload::new()).unwrap();
        col.update(1, bits(&[5.0, 6.0]), Payload::new().with_field("n", Value::from_i64(9)))
            .unwrap();
        col.delete(2).unwrap();
        col.insert(3, bits(&[7.0, 8.0]), Payload::new()).unwrap();
        if flush {
            col.flush().unwrap();
        }
        let back =
            Collection::open_or_create(None, &col.data_bytes(), &col.wal_bytes(), config).unwrap();
        let mut out = Vec::new();
        for id in 1..=3u64 {
            if let Some((v, p)) = back.get(id) {
                out.push((id, v, p.get_i64("n")));
            }
        }
        out
    };
    assert_eq!(run(false), run(true));
}

#[test]
fn exact_search_euclidean_dim_three() {
    let mut col = fresh(3, DistanceMetric::Euclidean);
    col.insert(1, bits(&[1.0, 0.0, 0.0]), Payload::new()).unwrap();
    col.insert(2, bits(&[0.0, 1.0, 0.0]), Payload::new()).unwrap();
    col.insert(3, bits(&[0.0, 0.0, 1.0]), Payload::new()).unwrap();
    let results = col.search(&bits(&[1.0, 0.0, 0.0]), 1, None);
    assert_eq!(results.len(), 1);
    assert_eq!(results[0].id, 1);
    assert_eq!(val(results[0].distance), 0.0);
}

#[test]
fn cosine_direction_invariance() {
    let mut col = fresh(3, DistanceMetric::Cosine);
    col.insert(1, bits(&[1.0, 0.0, 0.0]), Payload::new()).unwrap();
    col.insert(2, bits(&[2.0, 0.0, 0.0]), Payload::new()).unwrap();
    let results = col.search(&bits(&[0.5, 0.0, 0.0]), 2, None);
    assert_eq!(results.len(), 2);
    assert!(val(results[0].distance) < 1e-5);
    assert!(val(results[1].distance) < 1e-5);
}

#[test]
fn filtered_search_returns_only_matches() {
    let mut col = fresh(3, DistanceMetric::Euclidean);
    col.insert(1, bits(&[1.0, 0.0, 0.0]), Payload::new().with_field("type", Value::from_text("a")))
        .unwrap();
    col.insert(2, bits(&[0.0, 1.0, 0.0]), Payload::new().with_field("type", Value::from_text("b")))
        .unwrap();
    col.insert(3, bits(&[0.0, 0.0, 1.0]), Payload::new().with_field("type", Value::from_text("a")))
        .unwrap();
    let filter = Filter::field("type").eq(Value::from_text("a"));
    let results = col.search(&bits(&[0.5, 0.5, 0.5]), 10, Some(filter));
    assert_eq!(results.len(), 2);
    let mut ids: Vec<u64> = results.iter().map(|r| r.id).collect();
    ids.sort();
    assert_eq!(ids, vec![1, 3]);
}

#[test]
fn insert_auto_uses_fresh_identifiers() {
    let mut col = fresh(2, DistanceMetric::Euclidean);
    let a = col.insert_auto(bits(&[1.0, 0.0]), Payload::new()).unwrap();
    let b = col.insert_auto(bits(&[0.0, 1.0]), Payload::new()).unwrap();
    assert_eq!(a, 1);
    assert_eq!(b, 2);
    assert_eq!(col.len(), 2);
}

#[test]
fn dimension_mismatch_is_rejected() {
    let mut col = fresh(3, DistanceMetric::Euclidean);
    let r = col.insert(1, bits(&[1.0, 2.0]), Payload::new());
    assert!(matches!(
        r,
        Err(polarisdb::error::Error::DimensionMismatch { expected: 3, got: 2 })
    ));
}

#[test]
fn reopen_with_other_dimension_is_rejected() {
    let config = CollectionConfig::new(3, DistanceMetric::Euclidean);
    let mut col = Collection::open_or_create(None, &[], &[], config).unwrap();
    col.insert(1, bits(&[1.0, 2.0, 3.0]), Payload::new()).unwrap();
    col.flush().unwrap();
    let meta = col.meta_bytes();
    let config2 = CollectionConfig::new(4, DistanceMetric::Euclidean);
    let r = Collection::open_or_create(Some(&meta), &col.data_bytes(), &col.wal_bytes(), config2);
    assert!(matches!(r, Err(polarisdb::error::Error::CollectionError(_))));
}

#[test]
fn corrupted_wal_fails_the_open() {
    let config = CollectionConfig::new(2, DistanceMetric::Euclidean);
    let mut col = Collection::open_or_create(None, &[], &[], config).unwrap();
    col.insert(1, bits(&[1.0, 2.0]), Payload::new()).unwrap();
    let data = col.data_bytes();
    let mut wal = col.wal_bytes();
    wal[9] ^= 0xFF;
    let r = Collection::open_or_create(None, &data, &wal, config);
    assert!(r.is_err());
}
