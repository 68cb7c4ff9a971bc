use durakv::{decode_entry, encode_entry, key_name, Database, Error, Event, MemBucket, MemStream,
    Stream};

fn fresh_db() -> Database<MemStream<u64>, MemBucket> {
    Database::new(MemStream::new(), MemBucket::new())
}

#[test]
fn put_then_get_round_trips_bytes() {
    let mut db = fresh_db();
    db.put(b"key", b"value", 1).unwrap();
    assert_eq!(db.get(b"key").unwrap(), Some(b"value".to_vec()));
}

#[test]
fn get_of_missing_key_is_absent_not_error() {
    let db = fresh_db();
    assert_eq!(db.get(b"missing").unwrap(), None);
}

#[test]
fn put_twice_same_value_is_idempotent() {
    let mut db = fresh_db();
    db.put(b"k", b"v", 1).unwrap();
    db.put(b"k", b"v", 2).unwrap();
    assert_eq!(db.get(b"k").unwrap(), Some(b"v".to_vec()));
}

#[test]
fn put_conflicting_value_is_already_exists() {
    let mut db = fresh_db();
    db.put(b"k", b"v", 1).unwrap();
    let conflict = db.put(b"k", b"other", 2);
    assert!(matches!(conflict, Err(Error::AlreadyExists(_))));
    assert_eq!(db.get(b"k").unwrap(), Some(b"v".to_vec()));
}

#[test]
fn distinct_keys_do_not_collide() {
    let mut db = fresh_db();
    db.put(b"a", b"1", 1).unwrap();
    db.put(b"b", b"2", 2).unwrap();
    assert_eq!(db.get(b"a").unwrap(), Some(b"1".to_vec()));
    assert_eq!(db.get(b"b").unwrap(), Some(b"2".to_vec()));
}

#[test]
fn recover_reapplies_journaled_puts() {
    let mut journal = MemStream::<u64>::new();
    journal.append_event(Event::new(1, encode_entry(b"k1", b"v1"))).unwrap();
    journal.append_event(Event::new(2, encode_entry(b"k2", b"v2"))).unwrap();
    let mut db = Database::new(journal, MemBucket::new());
    db.recover(0).unwrap();
    assert_eq!(db.get(b"k1").unwrap(), Some(b"v1".to_vec()));
    assert_eq!(db.get(b"k2").unwrap(), Some(b"v2".to_vec()));
}

#[test]
fn recover_leaves_committed_objects_alone() {
    let mut db = fresh_db();
    db.put(b"k", b"committed", 1).unwrap();
    db.recover(0).unwrap();
    assert_eq!(db.get(b"k").unwrap(), Some(b"committed".to_vec()));
}

#[test]
fn release_bounds_journal_growth() {
    let mut db = fresh_db();
    db.put(b"k1", b"v1", 1).unwrap();
    db.put(b"k2", b"v2", 2).unwrap();
    db.release_events(3).unwrap();
    db.recover(3).unwrap();
    assert_eq!(db.get(b"k1").unwrap(), Some(b"v1".to_vec()));
}

#[test]
fn empty_key_and_empty_value_round_trip() {
    let mut db = fresh_db();
    db.put(b"", b"", 1).unwrap();
    assert_eq!(db.get(b"").unwrap(), Some(Vec::new()));
    db.put(b"k", b"", 2).unwrap();
    assert_eq!(db.get(b"k").unwrap(), Some(Vec::new()));
}

#[test]
fn key_name_is_lowercase_hex() {
    let name = key_name(&[0x00, 0x1a, 0xff]);
    assert_eq!(name, "001aff");
    assert_eq!(key_name(&[]), "");
}

#[test]
fn entry_codec_round_trips() {
    let payload = encode_entry(b"key", b"value");
    assert_eq!(payload.len(), 8 + 3 + 5);
    assert_eq!(&payload[0..8], &[3, 0, 0, 0, 0, 0, 0, 0]);
    let (k, v) = decode_entry(&payload).unwrap();
    assert_eq!(k, b"key".to_vec());
    assert_eq!(v, b"value".to_vec());
}

#[test]
fn truncated_payloads_do_not_decode() {
    assert!(decode_entry(&[1, 2, 3]).is_none());
    let mut framed_too_long = vec![9, 0, 0, 0, 0, 0, 0, 0];
    framed_too_long.extend_from_slice(b"short");
    assert!(decode_entry(&framed_too_long).is_none());
}

#[test]
fn error_kind_probes_match_variants() {
    let nf = Error::NotFound(String::from("x"));
    let ae = Error::AlreadyExists(String::from("x"));
    let be = Error::Backend(String::from("io"));
    assert!(nf.is_not_found() && !nf.is_already_exists());
    assert!(ae.is_already_exists() && !ae.is_not_found());
    assert!(!be.is_not_found() && !be.is_already_exists());
}
