use durakv::{Bucket, Error, MemBucket, MemStorage, Object, ObjectUploader};

#[test]
fn commit_then_lookup_returns_content() {
    let mut b = MemBucket::new();
    let mut up = b.upload_object("x").unwrap();
    up.write(&[1, 2, 3]).unwrap();
    let n = up.finish(&mut b).unwrap();
    assert_eq!(n, 3);
    let got = b.object("x").unwrap();
    assert_eq!(got.into_data(), vec![1, 2, 3]);
}

#[test]
fn write_order_defines_byte_order() {
    let mut b = MemBucket::new();
    let mut up = b.upload_object("x").unwrap();
    up.write(&[1]).unwrap();
    up.write(&[2, 3]).unwrap();
    assert_eq!(up.finish(&mut b).unwrap(), 3);
    assert_eq!(b.object("x").unwrap().into_data(), vec![1, 2, 3]);
}

#[test]
fn second_commit_on_same_name_already_exists() {
    let mut b = MemBucket::new();
    let mut first = b.upload_object("x").unwrap();
    let mut second = b.upload_object("x").unwrap();
    first.write(&[1, 2, 3]).unwrap();
    second.write(&[9, 9]).unwrap();
    assert_eq!(first.finish(&mut b).unwrap(), 3);
    let refused = second.finish(&mut b);
    assert!(matches!(refused, Err(Error::AlreadyExists(_))));
    assert_eq!(b.object("x").unwrap().into_data(), vec![1, 2, 3]);
}

#[test]
fn lookup_of_missing_object_not_found() {
    let b = MemBucket::new();
    assert!(matches!(b.object("nope"), Err(Error::NotFound(_))));
}

#[test]
fn delete_of_missing_object_not_found() {
    let mut b = MemBucket::new();
    assert!(matches!(b.delete_object("nope"), Err(Error::NotFound(_))));
}

#[test]
fn delete_removes_exactly_the_named_object() {
    let mut b = MemBucket::new();
    let mut up = b.upload_object("x").unwrap();
    up.write(&[1]).unwrap();
    up.finish(&mut b).unwrap();
    let mut up2 = b.upload_object("y").unwrap();
    up2.write(&[2]).unwrap();
    up2.finish(&mut b).unwrap();
    b.delete_object("x").unwrap();
    assert!(matches!(b.object("x"), Err(Error::NotFound(_))));
    assert_eq!(b.object("y").unwrap().into_data(), vec![2]);
}

#[test]
fn bucket_scenario_create_upload_and_collide() {
    let mut s = MemStorage::new();
    s.create_bucket("b").unwrap();
    let mut up = s.upload_object("b", "x").unwrap();
    up.write(&[1, 2, 3]).unwrap();
    let n = s.finish_upload("b", up).unwrap();
    assert_eq!(n, 3);
    assert_eq!(s.object("b", "x").unwrap().into_data(), vec![1, 2, 3]);
    let up2 = s.upload_object("b", "x").unwrap();
    let refused = s.finish_upload("b", up2);
    assert!(matches!(refused, Err(Error::AlreadyExists(_))));
}

#[test]
fn duplicate_bucket_creation_already_exists() {
    let mut s = MemStorage::new();
    s.create_bucket("b").unwrap();
    assert!(matches!(s.create_bucket("b"), Err(Error::AlreadyExists(_))));
}

#[test]
fn delete_of_missing_bucket_not_found() {
    let mut s = MemStorage::new();
    assert!(matches!(s.delete_bucket("nope"), Err(Error::NotFound(_))));
    s.create_bucket("b").unwrap();
    s.delete_bucket("b").unwrap();
    assert!(matches!(s.bucket("b"), Err(Error::NotFound(_))));
}

#[test]
fn upload_into_missing_bucket_not_found() {
    let s = MemStorage::new();
    assert!(matches!(s.upload_object("nope", "x"), Err(Error::NotFound(_))));
}

#[test]
fn staging_alone_changes_nothing() {
    let mut b = MemBucket::new();
    let mut up = b.upload_object("x").unwrap();
    up.write(&[1, 2, 3]).unwrap();
    assert!(matches!(b.object("x"), Err(Error::NotFound(_))));
    drop(up);
    assert!(matches!(b.object("x"), Err(Error::NotFound(_))));
}
