use blobstore::common::compute_sha256;
use blobstore::store::{LabelFilter, Store};
use blobstore::StoreError;

const HELLO_DIGEST: &str = "2cf24dba5fb0a30e26e83b2ac5b9e29e1b161e5c1fa7425e73043362938b9824";

fn new_store() -> Store {
    Store::new(String::from("/tmp/blobroot"))
}

#[test]
fn sha256_of_hello_is_known_vector() {
    assert_eq!(compute_sha256(b"hello"), HELLO_DIGEST);
}

#[test]
fn sha256_of_empty_is_known_vector() {
    assert_eq!(
        compute_sha256(b""),
        "e3b0c44298fc1c149afbf4c8996fb92427ae41e4649b934ca495991b7852b855"
    );
}

#[test]
fn blobpath_is_root_blobs_digest() {
    let st = new_store();
    assert_eq!(st.blobpath(String::from("abc")), "/tmp/blobroot/blobs/abc");
}

#[test]
fn blobpath_distinct_digests_distinct_paths() {
    let st = new_store();
    let p1 = st.blobpath(String::from("aa"));
    let p2 = st.blobpath(String::from("ab"));
    assert_ne!(p1, p2);
}

#[test]
fn ingest_paths_layout() {
    let st = new_store();
    assert_eq!(st.ingest_root(String::from("r1")), "/tmp/blobroot/ingest/r1");
    let (fp, rp, dp) = st.ingest_paths(String::from("r1"));
    assert_eq!(fp, "/tmp/blobroot/ingest/r1");
    assert_eq!(rp, "/tmp/blobroot/ingest/r1/ref");
    assert_eq!(dp, "/tmp/blobroot/ingest/r1/data");
}

#[test]
fn round_trip_hello() {
    let mut st = new_store();
    let r = String::from("upload-1");
    let d = String::from(HELLO_DIGEST);
    st.writer(r.clone(), 5, d.clone(), 100).unwrap();
    let new_offset = st.write(r.clone(), 0, b"hello", 101).unwrap();
    assert_eq!(new_offset, 5);
    let info = st.commit(r.clone(), d.clone(), 102).unwrap();
    assert_eq!(info.digest, HELLO_DIGEST);
    assert_eq!(info.size, 5);
    let bytes = st.read_at(d.clone()).unwrap();
    assert_eq!(bytes, b"hello".to_vec());
    let info2 = st.info(d).unwrap();
    assert_eq!(info2.size, 5);
    assert!(st.status(r).is_err());
}

#[test]
fn resumable_write_across_two_writes() {
    let mut st = new_store();
    let r = String::from("upload-2");
    let d = compute_sha256(b"hello world");
    st.writer(r.clone(), -1, String::new(), 1).unwrap();
    assert_eq!(st.write(r.clone(), 0, b"hello ", 2).unwrap(), 6);
    let resumed = st.writer(r.clone(), 11, d.clone(), 3).unwrap();
    assert_eq!(resumed.offset, 6);
    assert_eq!(resumed.total, 11);
    assert_eq!(st.write(r.clone(), 6, b"world", 4).unwrap(), 11);
    let info = st.commit(r, d.clone(), 5).unwrap();
    assert_eq!(info.size, 11);
    assert_eq!(st.read_at(d).unwrap(), b"hello world".to_vec());
}

#[test]
fn integrity_rejection_keeps_session_queryable() {
    let mut st = new_store();
    let r = String::from("upload-3");
    st.writer(r.clone(), 5, String::new(), 1).unwrap();
    st.write(r.clone(), 0, b"hullo", 2).unwrap();
    let err = st.commit(r.clone(), String::from(HELLO_DIGEST), 3).unwrap_err();
    assert_eq!(err, StoreError::DigestMismatch);
    let status = st.status(r).unwrap();
    assert_eq!(status.offset, 5);
    assert_eq!(status.total, 5);
}

#[test]
fn size_mismatch_rejected_before_publish() {
    let mut st = new_store();
    let r = String::from("upload-4");
    let d = compute_sha256(b"hel");
    st.writer(r.clone(), 5, d.clone(), 1).unwrap();
    st.write(r.clone(), 0, b"hel", 2).unwrap();
    let err = st.commit(r.clone(), d, 3).unwrap_err();
    assert_eq!(err, StoreError::SizeMismatch);
    assert_eq!(st.status(r).unwrap().offset, 3);
}

#[test]
fn out_of_order_write_leaves_offset_unchanged() {
    let mut st = new_store();
    let r = String::from("upload-5");
    st.writer(r.clone(), 5, String::new(), 1).unwrap();
    let err = st.write(r.clone(), 5, b"hello", 2).unwrap_err();
    assert_eq!(err, StoreError::OutOfOrder);
    assert_eq!(st.status(r).unwrap().offset, 0);
}

#[test]
fn second_write_at_same_offset_fails() {
    let mut st = new_store();
    let r = String::from("upload-6");
    st.writer(r.clone(), -1, String::new(), 1).unwrap();
    assert_eq!(st.write(r.clone(), 0, b"abc", 2).unwrap(), 3);
    let err = st.write(r.clone(), 0, b"xyz", 3).unwrap_err();
    assert_eq!(err, StoreError::OutOfOrder);
    assert_eq!(st.read_at(compute_sha256(b"abc")).err(), Some(StoreError::NotFound));
    let status = st.status(r).unwrap();
    assert_eq!(status.offset, 3);
}

#[test]
fn dedup_two_sessions_one_blob() {
    let mut st = new_store();
    let d = String::from(HELLO_DIGEST);
    for (i, r) in ["a", "b"].iter().enumerate() {
        let r = String::from(*r);
        st.writer(r.clone(), 5, d.clone(), i as u64).unwrap();
        st.write(r.clone(), 0, b"hello", i as u64).unwrap();
        let info = st.commit(r, d.clone(), i as u64).unwrap();
        assert_eq!(info.size, 5);
    }
    let all = st.walk(&Vec::new());
    assert_eq!(all.len(), 1);
    assert_eq!(all[0].digest, HELLO_DIGEST);
}

#[test]
fn incompatible_begin_already_exists() {
    let mut st = new_store();
    let r = String::from("upload-7");
    st.writer(r.clone(), 5, String::new(), 1).unwrap();
    let err = st.writer(r.clone(), 7, String::new(), 2).unwrap_err();
    assert_eq!(err, StoreError::AlreadyExists);
    let resumed = st.writer(r, 5, String::new(), 3).unwrap();
    assert_eq!(resumed.total, 5);
}

#[test]
fn writer_rejects_total_below_minus_one() {
    let mut st = new_store();
    let err = st.writer(String::from("x"), -2, String::new(), 1).unwrap_err();
    assert_eq!(err, StoreError::InvalidArgument);
}

#[test]
fn abort_discards_session() {
    let mut st = new_store();
    let r = String::from("upload-8");
    st.writer(r.clone(), -1, String::new(), 1).unwrap();
    st.write(r.clone(), 0, b"junk", 2).unwrap();
    st.abort(r.clone()).unwrap();
    assert_eq!(st.status(r.clone()).unwrap_err(), StoreError::NotFound);
    assert_eq!(st.abort(r).unwrap_err(), StoreError::NotFound);
}

#[test]
fn missing_ref_and_digest_not_found() {
    let mut st = new_store();
    assert_eq!(st.info(String::from("nope")).unwrap_err(), StoreError::NotFound);
    assert_eq!(st.read_at(String::from("nope")).unwrap_err(), StoreError::NotFound);
    assert_eq!(st.delete(String::from("nope")).unwrap_err(), StoreError::NotFound);
    assert_eq!(st.status(String::from("nope")).unwrap_err(), StoreError::NotFound);
    assert_eq!(st.write(String::from("nope"), 0, b"x", 1).unwrap_err(), StoreError::NotFound);
    assert_eq!(
        st.commit(String::from("nope"), String::from(HELLO_DIGEST), 1).unwrap_err(),
        StoreError::NotFound
    );
}

#[test]
fn delete_removes_blob_and_second_delete_fails() {
    let mut st = new_store();
    let r = String::from("upload-9");
    let d = String::from(HELLO_DIGEST);
    st.writer(r.clone(), 5, d.clone(), 1).unwrap();
    st.write(r.clone(), 0, b"hello", 2).unwrap();
    st.commit(r, d.clone(), 3).unwrap();
    st.delete(d.clone()).unwrap();
    assert_eq!(st.info(d.clone()).unwrap_err(), StoreError::NotFound);
    assert_eq!(st.delete(d).unwrap_err(), StoreError::NotFound);
}

fn commit_bytes(st: &mut Store, r: &str, bytes: &[u8], now: u64) -> String {
    let d = compute_sha256(bytes);
    let r = String::from(r);
    st.writer(r.clone(), bytes.len() as i64, d.clone(), now).unwrap();
    st.write(r.clone(), 0, bytes, now).unwrap();
    st.commit(r, d.clone(), now).unwrap();
    d
}

#[test]
fn walk_visits_exactly_committed_blobs() {
    let mut st = new_store();
    let d1 = commit_bytes(&mut st, "r1", b"one", 1);
    let d2 = commit_bytes(&mut st, "r2", b"two", 2);
    st.writer(String::from("r3"), -1, String::new(), 3).unwrap();
    st.write(String::from("r3"), 0, b"three", 4).unwrap();
    st.abort(String::from("r3")).unwrap();
    let mut seen: Vec<String> = st.walk(&Vec::new()).into_iter().map(|i| i.digest).collect();
    seen.sort();
    let mut want = vec![d1, d2];
    want.sort();
    assert_eq!(seen, want);
}

#[test]
fn walk_applies_label_filters() {
    let mut st = new_store();
    let d1 = commit_bytes(&mut st, "r1", b"one", 1);
    let d2 = commit_bytes(&mut st, "r2", b"two", 2);
    let mut info = st.info(d1.clone()).unwrap();
    info.labels.insert(String::from("env"), String::from("prod"));
    st.update(info, Vec::new(), 3).unwrap();
    let filters = vec![LabelFilter { key: String::from("env"), value: String::from("prod") }];
    let hits = st.walk(&filters);
    assert_eq!(hits.len(), 1);
    assert_eq!(hits[0].digest, d1);
    let filters = vec![LabelFilter { key: String::from("env"), value: String::from("dev") }];
    assert_eq!(st.walk(&filters).len(), 0);
    let everything = st.walk(&Vec::new());
    assert_eq!(everything.len(), 2);
    assert!(everything.iter().any(|i| i.digest == d2));
}

#[test]
fn update_replace_all_and_single_key() {
    let mut st = new_store();
    let d = commit_bytes(&mut st, "r1", b"one", 1);
    let mut info = st.info(d.clone()).unwrap();
    info.labels.insert(String::from("env"), String::from("prod"));
    info.labels.insert(String::from("tier"), String::from("a"));
    let fresh = st.update(info, Vec::new(), 2).unwrap();
    assert_eq!(fresh.labels.get(&String::from("env")), Some(&String::from("prod")));
    assert_eq!(fresh.updated_at, 2);

    let mut info = st.info(d.clone()).unwrap();
    info.labels.insert(String::from("tier"), String::from("b"));
    let fresh = st.update(info, vec![String::from("labels.tier")], 3).unwrap();
    assert_eq!(fresh.labels.get(&String::from("tier")), Some(&String::from("b")));
    assert_eq!(fresh.labels.get(&String::from("env")), Some(&String::from("prod")));
}

#[test]
fn update_deletes_key_via_empty_value() {
    let mut st = new_store();
    let d = commit_bytes(&mut st, "r1", b"one", 1);
    let mut info = st.info(d.clone()).unwrap();
    info.labels.insert(String::from("env"), String::from("prod"));
    info.labels.insert(String::from("tier"), String::from("a"));
    st.update(info, Vec::new(), 2).unwrap();
    let mut info = st.info(d.clone()).unwrap();
    info.labels.insert(String::from("env"), String::new());
    info.labels.insert(String::from("region"), String::from("us"));
    let fresh = st
        .update(info, vec![String::from("labels.env"), String::from("labels.region")], 3)
        .unwrap();
    assert_eq!(fresh.labels.get(&String::from("env")), None);
    assert_eq!(fresh.labels.get(&String::from("tier")), Some(&String::from("a")));
    assert_eq!(fresh.labels.get(&String::from("region")), Some(&String::from("us")));
}

#[test]
fn update_rejects_unknown_selector() {
    let mut st = new_store();
    let d = commit_bytes(&mut st, "r1", b"one", 1);
    let info = st.info(d.clone()).unwrap();
    let err = st.update(info, vec![String::from("size")], 2).unwrap_err();
    assert_eq!(err, StoreError::InvalidArgument);
    let info = st.info(d.clone()).unwrap();
    let err = st.update(info, vec![String::from("labels.missing")], 3).unwrap_err();
    assert_eq!(err, StoreError::InvalidArgument);
    let info = st.info(d).unwrap();
    let err = st.update(info, vec![String::from("lab")], 4).unwrap_err();
    assert_eq!(err, StoreError::InvalidArgument);
}

#[test]
fn update_missing_blob_not_found() {
    let mut st = new_store();
    let mut info = blobstore::store::Info::default();
    info.digest = String::from("missing");
    assert_eq!(st.update(info, Vec::new(), 1).unwrap_err(), StoreError::NotFound);
}

#[test]
fn default_info_is_empty() {
    let info = blobstore::store::Info::default();
    assert_eq!(info.digest, "");
    assert_eq!(info.size, 0);
    assert_eq!(info.created_at, 0);
    assert_eq!(info.updated_at, 0);
    assert_eq!(info.labels.len(), 0);
}

#[test]
fn walk_of_empty_store_is_empty() {
    let st = new_store();
    assert!(st.walk(&Vec::new()).is_empty());
}

#[test]
fn commit_without_session_fails_even_if_blob_exists() {
    let mut st = new_store();
    let d = commit_bytes(&mut st, "r1", b"one", 1);
    assert_eq!(st.commit(String::from("r1"), d, 2).unwrap_err(), StoreError::NotFound);
}

#[test]
fn resume_fills_in_expected_digest() {
    let mut st = new_store();
    let r = String::from("upload-11");
    st.writer(r.clone(), -1, String::new(), 1).unwrap();
    let resumed = st.writer(r.clone(), -1, String::from(HELLO_DIGEST), 2).unwrap();
    assert_eq!(resumed.expected, HELLO_DIGEST);
    let err = st.writer(r, -1, String::from("anotherdigest"), 3).unwrap_err();
    assert_eq!(err, StoreError::AlreadyExists);
}

#[test]
fn empty_write_is_noop_with_stamp() {
    let mut st = new_store();
    let r = String::from("upload-10");
    st.writer(r.clone(), -1, String::new(), 1).unwrap();
    assert_eq!(st.write(r.clone(), 0, b"", 7).unwrap(), 0);
    let status = st.status(r).unwrap();
    assert_eq!(status.offset, 0);
    assert_eq!(status.update_at, 7);
}
