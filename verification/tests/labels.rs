use blobstore::labelstore::{LabelMap, Labelstore, LabelstoreInterface};
use blobstore::strmap::StrMap;

fn map_of(pairs: &[(&str, &str)]) -> LabelMap {
    let mut m = StrMap::new();
    for (k, v) in pairs {
        m.insert(String::from(*k), String::from(*v));
    }
    m
}

#[test]
fn get_absent_digest_is_none() {
    let ls = Labelstore::new(String::from("/tmp/blobroot"));
    assert!(ls.get(String::from("d1")).is_none());
}

#[test]
fn set_then_get_round_trips() {
    let mut ls = Labelstore::new(String::from("/tmp/blobroot"));
    ls.set(String::from("d1"), map_of(&[("env", "prod")])).unwrap();
    let m = ls.get(String::from("d1")).unwrap();
    assert_eq!(m.get(&String::from("env")), Some(&String::from("prod")));
    assert_eq!(m.len(), 1);
}

#[test]
fn set_replaces_whole_record() {
    let mut ls = Labelstore::new(String::from("/tmp/blobroot"));
    ls.set(String::from("d1"), map_of(&[("env", "prod"), ("tier", "a")])).unwrap();
    ls.set(String::from("d1"), map_of(&[("region", "us")])).unwrap();
    let m = ls.get(String::from("d1")).unwrap();
    assert_eq!(m.len(), 1);
    assert_eq!(m.get(&String::from("region")), Some(&String::from("us")));
    assert_eq!(m.get(&String::from("env")), None);
}

#[test]
fn update_absent_digest_is_none() {
    let mut ls = Labelstore::new(String::from("/tmp/blobroot"));
    assert!(ls.update(String::from("d1"), map_of(&[("env", "prod")])).is_none());
    assert!(ls.get(String::from("d1")).is_none());
}

#[test]
fn update_merges_deletes_and_upserts() {
    let mut ls = Labelstore::new(String::from("/tmp/blobroot"));
    ls.set(String::from("d1"), map_of(&[("env", "prod"), ("tier", "a")])).unwrap();
    let merged = ls.update(String::from("d1"), map_of(&[("env", ""), ("region", "us")])).unwrap();
    assert_eq!(merged.get(&String::from("env")), None);
    assert_eq!(merged.get(&String::from("tier")), Some(&String::from("a")));
    assert_eq!(merged.get(&String::from("region")), Some(&String::from("us")));
    assert_eq!(merged.len(), 2);
    let stored = ls.get(String::from("d1")).unwrap();
    assert_eq!(stored.len(), 2);
    assert_eq!(stored.get(&String::from("region")), Some(&String::from("us")));
}

#[test]
fn updates_on_distinct_digests_do_not_interfere() {
    let mut ls = Labelstore::new(String::from("/tmp/blobroot"));
    ls.set(String::from("d1"), map_of(&[("env", "prod")])).unwrap();
    ls.set(String::from("d2"), map_of(&[("env", "dev")])).unwrap();
    ls.update(String::from("d1"), map_of(&[("env", "stage")])).unwrap();
    assert_eq!(
        ls.get(String::from("d2")).unwrap().get(&String::from("env")),
        Some(&String::from("dev"))
    );
}

#[test]
fn remove_drops_record() {
    let mut ls = Labelstore::new(String::from("/tmp/blobroot"));
    ls.set(String::from("d1"), map_of(&[("env", "prod")])).unwrap();
    assert!(ls.remove(&String::from("d1")));
    assert!(ls.get(String::from("d1")).is_none());
    assert!(!ls.remove(&String::from("d1")));
}

#[test]
fn strmap_insert_get_remove() {
    let mut m: StrMap<String> = StrMap::new();
    assert_eq!(m.len(), 0);
    m.insert(String::from("a"), String::from("1"));
    m.insert(String::from("b"), String::from("2"));
    m.insert(String::from("a"), String::from("3"));
    assert_eq!(m.len(), 2);
    assert_eq!(m.get(&String::from("a")), Some(&String::from("3")));
    assert!(m.contains_key(&String::from("b")));
    assert_eq!(m.remove(&String::from("a")), Some(String::from("3")));
    assert_eq!(m.get(&String::from("a")), None);
    assert_eq!(m.len(), 1);
}

#[test]
fn strmap_duplicate_is_independent() {
    let mut m: StrMap<String> = StrMap::new();
    m.insert(String::from("a"), String::from("1"));
    let copy = m.duplicate();
    m.insert(String::from("a"), String::from("9"));
    assert_eq!(copy.get(&String::from("a")), Some(&String::from("1")));
}
