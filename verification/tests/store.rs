use construct_core::store::bedrock::{confirm_removed, is_under, structure_ids, structure_sizes};
use construct_core::store::snapshot::is_immutable_table;
use construct_core::store::{MemoryStore, StructureStore};

#[test]
fn a_memory_store_fetches_an_unqualified_id() {
    let store = MemoryStore(vec![("foo".to_string(), b"bytes".to_vec())]);
    assert_eq!(store.get("foo").unwrap(), Some(b"bytes".to_vec()));
}

#[test]
fn sizes_follow_the_order_ids_lists() {
    let store = MemoryStore::with(&[("house", b"abc"), ("barn", b""), ("mill", b"wxyz")]);
    let ids = store.ids().unwrap();
    let got = store.sizes().unwrap();
    assert_eq!(got.len(), ids.len());
    for (i, (id, len)) in got.iter().enumerate() {
        assert_eq!(id, &ids[i]);
        assert_eq!(*len, store.get(id).unwrap().map(|b| b.len() as u64).unwrap_or(0));
    }
    assert_eq!(got[0], ("mystructure:barn".to_string(), 0));
}

#[test]
fn sizes_reports_every_id_with_its_length() {
    let store = MemoryStore::with(&[("house", b"abc"), ("barn", b"de")]);
    let mut got = store.sizes().unwrap();
    got.sort();
    assert_eq!(
        got,
        vec![
            ("mystructure:barn".to_string(), 2),
            ("mystructure:house".to_string(), 3),
        ]
    );
}

#[test]
fn only_structure_keys_are_listed_with_their_sizes() {
    let keys = vec![
        b"structuretemplate_mystructure:house".to_vec(),
        b"~local_player".to_vec(),
        b"structuretemplate_".to_vec(),
        b"structuretemplate_understudy:players".to_vec(),
    ];
    assert_eq!(
        structure_ids(&keys),
        vec!["mystructure:house".to_string(), "understudy:players".to_string()]
    );
    let kv: Vec<(Vec<u8>, u64)> = keys.into_iter().zip([3u64, 9, 1, 4]).collect();
    assert_eq!(
        structure_sizes(&kv),
        vec![("mystructure:house".to_string(), 3), ("understudy:players".to_string(), 4)]
    );
}

#[test]
fn a_removal_that_did_not_take_is_an_error() {
    assert!(confirm_removed("mystructure:house", false).unwrap());
    match confirm_removed("mystructure:house", true) {
        Err(construct_core::CoreError::Db(m)) => {
            assert_eq!(m, "mystructure:house was still present after being removed")
        }
        other => panic!("unexpected {other:?}"),
    }
}

#[test]
fn a_path_is_under_a_directory_by_whole_components() {
    assert!(is_under("/tmp/x/db", "/tmp"));
    assert!(is_under("/tmp", "/tmp"));
    assert!(!is_under("/tmpx/db", "/tmp"));
    assert!(!is_under("/home/u/world/db", "/tmp"));
}

#[test]
fn a_snapshot_links_only_the_tables_leveldb_never_rewrites() {
    assert!(is_immutable_table("000005.ldb"));
    assert!(is_immutable_table("000005.SST"));
    assert!(is_immutable_table("x.LdB"));
    assert!(!is_immutable_table("000007.log"));
    assert!(!is_immutable_table("MANIFEST-000001"));
    assert!(!is_immutable_table("CURRENT"));
    assert!(!is_immutable_table(".ldb0"));
}
