use construct_core::worldpacks::{upsert, PackRef};

fn r(id: &str, version: [u32; 3]) -> PackRef {
    PackRef {
        pack_id: id.into(),
        version,
    }
}

#[test]
fn upsert_adds_an_entry_to_a_world_that_had_none() {
    let mut packs = Vec::new();
    assert!(upsert(&mut packs, r("abc", [1, 2, 0])));
    assert_eq!(packs[0].pack_id, "abc");
}

#[test]
fn upsert_replaces_a_stale_version_in_place() {
    let mut packs = vec![r("8c0c0153-d8b9-482a-889f-aef922b8fe58", [1, 0, 0])];
    assert!(upsert(&mut packs, r("8c0c0153-d8b9-482a-889f-aef922b8fe58", [1, 2, 0])));
    assert_eq!(packs.len(), 1, "replaced, not appended");
    assert_eq!(packs[0].version, [1, 2, 0]);
}

#[test]
fn upsert_of_an_identical_entry_changes_nothing() {
    let mut packs = vec![r("8c0c0153-d8b9-482a-889f-aef922b8fe58", [1, 0, 0])];
    assert!(!upsert(&mut packs, r("8c0c0153-d8b9-482a-889f-aef922b8fe58", [1, 0, 0])));
    assert_eq!(packs.len(), 1);
    assert_eq!(packs[0].version, [1, 0, 0]);
}

#[test]
fn other_packs_survive_an_upsert() {
    let mut packs = vec![r("other", [0, 9, 0]), r("another", [1, 0, 1])];
    upsert(&mut packs, r("new", [1, 2, 0]));
    let ids: Vec<String> = packs.into_iter().map(|p| p.pack_id).collect();
    assert_eq!(
        ids,
        vec!["other".to_string(), "another".to_string(), "new".to_string()]
    );
}
