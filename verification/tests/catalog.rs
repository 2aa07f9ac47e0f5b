use construct_core::catalog::{from_pack, from_world, resolve, resolve_all, sort, Entry, Source};
use construct_core::pack::structures::PackStructure;
use construct_core::store::MemoryStore;
use construct_core::CoreError;

fn entry(name: &str, source: Source, size_bytes: u64) -> Entry {
    Entry {
        name: name.into(),
        id: format!("mystructure:{name}"),
        source,
        size_bytes,
        path: if source.is_pack() {
            Some(format!("/packs/{name}.mcstructure"))
        } else {
            None
        },
    }
}

fn entries() -> Vec<Entry> {
    vec![
        entry("house", Source::WorldDb, 12),
        entry("barn", Source::WorldDb, 4),
        entry("tower", Source::WorldPack, 31),
    ]
}

fn house_everywhere() -> Vec<Entry> {
    vec![
        entry("house", Source::WorldDb, 1),
        entry("house", Source::WorldPack, 1),
        entry("house", Source::SharedPack, 1),
    ]
}

#[test]
fn resolve_all_returns_every_copy_of_a_name() {
    let got = resolve_all("house", &house_everywhere(), None).unwrap();
    assert_eq!(got.len(), 3);
}

#[test]
fn resolve_all_still_honours_the_source_filter() {
    let entries = house_everywhere();
    for source in [Source::WorldDb, Source::WorldPack, Source::SharedPack] {
        let got = resolve_all("house", &entries, Some(source)).unwrap();
        assert_eq!(got.len(), 1);
        assert_eq!(got[0].source, source);
    }
}

#[test]
fn resolve_all_still_refuses_a_name_that_is_nowhere() {
    let err = resolve_all("nope", &house_everywhere(), None).unwrap_err();
    assert!(matches!(err, CoreError::StructureNotFound { .. }));
}

#[test]
fn resolve_all_finds_a_name_by_its_qualified_form() {
    let got = resolve_all("mystructure:house", &house_everywhere(), None).unwrap();
    assert_eq!(got.len(), 3);
}

#[test]
fn builds_entries_from_a_world_store() {
    let store = MemoryStore::with(&[("house", b"abc"), ("understudy:players", b"de")]);
    let mut got = from_world(&store).unwrap();
    got.sort_by(|a, b| a.name.cmp(&b.name));

    assert_eq!(got[0].name, "house");
    assert_eq!(got[0].id, "mystructure:house");
    assert_eq!(got[0].size_bytes, 3);
    assert_eq!(got[0].source, Source::WorldDb);
    assert_eq!(got[1].name, "understudy:players");
}

#[test]
fn resolves_a_unique_bare_name() {
    assert_eq!(
        resolve("house", &entries(), None).unwrap().id,
        "mystructure:house"
    );
}

#[test]
fn a_name_in_two_sources_is_an_error_pointing_at_source() {
    let mut e = entries();
    e.push(entry("house", Source::WorldPack, 9));
    assert!(matches!(
        resolve("house", &e, None),
        Err(CoreError::AmbiguousStructure { .. })
    ));
}

#[test]
fn source_disambiguates_a_name_present_in_both() {
    let mut e = entries();
    e.push(entry("house", Source::WorldPack, 9));
    assert_eq!(
        resolve("house", &e, Some(Source::WorldPack))
            .unwrap()
            .size_bytes,
        9
    );
    assert_eq!(
        resolve("house", &e, Some(Source::WorldDb))
            .unwrap()
            .size_bytes,
        12
    );
}

#[test]
fn a_missing_structure_suggests_near_matches() {
    let CoreError::StructureNotFound { near, .. } =
        resolve("hous", &entries(), None).unwrap_err()
    else {
        panic!("expected StructureNotFound");
    };
    assert!(near.contains(&"house".to_string()));
}

#[test]
fn a_qualified_name_resolves() {
    assert_eq!(
        resolve("mystructure:house", &entries(), None).unwrap().name,
        "house"
    );
}

#[test]
fn filtering_by_a_source_with_no_matches_is_not_found() {
    assert!(matches!(
        resolve("barn", &entries(), Some(Source::WorldPack)),
        Err(CoreError::StructureNotFound { .. })
    ));
}

#[test]
fn entries_sort_by_name_then_source() {
    let mut sorted = vec![
        entry("a", Source::SharedPack, 1),
        entry("a", Source::WorldPack, 1),
        entry("a", Source::WorldDb, 1),
    ];
    sort(&mut sorted);
    assert_eq!(sorted[0].source, Source::WorldDb);
    assert_eq!(sorted[1].source, Source::WorldPack);
    assert_eq!(sorted[2].source, Source::SharedPack);
}

#[test]
fn source_picks_between_the_two_packs_a_world_sees() {
    let e = vec![
        entry("house", Source::SharedPack, 1),
        entry("house", Source::WorldPack, 2),
    ];
    assert!(resolve("house", &e, None).is_err(), "ambiguous");
    assert_eq!(
        resolve("house", &e, Some(Source::SharedPack))
            .unwrap()
            .size_bytes,
        1
    );
    assert_eq!(
        resolve("house", &e, Some(Source::WorldPack))
            .unwrap()
            .size_bytes,
        2
    );
}

#[test]
fn a_pack_source_excludes_world_database_entries() {
    let e = vec![entry("house", Source::WorldDb, 1)];
    assert!(resolve("house", &e, None).is_ok());
    assert!(matches!(
        resolve("house", &e, Some(Source::WorldPack)),
        Err(CoreError::StructureNotFound { .. })
    ));
}

#[test]
fn an_ambiguous_name_names_the_sources_that_matched() {
    let mut e = entries();
    e.push(entry("house", Source::SharedPack, 9));
    let CoreError::AmbiguousStructure { sources, .. } = resolve("house", &e, None).unwrap_err()
    else {
        panic!("expected AmbiguousStructure");
    };
    assert_eq!(
        sources,
        vec!["world-db".to_string(), "shared-pack".to_string()]
    );
}

#[test]
fn pack_entries_carry_their_file_path() {
    let listed = vec![PackStructure {
        id: "mystructure:bomber".to_string(),
        name: "bomber".to_string(),
        path: "/p/Construct[BP]/structures/bomber.mcstructure".to_string(),
        size_bytes: 5,
    }];
    let entries = from_pack(listed, Source::WorldPack);
    assert_eq!(entries[0].source, Source::WorldPack);
    assert_eq!(entries[0].id, "mystructure:bomber");
    assert_eq!(
        entries[0].path.as_deref(),
        Some("/p/Construct[BP]/structures/bomber.mcstructure")
    );
    assert_eq!(entries[0].size_bytes, 5);
}

