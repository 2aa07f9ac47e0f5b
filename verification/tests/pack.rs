use construct_core::catalog::{self, Source};
use construct_core::discovery::{Installation, LastPlayedSource, World};
use construct_core::pack::manifest::{Manifest, PackKind};
use construct_core::pack::structures::{self, FoundFile};
use construct_core::pack::{self, Pack};
use construct_core::CoreError;

fn test_world(dir: &str) -> World {
    World {
        installation: "test".into(),
        account: None,
        folder: dir.rsplit('/').next().unwrap().to_string(),
        display_name: "Test".into(),
        path: dir.to_string(),
        last_played: None,
        last_played_source: LastPlayedSource::DirMtime,
        size_bytes: 0,
    }
}

fn test_installation(com_mojang: &str) -> Installation {
    Installation {
        name: "test".into(),
        dev_pack_root: com_mojang.to_string(),
        world_roots: Vec::new(),
    }
}

/// A pack as read from `root/folder`.
fn make_pack(root: &str, folder: &str, uuid: &str, version: [u32; 3]) -> Pack {
    Pack {
        dir: format!("{root}/{folder}"),
        manifest: Manifest {
            name: folder.to_string(),
            uuid: uuid.to_string(),
            version,
            kind: PackKind::Behavior,
        },
    }
}

#[test]
fn construct_is_found_by_uuid_under_any_folder_name() {
    let packs = pack::sort_packs(vec![
        make_pack("/root", "SomethingElse", pack::CONSTRUCT_BP_UUID, [1, 2, 0]),
        make_pack("/root", "Canopy[BP]", "aaaaaaaa-0000-0000-0000-000000000000", [1, 0, 0]),
    ]);
    let found = pack::find_by_uuid(&packs, pack::CONSTRUCT_BP_UUID).expect("should find Construct");
    assert_eq!(found.dir, "/root/SomethingElse");
    assert_eq!(found.manifest.version, [1, 2, 0]);
}

#[test]
fn a_dotted_directory_is_never_seen_as_an_installed_pack() {
    assert!(pack::is_hidden_dir(".constructcli-staging-1234-5678-Construct[BP]"));
    assert!(!pack::is_hidden_dir("Construct[BP]"));
}

#[test]
fn packs_are_searched_in_folder_order() {
    let packs = pack::sort_packs(vec![
        make_pack("/root", "b", pack::CONSTRUCT_BP_UUID, [2, 0, 0]),
        make_pack("/root", "a", pack::CONSTRUCT_BP_UUID, [1, 0, 0]),
    ]);
    assert_eq!(packs[0].dir, "/root/a");
    assert_eq!(
        pack::find_by_uuid(&packs, pack::CONSTRUCT_BP_UUID).unwrap().manifest.version,
        [1, 0, 0]
    );
    assert!(pack::find_by_uuid(&packs, "no-such-uuid").is_none());
}

#[test]
fn the_pack_roots_are_the_documented_folder_names() {
    let base = "/com.mojang";
    assert_eq!(
        pack::shared_behavior_root(base),
        "/com.mojang/development_behavior_packs"
    );
    assert_eq!(
        pack::shared_resource_root(base),
        "/com.mojang/development_resource_packs"
    );
}

#[test]
fn the_stray_roots_are_the_non_development_siblings() {
    let base = "/com.mojang";
    assert_eq!(pack::stray_behavior_root(base), "/com.mojang/behavior_packs");
    assert_eq!(pack::stray_resource_root(base), "/com.mojang/resource_packs");
}

#[test]
fn a_world_with_no_pack_of_its_own_has_no_home_yet() {
    let world_packs: Vec<Pack> = Vec::new();
    assert!(pack::home(&world_packs).is_none());
}

#[test]
fn the_structures_pack_is_the_home_when_there_is_one() {
    let world = test_world("/root/minecraftWorlds/Test");
    let shell_dir = pack::shell::dir(&world);
    assert_eq!(
        shell_dir,
        "/root/minecraftWorlds/Test/behavior_packs/ConstructStructures"
    );
    let world_packs = vec![make_pack(
        "/root/minecraftWorlds/Test/behavior_packs",
        "ConstructStructures",
        pack::shell::UUID,
        [1, 0, 0],
    )];
    let home = pack::home(&world_packs).expect("the shell pack is a home");
    assert_eq!(home.kind, pack::HomeKind::WorldStructuresPack);
    assert_eq!(home.dir, shell_dir);
    assert_eq!(home.kind.source(), Source::WorldPack);
}

#[test]
fn a_worlds_own_construct_outranks_a_structures_pack() {
    let root = "/root/minecraftWorlds/Test/behavior_packs";
    let world_packs = pack::sort_packs(vec![
        make_pack(root, "ConstructStructures", pack::shell::UUID, [1, 0, 0]),
        make_pack(root, "Construct[BP]", pack::CONSTRUCT_BP_UUID, [1, 2, 0]),
    ]);
    let home = pack::home(&world_packs).expect("home");
    assert_eq!(home.kind, pack::HomeKind::WorldConstruct);
    assert_eq!(home.dir, format!("{root}/Construct[BP]"));
}

#[test]
fn a_world_on_the_shared_construct_is_served_by_it_and_by_its_own_pack() {
    let shared = vec![make_pack(
        "/root/development_behavior_packs",
        "Construct[BP]",
        pack::CONSTRUCT_BP_UUID,
        [1, 2, 0],
    )];
    let world_packs = vec![make_pack(
        "/root/minecraftWorlds/Test/behavior_packs",
        "ConstructStructures",
        pack::shell::UUID,
        [1, 0, 0],
    )];
    let serving = pack::serving(&world_packs, &shared);
    assert_eq!(
        serving.iter().map(|h| h.kind).collect::<Vec<_>>(),
        vec![
            pack::HomeKind::SharedConstruct,
            pack::HomeKind::WorldStructuresPack
        ]
    );
    assert_eq!(serving[0].dir, "/root/development_behavior_packs/Construct[BP]");
    assert_eq!(
        serving[1].dir,
        "/root/minecraftWorlds/Test/behavior_packs/ConstructStructures"
    );
}

#[test]
fn a_worlds_own_construct_hides_the_shared_one_from_that_world() {
    let shared = vec![make_pack(
        "/root/development_behavior_packs",
        "Construct[BP]",
        pack::CONSTRUCT_BP_UUID,
        [1, 2, 0],
    )];
    let world_packs = vec![make_pack(
        "/root/minecraftWorlds/Test/behavior_packs",
        "Construct[BP]",
        pack::CONSTRUCT_BP_UUID,
        [1, 1, 0],
    )];
    let serving = pack::serving(&world_packs, &shared);
    assert_eq!(
        serving.iter().map(|h| h.kind).collect::<Vec<_>>(),
        vec![pack::HomeKind::WorldConstruct]
    );
    assert_eq!(
        serving[0].dir,
        "/root/minecraftWorlds/Test/behavior_packs/Construct[BP]"
    );
}

#[test]
fn the_structures_pack_manifest_names_its_constants() {
    let text = pack::shell::manifest_json();
    assert!(text.contains(&format!("\"uuid\": \"{}\"", pack::shell::UUID)));
    assert!(text.contains(&format!("\"uuid\": \"{}\"", pack::shell::MODULE_UUID)));
    assert!(text.contains(&format!("\"name\": \"{}\"", pack::shell::NAME)));
    assert!(text.contains("\"type\": \"data\""));
    assert!(text.ends_with("}\n"));
}

#[test]
fn a_file_directly_in_structures_is_mystructure_namespaced() {
    let found = structures::from_found(&vec![FoundFile {
        dirs: vec![],
        stem: "bomber".into(),
        path: "/p/structures/bomber.mcstructure".into(),
        size_bytes: 5,
    }]);
    assert_eq!(found.len(), 1);
    assert_eq!(found[0].id, "mystructure:bomber");
    assert_eq!(found[0].name, "bomber");
    assert_eq!(found[0].size_bytes, 5);
}

#[test]
fn a_subdirectory_supplies_the_namespace_with_its_case_intact() {
    let found = structures::from_found(&vec![FoundFile {
        dirs: vec!["Understudy".into()],
        stem: "players".into(),
        path: "/p/structures/Understudy/players.mcstructure".into(),
        size_bytes: 1,
    }]);
    assert_eq!(found[0].id, "Understudy:players");
    assert_eq!(found[0].name, "Understudy:players");
}

#[test]
fn non_mcstructure_files_are_not_listed() {
    assert_eq!(structures::structure_stem("readme.txt"), None);
    assert_eq!(structures::structure_stem("ok.mcstructure").as_deref(), Some("ok"));
    assert_eq!(structures::structure_stem(".mcstructure"), None);
    assert_eq!(structures::structure_stem("a.b.mcstructure").as_deref(), Some("a.b"));
    assert_eq!(structures::structure_stem("mcstructure"), None);
}

#[test]
fn path_for_puts_the_default_namespace_flat_and_others_in_a_subdirectory() {
    let pack = "/p";
    assert_eq!(
        structures::path_for(pack, "house").unwrap(),
        "/p/structures/house.mcstructure"
    );
    assert_eq!(
        structures::path_for(pack, "mystructure:house").unwrap(),
        "/p/structures/house.mcstructure"
    );
    assert_eq!(
        structures::path_for(pack, "understudy:players").unwrap(),
        "/p/structures/understudy/players.mcstructure"
    );
}

#[test]
fn path_for_refuses_an_id_that_would_escape_the_pack() {
    for evil in [
        "../../etc/passwd",
        "a/b",
        "..",
        "ns:../x",
        "ns:",
        ":name",
        "C:\\x",
    ] {
        assert!(
            structures::path_for("/p", evil).is_err(),
            "{evil} should be refused"
        );
    }
}

#[test]
fn a_name_with_capitals_is_accepted() {
    assert_eq!(
        structures::path_for("/p", "10HzCounter").unwrap(),
        "/p/structures/10HzCounter.mcstructure"
    );
}

#[test]
fn a_namespace_with_capitals_survives_the_round_trip() {
    let at = structures::path_for("/P", "CanopyPlayers:players").unwrap();
    assert_eq!(at, "/P/structures/CanopyPlayers/players.mcstructure");
    let listed = structures::from_found(&vec![FoundFile {
        dirs: vec!["CanopyPlayers".into()],
        stem: "players".into(),
        path: at,
        size_bytes: 1,
    }]);
    assert_eq!(listed.len(), 1);
    assert_eq!(listed[0].id, "CanopyPlayers:players");
    assert_eq!(listed[0].name, "CanopyPlayers:players");
}

#[test]
fn derive_name_keeps_case_and_maps_spaces() {
    assert_eq!(structures::derive_name("My House").unwrap(), "My_House");
    assert_eq!(
        structures::derive_name("tower-2.v1_a").unwrap(),
        "tower-2.v1_a"
    );
}

#[test]
fn derive_name_rejects_rather_than_mangles() {
    for bad in ["café", "a/b", "what?", "", "  ", "..", "."] {
        assert!(
            structures::derive_name(bad).is_err(),
            "{bad:?} should be rejected"
        );
    }
}

#[test]
fn derive_name_trims_and_names_the_offending_character() {
    assert_eq!(structures::derive_name("  house \t").unwrap(), "house");
    let CoreError::BadStructureName { name, reason } = structures::derive_name("what?").unwrap_err()
    else {
        panic!("expected BadStructureName");
    };
    assert_eq!(name, "what?");
    assert_eq!(
        reason,
        "'?' is not allowed; names may use A-Z, a-z, 0-9, and _ . -"
    );
    let CoreError::BadStructureName { reason, .. } = structures::derive_name("..").unwrap_err()
    else {
        panic!("expected BadStructureName");
    };
    assert_eq!(reason, "a name that would point outside the pack");
}

#[test]
fn unify_interleaves_both_sources_by_name() {
    let world = vec![
        catalog::Entry {
            name: "house".into(),
            id: "mystructure:house".into(),
            source: Source::WorldDb,
            size_bytes: 1,
            path: None,
        },
        catalog::Entry {
            name: "zebra".into(),
            id: "mystructure:zebra".into(),
            source: Source::WorldDb,
            size_bytes: 1,
            path: None,
        },
    ];
    let pack = vec![catalog::Entry {
        name: "barn".into(),
        id: "mystructure:barn".into(),
        source: Source::WorldPack,
        size_bytes: 1,
        path: Some("/p/structures/barn.mcstructure".to_string()),
    }];
    let all = catalog::unify(world, pack);
    assert_eq!(
        all.iter().map(|e| e.name.as_str()).collect::<Vec<_>>(),
        vec!["barn", "house", "zebra"]
    );
}

#[test]
fn a_worlds_own_copy_of_construct_wins_over_the_shared_one() {
    let com_mojang = "/base/com.mojang";
    let shared_root = pack::shared_behavior_root(com_mojang);
    let shared = vec![make_pack(&shared_root, "Construct[BP]", pack::CONSTRUCT_BP_UUID, [1, 2, 0])];
    let world = test_world("/base/com.mojang/minecraftWorlds/Test");
    let world_root = pack::world_behavior_root(&world);
    let own = vec![make_pack(&world_root, "Construct[BP]", pack::CONSTRUCT_BP_UUID, [1, 1, 0])];

    let target = pack::for_world(&world, &test_installation(com_mojang), &own, &shared).unwrap();
    assert_eq!(target.scope, pack::Scope::World);
    assert_eq!(target.pack.manifest.version, [1, 1, 0]);
    assert_eq!(
        target.also_at,
        Some("/base/com.mojang/development_behavior_packs/Construct[BP]".to_string())
    );
}

#[test]
fn without_a_world_copy_the_shared_copy_is_used() {
    let com_mojang = "/base/com.mojang";
    let shared = vec![make_pack(
        &pack::shared_behavior_root(com_mojang),
        "Construct[BP]",
        pack::CONSTRUCT_BP_UUID,
        [1, 2, 0],
    )];
    let world = test_world("/base/com.mojang/minecraftWorlds/Test");
    let target = pack::for_world(&world, &test_installation(com_mojang), &Vec::new(), &shared).unwrap();
    assert_eq!(target.scope, pack::Scope::Shared);
    assert_eq!(target.also_at, None);
}

#[test]
fn no_construct_anywhere_says_where_it_looked() {
    let com_mojang = "/base/com.mojang";
    let world = test_world("/base/com.mojang/minecraftWorlds/Test");
    let err = pack::for_world(&world, &test_installation(com_mojang), &Vec::new(), &Vec::new())
        .unwrap_err();
    let CoreError::ConstructNotInstalled { searched } = err else {
        panic!("expected ConstructNotInstalled");
    };
    assert_eq!(
        searched,
        vec![
            "/base/com.mojang/minecraftWorlds/Test/behavior_packs".to_string(),
            "/base/com.mojang/development_behavior_packs".to_string(),
        ]
    );
    assert_eq!(
        pack::searched_roots(&world, &test_installation(com_mojang)),
        searched
    );
}

#[test]
fn the_installation_copy_is_the_shared_one_or_nothing() {
    let com_mojang = "/base/com.mojang";
    let shared = vec![make_pack(
        &pack::shared_behavior_root(com_mojang),
        "Construct[BP]",
        pack::CONSTRUCT_BP_UUID,
        [1, 2, 0],
    )];
    let t = pack::for_installation(&test_installation(com_mojang), &shared).unwrap();
    assert_eq!(t.scope, pack::Scope::Shared);
    let err = pack::for_installation(&test_installation(com_mojang), &Vec::new()).unwrap_err();
    assert!(matches!(err, CoreError::ConstructNotInstalled { ref searched } if searched.len() == 1));
}

#[test]
fn a_structure_nested_below_the_namespace_folder_is_addressable() {
    let found = structures::from_found(&vec![FoundFile {
        dirs: vec!["stuff".into(), "towers".into()],
        stem: "diamond".into(),
        path: "/P/structures/stuff/towers/diamond.mcstructure".into(),
        size_bytes: 1,
    }]);
    assert_eq!(found.len(), 1);
    assert_eq!(found[0].id, "stuff:towers/diamond");
    assert_eq!(found[0].name, "stuff:towers/diamond");
}

#[test]
fn depth_does_not_change_the_flat_or_one_level_rules() {
    let files = vec![
        FoundFile { dirs: vec![], stem: "house".into(), path: "h".into(), size_bytes: 1 },
        FoundFile { dirs: vec!["Understudy".into()], stem: "players".into(), path: "u".into(), size_bytes: 1 },
        FoundFile {
            dirs: vec!["a".into(), "b".into(), "c".into()],
            stem: "d".into(),
            path: "a".into(),
            size_bytes: 1,
        },
    ];
    let ids: Vec<String> = structures::from_found(&files).into_iter().map(|s| s.id).collect();
    assert!(ids.contains(&"mystructure:house".to_string()));
    assert!(ids.contains(&"Understudy:players".to_string()));
    assert!(ids.contains(&"a:b/c/d".to_string()));
    let mut sorted = ids.clone();
    sorted.sort();
    assert_eq!(ids, sorted, "listed in id order");
}

#[test]
fn every_segment_is_left_exactly_as_it_sits_on_disk() {
    let found = structures::from_found(&vec![FoundFile {
        dirs: vec!["Stuff".into(), "Towers".into()],
        stem: "Diamond".into(),
        path: "x".into(),
        size_bytes: 1,
    }]);
    assert_eq!(found[0].id, "Stuff:Towers/Diamond");
}

#[test]
fn a_derived_name_is_still_a_single_segment() {
    assert!(structures::derive_name("towers/diamond").is_err());
    assert!(structures::derive_name("../x").is_err());
}

#[test]
fn path_for_nests_a_name_that_carries_separators() {
    assert_eq!(
        structures::path_for("/p", "stuff:towers/diamond").unwrap(),
        "/p/structures/stuff/towers/diamond.mcstructure"
    );
    assert_eq!(
        structures::path_for("/p", "a:b/c/d").unwrap(),
        "/p/structures/a/b/c/d.mcstructure"
    );
}

#[test]
fn path_for_validates_every_segment_of_a_nested_name() {
    for evil in [
        "ns:a/../b",
        "ns:a/./b",
        "ns:a//b",
        "ns:a/",
        "ns:/a",
        "ns:a/b c/d",
    ] {
        assert!(
            structures::path_for("/p", evil).is_err(),
            "{evil} should be refused"
        );
    }
}

#[test]
fn path_for_refuses_a_nested_name_in_the_default_namespace() {
    assert!(structures::path_for("/p", "mystructure:a/b").is_err());
    assert!(structures::path_for("/p", "a/b").is_err());
}

#[test]
fn path_for_names_the_reason_it_refuses() {
    let reason = |id: &str| match structures::path_for("/p", id).unwrap_err() {
        CoreError::BadStructureName { name, reason } => {
            assert_eq!(name, id);
            reason
        }
        other => panic!("unexpected {other:?}"),
    };
    assert_eq!(reason("a:b:c"), "more than one namespace separator");
    assert_eq!(reason("a/b"), "a nested name needs a namespace of its own");
    assert_eq!(reason("ns:"), "an empty name or namespace");
    assert_eq!(reason("ns:a/../b"), "a name that would point outside the pack");
}

#[test]
fn a_listed_id_is_written_back_where_it_was_read() {
    let listed = structures::from_found(&vec![FoundFile {
        dirs: vec!["Stuff".into(), "Towers".into()],
        stem: "Diamond".into(),
        path: "/P/structures/Stuff/Towers/Diamond.mcstructure".into(),
        size_bytes: 1,
    }]);
    assert_eq!(
        structures::path_for("/P", &listed[0].id).unwrap(),
        listed[0].path
    );
}

#[test]
fn the_structures_folder_is_beside_the_manifest() {
    assert_eq!(structures::dir("/p/Construct[BP]"), "/p/Construct[BP]/structures");
}

#[test]
fn a_pack_with_no_structures_folder_lists_nothing() {
    assert!(structures::from_found(&vec![]).is_empty());
}

#[test]
fn write_creates_the_structures_folder_and_any_namespace_directory() {
    let at = structures::path_for("/root/P", "understudy:players").unwrap();
    assert_eq!(at, "/root/P/structures/understudy/players.mcstructure");
}
