use construct_core::install::adopt::{adopt, no_free_name, numbered_dir, numbered_file, AdoptPlan};
use construct_core::install::{place, staged_dest_name, staging_name, PlaceStep, STAGING_PREFIX};
use construct_core::pack::manifest::{Manifest, PackKind};
use construct_core::pack::{is_hidden_dir, Pack, CONSTRUCT_BP_UUID};
use construct_core::CoreError;

fn manifest(version: [u32; 3]) -> Manifest {
    Manifest {
        name: "Construct [BP]".to_string(),
        uuid: CONSTRUCT_BP_UUID.to_string(),
        version,
        kind: PackKind::Behavior,
    }
}

fn pack(dir: &str, version: [u32; 3]) -> Pack {
    Pack {
        dir: dir.to_string(),
        manifest: manifest(version),
    }
}

#[test]
fn a_first_install_creates_the_root_and_copies_the_pack() {
    let step = place("/dev", "/tmp/x/Construct[BP]", Some("Construct[BP]"), &manifest([1, 2, 0]), None, false).unwrap();
    match step {
        PlaceStep::Install { dest, dest_name, from } => {
            assert_eq!(dest, "/dev/Construct[BP]");
            assert_eq!(dest_name, "Construct[BP]");
            assert_eq!(from, None);
        }
        other => panic!("unexpected {other:?}"),
    }
}

#[test]
fn installing_the_version_already_present_is_a_no_op() {
    let existing = pack("/dev/Construct[BP]", [1, 2, 0]);
    match place("/dev", "/tmp/x/BP", Some("BP"), &manifest([1, 2, 0]), Some(existing), false).unwrap() {
        PlaceStep::UpToDate(p) => {
            assert_eq!(p.dir, "/dev/Construct[BP]");
            assert_eq!(p.from, Some([1, 2, 0]));
            assert_eq!(p.to, [1, 2, 0]);
            assert!(!p.changed);
            assert_eq!(p.preserved, 0);
        }
        other => panic!("unexpected {other:?}"),
    }
    let forced = place(
        "/dev",
        "/tmp/x/BP",
        Some("BP"),
        &manifest([1, 2, 0]),
        Some(pack("/dev/Construct[BP]", [1, 2, 0])),
        true,
    )
    .unwrap();
    assert!(matches!(forced, PlaceStep::Install { .. }));
}

#[test]
fn a_renamed_folder_is_upgraded_in_place_not_installed_twice() {
    let existing = pack("/dev/MyRenamedConstruct", [1, 0, 0]);
    match place("/dev", "/tmp/x/Construct[BP]", Some("Construct[BP]"), &manifest([1, 2, 0]), Some(existing), false).unwrap() {
        PlaceStep::Install { dest, dest_name, from } => {
            assert_eq!(dest, "/dev/MyRenamedConstruct");
            assert_eq!(dest_name, "MyRenamedConstruct");
            assert_eq!(from, Some([1, 0, 0]));
        }
        other => panic!("unexpected {other:?}"),
    }
}

#[test]
fn an_extracted_pack_without_a_folder_name_is_a_bad_pack() {
    let err = place("/dev", "/", None, &manifest([1, 2, 0]), None, false).unwrap_err();
    assert!(matches!(
        err,
        CoreError::BadPack { path, reason } if path == "/" && reason == "the extracted pack has no folder name"
    ));
}

#[test]
fn a_crash_between_remove_and_rename_recovers_on_the_next_run() {
    let staging = staging_name("Construct[BP]", 4242, 1_700_000_000_123_456_789);
    assert!(staging.starts_with(STAGING_PREFIX));
    assert_eq!(staging, ".constructcli-staging-4242-1700000000123456789-Construct[BP]");
    assert_eq!(staged_dest_name(&staging), Some("Construct[BP]".to_string()));
    let with_dash = staging_name("my-pack-name", 1, 2);
    assert_eq!(staged_dest_name(&with_dash), Some("my-pack-name".to_string()));
}

#[test]
fn a_foreign_staging_directory_is_never_deleted_or_mistaken_for_the_installed_pack() {
    assert!(is_hidden_dir(".constructcli-staging-1-2-Construct[BP]"));
    assert!(!is_hidden_dir("Construct[BP]"));
    assert_eq!(staged_dest_name(".constructcli-staging-garbage"), None);
    assert_eq!(staged_dest_name("Construct[BP]"), None);
}

#[test]
fn a_root_with_no_construct_in_it_is_nothing_to_adopt() {
    let other = Pack {
        dir: "/bp/Other".to_string(),
        manifest: Manifest {
            name: "Other".into(),
            uuid: "u".into(),
            version: [1, 0, 0],
            kind: PackKind::Behavior,
        },
    };
    assert!(adopt("/dev", "/bp", CONSTRUCT_BP_UUID, &vec![other], &vec![]).unwrap().is_none());
}

#[test]
fn adopting_is_a_no_op_the_second_time() {
    assert!(adopt("/dev", "/bp", CONSTRUCT_BP_UUID, &vec![], &vec![pack("/dev/Construct[BP]", [1, 0, 0])])
        .unwrap()
        .is_none());
    assert!(adopt("/dev", "/dev", CONSTRUCT_BP_UUID, &vec![pack("/dev/C", [1, 0, 0])], &vec![])
        .unwrap()
        .is_none());
}

#[test]
fn a_stray_construct_moves_into_the_development_root() {
    let plan = adopt("/dev", "/bp", CONSTRUCT_BP_UUID, &vec![pack("/bp/Construct[BP]", [1, 0, 0])], &vec![]).unwrap();
    match plan {
        Some(AdoptPlan::MoveIn { stray, name }) => {
            assert_eq!(stray, "/bp/Construct[BP]");
            assert_eq!(name, "Construct[BP]");
        }
        other => panic!("unexpected {other:?}"),
    }
}

#[test]
fn a_stray_beside_an_installed_copy_merges_its_unique_structures() {
    let plan = adopt(
        "/dev",
        "/bp",
        CONSTRUCT_BP_UUID,
        &vec![pack("/bp/Construct[BP]", [1, 0, 0])],
        &vec![pack("/dev/Construct", [1, 2, 0])],
    )
    .unwrap();
    match plan {
        Some(AdoptPlan::MergeIn { stray, installed }) => {
            assert_eq!(stray, "/bp/Construct[BP]");
            assert_eq!(installed, "/dev/Construct");
        }
        other => panic!("unexpected {other:?}"),
    }
}

#[test]
fn a_moved_pack_takes_a_free_name_when_its_own_is_taken() {
    assert_eq!(numbered_dir("/dev", "Construct[BP]", 2), "/dev/Construct[BP]-2");
}

#[test]
fn a_rescue_skips_past_names_that_are_themselves_taken() {
    assert_eq!(
        numbered_file("/p/structures/house.mcstructure", 1),
        "/p/structures/house-1.mcstructure"
    );
    assert_eq!(
        numbered_file("/p/structures/house.mcstructure", 2),
        "/p/structures/house-2.mcstructure"
    );
    assert_eq!(numbered_file("/p/structures/noext", 3), "/p/structures/noext-3");
}

#[test]
fn running_out_of_names_says_so() {
    assert!(matches!(
        no_free_name("/p/x", true),
        CoreError::BadPack { reason, .. } if reason == "no free folder name for it after 1000 tries"
    ));
    assert!(matches!(
        no_free_name("/p/x.mcstructure", false),
        CoreError::BadPack { reason, .. } if reason == "no free name for it after 1000 tries"
    ));
}
