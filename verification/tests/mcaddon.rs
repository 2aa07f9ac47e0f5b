use construct_core::install::mcaddon::{packs_found, safe_entry};
use construct_core::pack::manifest::PackKind;
use construct_core::CoreError;

/// The names of a complete archive, plus one extra entry, checked the way
/// extraction checks each before writing anything.
fn check_all(extra: &str) -> Result<Vec<String>, CoreError> {
    [extra, "Construct[BP]/manifest", "Construct[RP]/manifest"]
        .iter()
        .map(|n| safe_entry(n))
        .collect()
}

#[test]
fn an_entry_that_would_escape_the_directory_refuses_the_whole_archive() {
    let err = check_all("../escaped.txt").unwrap_err();
    let CoreError::BadPack { reason, .. } = &err else {
        panic!("expected BadPack, got {err:?}");
    };
    assert!(reason.contains("escape"), "expected a traversal refusal, got {reason:?}");
}

#[test]
fn an_entry_with_an_absolute_path_writes_nothing_to_that_path() {
    assert!(check_all("/tmp/canary/PWNED").is_err());
}

#[test]
fn hostile_entry_shapes_are_all_refused() {
    let hostile = [
        "../escaped.txt",
        "/etc/escaped.txt",
        "//escaped.txt",
        "BP\\..\\..\\escaped.txt",
        "C:\\escaped.txt",
        "Construct[BP]/../../escaped.txt",
    ];
    for name in hostile {
        assert!(check_all(name).is_err(), "expected {name:?} to be refused");
    }
}

#[test]
fn ordinary_entries_pass_through_unchanged() {
    assert_eq!(safe_entry("Construct[BP]/scripts/main.js").unwrap(), "Construct[BP]/scripts/main.js");
    assert_eq!(safe_entry("./BP/x").unwrap(), "./BP/x");
    assert_eq!(safe_entry("BP/").unwrap(), "BP/");
    assert!(matches!(
        safe_entry("a\\b"),
        Err(CoreError::BadPack { reason, .. }) if reason == "a backslash in an archive path"
    ));
}

#[test]
fn an_archive_with_no_resource_pack_says_so() {
    let found = vec![("BP".to_string(), PackKind::Behavior)];
    let err = packs_found(&found, "half.mcaddon").unwrap_err();
    assert!(matches!(
        err,
        CoreError::BadPack { ref path, ref reason } if path == "half.mcaddon" && reason == "no resource pack in this .mcaddon"
    ), "got {err:?}");
    let err = packs_found(&vec![], "none.mcaddon").unwrap_err();
    assert!(matches!(
        err,
        CoreError::BadPack { ref reason, .. } if reason == "no behaviour pack in this .mcaddon"
    ));
}

#[test]
fn folder_names_do_not_decide_which_pack_is_which() {
    let found = vec![
        ("looks_like_rp".to_string(), PackKind::Behavior),
        ("looks_like_bp".to_string(), PackKind::Resource),
    ];
    let (behavior, resource) = packs_found(&found, "swapped.mcaddon").unwrap();
    assert_eq!(behavior, "looks_like_rp");
    assert_eq!(resource, "looks_like_bp");
}

#[test]
fn a_drive_prefixed_entry_is_refused() {
    for name in ["C:", "C:/x", "c:x.txt", "Z:escaped.txt"] {
        match safe_entry(name) {
            Err(CoreError::BadPack { path, reason }) => {
                assert_eq!(path, name);
                assert!(reason.contains("escape"), "{reason}");
            }
            other => panic!("{name} was accepted: {other:?}"),
        }
    }
    assert_eq!(safe_entry("ab:c").unwrap(), "ab:c");
    assert_eq!(safe_entry("1:x").unwrap(), "1:x");
}
