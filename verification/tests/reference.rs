use construct_core::discovery::reference::{near_matches, parse, resolve};
use construct_core::discovery::{LastPlayedSource, World};
use construct_core::CoreError;

fn w(installation: &str, account: Option<&str>, folder: &str, name: &str) -> World {
    World {
        installation: installation.to_string(),
        account: account.map(str::to_string),
        folder: folder.to_string(),
        display_name: name.to_string(),
        path: format!("/tmp/{folder}"),
        last_played: Some(0),
        last_played_source: LastPlayedSource::LevelDat,
        size_bytes: 0,
    }
}

fn fixture() -> Vec<World> {
    vec![
        w("release", Some("Shared"), "Ssu8ww1SFbM=", "Test World"),
        w("release", Some("2533274801234567"), "aBc0=", "Test World"),
        w("preview", Some("Shared"), "XyZ9=", "Test World"),
        w("mcpelauncher", None, "Amelix CMP", "Amelix CMP"),
    ]
}

#[test]
fn parses_a_bare_name() {
    let r = parse("Amelix CMP");
    assert_eq!(r.installation, None);
    assert_eq!(r.account, None);
    assert_eq!(r.world, "Amelix CMP");
    assert!(!r.extra_segments);
}

#[test]
fn parses_installation_and_world() {
    let r = parse("release/Ssu8ww1SFbM=");
    assert_eq!(r.installation.as_deref(), Some("release"));
    assert_eq!(r.account, None);
    assert_eq!(r.world, "Ssu8ww1SFbM=");
    assert!(!r.extra_segments);
}

#[test]
fn parses_the_full_three_segment_form() {
    let r = parse("release/Shared/Ssu8ww1SFbM=");
    assert_eq!(r.installation.as_deref(), Some("release"));
    assert_eq!(r.account.as_deref(), Some("Shared"));
    assert_eq!(r.world, "Ssu8ww1SFbM=");
    assert!(!r.extra_segments);
}

#[test]
fn resolves_an_unambiguous_display_name() {
    assert_eq!(
        resolve("Amelix CMP", &fixture()).unwrap().folder,
        "Amelix CMP"
    );
}

#[test]
fn a_folder_name_beats_a_display_name() {
    let worlds = vec![
        w("mcpelauncher", None, "target", "decoy"),
        w("mcpelauncher", None, "other", "target"),
    ];
    assert_eq!(resolve("target", &worlds).unwrap().folder, "target");
}

#[test]
fn a_display_name_containing_slashes_resolves() {
    // Minecraft's default level names embed a date: "10/13/21". The slashes
    // are part of the name, not reference segments.
    let worlds = vec![w(
        "release",
        Some("Shared"),
        "AdvancedAutomation-3-5-2024",
        "Advanced Automation 10/13/21 23:33:18",
    )];
    assert_eq!(
        resolve("Advanced Automation 10/13/21 23:33:18", &worlds)
            .unwrap()
            .folder,
        "AdvancedAutomation-3-5-2024"
    );
}

#[test]
fn a_display_name_with_four_or_more_segments_resolves() {
    // More slashes than the grammar's three segments must not be rejected
    // as malformed before the name itself is tried.
    let worlds = vec![w("release", Some("Shared"), "abc=", "a/b/c/d/e")];
    assert_eq!(resolve("a/b/c/d/e", &worlds).unwrap().folder, "abc=");
}

#[test]
fn a_folder_name_containing_slashes_resolves() {
    let worlds = vec![w("release", Some("Shared"), "odd/folder", "Some World")];
    assert_eq!(resolve("odd/folder", &worlds).unwrap().folder, "odd/folder");
}

#[test]
fn an_ambiguous_name_is_an_error_listing_qualified_forms() {
    let err = resolve("Test World", &fixture()).unwrap_err();
    let CoreError::AmbiguousWorld { candidates, .. } = err else {
        panic!("expected AmbiguousWorld, got {err:?}");
    };
    assert_eq!(candidates.len(), 3);
    assert!(candidates.contains(&"release/Shared/Ssu8ww1SFbM=".to_string()));
    assert!(candidates.contains(&"preview/Shared/XyZ9=".to_string()));
}

#[test]
fn qualifying_disambiguates() {
    assert_eq!(
        resolve("release/Shared/Ssu8ww1SFbM=", &fixture())
            .unwrap()
            .folder,
        "Ssu8ww1SFbM="
    );
}

#[test]
fn the_installation_segment_alone_can_disambiguate() {
    assert_eq!(
        resolve("preview/Test World", &fixture()).unwrap().folder,
        "XyZ9="
    );
}

#[test]
fn a_missing_world_suggests_near_matches() {
    let err = resolve("Amelix", &fixture()).unwrap_err();
    let CoreError::WorldNotFound { near, .. } = err else {
        panic!("expected WorldNotFound, got {err:?}");
    };
    assert!(near.iter().any(|n| n.contains("Amelix CMP")));
}

#[test]
fn a_reference_with_more_than_three_segments_is_rejected() {
    let err = resolve("a/b/c/d/e/f/g", &fixture()).unwrap_err();
    assert!(matches!(
        err,
        CoreError::MalformedReference {
            reference,
            looks_like_path: false
        } if reference == "a/b/c/d/e/f/g"
    ));
}

#[test]
fn an_absolute_path_that_does_not_exist_reports_path_not_found() {
    let err = resolve("/nonexistent/world/path", &fixture()).unwrap_err();
    assert!(matches!(
        err,
        CoreError::MalformedReference {
            reference,
            looks_like_path: true
        } if reference == "/nonexistent/world/path"
    ));
}

#[test]
fn a_windows_path_that_does_not_exist_reports_path_not_found() {
    // The Windows spelling has no `/` to segment, so before `looks_like_path`
    // this fell through to near-matching world names. Checked on every
    // platform: it is string shape, not filesystem behaviour.
    for input in [
        r"C:\nonexistent\world\path",
        r"C:/nonexistent/world/path",
        r"\\server\share\world",
    ] {
        assert!(
            matches!(
                resolve(input, &fixture()),
                Err(CoreError::MalformedReference {
                    looks_like_path: true,
                    ..
                })
            ),
            "{input} should read as a path"
        );
    }
}

#[test]
fn a_name_carrying_a_colon_is_a_name_not_a_path() {
    // Minecraft's default level name embeds a time. A bare `contains(':')`
    // would call this a filesystem path and drop the near-matches.
    for input in [
        "Advanced Automation 10/13/21 23:33:18",
        "23:33:18",
        "release/Shared/not:a:drive",
    ] {
        assert!(
            matches!(
                resolve(input, &fixture()),
                Err(CoreError::WorldNotFound { .. })
            ),
            "{input} should read as a name"
        );
    }
}

#[test]
fn near_matches_are_sorted_by_prefix_then_length_then_alphabetical() {
    let worlds = vec![
        w("a", None, "test_a", "test alpha"),
        w("a", None, "test_b", "test beta"),
        w("a", None, "test_c", "testing"),
        w("a", None, "test_d", "te"),
        w("a", None, "test_e", "ten"),
        w("a", None, "test_f", "attest"),
    ];
    let near = near_matches("test", &worlds);
    // Should prefer prefix matches, then shorter names
    // Prefix matches: "testing", "test alpha", "test beta"
    // Non-prefix: "attest", "ten", "te"
    assert_eq!(near.len(), 5);
    // First three should be prefix matches
    assert!(near[0].contains("test"));
    assert!(near[1].contains("test"));
    assert!(near[2].contains("test"));
}

#[test]
fn world_not_found_near_contains_only_world_names() {
    let err = resolve("Amelx", &fixture()).unwrap_err();
    let CoreError::WorldNotFound { near, .. } = err else {
        panic!("expected WorldNotFound, got {err:?}");
    };
    // All entries should be real world names, not guidance text
    for entry in &near {
        assert!(
            !entry.contains("Expected"),
            "near should not contain guidance text: {entry}"
        );
        assert!(
            !entry.contains("Path not found"),
            "near should not contain guidance text: {entry}"
        );
        // Each entry should contain a world name and qualified form
        assert!(
            entry.contains("(") && entry.contains(")"),
            "near entry should have format 'name (qualified)': {entry}"
        );
    }
}

#[test]
fn every_world_is_found_by_its_qualified_reference() {
    let worlds = fixture();
    for world in &worlds {
        let found = resolve(&world.qualified(), &worlds).unwrap();
        assert_eq!(found.path, world.path);
        assert_eq!(found.installation, world.installation);
    }
}
