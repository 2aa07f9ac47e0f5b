use construct_core::backup::{
    backup_name, backup_number, next_number, parse_suffix, prune_list, root_from, sanitize,
};
use construct_core::config::Backups;
use construct_core::CoreError;

fn backups(dir: &str, keep: usize) -> Backups {
    Backups {
        dir: Some(dir.to_string()),
        keep,
    }
}

fn names(v: &[&str]) -> Vec<String> {
    v.iter().map(|s| s.to_string()).collect()
}

#[test]
fn the_configured_directory_wins_over_the_environment() {
    let configured = backups("/configured", 5);
    let env = |k: &str| (k == "CONSTRUCT_DATA_DIR").then(|| "/from-env".to_string());
    assert_eq!(root_from(&configured, &env).unwrap(), "/configured");
}

#[test]
fn the_environment_stands_in_for_the_platform_directory() {
    let unset = Backups { dir: None, keep: 5 };
    let env = |k: &str| (k == "CONSTRUCT_DATA_DIR").then(|| "/from-env".to_string());
    assert_eq!(root_from(&unset, &env).unwrap(), "/from-env/backups");
}

#[test]
fn a_qualified_reference_becomes_one_safe_directory_name() {
    assert_eq!(
        sanitize("release/Shared/Ssu8ww1SFbM="),
        "release_Shared_Ssu8ww1SFbM_"
    );
    assert_eq!(sanitize("mcpelauncher/Amelix CMP"), "mcpelauncher_Amelix_CMP");
    assert_eq!(sanitize("../../etc"), "______etc");
}

#[test]
fn a_backup_is_named_after_its_source_and_stamp() {
    assert_eq!(backup_name("level.dat", 1700000000, 0), "level.dat.1700000000");
    assert_eq!(backup_name("level.dat", 1700000000, 2), "level.dat.1700000000-2");
    assert!(backup_name("level.dat", 5, 0).starts_with("level.dat."));
}

#[test]
fn two_backups_in_the_same_second_do_not_collide() {
    let files = names(&["level.dat.1000"]);
    let n = next_number(&files, "level.dat", 1000);
    assert_eq!(n, 1);
    assert_ne!(backup_name("level.dat", 1000, n), "level.dat.1000");
    let files = names(&["level.dat.1000", "level.dat.1000-1", "level.dat.999-7"]);
    assert_eq!(next_number(&files, "level.dat", 1000), 2);
    assert_eq!(next_number(&files, "level.dat", 2000), 0);
}

#[test]
fn source_filename_with_dash_parses_correctly() {
    assert_eq!(backup_number("level-legacy.dat.1000", "level-legacy.dat"), Some((1000, 0)));
    assert_eq!(backup_number("level-legacy.dat.1000-3", "level-legacy.dat"), Some((1000, 3)));
    let files = names(&["level-legacy.dat.1000", "level-legacy.dat.1000-1"]);
    assert_eq!(next_number(&files, "level-legacy.dat", 1000), 2);
}

#[test]
fn suffixes_parse_as_stamp_and_number() {
    assert_eq!(parse_suffix("1000"), Some((1000, 0)));
    assert_eq!(parse_suffix("1000-4"), Some((1000, 4)));
    assert_eq!(parse_suffix("abc"), None);
    assert_eq!(parse_suffix("1000-"), None);
    assert_eq!(backup_number("options.txt.1000", "level.dat"), None);
}

#[test]
fn retention_keeps_the_newest_and_drops_the_rest() {
    let files = names(&[
        "level.dat.1",
        "level.dat.2",
        "level.dat.3",
        "level.dat.4",
        "level.dat.5",
    ]);
    let mut gone = prune_list(&files, "level.dat", 3);
    gone.sort();
    assert_eq!(gone, names(&["level.dat.1", "level.dat.2"]));
}

#[test]
fn retention_across_multiple_timestamps() {
    let files = names(&[
        "level.dat.1000",
        "level.dat.1000-1",
        "level.dat.1000-2",
        "level.dat.1000-3",
        "level.dat.2000",
    ]);
    let gone = prune_list(&files, "level.dat", 2);
    assert_eq!(gone.len(), 3);
    assert!(!gone.contains(&"level.dat.2000".to_string()));
    assert!(!gone.contains(&"level.dat.1000-3".to_string()));
}

#[test]
fn unrelated_files_survive_pruning() {
    let files = names(&[
        "level.dat.1000",
        "level.dat.1000-1",
        "level.dat.1000-2",
        "not-a-backup.txt",
        "options.txt.1000",
    ]);
    let mut gone = prune_list(&files, "level.dat", 1);
    gone.sort();
    assert_eq!(gone, names(&["level.dat.1000", "level.dat.1000-1"]));
}

#[test]
fn nothing_is_pruned_within_the_limit() {
    let files = names(&["level.dat.1000", "level.dat.1000-1"]);
    assert!(prune_list(&files, "level.dat", 2).is_empty());
    assert!(prune_list(&files, "level.dat", 10).is_empty());
}

#[test]
fn with_no_directory_anywhere_there_is_no_backup_root() {
    let unset = Backups { dir: None, keep: 5 };
    let env = |_: &str| None;
    match root_from(&unset, &env) {
        Ok(dir) => assert!(dir.ends_with("backups")),
        Err(e) => assert!(matches!(e, CoreError::NoBackupDir)),
    }
}

#[test]
fn a_backup_name_reads_back_as_its_stamp_and_number() {
    for (stamp, n) in [(0u64, 0u64), (1700000000, 0), (1700000000, 7), (u64::MAX, u64::MAX)] {
        let name = backup_name("level-legacy.dat", stamp, n);
        assert_eq!(backup_number(&name, "level-legacy.dat"), Some((stamp, n)));
    }
}
