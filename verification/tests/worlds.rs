use construct_core::discovery::worlds::{sort_worlds, world_from, LastPlayedSource, World, PATH_INSTALLATION};

fn discovered(folder: &str, levelname: Option<&str>, dat: Option<i64>, mtime: Option<i64>) -> World {
    world_from(
        "mcpelauncher",
        None,
        folder.to_string(),
        format!("/mc/minecraftWorlds/{folder}"),
        levelname.map(|s| s.to_string()),
        dat,
        mtime,
        1024,
    )
}

#[test]
fn reads_display_name_from_levelname_txt() {
    let w = discovered("Ssu8ww1SFbM=", Some("construct show"), Some(1741501762), None);
    assert_eq!(w.display_name, "construct show");
    assert_eq!(w.folder, "Ssu8ww1SFbM=");
}

#[test]
fn a_levelname_is_trimmed_and_a_blank_one_ignored() {
    let w = discovered("A=", Some("  spaced out \n"), Some(1), None);
    assert_eq!(w.display_name, "spaced out");
    let w = discovered("A=", Some(" \n"), Some(1), None);
    assert_eq!(w.display_name, "A=");
}

#[test]
fn prefers_level_dat_last_played_and_says_so() {
    let w = discovered("A=", Some("W"), Some(1741501762), Some(5));
    assert_eq!(w.last_played, Some(1741501762));
    assert_eq!(w.last_played_source, LastPlayedSource::LevelDat);
}

#[test]
fn falls_back_to_dir_mtime_when_level_dat_has_no_last_played() {
    let w = discovered("A=", Some("W"), None, Some(1700000000));
    assert_eq!(w.last_played_source, LastPlayedSource::DirMtime);
    assert_eq!(w.last_played, Some(1700000000));
}

#[test]
fn display_name_falls_back_to_the_folder_name() {
    let w = discovered("NoName=", None, None, Some(1));
    assert_eq!(w.display_name, "NoName=");
}

#[test]
fn qualified_omits_the_account_when_there_is_none() {
    assert_eq!(discovered("A=", Some("W"), Some(1), None).qualified(), "mcpelauncher/A=");
}

#[test]
fn qualified_includes_the_account_when_present() {
    let w = world_from(
        "release",
        Some("Shared".to_string()),
        "A=".to_string(),
        "/r/Shared/minecraftWorlds/A=".to_string(),
        Some("W".to_string()),
        Some(1),
        None,
        0,
    );
    assert_eq!(w.qualified(), "release/Shared/A=");
}

#[test]
fn size_counts_the_db_directory() {
    assert!(discovered("A=", Some("W"), Some(1), None).size_bytes >= 1024);
}

#[test]
fn a_folder_name_containing_a_space_is_handled() {
    let w = discovered("Amelix CMP", Some("Amelix CMP"), Some(1), None);
    assert_eq!(w.folder, "Amelix CMP");
    assert_eq!(w.qualified(), "mcpelauncher/Amelix CMP");
}

#[test]
fn an_explicit_world_path_is_listed_under_the_path_installation() {
    let w = world_from(
        PATH_INSTALLATION,
        None,
        "Standalone".to_string(),
        "/tmp/x/Standalone".to_string(),
        Some("Standalone".to_string()),
        Some(1741501762),
        None,
        0,
    );
    assert_eq!(w.installation, "path");
    assert_eq!(w.account, None);
    assert_eq!(w.folder, "Standalone");
    assert_eq!(w.display_name, "Standalone");
    assert_eq!(w.qualified(), "path/Standalone");
    assert_eq!(w.last_played, Some(1741501762));
    assert_eq!(w.db_path(), "/tmp/x/Standalone/db");
}

#[test]
fn worlds_sort_most_recent_first_then_by_folder() {
    let mut v = vec![
        discovered("b", None, Some(5), None),
        discovered("c", None, None, None),
        discovered("a", None, Some(5), None),
        discovered("d", None, Some(9), None),
    ];
    sort_worlds(&mut v);
    let order: Vec<&str> = v.iter().map(|w| w.folder.as_str()).collect();
    assert_eq!(order, vec!["d", "a", "b", "c"]);
}
