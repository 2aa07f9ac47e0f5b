use construct_core::discovery::{classify, PathKind};
use std::path::Path;

#[test]
fn a_directory_holding_level_dat_is_a_world() {
    let is_file = |p: &str| p == "/worlds/abc/level.dat";
    assert_eq!(classify("/worlds/abc", &is_file), PathKind::World);
}

#[test]
fn a_com_mojang_directory_is_a_root() {
    let is_file = |p: &str| p.ends_with("minecraftWorlds/w/level.dat");
    assert_eq!(classify("/games/com.mojang", &is_file), PathKind::Root);
}

#[test]
fn a_root_is_not_required_to_be_named_com_mojang() {
    let is_file = |_: &str| false;
    assert_eq!(classify("/mnt/backup-of-minecraft", &is_file), PathKind::Root);
}

#[test]
fn a_path_that_does_not_exist_is_a_root() {
    let is_file = |p: &str| Path::new(p).is_file();
    assert_eq!(classify("/nonexistent/com.mojang", &is_file), PathKind::Root);
}

#[test]
fn the_probe_asks_about_level_dat_under_the_path() {
    let asked = std::cell::RefCell::new(Vec::new());
    let is_file = |p: &str| {
        asked.borrow_mut().push(p.to_string());
        false
    };
    classify("/a/b", &is_file);
    assert_eq!(asked.into_inner(), vec!["/a/b/level.dat".to_string()]);
}
