use construct_core::inuse::{
    confirm_in_use, looks_in_use, refuse_if_in_use, AtRisk, ACTIVITY_WINDOW_MS, CONFIRM_TICK_MS,
    CONFIRM_WATCH_MS,
};
use std::time::Duration;

const SECOND: u128 = 1_000_000_000;

#[test]
fn the_watch_outlasts_the_longest_measured_autosave_gap() {
    assert!(
        Duration::from_millis(CONFIRM_WATCH_MS) >= Duration::from_secs(20),
        "the watch must exceed the longest real autosave gap, with margin"
    );
    assert!(
        Duration::from_millis(ACTIVITY_WINDOW_MS) >= Duration::from_secs(20),
        "a window equal to the longest gap lets a live world read as free"
    );
    assert!(CONFIRM_TICK_MS < CONFIRM_WATCH_MS);
}

#[test]
fn a_database_written_just_now_looks_in_use() {
    let now = 1_000 * SECOND;
    assert!(looks_in_use(Some(now - SECOND), now));
    assert!(looks_in_use(Some(now), now));
}

#[test]
fn a_database_untouched_for_longer_than_the_window_does_not() {
    let now = 1_000 * SECOND;
    assert!(!looks_in_use(Some(now - 25 * SECOND), now));
    assert!(!looks_in_use(Some(now - 20 * SECOND), now));
    assert!(looks_in_use(Some(now - 20 * SECOND + 1), now));
}

#[test]
fn a_modification_time_in_the_future_counts_as_in_use() {
    let now = 1_000 * SECOND;
    assert!(looks_in_use(Some(now + 5 * SECOND), now));
}

#[test]
fn a_missing_database_is_not_in_use() {
    assert!(!looks_in_use(None, 1_000 * SECOND));
}

#[test]
fn an_empty_database_directory_is_not_in_use() {
    assert!(!looks_in_use(None, 0));
}

#[test]
fn a_database_nobody_is_writing_is_not_confirmed() {
    let b = 900 * SECOND;
    assert!(!confirm_in_use(Some(b), &vec![Some(b), Some(b), Some(b - 1)]));
    assert!(!confirm_in_use(Some(b), &vec![]));
}

#[test]
fn a_database_being_written_during_the_watch_is_confirmed() {
    let b = 900 * SECOND;
    assert!(confirm_in_use(Some(b), &vec![Some(b), Some(b + 1)]));
}

#[test]
fn a_compaction_that_removes_the_newest_file_counts_as_active() {
    let b = 900 * SECOND;
    assert!(confirm_in_use(Some(b), &vec![Some(b), None]));
}

#[test]
fn no_baseline_clears_the_world_at_once() {
    assert!(!confirm_in_use(None, &vec![None, Some(5)]));
}

#[test]
fn only_a_confirmed_stranger_is_refused() {
    let world = construct_core::discovery::worlds::world_from(
        "release",
        None,
        "w1".to_string(),
        "/mc/minecraftWorlds/w1".to_string(),
        None,
        None,
        None,
        0,
    );
    assert!(refuse_if_in_use(&world, AtRisk::Database, false, false, true).is_ok());
    assert!(refuse_if_in_use(&world, AtRisk::Database, true, true, true).is_ok());
    assert!(refuse_if_in_use(&world, AtRisk::Database, true, false, false).is_ok());
    let err = refuse_if_in_use(&world, AtRisk::LevelDat, true, false, true).unwrap_err();
    assert!(matches!(
        err,
        construct_core::CoreError::WorldInUse { world, at_risk: AtRisk::LevelDat }
            if world == "/mc/minecraftWorlds/w1"
    ));
}
