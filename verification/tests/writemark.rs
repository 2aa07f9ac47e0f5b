use construct_core::discovery::worlds::world_from;
use construct_core::writemark::{left_by_us, mark_path, record, root, stamp_text};

fn world(installation: &str, folder: &str) -> construct_core::discovery::World {
    world_from(
        installation,
        Some("Shared".to_string()),
        folder.to_string(),
        format!("/mc/{folder}"),
        None,
        None,
        None,
        0,
    )
}

#[test]
fn recording_a_world_with_no_database_writes_nothing() {
    let w = world("test", "gone");
    assert!(record("/marks", &w, None).is_none());
    assert!(!left_by_us(None, None));
}

#[test]
fn a_write_we_recorded_is_recognised_as_ours() {
    let w = world("release", "A=");
    let t: u128 = 1_700_000_000_000_000_123;
    let (path, text) = record("/marks", &w, Some(t)).unwrap();
    assert_eq!(path, "/marks/release_Shared_A_");
    assert_eq!(text, "1700000000.000000123");
    assert!(left_by_us(Some(t), Some(format!("{text}\n"))));
}

#[test]
fn a_write_by_somebody_else_after_ours_is_not_ours() {
    let t: u128 = 1_700_000_000_000_000_123;
    let recorded = stamp_text(t);
    assert!(!left_by_us(Some(t + 1), Some(recorded.clone())));
    assert!(!left_by_us(None, Some(recorded)));
    assert!(!left_by_us(Some(t), None));
}

#[test]
fn two_worlds_do_not_share_a_mark() {
    let a = world("release", "A=");
    let b = world("preview", "A=");
    assert_ne!(mark_path("/marks", &a), mark_path("/marks", &b));
}

#[test]
fn marks_live_under_the_data_directory() {
    let env = |k: &str| (k == "CONSTRUCT_DATA_DIR").then(|| "/data".to_string());
    assert_eq!(root(&env), Some("/data/writemarks".to_string()));
}

#[test]
fn a_stamp_pads_its_nanoseconds() {
    assert_eq!(stamp_text(5), "0.000000005");
    assert_eq!(stamp_text(2_000_000_000), "2.000000000");
}

#[test]
fn different_times_leave_different_marks() {
    assert_ne!(stamp_text(1_000_000_001), stamp_text(1_000_000_010));
    assert_ne!(stamp_text(10_000_000_000), stamp_text(1_000_000_000));
}
