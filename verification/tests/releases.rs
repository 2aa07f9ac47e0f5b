use construct_core::install::releases::{
    asset_for, check_download, check_status, is_mcaddon_name, tag_for, Asset, GitHub, Release,
};
use construct_core::CoreError;

#[test]
fn the_mcaddon_asset_is_matched_by_pattern_not_position() {
    let r = Release {
        tag: "v9.9.9".into(),
        assets: vec![
            Asset {
                name: "sha256sums.txt".into(),
                url: "u1".into(),
                size: 1,
            },
            Asset {
                name: "Construct-v9.9.9.mcaddon".into(),
                url: "u2".into(),
                size: 2,
            },
        ],
    };
    assert_eq!(asset_for(&r).unwrap().url, "u2");
}

#[test]
fn a_release_with_no_mcaddon_lists_what_it_did_have() {
    let r = Release {
        tag: "v9.9.9".into(),
        assets: vec![Asset {
            name: "notes.txt".into(),
            url: "u".into(),
            size: 1,
        }],
    };
    let CoreError::AssetNotFound { available, .. } = asset_for(&r).unwrap_err() else {
        panic!("expected AssetNotFound");
    };
    assert_eq!(available, vec!["notes.txt".to_string()]);
}

#[test]
fn a_version_is_accepted_with_or_without_its_v() {
    assert_eq!(tag_for("1.2.0"), "v1.2.0");
    assert_eq!(tag_for("v1.2.0"), "v1.2.0");
}

#[test]
fn only_a_construct_mcaddon_name_matches() {
    assert!(is_mcaddon_name("Construct-v1.2.0.mcaddon"));
    assert!(!is_mcaddon_name("Construct-v1.2.0.zip"));
    assert!(!is_mcaddon_name("Other-v1.2.0.mcaddon"));
}

#[test]
fn release_urls_name_the_tag_or_latest() {
    let gh = GitHub::with_base("http://127.0.0.1:1".to_string(), None);
    assert_eq!(
        gh.release_url(Some("1.2.0")),
        "http://127.0.0.1:1/repos/ForestOfLight/Construct/releases/tags/v1.2.0"
    );
    assert_eq!(
        gh.release_url(None),
        "http://127.0.0.1:1/repos/ForestOfLight/Construct/releases/latest"
    );
    assert_eq!(gh.authorization(), None);
    let with_token = GitHub::new(Some("t0k".to_string()));
    assert_eq!(
        with_token.release_url(None),
        "https://api.github.com/repos/ForestOfLight/Construct/releases/latest"
    );
    assert_eq!(with_token.authorization(), Some("Bearer t0k".to_string()));
}

#[test]
fn statuses_say_what_went_wrong() {
    assert!(check_status(200, Some("59"), None).is_ok());
    assert!(matches!(check_status(403, Some("0"), None), Err(CoreError::RateLimited)));
    assert!(matches!(check_status(429, Some("0"), None), Err(CoreError::RateLimited)));
    assert!(matches!(
        check_status(403, Some("12"), None),
        Err(CoreError::Network { reason }) if reason == "GitHub returned HTTP 403"
    ));
    assert!(matches!(
        check_status(404, None, Some("9.9.9")),
        Err(CoreError::AssetNotFound { version, available }) if version == "9.9.9" && available.is_empty()
    ));
    assert!(matches!(
        check_status(404, None, None),
        Err(CoreError::AssetNotFound { version, .. }) if version == "latest"
    ));
    assert!(matches!(
        check_status(500, None, None),
        Err(CoreError::Network { reason }) if reason == "GitHub returned HTTP 500"
    ));
}

#[test]
fn a_short_download_is_refused() {
    assert_eq!(check_download(10, 10).unwrap(), 10);
    assert!(matches!(
        check_download(7, 10),
        Err(CoreError::Network { reason }) if reason == "download truncated: expected 10 bytes, got 7"
    ));
}
