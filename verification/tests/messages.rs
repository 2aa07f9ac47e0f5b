use construct_core::pack::structures::path_for;
use construct_core::CoreError;

#[test]
fn a_refused_character_is_quoted_in_the_reason() {
    match path_for("/p", "bad name") {
        Err(CoreError::BadStructureName { name, reason }) => {
            assert_eq!(name, "bad name");
            assert_eq!(reason, "' ' is not allowed; names may use A-Z, a-z, 0-9, and _ . -");
        }
        other => panic!("unexpected {other:?}"),
    }
    match path_for("/p", "weird\"q") {
        Err(CoreError::BadStructureName { reason, .. }) => {
            assert!(reason.starts_with("'\"'"), "{reason}");
        }
        other => panic!("unexpected {other:?}"),
    }
}

#[test]
fn a_refused_name_is_quoted_in_the_message() {
    let err = path_for("/p", "bad name").unwrap_err();
    assert_eq!(
        err.message(),
        "unusable structure name \"bad name\": ' ' is not allowed; names may use A-Z, a-z, 0-9, and _ . -"
    );
    assert_eq!(err.kind(), "bad-structure-name");
}

#[test]
fn messages_name_what_failed() {
    assert_eq!(
        CoreError::BadConfig {
            path: "c.toml".into(),
            reason: "x".into()
        }
        .message(),
        "config error in c.toml: x"
    );
    assert_eq!(CoreError::RateLimited.message(), "GitHub rate limit reached");
    assert_eq!(CoreError::RateLimited.kind(), "rate-limited");
    assert_eq!(
        CoreError::IncompleteInstall {
            dest: "/d".into(),
            staging: "/s".into(),
            reason: "r".into()
        }
        .message(),
        "install of /d did not finish: r; the new pack is staged at /s for manual recovery"
    );
}

#[test]
fn different_failures_have_different_kinds() {
    let errors = vec![
        CoreError::NoBackupDir,
        CoreError::RateLimited,
        CoreError::Io("x".to_string()),
        CoreError::Db("x".to_string()),
        CoreError::BadStructureFile { what: "a".to_string(), reason: "b".to_string() },
        CoreError::BadStructureName { name: "a".to_string(), reason: "b".to_string() },
        CoreError::InsufficientSpace { world: "w".to_string(), need: 1, available: 0 },
        CoreError::IncompleteInstall {
            dest: "d".to_string(),
            staging: "s".to_string(),
            reason: "r".to_string(),
        },
    ];
    for (i, a) in errors.iter().enumerate() {
        for (j, b) in errors.iter().enumerate() {
            assert_eq!(i == j, a.kind() == b.kind(), "{} / {}", a.kind(), b.kind());
        }
    }
}
