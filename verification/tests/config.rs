use construct_core::config::{
    add_path, apply_env, backups_from, config_file_in, named_roots, unknown_key_warnings, AddedPath, Config,
    ExtraRoot, DEFAULT_KEEP,
};
use construct_core::CoreError;

/// The TOML side of reading a config, as the application does it: the
/// library checks what the file says once its values are in hand.
fn parse(text: &str, path: &str) -> Result<(Config, Vec<String>), CoreError> {
    let bad = |reason: String| CoreError::BadConfig {
        path: path.to_string(),
        reason,
    };
    let table: toml::Table = text.parse().map_err(|e: toml::de::Error| bad(e.to_string()))?;
    let known = ["default_installation", "roots", "other_worlds", "backups"];
    let unknown: Vec<String> = table
        .keys()
        .filter(|k| !known.contains(&k.as_str()))
        .cloned()
        .collect();
    let warnings = unknown_key_warnings(&unknown, path);
    let wire_roots: Vec<(Option<String>, String)> = table
        .get("roots")
        .and_then(|r| r.as_array())
        .map(|a| {
            a.iter()
                .map(|r| {
                    (
                        r.get("name").and_then(|n| n.as_str()).map(String::from),
                        r.get("path").and_then(|p| p.as_str()).unwrap_or("").to_string(),
                    )
                })
                .collect()
        })
        .unwrap_or_default();
    let roots = named_roots(wire_roots, path)?;
    let backups = backups_from(table.get("backups").map(|b| {
        (
            b.get("dir").and_then(|d| d.as_str()).map(String::from),
            b.get("keep").and_then(|k| k.as_integer()).map(|k| k as usize),
        )
    }));
    let config = Config {
        default_installation: table
            .get("default_installation")
            .and_then(|d| d.as_str())
            .map(String::from),
        roots,
        other_worlds: vec![],
        backups,
    };
    Ok((config, warnings))
}

#[test]
fn keep_defaults_to_ten_when_the_file_omits_it() {
    let (c, _) = parse("[backups]\ndir = \"/tmp/b\"\n", "c.toml").unwrap();
    assert_eq!(c.backups.keep, 10);
    assert_eq!(c.backups.dir, Some("/tmp/b".to_string()));
}

#[test]
fn parses_a_full_config() {
    let text = r#"
default_installation = "release"

[[roots]]
name = "backup"
path = "D:/MinecraftBackups/com.mojang"

[backups]
dir = "/Volumes/Spare/construct-backups"
keep = 3
"#;
    let (c, warnings) = parse(text, "c.toml").unwrap();
    assert_eq!(c.default_installation.as_deref(), Some("release"));
    assert_eq!(c.roots.len(), 1);
    assert_eq!(c.roots[0].name, "backup");
    assert_eq!(c.backups.keep, 3);
    assert!(warnings.is_empty());
}

#[test]
fn unknown_keys_warn_rather_than_fail() {
    let (c, warnings) = parse("nonsense = 1\ndefault_installation = \"release\"\n", "c.toml").unwrap();
    assert_eq!(c.default_installation.as_deref(), Some("release"));
    assert_eq!(warnings.len(), 1);
    assert!(
        warnings[0].contains("nonsense"),
        "warning should name the key: {}",
        warnings[0]
    );
}

#[test]
fn malformed_toml_is_an_error() {
    assert!(matches!(
        parse("this is not toml [[[", "c.toml"),
        Err(CoreError::BadConfig { .. })
    ));
}

#[test]
fn an_extra_root_must_be_named() {
    assert!(matches!(
        parse("[[roots]]\npath = \"/tmp/x\"\n", "c.toml"),
        Err(CoreError::BadConfig { .. })
    ));
}

#[test]
fn two_roots_with_the_same_name_are_rejected() {
    let text = r#"
[[roots]]
name = "backup"
path = "/tmp/backup1"

[[roots]]
name = "backup"
path = "/tmp/backup2"
"#;
    let result = parse(text, "c.toml");
    assert!(matches!(result, Err(CoreError::BadConfig { .. })));
    if let Err(CoreError::BadConfig { reason, .. }) = result {
        assert!(
            reason.contains("duplicate") && reason.contains("backup"),
            "error should mention duplicate and name: {}",
            reason
        );
    }
}

fn reserved_is_rejected(name: &str) {
    let text = format!("[[roots]]\nname = \"{name}\"\npath = \"/tmp/x\"\n");
    let result = parse(&text, "c.toml");
    assert!(matches!(result, Err(CoreError::BadConfig { .. })));
    if let Err(CoreError::BadConfig { reason, .. }) = result {
        assert!(
            reason.contains("reserved") && reason.contains(name),
            "error should mention reserved and {name}: {}",
            reason
        );
    }
}

#[test]
fn a_root_named_release_is_rejected_as_reserved() {
    reserved_is_rejected("release");
}

#[test]
fn a_root_named_path_is_rejected_as_reserved() {
    reserved_is_rejected("path");
}

#[test]
fn a_root_named_env_is_rejected_as_reserved() {
    reserved_is_rejected("env");
}

#[test]
fn a_valid_config_with_two_differently_named_roots_parses_cleanly() {
    let text = r#"
[[roots]]
name = "backup"
path = "/tmp/backup"

[[roots]]
name = "external"
path = "/tmp/external"
"#;
    let (c, warnings) = parse(text, "c.toml").unwrap();
    assert_eq!(c.roots.len(), 2);
    assert_eq!(c.roots[0].name, "backup");
    assert_eq!(c.roots[1].name, "external");
    assert!(warnings.is_empty());
}

#[test]
fn an_absent_file_yields_defaults_with_no_error() {
    let c = Config::default();
    assert_eq!(c.default_installation, None);
    assert!(c.roots.is_empty());
    assert_eq!(c.backups.keep, DEFAULT_KEEP);
    assert_eq!(DEFAULT_KEEP, 10);
}

#[test]
fn the_env_var_overrides_the_config_file() {
    let (mut c, _) = parse("default_installation = \"release\"\n", "c.toml").unwrap();
    let env = |k: &str| (k == "CONSTRUCT_INSTALLATION").then(|| "preview".to_string());
    apply_env(&mut c, &env);
    assert_eq!(c.default_installation.as_deref(), Some("preview"));
}

#[test]
fn construct_com_mojang_env_var_becomes_an_extra_root() {
    let mut c = Config::default();
    let env = |k: &str| (k == "CONSTRUCT_COM_MOJANG").then(|| "/tmp/env-root".to_string());
    apply_env(&mut c, &env);
    assert_eq!(c.roots.len(), 1);
    assert_eq!(c.roots[0].path, "/tmp/env-root");
    assert_eq!(c.roots[0].name, "env");
}

#[test]
fn adding_a_com_mojang_directory_numbers_the_root() {
    let mut c = Config::default();
    c.roots.push(ExtraRoot {
        name: "root1".to_string(),
        path: "/a/com.mojang".to_string(),
    });
    let r = add_path(&mut c, "/b/com.mojang", true, "/b/com.mojang".to_string(), false).unwrap();
    assert_eq!(r, (AddedPath::Root, true));
    assert_eq!(c.roots[1].name, "root2");
    let again = add_path(&mut c, "/b/com.mojang", true, "/b/com.mojang".to_string(), false).unwrap();
    assert_eq!(again, (AddedPath::Root, false));
    assert_eq!(c.roots.len(), 2);
}

#[test]
fn adding_a_world_directory_lists_it_once() {
    let mut c = Config::default();
    let r = add_path(&mut c, "/w/A", true, "/w/A".to_string(), true).unwrap();
    assert_eq!(r, (AddedPath::OtherWorld, true));
    let r = add_path(&mut c, "/w/A", true, "/w/A".to_string(), true).unwrap();
    assert_eq!(r, (AddedPath::OtherWorld, false));
    assert_eq!(c.other_worlds, vec!["/w/A".to_string()]);
}

#[test]
fn adding_anything_else_is_an_invalid_path() {
    let mut c = Config::default();
    assert!(matches!(
        add_path(&mut c, "/x", false, String::new(), false),
        Err(CoreError::InvalidPath { reason, .. }) if reason == "expected a directory"
    ));
    assert!(matches!(
        add_path(&mut c, "/x", true, "/x".to_string(), false),
        Err(CoreError::InvalidPath { .. })
    ));
}

#[test]
fn adding_the_same_world_twice_leaves_the_whole_config_alone() {
    let mut c = Config::default();
    c.default_installation = Some("preview".to_string());
    c.backups.keep = 3;
    c.backups.dir = Some("/bk".to_string());
    add_path(&mut c, "/w/A", true, "/w/A".to_string(), true).unwrap();
    let before = format!("{c:?}");
    let again = add_path(&mut c, "/w/A", true, "/w/A".to_string(), true).unwrap();
    assert_eq!(again, (AddedPath::OtherWorld, false));
    assert_eq!(format!("{c:?}"), before);
    assert_eq!(c.default_installation.as_deref(), Some("preview"));
    assert_eq!(c.backups.keep, 3);
}

#[test]
fn the_config_file_sits_in_its_directory() {
    assert_eq!(
        config_file_in("/home/u/.config/constructcli"),
        "/home/u/.config/constructcli/config.toml"
    );
    assert_eq!(config_file_in("/cfg/"), "/cfg/config.toml");
}
