use construct_core::pack::manifest::{from_header, version_string, Manifest, PackKind};
use construct_core::CoreError;

/// The JSON side of reading a manifest, as the application does it: the
/// library takes over once the header's fields are in hand.
fn parse(text: &str, path: &str) -> Result<Manifest, CoreError> {
    let bad = |reason: String| CoreError::BadPack {
        path: path.to_string(),
        reason,
    };
    let raw: serde_json::Value = serde_json::from_str(text).map_err(|e| bad(e.to_string()))?;
    let header = raw
        .get("header")
        .ok_or_else(|| bad("missing field `header`".to_string()))?;
    let name = header.get("name").and_then(|v| v.as_str()).unwrap_or("").to_string();
    let uuid = header
        .get("uuid")
        .and_then(|v| v.as_str())
        .ok_or_else(|| bad("missing field `uuid`".to_string()))?
        .to_string();
    let version: Vec<u32> = header
        .get("version")
        .and_then(|v| v.as_array())
        .ok_or_else(|| bad("missing field `version`".to_string()))?
        .iter()
        .map(|n| n.as_u64().map(|n| n as u32).ok_or_else(|| bad("bad version".to_string())))
        .collect::<Result<_, _>>()?;
    let types: Vec<String> = raw
        .get("modules")
        .and_then(|m| m.as_array())
        .map(|m| {
            m.iter()
                .map(|x| x.get("type").and_then(|t| t.as_str()).unwrap_or("").to_string())
                .collect()
        })
        .unwrap_or_default();
    from_header(name, uuid, version, &types, path)
}

const BP: &str = r#"{
    "format_version": 2,
    "header": {
        "name": "Construct [BP] v1.2.0",
        "uuid": "8c0c0153-d8b9-482a-889f-aef922b8fe58",
        "min_engine_version": [1, 26, 40],
        "version": [1, 2, 0]
    },
    "modules": [
        { "type": "data", "uuid": "f4d52ae1-2c26-4938-b8c2-7e455d495620", "version": [1, 0, 0] },
        { "type": "script", "language": "javascript", "entry": "scripts/main.js",
          "uuid": "8bb9a1e4-0531-4b93-8ade-3880bfe1e2fc", "version": [1, 0, 0] }
    ],
    "dependencies": [ { "module_name": "@minecraft/server", "version": "2.10.0-beta" } ]
}"#;

const RP: &str = r#"{
    "format_version": 2,
    "header": {
        "name": "Construct [RP] v1.2.0",
        "uuid": "375ec465-3dc1-429f-8b4c-a337889e1ed4",
        "version": [1, 2, 0],
        "min_engine_version": [1, 26, 40]
    },
    "modules": [ { "type": "resources", "uuid": "7f6b23df-a583-476b-b0e4-87457e65f7c0", "version": [1, 0, 0] } ],
    "capabilities": [ "pbr" ]
}"#;

#[test]
fn reads_the_real_behaviour_pack_manifest() {
    let m = parse(BP, "manifest").unwrap();
    assert_eq!(m.uuid, "8c0c0153-d8b9-482a-889f-aef922b8fe58");
    assert_eq!(m.version, [1, 2, 0]);
    assert_eq!(m.kind, PackKind::Behavior);
    assert_eq!(m.name, "Construct [BP] v1.2.0");
}

#[test]
fn a_module_of_type_resources_makes_it_a_resource_pack() {
    assert_eq!(parse(RP, "m").unwrap().kind, PackKind::Resource);
}

#[test]
fn a_dependency_module_name_does_not_break_parsing() {
    assert!(parse(BP, "m").is_ok());
}

#[test]
fn a_missing_header_is_a_bad_pack_not_a_panic() {
    let err = parse(r#"{"format_version": 2}"#, "m").unwrap_err();
    assert!(matches!(err, CoreError::BadPack { .. }), "got {err:?}");
}

#[test]
fn malformed_json_names_the_file() {
    let err = parse("{ not json", "/packs/Thing/manifest").unwrap_err();
    let CoreError::BadPack { path, .. } = err else {
        panic!("expected BadPack")
    };
    assert_eq!(path, "/packs/Thing/manifest");
}

#[test]
fn a_two_part_version_is_rejected_rather_than_padded() {
    let text = r#"{"header":{"name":"x","uuid":"u","version":[1,2]},"modules":[{"type":"data"}]}"#;
    assert!(parse(text, "m").is_err());
}

#[test]
fn version_string_is_dotted() {
    assert_eq!(version_string([1, 2, 0]), "1.2.0");
}

#[test]
fn a_refused_version_is_listed_in_the_reason() {
    let err = from_header("x".into(), "u".into(), vec![1, 2], &vec![], "p").unwrap_err();
    let CoreError::BadPack { path, reason } = err else {
        panic!("expected BadPack")
    };
    assert_eq!(path, "p");
    assert_eq!(reason, "header version is not three numbers: [1, 2]");
    let err = from_header("x".into(), "u".into(), vec![], &vec![], "p").unwrap_err();
    assert!(matches!(err, CoreError::BadPack { reason, .. } if reason.ends_with("[]")));
}
