use construct_core::leveldat::{apply_beta_apis, confirm_beta_apis, parse, BetaApisChange, LevelDat};
use construct_core::mcstructure::nbt::Nbt;
use construct_core::CoreError;
use std::collections::HashMap;

/// Build a level.dat: 8-byte header then a little-endian NBT compound.
fn build(version: i32, root: nbtx::Value) -> Vec<u8> {
    let payload = nbtx::to_le_bytes(&root).unwrap();
    let mut out = Vec::new();
    out.extend_from_slice(&version.to_le_bytes());
    out.extend_from_slice(&(payload.len() as i32).to_le_bytes());
    out.extend_from_slice(&payload);
    out
}

fn compound(pairs: Vec<(&str, nbtx::Value)>) -> nbtx::Value {
    nbtx::Value::Compound(
        pairs
            .into_iter()
            .map(|(k, v)| (k.to_string(), v))
            .collect::<HashMap<_, _>>(),
    )
}

fn experiments(entries: &[(&str, i8)]) -> nbtx::Value {
    let mut inner = HashMap::new();
    for (k, v) in entries {
        inner.insert(k.to_string(), nbtx::Value::Byte(*v));
    }
    let mut root = HashMap::new();
    root.insert("experiments".to_string(), nbtx::Value::Compound(inner));
    root.insert("LevelName".to_string(), nbtx::Value::String("Test".into()));
    nbtx::Value::Compound(root)
}

/// The tree back in `nbtx`'s terms, so a test can write what it changed.
fn to_nbtx(v: &Nbt) -> nbtx::Value {
    match v {
        Nbt::Byte(x) => nbtx::Value::Byte(*x),
        Nbt::Short(x) => nbtx::Value::Short(*x),
        Nbt::Int(x) => nbtx::Value::Int(*x),
        Nbt::Long(x) => nbtx::Value::Long(*x),
        Nbt::Float(x) => nbtx::Value::Float(f32::from_bits(*x)),
        Nbt::Double(x) => nbtx::Value::Double(f64::from_bits(*x)),
        Nbt::ByteArray(x) => nbtx::Value::ByteArray(x.clone()),
        Nbt::String(x) => nbtx::Value::String(x.clone()),
        Nbt::List(x) => nbtx::Value::List(x.iter().map(to_nbtx).collect()),
        Nbt::Compound(m) => {
            nbtx::Value::Compound(m.iter().map(|(k, x)| (k.clone(), to_nbtx(x))).collect())
        }
        Nbt::IntArray(x) => nbtx::Value::IntArray(x.clone()),
        Nbt::LongArray(x) => nbtx::Value::LongArray(x.clone()),
    }
}

fn written(dat: &LevelDat) -> Result<Vec<u8>, CoreError> {
    let payload = nbtx::to_le_bytes(&to_nbtx(&dat.root)).unwrap();
    dat.to_bytes(&payload)
}

fn get(flags: &[(String, i8)], key: &str) -> Option<i8> {
    flags.iter().find(|(k, _)| k == key).map(|(_, v)| *v)
}

#[test]
fn reads_last_played() {
    let bytes = build(
        10,
        compound(vec![("LastPlayed", nbtx::Value::Long(1741501762))]),
    );
    let dat = parse(&bytes, "x").unwrap();
    assert_eq!(dat.version, 10);
    assert_eq!(dat.last_played(), Some(1741501762));
}

#[test]
fn missing_last_played_is_none() {
    let bytes = build(10, compound(vec![("SomethingElse", nbtx::Value::Int(1))]));
    assert_eq!(parse(&bytes, "x").unwrap().last_played(), None);
}

#[test]
fn reads_all_three_experiment_flags() {
    let experiments = compound(vec![
        ("experiments_ever_used", nbtx::Value::Byte(1)),
        ("gametest", nbtx::Value::Byte(1)),
        ("saved_with_toggled_experiments", nbtx::Value::Byte(1)),
    ]);
    let bytes = build(10, compound(vec![("experiments", experiments)]));
    let got = parse(&bytes, "x").unwrap().experiments().unwrap();
    assert_eq!(get(&got, "gametest"), Some(1));
    assert_eq!(get(&got, "experiments_ever_used"), Some(1));
    assert_eq!(get(&got, "saved_with_toggled_experiments"), Some(1));
}

#[test]
fn preserves_unrelated_experiment_siblings() {
    let experiments = compound(vec![
        ("gametest", nbtx::Value::Byte(1)),
        ("data_driven_biomes", nbtx::Value::Byte(1)),
    ]);
    let bytes = build(10, compound(vec![("experiments", experiments)]));
    let got = parse(&bytes, "x").unwrap().experiments().unwrap();
    assert_eq!(get(&got, "data_driven_biomes"), Some(1));
    assert_eq!(got.len(), 2);
}

#[test]
fn no_experiments_compound_is_none() {
    let bytes = build(10, compound(vec![("LastPlayed", nbtx::Value::Long(1))]));
    assert_eq!(parse(&bytes, "x").unwrap().experiments(), None);
}

#[test]
fn rejects_a_file_too_short_for_the_header() {
    let err = parse(&[0u8; 4], "x").unwrap_err();
    assert!(matches!(err, CoreError::BadLevelDat { .. }));
}

#[test]
fn rejects_a_declared_length_longer_than_the_file() {
    let mut bytes = build(10, compound(vec![("LastPlayed", nbtx::Value::Long(1))]));
    bytes[4..8].copy_from_slice(&9999i32.to_le_bytes());
    let err = parse(&bytes, "x").unwrap_err();
    assert!(matches!(err, CoreError::BadLevelDat { .. }));
}

#[test]
fn rejects_garbage_payload_bytes() {
    let mut bytes = Vec::new();
    bytes.extend_from_slice(&10i32.to_le_bytes());
    bytes.extend_from_slice(&64i32.to_le_bytes());
    bytes.extend_from_slice(&[0xff; 64]);
    let err = parse(&bytes, "x").unwrap_err();
    assert!(matches!(err, CoreError::BadLevelDat { .. }));
}

#[test]
fn rejects_truncated_tag_compound_in_mid_name() {
    let mut bytes = Vec::new();
    bytes.extend_from_slice(&10i32.to_le_bytes());
    bytes.extend_from_slice(&3i32.to_le_bytes());
    bytes.push(0x0a);
    bytes.push(0x00);
    bytes.push(0x05);
    let err = parse(&bytes, "x").unwrap_err();
    assert!(matches!(err, CoreError::BadLevelDat { .. }));
}

#[test]
fn rejects_invalid_tag_id() {
    let mut bytes = Vec::new();
    bytes.extend_from_slice(&10i32.to_le_bytes());
    bytes.extend_from_slice(&2i32.to_le_bytes());
    bytes.push(0xFF);
    bytes.push(0x00);
    let err = parse(&bytes, "x").unwrap_err();
    assert!(matches!(err, CoreError::BadLevelDat { .. }));
}

#[test]
fn a_malformed_file_is_named_in_the_error() {
    let err = parse(&[0u8; 4], "worlds/a/level.dat").unwrap_err();
    assert!(err.message().contains("worlds/a/level.dat"));
    assert_eq!(err.kind(), "bad-level-dat");
}

#[test]
fn enabling_creates_the_compound_when_a_world_has_none() {
    let mut root = HashMap::new();
    root.insert("LevelName".to_string(), nbtx::Value::String("Test".into()));
    let bytes = build(10, nbtx::Value::Compound(root));
    let mut dat = parse(&bytes, "level.dat").unwrap();

    assert_eq!(dat.beta_apis(), None);
    dat.set_beta_apis(true);
    let got = dat.experiments().unwrap();
    assert_eq!(get(&got, "gametest"), Some(1));
    assert_eq!(get(&got, "experiments_ever_used"), Some(1));
    assert_eq!(get(&got, "saved_with_toggled_experiments"), Some(1));
}

#[test]
fn enabling_a_world_that_already_has_it_changes_nothing() {
    let bytes = build(
        10,
        experiments(&[
            ("experiments_ever_used", 1),
            ("gametest", 1),
            ("saved_with_toggled_experiments", 1),
        ]),
    );
    let mut dat = parse(&bytes, "level.dat").unwrap();
    let before = dat.experiments().unwrap();
    dat.set_beta_apis(true);
    assert_eq!(dat.experiments().unwrap(), before);
}

#[test]
fn disabling_clears_only_gametest() {
    let bytes = build(
        10,
        experiments(&[
            ("experiments_ever_used", 1),
            ("gametest", 1),
            ("saved_with_toggled_experiments", 1),
        ]),
    );
    let mut dat = parse(&bytes, "level.dat").unwrap();
    dat.set_beta_apis(false);

    let after = dat.experiments().unwrap();
    assert_eq!(get(&after, "gametest"), Some(0));
    assert_eq!(get(&after, "experiments_ever_used"), Some(1));
    assert_eq!(get(&after, "saved_with_toggled_experiments"), Some(1));
}

#[test]
fn unrelated_experiments_survive_the_flip() {
    let bytes = build(
        10,
        experiments(&[
            ("data_driven_biomes", 1),
            ("upcoming_creator_features", 1),
            ("gametest", 0),
        ]),
    );
    let mut dat = parse(&bytes, "level.dat").unwrap();
    dat.set_beta_apis(true);

    let after = dat.experiments().unwrap();
    assert_eq!(get(&after, "data_driven_biomes"), Some(1));
    assert_eq!(get(&after, "upcoming_creator_features"), Some(1));
    assert_eq!(get(&after, "gametest"), Some(1));
}

#[test]
fn a_file_that_cannot_round_trip_refuses_to_be_written() {
    // { "gaps": List([]) }: the writer drops an empty list's element type and
    // length, so this payload cannot be written back faithfully.
    let payload: Vec<u8> = vec![
        0x0a, 0x00, 0x00, 0x09, 0x04, 0x00, b'g', b'a', b'p', b's', 0x00, 0x00, 0x00, 0x00, 0x00,
        0x00,
    ];
    let mut bytes = 10i32.to_le_bytes().to_vec();
    bytes.extend_from_slice(&(payload.len() as i32).to_le_bytes());
    bytes.extend_from_slice(&payload);

    let dat = parse(&bytes, "level.dat").unwrap();

    assert!(!dat.is_faithful());
    assert!(matches!(
        dat.to_bytes(&payload),
        Err(CoreError::UnwritableLevelDat { written: false, .. })
    ));
}

#[test]
fn an_ordinary_file_round_trips_and_reports_the_new_state() {
    let bytes = build(10, experiments(&[("gametest", 0)]));
    let mut dat = parse(&bytes, "level.dat").unwrap();
    assert!(dat.is_faithful());

    let change = apply_beta_apis(&mut dat, true);
    assert_eq!(change.before, Some(false));
    assert!(change.after);
    assert!(change.changed);

    let out = written(&dat).unwrap();
    let reread = parse(&out, "level.dat").unwrap();
    assert_eq!(reread.beta_apis(), Some(true));
    assert_eq!(reread.version, 10);
    assert!(matches!(
        confirm_beta_apis(change, reread.beta_apis(), "level.dat"),
        Ok(c) if c == change
    ));
}

#[test]
fn applying_the_state_a_world_already_has_reports_no_change() {
    let bytes = build(
        10,
        experiments(&[
            ("experiments_ever_used", 1),
            ("gametest", 1),
            ("saved_with_toggled_experiments", 1),
        ]),
    );
    let mut dat = parse(&bytes, "level.dat").unwrap();
    let change = apply_beta_apis(&mut dat, true);
    assert!(!change.changed);
    assert_eq!(change.before, Some(true));
}

#[test]
fn the_header_is_framed_little_endian() {
    let bytes = build(10, compound(vec![("LastPlayed", nbtx::Value::Long(7))]));
    let dat = parse(&bytes, "level.dat").unwrap();
    assert_eq!(dat.payload_len(), bytes.len() - 8);
    let out = written(&dat).unwrap();
    assert_eq!(&out[0..4], &10i32.to_le_bytes());
    assert_eq!(out.len(), bytes.len());
    assert_eq!(&out[4..8], &((bytes.len() - 8) as i32).to_le_bytes());
}

#[test]
fn a_read_back_that_did_not_take_is_an_error_after_the_write() {
    let change = BetaApisChange { before: Some(false), after: true, changed: true };
    let err = confirm_beta_apis(change, Some(false), "w/level.dat").unwrap_err();
    match err {
        CoreError::UnwritableLevelDat { path, reason, written } => {
            assert_eq!(path, "w/level.dat");
            assert_eq!(reason, "wrote the Beta APIs flag but read back Some(false)");
            assert!(written);
        }
        other => panic!("unexpected {other:?}"),
    }
}
