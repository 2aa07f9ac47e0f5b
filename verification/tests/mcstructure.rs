use construct_core::mcstructure::decode::as_int_vec;
use construct_core::mcstructure::nbt::{nbt_eq, Nbt};
use construct_core::mcstructure::{self, Structure, VOID};
use std::collections::HashMap;

fn compound(pairs: Vec<(&str, nbtx::Value)>) -> nbtx::Value {
    nbtx::Value::Compound(
        pairs
            .into_iter()
            .map(|(k, v)| (k.to_string(), v))
            .collect::<HashMap<_, _>>(),
    )
}

fn int_list(v: &[i32]) -> nbtx::Value {
    nbtx::Value::List(v.iter().copied().map(nbtx::Value::Int).collect())
}

/// One entry of `block_palette`.
fn block(name: &str) -> nbtx::Value {
    compound(vec![
        ("name", nbtx::Value::String(name.to_string())),
        ("states", compound(vec![])),
        ("version", nbtx::Value::Int(18163713)),
    ])
}

/// A builder for `.mcstructure` NBT, so a test states a fixture's shape.
struct Build {
    size: [i32; 3],
    origin: [i32; 3],
    layer0: Vec<i32>,
    layer1: Vec<i32>,
    palette: Vec<nbtx::Value>,
    block_position_data: Vec<(String, nbtx::Value)>,
    entities: Vec<nbtx::Value>,
    format_version: i32,
}

impl Build {
    fn solid(size: [i32; 3], origin: [i32; 3], name: &str) -> Self {
        let volume = (size[0] * size[1] * size[2]) as usize;
        Self {
            size,
            origin,
            layer0: vec![0; volume],
            layer1: vec![-1; volume],
            palette: vec![block(name)],
            block_position_data: vec![],
            entities: vec![],
            format_version: 1,
        }
    }

    fn nbt(&self) -> nbtx::Value {
        let palette_default = compound(vec![
            ("block_palette", nbtx::Value::List(self.palette.clone())),
            (
                "block_position_data",
                nbtx::Value::Compound(
                    self.block_position_data
                        .iter()
                        .map(|(k, v)| (k.clone(), v.clone()))
                        .collect::<HashMap<_, _>>(),
                ),
            ),
        ]);
        let structure = compound(vec![
            (
                "block_indices",
                nbtx::Value::List(vec![int_list(&self.layer0), int_list(&self.layer1)]),
            ),
            ("entities", nbtx::Value::List(self.entities.clone())),
            ("palette", compound(vec![("default", palette_default)])),
        ]);
        compound(vec![
            ("format_version", nbtx::Value::Int(self.format_version)),
            ("size", int_list(&self.size)),
            ("structure", structure),
            ("structure_world_origin", int_list(&self.origin)),
        ])
    }

    fn bytes(&self) -> Vec<u8> {
        le_bytes(&self.nbt())
    }
}

/// Little-endian NBT for a fixture, written out by hand: `nbtx` 3.0.1 writes
/// an empty list without its element type and length, which no reader
/// accepts, and these fixtures are full of empty lists.
fn le_bytes(v: &nbtx::Value) -> Vec<u8> {
    let mut out = vec![tag_of(v), 0, 0];
    payload(v, &mut out);
    out
}

fn tag_of(v: &nbtx::Value) -> u8 {
    match v {
        nbtx::Value::Byte(_) => 1,
        nbtx::Value::Short(_) => 2,
        nbtx::Value::Int(_) => 3,
        nbtx::Value::Long(_) => 4,
        nbtx::Value::Float(_) => 5,
        nbtx::Value::Double(_) => 6,
        nbtx::Value::ByteArray(_) => 7,
        nbtx::Value::String(_) => 8,
        nbtx::Value::List(_) => 9,
        nbtx::Value::Compound(_) => 10,
        nbtx::Value::IntArray(_) => 11,
        nbtx::Value::LongArray(_) => 12,
    }
}

fn name(s: &str, out: &mut Vec<u8>) {
    out.extend_from_slice(&(s.len() as u16).to_le_bytes());
    out.extend_from_slice(s.as_bytes());
}

fn payload(v: &nbtx::Value, out: &mut Vec<u8>) {
    match v {
        nbtx::Value::Byte(x) => out.push(*x as u8),
        nbtx::Value::Short(x) => out.extend_from_slice(&x.to_le_bytes()),
        nbtx::Value::Int(x) => out.extend_from_slice(&x.to_le_bytes()),
        nbtx::Value::Long(x) => out.extend_from_slice(&x.to_le_bytes()),
        nbtx::Value::Float(x) => out.extend_from_slice(&x.to_le_bytes()),
        nbtx::Value::Double(x) => out.extend_from_slice(&x.to_le_bytes()),
        nbtx::Value::ByteArray(x) => {
            out.extend_from_slice(&(x.len() as i32).to_le_bytes());
            out.extend(x.iter().map(|b| *b as u8));
        }
        nbtx::Value::String(x) => name(x, out),
        nbtx::Value::List(x) => {
            out.push(x.first().map(tag_of).unwrap_or(0));
            out.extend_from_slice(&(x.len() as i32).to_le_bytes());
            for e in x {
                payload(e, out);
            }
        }
        nbtx::Value::Compound(m) => {
            for (k, e) in m {
                out.push(tag_of(e));
                name(k, out);
                payload(e, out);
            }
            out.push(0);
        }
        nbtx::Value::IntArray(x) => {
            out.extend_from_slice(&(x.len() as i32).to_le_bytes());
            for e in x {
                out.extend_from_slice(&e.to_le_bytes());
            }
        }
        nbtx::Value::LongArray(x) => {
            out.extend_from_slice(&(x.len() as i32).to_le_bytes());
            for e in x {
                out.extend_from_slice(&e.to_le_bytes());
            }
        }
    }
}

/// The tree back in `nbtx`'s terms, as the application writes it.
fn to_nbtx(v: &Nbt) -> nbtx::Value {
    match v {
        Nbt::Byte(x) => nbtx::Value::Byte(*x),
        Nbt::Short(x) => nbtx::Value::Short(*x),
        Nbt::Int(x) => nbtx::Value::Int(*x),
        Nbt::Long(x) => nbtx::Value::Long(*x),
        Nbt::Float(x) => nbtx::Value::Float(f32::from_bits(*x)),
        Nbt::Double(x) => nbtx::Value::Double(f64::from_bits(*x)),
        Nbt::ByteArray(x) => nbtx::Value::ByteArray(x.clone()),
        Nbt::String(x) => nbtx::Value::String(x.clone()),
        Nbt::List(x) => nbtx::Value::List(x.iter().map(to_nbtx).collect()),
        Nbt::Compound(m) => {
            nbtx::Value::Compound(m.iter().map(|(k, x)| (k.clone(), to_nbtx(x))).collect())
        }
        Nbt::IntArray(x) => nbtx::Value::IntArray(x.clone()),
        Nbt::LongArray(x) => nbtx::Value::LongArray(x.clone()),
    }
}

fn encode_bytes(s: &Structure, what: &str) -> Result<Vec<u8>, construct_core::CoreError> {
    let tree = mcstructure::encode(s, what)?;
    Ok(le_bytes(&to_nbtx(&tree)))
}

fn decode_value(v: &nbtx::Value) -> Result<Structure, construct_core::CoreError> {
    mcstructure::decode(&le_bytes(v), "test")
}

fn message(r: Result<Structure, construct_core::CoreError>) -> String {
    r.unwrap_err().message()
}

fn same_structure(a: &Structure, b: &Structure) {
    assert_eq!(a.format_version, b.format_version);
    assert_eq!(a.size, b.size);
    assert_eq!(a.origin, b.origin);
    assert_eq!(a.layers, b.layers);
    assert_eq!(a.palette.len(), b.palette.len());
    for (x, y) in a.palette.iter().zip(b.palette.iter()) {
        assert_eq!(x.name, y.name);
        assert_eq!(x.version, y.version);
        assert!(nbt_eq(&x.states, &y.states));
    }
    assert_eq!(a.block_position_data.len(), b.block_position_data.len());
    for (x, y) in a.block_position_data.iter().zip(b.block_position_data.iter()) {
        assert_eq!(x.0, y.0);
        assert!(nbt_eq(&x.1, &y.1));
    }
    assert_eq!(a.entities.len(), b.entities.len());
    for (x, y) in a.entities.iter().zip(b.entities.iter()) {
        assert!(nbt_eq(x, y));
    }
}

fn assert_round_trips(s: &Structure) {
    let bytes = encode_bytes(s, "test").unwrap();
    let again = mcstructure::decode(&bytes, "test").unwrap();
    same_structure(&again, s);
}

fn root_of(b: &Build) -> HashMap<String, nbtx::Value> {
    let nbtx::Value::Compound(root) = b.nbt() else {
        unreachable!()
    };
    root
}

fn compound_at(m: &HashMap<String, nbtx::Value>, key: &str) -> HashMap<String, nbtx::Value> {
    let nbtx::Value::Compound(inner) = m[key].clone() else {
        unreachable!()
    };
    inner
}

#[test]
fn a_single_block_structure_decodes() {
    let b = Build::solid([1, 1, 1], [10, 64, -3], "minecraft:stone");
    let s = mcstructure::decode(&b.bytes(), "test").unwrap();

    assert_eq!(s.format_version, 1);
    assert_eq!(s.size, mcstructure::Size { x: 1, y: 1, z: 1 });
    assert_eq!(s.origin, mcstructure::Coord { x: 10, y: 64, z: -3 });
    assert_eq!(s.layers[0], vec![0]);
    assert_eq!(s.layers[1], vec![VOID]);
    assert_eq!(s.palette.len(), 1);
    assert_eq!(s.palette[0].name, "minecraft:stone");
    assert_eq!(s.palette[0].version, 18163713);
    assert!(s.block_position_data.is_empty());
    assert!(s.entities.is_empty());
}

#[test]
fn the_second_layer_carries_waterlogging() {
    let mut b = Build::solid([1, 1, 1], [0, 0, 0], "minecraft:oak_fence");
    b.palette.push(block("minecraft:water"));
    b.layer1 = vec![1];
    let s = mcstructure::decode(&b.bytes(), "test").unwrap();

    assert_eq!(s.layers[0], vec![0]);
    assert_eq!(s.layers[1], vec![1]);
    assert_eq!(s.palette[1].name, "minecraft:water");
}

#[test]
fn void_gaps_decode_as_negative_one() {
    let mut b = Build::solid([2, 1, 1], [0, 0, 0], "minecraft:stone");
    b.layer0 = vec![0, VOID];
    let s = mcstructure::decode(&b.bytes(), "test").unwrap();
    assert_eq!(s.layers[0], vec![0, VOID]);
}

#[test]
fn block_position_data_decodes_keyed_by_index() {
    let mut b = Build::solid([2, 1, 1], [0, 0, 0], "minecraft:chest");
    b.block_position_data = vec![(
        "1".to_string(),
        compound(vec![(
            "block_entity_data",
            compound(vec![("id", nbtx::Value::String("Chest".into()))]),
        )]),
    )];
    let s = mcstructure::decode(&b.bytes(), "test").unwrap();

    assert_eq!(s.block_position_data.len(), 1);
    assert_eq!(s.block_position_data[0].0, 1usize);
}

#[test]
fn a_block_position_data_of_the_wrong_tag_type_is_refused_not_dropped() {
    let b = Build::solid([1, 1, 1], [0, 0, 0], "minecraft:chest");
    let mut root = root_of(&b);
    let mut structure = compound_at(&root, "structure");
    let mut palette = compound_at(&structure, "palette");
    let mut default = compound_at(&palette, "default");
    default.insert("block_position_data".into(), nbtx::Value::List(vec![]));
    palette.insert("default".into(), nbtx::Value::Compound(default));
    structure.insert("palette".into(), nbtx::Value::Compound(palette));
    root.insert("structure".into(), nbtx::Value::Compound(structure));

    let err = message(decode_value(&nbtx::Value::Compound(root)));
    assert!(err.contains("block_position_data"), "error must name the field: {err}");
}

#[test]
fn entities_decode_untouched() {
    let mut b = Build::solid([1, 1, 1], [0, 0, 0], "minecraft:air");
    b.entities = vec![compound(vec![
        ("identifier", nbtx::Value::String("minecraft:pig".into())),
        (
            "Pos",
            nbtx::Value::List(vec![
                nbtx::Value::Float(1.5),
                nbtx::Value::Float(64.0),
                nbtx::Value::Float(-2.5),
            ]),
        ),
    ])];
    let s = mcstructure::decode(&b.bytes(), "test").unwrap();
    assert_eq!(s.entities.len(), 1);
    assert_eq!(to_nbtx(&s.entities[0]), b.entities[0]);
}

#[test]
fn a_missing_required_field_is_refused() {
    let b = Build::solid([1, 1, 1], [0, 0, 0], "minecraft:stone");
    let mut root = root_of(&b);
    root.remove("size");
    let err = message(decode_value(&nbtx::Value::Compound(root)));
    assert!(err.contains("size"), "error must name the field: {err}");
}

#[test]
fn block_indices_with_other_than_two_layers_is_refused() {
    let b = Build::solid([1, 1, 1], [0, 0, 0], "minecraft:stone");
    let mut root = root_of(&b);
    let mut structure = compound_at(&root, "structure");
    structure.insert("block_indices".into(), nbtx::Value::List(vec![int_list(&[0])]));
    root.insert("structure".into(), nbtx::Value::Compound(structure));
    let err = message(decode_value(&nbtx::Value::Compound(root)));
    assert!(err.contains('2'), "error must say two are required: {err}");
}

#[test]
fn layers_of_different_lengths_are_refused() {
    let mut b = Build::solid([2, 1, 1], [0, 0, 0], "minecraft:stone");
    b.layer1 = vec![VOID];
    let err = message(mcstructure::decode(&b.bytes(), "test"));
    assert!(err.contains("same"), "error must say they must match: {err}");
}

#[test]
fn a_layer_length_that_disagrees_with_size_is_refused() {
    let mut b = Build::solid([2, 1, 1], [0, 0, 0], "minecraft:stone");
    b.layer0 = vec![0, 0, 0];
    b.layer1 = vec![VOID, VOID, VOID];
    let err = message(mcstructure::decode(&b.bytes(), "test"));
    assert!(err.contains("size"), "error must blame size: {err}");
}

#[test]
fn a_missing_default_palette_is_refused() {
    let b = Build::solid([1, 1, 1], [0, 0, 0], "minecraft:stone");
    let mut root = root_of(&b);
    let mut structure = compound_at(&root, "structure");
    structure.insert("palette".into(), compound(vec![]));
    root.insert("structure".into(), nbtx::Value::Compound(structure));
    let err = message(decode_value(&nbtx::Value::Compound(root)));
    assert!(
        err.contains("no blocks"),
        "error must give the dedicated no-default-palette reason: {err}"
    );
}

#[test]
fn a_negative_size_is_refused() {
    let b = Build::solid([1, 1, 1], [0, 0, 0], "minecraft:stone");
    let mut root = root_of(&b);
    root.insert("size".into(), int_list(&[-1, 1, 1]));
    let err = message(decode_value(&nbtx::Value::Compound(root)));
    assert!(
        err.contains("negative dimension"),
        "error must name the negative dimension, not just any failure: {err}"
    );
}

#[test]
fn bytes_that_are_not_nbt_at_all_are_refused_by_name() {
    let err = mcstructure::decode(b"not nbt", "broken.mcstructure").unwrap_err();
    assert!(
        err.message().contains("broken.mcstructure"),
        "the error must name the file: {}",
        err.message()
    );
}

#[test]
fn a_single_block_structure_round_trips() {
    let b = Build::solid([1, 1, 1], [10, 64, -3], "minecraft:stone");
    assert_round_trips(&mcstructure::decode(&b.bytes(), "test").unwrap());
}

#[test]
fn a_waterlogged_structure_round_trips() {
    let mut b = Build::solid([1, 1, 1], [0, 0, 0], "minecraft:oak_fence");
    b.palette.push(block("minecraft:water"));
    b.layer1 = vec![1];
    assert_round_trips(&mcstructure::decode(&b.bytes(), "test").unwrap());
}

#[test]
fn a_structure_with_void_gaps_round_trips() {
    let mut b = Build::solid([3, 1, 1], [0, 0, 0], "minecraft:stone");
    b.layer0 = vec![0, VOID, 0];
    assert_round_trips(&mcstructure::decode(&b.bytes(), "test").unwrap());
}

#[test]
fn a_structure_with_block_entities_round_trips() {
    let mut b = Build::solid([2, 1, 1], [0, 0, 0], "minecraft:chest");
    b.block_position_data = vec![(
        "1".to_string(),
        compound(vec![(
            "block_entity_data",
            compound(vec![("id", nbtx::Value::String("Chest".into()))]),
        )]),
    )];
    assert_round_trips(&mcstructure::decode(&b.bytes(), "test").unwrap());
}

#[test]
fn a_structure_with_entities_round_trips() {
    let mut b = Build::solid([1, 1, 1], [0, 0, 0], "minecraft:air");
    b.entities = vec![compound(vec![
        ("identifier", nbtx::Value::String("minecraft:pig".into())),
        (
            "Pos",
            nbtx::Value::List(vec![
                nbtx::Value::Float(1.5),
                nbtx::Value::Float(64.0),
                nbtx::Value::Float(-2.5),
            ]),
        ),
    ])];
    assert_round_trips(&mcstructure::decode(&b.bytes(), "test").unwrap());
}

#[test]
fn an_empty_entity_list_survives_encoding() {
    let b = Build::solid([1, 1, 1], [0, 0, 0], "minecraft:stone");
    let s = mcstructure::decode(&b.bytes(), "test").unwrap();
    assert!(s.entities.is_empty());
    let bytes = encode_bytes(&s, "test").unwrap();
    assert!(mcstructure::decode(&bytes, "test").is_ok());
}

#[test]
fn encoding_refuses_a_structure_whose_layers_disagree_with_its_size() {
    let b = Build::solid([2, 1, 1], [0, 0, 0], "minecraft:stone");
    let mut s = mcstructure::decode(&b.bytes(), "test").unwrap();
    s.layers[0].push(0);
    let err = mcstructure::encode(&s, "test").unwrap_err().message();
    assert!(err.contains("size"), "{err}");
}

#[test]
fn encoding_refuses_a_palette_index_out_of_range() {
    let b = Build::solid([1, 1, 1], [0, 0, 0], "minecraft:stone");
    let mut s = mcstructure::decode(&b.bytes(), "test").unwrap();
    s.layers[0] = vec![5];
    let err = mcstructure::encode(&s, "test").unwrap_err().message();
    assert!(err.contains("palette"), "{err}");
}

#[test]
fn encoding_refuses_a_negative_size_dimension() {
    let s = Structure {
        format_version: 1,
        size: mcstructure::Size { x: -5, y: 3, z: 2 },
        origin: mcstructure::Coord { x: 0, y: 0, z: 0 },
        layers: [vec![], vec![]],
        palette: vec![],
        block_position_data: Default::default(),
        entities: vec![],
    };
    let err = mcstructure::encode(&s, "test").unwrap_err().message();
    assert!(
        err.contains("negative dimension"),
        "error must mention negative dimension: {err}"
    );
    assert!(err.contains("-5"), "error must name the negative value: {err}");
}

#[test]
fn deeply_nested_nbt_is_refused_rather_than_overflowing_the_stack() {
    let depth = 50_000;
    let mut bytes = Vec::new();
    for _ in 0..depth {
        bytes.extend_from_slice(&[0x0a, 0x01, 0x00, b'a']);
    }
    bytes.resize(bytes.len() + depth, 0x00);
    let err = mcstructure::decode(&bytes, "deep.mcstructure").unwrap_err();
    assert!(
        err.message().contains("deep.mcstructure"),
        "the refusal must name the file: {}",
        err.message()
    );
}

#[test]
fn nesting_within_the_limit_is_read() {
    let mut v = nbtx::Value::Int(1);
    for _ in 0..100 {
        v = compound(vec![("a", v)]);
    }
    let bytes = le_bytes(&v);
    assert!(!construct_core::mcstructure::codec::nests_too_deep(&bytes));
    let mut deep = nbtx::Value::Int(1);
    for _ in 0..200 {
        deep = compound(vec![("a", deep)]);
    }
    let bytes = le_bytes(&deep);
    assert!(construct_core::mcstructure::codec::nests_too_deep(&bytes));
}

#[test]
fn a_run_of_ints_reads_the_same_as_a_list_or_an_int_array() {
    let list = Nbt::List(vec![Nbt::Int(1), Nbt::Int(-1)]);
    let array = Nbt::IntArray(vec![1, -1]);
    assert_eq!(as_int_vec(&list, "layer", "test").unwrap(), vec![1, -1]);
    assert_eq!(as_int_vec(&array, "layer", "test").unwrap(), vec![1, -1]);
    assert!(as_int_vec(&Nbt::List(vec![Nbt::Byte(1)]), "layer", "test").is_err());
}

fn reason_of<T>(r: Result<T, construct_core::CoreError>) -> String {
    match r {
        Err(construct_core::CoreError::BadStructureFile { reason, .. }) => reason,
        _ => panic!("expected a malformed-structure refusal"),
    }
}

#[test]
fn decode_names_both_layer_lengths_when_they_differ() {
    let mut b = Build::solid([2, 1, 1], [0, 0, 0], "minecraft:stone");
    b.layer1 = vec![VOID];
    let reason = reason_of(mcstructure::decode(&b.bytes(), "test"));
    assert_eq!(reason, "the two block_indices layers must be the same length: 2 and 1");
}

#[test]
fn decode_names_the_size_when_the_layers_disagree_with_it() {
    let mut b = Build::solid([2, 1, 1], [0, 0, 0], "minecraft:stone");
    b.layer0 = vec![0, 0, 0];
    b.layer1 = vec![VOID, VOID, VOID];
    let reason = reason_of(mcstructure::decode(&b.bytes(), "test"));
    assert_eq!(reason, "block_indices has 3 entries but size [2, 1, 1] needs 2");
}

#[test]
fn decode_quotes_a_bad_block_data_key_as_debug_does() {
    let b = Build::solid([1, 1, 1], [0, 0, 0], "minecraft:stone");
    let mut root = root_of(&b);
    let mut structure = compound_at(&root, "structure");
    let mut palette = compound_at(&structure, "palette");
    let mut default = compound_at(&palette, "default");
    default.insert(
        "block_position_data".into(),
        compound(vec![("a\"b", compound(vec![]))]),
    );
    palette.insert("default".into(), nbtx::Value::Compound(default));
    structure.insert("palette".into(), nbtx::Value::Compound(palette));
    root.insert("structure".into(), nbtx::Value::Compound(structure));
    let reason = reason_of(decode_value(&nbtx::Value::Compound(root)));
    assert_eq!(reason, "block_position_data key \"a\\\"b\" is not a block index");
}

#[test]
fn encode_names_the_layer_its_length_and_the_size() {
    let b = Build::solid([2, 1, 1], [0, 0, 0], "minecraft:stone");
    let mut s = mcstructure::decode(&b.bytes(), "test").unwrap();
    s.layers[1].push(VOID);
    let reason = reason_of(mcstructure::encode(&s, "test"));
    assert_eq!(reason, "layer 1 has 3 entries but size [2, 1, 1] needs 2");
}

#[test]
fn encode_names_the_missing_palette_entry() {
    let b = Build::solid([1, 1, 1], [0, 0, 0], "minecraft:stone");
    let mut s = mcstructure::decode(&b.bytes(), "test").unwrap();
    s.layers[0] = vec![5];
    let reason = reason_of(mcstructure::encode(&s, "test"));
    assert_eq!(reason, "layer 0 refers to palette entry 5, but the palette has 1");
}

#[test]
fn encode_names_a_block_data_index_outside_the_structure() {
    let b = Build::solid([1, 1, 1], [0, 0, 0], "minecraft:stone");
    let mut s = mcstructure::decode(&b.bytes(), "test").unwrap();
    s.block_position_data = vec![(4, Nbt::Compound(vec![]))];
    let reason = reason_of(mcstructure::encode(&s, "test"));
    assert_eq!(reason, "block_position_data index 4 is outside the structure");
}

#[test]
fn encode_names_every_dimension_of_a_negative_size() {
    let s = Structure {
        format_version: 1,
        size: mcstructure::Size { x: 1, y: -2, z: 3 },
        origin: mcstructure::Coord { x: 0, y: 0, z: 0 },
        layers: [vec![], vec![]],
        palette: vec![],
        block_position_data: Default::default(),
        entities: vec![],
    };
    let reason = reason_of(mcstructure::encode(&s, "test"));
    assert_eq!(reason, "size has a negative dimension: [1, -2, 3]");
}
