use construct_core::mcstructure::nbt::Nbt;
use construct_core::mcstructure::{BlockState, Coord, Size, Structure};
use construct_core::merge::unify_palettes;

fn state(name: &str) -> BlockState {
    BlockState {
        name: name.to_string(),
        states: Nbt::Compound(vec![]),
        version: 1,
    }
}

fn piece(palette: Vec<BlockState>) -> Structure {
    Structure {
        format_version: 1,
        size: Size { x: 1, y: 1, z: 1 },
        origin: Coord { x: 0, y: 0, z: 0 },
        layers: [vec![0], vec![-1]],
        palette,
        block_position_data: vec![],
        entities: vec![],
    }
}

#[test]
fn identical_blocks_collapse_to_one_entry() {
    let a = piece(vec![state("minecraft:stone")]);
    let b = piece(vec![state("minecraft:stone")]);
    let (palette, remaps) = unify_palettes(&[a, b]);
    assert_eq!(palette.len(), 1);
    assert_eq!(remaps, vec![vec![0], vec![0]]);
}

#[test]
fn different_blocks_each_get_an_entry_in_first_seen_order() {
    let a = piece(vec![state("minecraft:stone"), state("minecraft:dirt")]);
    let b = piece(vec![state("minecraft:dirt"), state("minecraft:oak_log")]);
    let (palette, remaps) = unify_palettes(&[a, b]);
    assert_eq!(
        palette.iter().map(|p| p.name.as_str()).collect::<Vec<_>>(),
        vec!["minecraft:stone", "minecraft:dirt", "minecraft:oak_log"]
    );
    assert_eq!(remaps, vec![vec![0, 1], vec![1, 2]]);
}

#[test]
fn blocks_differing_only_in_states_stay_distinct() {
    let mut open = state("minecraft:oak_door");
    open.states = Nbt::Compound(vec![("open_bit".to_string(), Nbt::Byte(1))]);
    let shut = state("minecraft:oak_door");
    let (palette, remaps) = unify_palettes(&[piece(vec![open, shut])]);
    assert_eq!(palette.len(), 2);
    assert_eq!(remaps, vec![vec![0, 1]]);
}

#[test]
fn blocks_differing_only_in_version_stay_distinct() {
    let mut older = state("minecraft:stone");
    older.version = 17879555;
    let newer = state("minecraft:stone");
    let (palette, _) = unify_palettes(&[piece(vec![older, newer])]);
    assert_eq!(palette.len(), 2);
}

#[test]
fn states_compare_regardless_of_entry_order() {
    let mut a = state("minecraft:oak_door");
    a.states = Nbt::Compound(vec![
        ("open_bit".to_string(), Nbt::Byte(1)),
        ("direction".to_string(), Nbt::Int(2)),
    ]);
    let mut b = state("minecraft:oak_door");
    b.states = Nbt::Compound(vec![
        ("direction".to_string(), Nbt::Int(2)),
        ("open_bit".to_string(), Nbt::Byte(1)),
    ]);
    let (palette, remaps) = unify_palettes(&[piece(vec![a]), piece(vec![b])]);
    assert_eq!(palette.len(), 1);
    assert_eq!(remaps, vec![vec![0], vec![0]]);
}
