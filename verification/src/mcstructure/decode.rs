//! Reading a decoded `.mcstructure` NBT tree into a [`Structure`].
//!
//! The validation mirrors the load-time rules the game itself enforces:
//! exactly two index layers, both the same length, that length equal to the
//! product of `size`, and a `default` palette present. Two checks go beyond
//! that: a negative `size` dimension is rejected outright, and a
//! `block_position_data` key at or past the volume is rejected too.
use super::blockdata::{data_view, put, sorted_keys};
use super::geometry::{Coord, Size};
use super::codec::{le_value, read, read_problem};
use super::nbt::{field_of, get_field, same_up_to_order, Nbt, NbtV};
use crate::error::CoreError;
use crate::text::{cat, cat3, debug_str, decimal, int_text, nat_text, parse_usize, parse_usize_spec, str_debug, triple_text, triple_text_of};
use vstd::prelude::*;

verus! {

broadcast use vstd::std_specs::vec::group_vec_axioms;

/// The index meaning "no block here": existing terrain is left untouched.
pub const VOID: i32 = -1;

/// One entry of `block_palette`.
#[derive(Debug)]
pub struct BlockState {
    pub name: String,
    /// Kept as raw NBT: this tool only compares state values.
    pub states: Nbt,
    pub version: i32,
}

/// The model of a [`BlockState`].
pub struct BlockStateV {
    pub name: Seq<char>,
    pub states: NbtV,
    pub version: i32,
}

impl View for BlockState {
    type V = BlockStateV;

    open spec fn view(&self) -> BlockStateV {
        BlockStateV { name: self.name@, states: self.states.deep(), version: self.version }
    }
}

/// A decoded `.mcstructure`.
#[derive(Debug)]
pub struct Structure {
    pub format_version: i32,
    pub size: Size,
    /// Where in the world this was saved.
    pub origin: Coord,
    /// The two index layers, each `size.volume()` long.
    pub layers: [Vec<i32>; 2],
    pub palette: Vec<BlockState>,
    /// Extra per-block data, sorted by flattened block index, one entry per index.
    pub block_position_data: Vec<(usize, Nbt)>,
    /// Entities as raw NBT, exactly as stored.
    pub entities: Vec<Nbt>,
}

/// The model of a [`Structure`].
pub struct StructureV {
    pub format_version: i32,
    pub size: Size,
    pub origin: Coord,
    pub layer0: Seq<i32>,
    pub layer1: Seq<i32>,
    pub palette: Seq<BlockStateV>,
    pub block_position_data: Seq<(usize, NbtV)>,
    pub entities: Seq<NbtV>,
}

pub open spec fn palette_view(p: Seq<BlockState>) -> Seq<BlockStateV> {
    Seq::new(p.len(), |i: int| p[i]@)
}

pub open spec fn list_view(l: Seq<Nbt>) -> Seq<NbtV> {
    Seq::new(l.len(), |i: int| l[i].deep())
}

impl View for Structure {
    type V = StructureV;

    open spec fn view(&self) -> StructureV {
        StructureV {
            format_version: self.format_version,
            size: self.size,
            origin: self.origin,
            layer0: self.layers[0]@,
            layer1: self.layers[1]@,
            palette: palette_view(self.palette@),
            block_position_data: data_view(self.block_position_data@),
            entities: list_view(self.entities@),
        }
    }
}

/// The error raised for a malformed structure named `what`.
pub open spec fn bad_structure(e: CoreError, what: Seq<char>) -> bool {
    e matches CoreError::BadStructureFile { what: w, .. } && w@ == what
}

pub open spec fn int_of(v: Option<NbtV>) -> Option<i32> {
    match v {
        Some(NbtV::Int(i)) => Some(i),
        _ => None,
    }
}

pub open spec fn triple_of(v: Option<NbtV>) -> Option<(i32, i32, i32)> {
    match v {
        Some(NbtV::List(l)) => if l.len() == 3 && l[0] is Int && l[1] is Int && l[2] is Int {
            Some((l[0]->Int_0, l[1]->Int_0, l[2]->Int_0))
        } else {
            None
        },
        _ => None,
    }
}

/// A run of ints, written either as an int array or as a list of ints.
pub open spec fn ints_of(v: NbtV) -> Option<Seq<i32>> {
    match v {
        NbtV::IntArray(a) => Some(a),
        NbtV::List(l) => if forall|i: int| 0 <= i < l.len() ==> (#[trigger] l[i]) is Int {
            Some(Seq::new(l.len(), |i: int| l[i]->Int_0))
        } else {
            None
        },
        _ => None,
    }
}

/// One `block_palette` entry: a string `name`, any `states`, an int `version`.
pub open spec fn entry_of(e: NbtV) -> Option<BlockStateV> {
    match (field_of(e, "name"@), field_of(e, "states"@), int_of(field_of(e, "version"@))) {
        (Some(NbtV::String(n)), Some(st), Some(ver)) => Some(
            BlockStateV { name: n, states: st, version: ver },
        ),
        _ => None,
    }
}

pub open spec fn palette_of(l: Seq<NbtV>) -> Option<Seq<BlockStateV>> {
    if forall|i: int| 0 <= i < l.len() ==> (#[trigger] entry_of(l[i])) is Some {
        Some(Seq::new(l.len(), |i: int| entry_of(l[i]).unwrap()))
    } else {
        None
    }
}

/// The two index layers of a `structure` compound.
pub open spec fn layers_of(st: NbtV) -> Option<(Seq<i32>, Seq<i32>)> {
    match field_of(st, "block_indices"@) {
        Some(NbtV::List(l)) => if l.len() == 2 && ints_of(l[0]) is Some && ints_of(l[1]) is Some {
            Some((ints_of(l[0]).unwrap(), ints_of(l[1]).unwrap()))
        } else {
            None
        },
        _ => None,
    }
}

/// The `default` palette of a `structure` compound.
pub open spec fn default_of(st: NbtV) -> Option<NbtV> {
    match field_of(st, "palette"@) {
        Some(group) => field_of(group, "default"@),
        None => None,
    }
}

pub open spec fn size_of_root(root: NbtV) -> Size {
    let t = triple_of(field_of(root, "size"@)).unwrap();
    Size { x: t.0, y: t.1, z: t.2 }
}

/// Every key of `block_position_data` is a block index inside the volume.
pub open spec fn keys_in_volume(entries: Seq<(Seq<char>, NbtV)>, volume: int) -> bool {
    forall|j: int|
        0 <= j < entries.len() ==> (parse_usize_spec(#[trigger] entries[j].0) matches Some(k) && k
            < volume)
}

/// `out` is the map the entries describe: sorted by index, one entry per
/// index named by some key, holding the value of the last key naming it.
pub open spec fn data_from(out: Seq<(usize, NbtV)>, entries: Seq<(Seq<char>, NbtV)>) -> bool {
    &&& sorted_keys(out)
    &&& data_values(out, entries)
    &&& data_cover(out, entries)
}

/// Each stored index is named by some key, and holds the value of the last
/// key naming it.
pub open spec fn data_values(out: Seq<(usize, NbtV)>, entries: Seq<(Seq<char>, NbtV)>) -> bool {
    forall|i: int|
        0 <= i < out.len() ==> exists|j: int|
            0 <= j < entries.len() && parse_usize_spec(entries[j].0) == Some(#[trigger] out[i].0 as nat)
                && out[i].1 == entries[j].1 && forall|j2: int|
                j < j2 < entries.len() ==> parse_usize_spec(#[trigger] entries[j2].0) != Some(
                out[i].0 as nat,
            )
}

/// Every index some key names is stored.
pub open spec fn data_cover(out: Seq<(usize, NbtV)>, entries: Seq<(Seq<char>, NbtV)>) -> bool {
    forall|j: int|
        0 <= j < entries.len() ==> exists|i: int|
            0 <= i < out.len() && Some(out[i].0 as nat) == parse_usize_spec(#[trigger] entries[j].0)
}

proof fn lemma_sorted_same(a: Seq<(usize, NbtV)>, b: Seq<(usize, NbtV)>)
    requires
        sorted_keys(a),
        sorted_keys(b),
        forall|i: int| 0 <= i < a.len() ==> b.contains(#[trigger] a[i]),
        forall|i: int| 0 <= i < b.len() ==> a.contains(#[trigger] b[i]),
    ensures
        a =~= b,
    decreases a.len(),
{
    if a.len() == 0 {
        if b.len() > 0 {
            assert(a.contains(b[0]));
        }
    } else {
        assert(b.contains(a[0]));
        let ib = choose|k: int| 0 <= k < b.len() && b[k] == a[0];
        assert(a.contains(b[0]));
        let ia = choose|k: int| 0 <= k < a.len() && a[k] == b[0];
        if ib > 0 {
            assert(b[0].0 < b[ib].0);
            if ia > 0 {
                assert(a[0].0 < a[ia].0);
            }
        }
        assert(ib == 0) by {
            if ib > 0 {
                assert(b[0].0 < a[0].0);
                if ia > 0 {
                    assert(a[0].0 < a[ia].0);
                }
            }
        }
        let a2 = a.drop_first();
        let b2 = b.drop_first();
        assert forall|i: int| 0 <= i < a2.len() implies b2.contains(#[trigger] a2[i]) by {
            assert(a2[i] == a[i + 1]);
            assert(b.contains(a[i + 1]));
            let k = choose|k: int| 0 <= k < b.len() && b[k] == a[i + 1];
            assert(a[0].0 < a[i + 1].0);
            assert(k != 0);
            assert(b2[k - 1] == b[k]);
        }
        assert forall|i: int| 0 <= i < b2.len() implies a2.contains(#[trigger] b2[i]) by {
            assert(b2[i] == b[i + 1]);
            assert(a.contains(b[i + 1]));
            let k = choose|k: int| 0 <= k < a.len() && a[k] == b[i + 1];
            assert(b[0].0 < b[i + 1].0);
            assert(k != 0);
            assert(a2[k - 1] == a[k]);
        }
        lemma_sorted_same(a2, b2);
        assert(a =~= seq![a[0]] + a2);
        assert(b =~= seq![b[0]] + b2);
    }
}

proof fn lemma_data_in(a: Seq<(usize, NbtV)>, b: Seq<(usize, NbtV)>, m: Seq<(Seq<char>, NbtV)>, i: int)
    requires
        data_from(a, m),
        data_from(b, m),
        0 <= i < a.len(),
    ensures
        b.contains(a[i]),
{
    let j = choose|j: int|
        0 <= j < m.len() && parse_usize_spec(m[j].0) == Some(#[trigger] a[i].0 as nat) && a[i].1 == m[j].1
            && forall|j2: int| j < j2 < m.len() ==> parse_usize_spec(#[trigger] m[j2].0) != Some(a[i].0 as nat);
    assert(parse_usize_spec(m[j].0) == Some(a[i].0 as nat));
    let k = choose|k: int| 0 <= k < b.len() && Some(b[k].0 as nat) == parse_usize_spec(#[trigger] m[j].0);
    let j3 = choose|j3: int|
        0 <= j3 < m.len() && parse_usize_spec(m[j3].0) == Some(#[trigger] b[k].0 as nat) && b[k].1 == m[j3].1
            && forall|j2: int| j3 < j2 < m.len() ==> parse_usize_spec(#[trigger] m[j2].0) != Some(b[k].0 as nat);
    assert(b[k].0 == a[i].0);
    if j < j3 {
        assert(parse_usize_spec(m[j3].0) != Some(a[i].0 as nat));
    }
    if j3 < j {
        assert(parse_usize_spec(m[j].0) != Some(b[k].0 as nat));
    }
    assert(j == j3);
    assert(b[k] == a[i]);
}

/// The extra block data a tree describes is one map: two sorted listings
/// that both describe the same entries are equal.
pub proof fn lemma_data_from_unique(a: Seq<(usize, NbtV)>, b: Seq<(usize, NbtV)>, m: Seq<(Seq<char>, NbtV)>)
    requires
        data_from(a, m),
        data_from(b, m),
    ensures
        a == b,
{
    assert forall|i: int| 0 <= i < a.len() implies b.contains(#[trigger] a[i]) by {
        lemma_data_in(a, b, m, i);
    }
    assert forall|i: int| 0 <= i < b.len() implies a.contains(#[trigger] b[i]) by {
        lemma_data_in(b, a, m, i);
    }
    lemma_sorted_same(a, b);
}

/// A tree decodes to at most one structure.
pub proof fn lemma_decoded_unique(root: NbtV, s: StructureV, t: StructureV)
    requires
        decoded(root, s),
        decoded(root, t),
    ensures
        s == t,
{
    let st = field_of(root, "structure"@).unwrap();
    let d = default_of(st).unwrap();
    lemma_data_from_unique(s.block_position_data, t.block_position_data, field_of(d, "block_position_data"@).unwrap()->Compound_0);
}

/// Whether a decoded tree is a structure the game would load.
pub open spec fn decode_ok(root: NbtV) -> bool {
    &&& int_of(field_of(root, "format_version"@)) is Some
    &&& triple_of(field_of(root, "size"@)) matches Some(t) && t.0 >= 0 && t.1 >= 0 && t.2 >= 0
    &&& triple_of(field_of(root, "structure_world_origin"@)) is Some
    &&& field_of(root, "structure"@) matches Some(st) && {
        let vol = size_of_root(root).volume_spec();
        &&& layers_of(st) matches Some(ls) && ls.0.len() == ls.1.len() && vol <= usize::MAX
            && ls.0.len() == vol
        &&& default_of(st) matches Some(d) && {
            &&& field_of(d, "block_palette"@) matches Some(NbtV::List(l)) && palette_of(l) is Some
            &&& field_of(d, "block_position_data"@) matches Some(NbtV::Compound(m))
                && keys_in_volume(m, vol)
        }
        &&& field_of(st, "entities"@) matches Some(NbtV::List(_))
    }
}

// ---------------------------------------------------------------------------
// Why a tree is refused
// ---------------------------------------------------------------------------

/// The reason given when field `name` cannot be read from `v`.
pub open spec fn field_reason(v: NbtV, name: Seq<char>) -> Seq<char> {
    if v is Compound {
        "required field \""@ + name + "\" is missing"@
    } else {
        "expected a compound to read \""@ + name + "\" from"@
    }
}

/// The reason given when field `name` is not an int.
pub open spec fn int_reason(name: Seq<char>) -> Seq<char> {
    "field \""@ + name + "\" is not an int"@
}

/// The reason given when field `name` is not a list.
pub open spec fn list_reason(name: Seq<char>) -> Seq<char> {
    "field \""@ + name + "\" is not a list"@
}

/// The reason given when field `name` is not a compound.
pub open spec fn compound_reason(name: Seq<char>) -> Seq<char> {
    "field \""@ + name + "\" is not a compound"@
}

/// The reason given when `v`, field `name`, is not three ints.
pub open spec fn triple_reason(v: NbtV, name: Seq<char>) -> Seq<char> {
    if !(v is List) {
        list_reason(name)
    } else if v->List_0.len() != 3 {
        "field \""@ + name + "\" needs exactly 3 values, found "@ + decimal(v->List_0.len() as int)
    } else {
        int_reason(name)
    }
}

/// The reason given when `v`, field `name`, is not a run of ints.
pub open spec fn ints_reason(v: NbtV, name: Seq<char>) -> Seq<char> {
    if !(v is List) {
        list_reason(name)
    } else {
        int_reason(name)
    }
}

/// Why a `block_palette` entry is refused, if it is.
pub open spec fn entry_reason(e: NbtV) -> Option<Seq<char>> {
    if field_of(e, "name"@) is None {
        Some(field_reason(e, "name"@))
    } else if !(field_of(e, "name"@).unwrap() is String) {
        Some("a block_palette entry's `name` is not a string"@)
    } else if field_of(e, "states"@) is None {
        Some(field_reason(e, "states"@))
    } else if field_of(e, "version"@) is None {
        Some(field_reason(e, "version"@))
    } else if int_of(field_of(e, "version"@)) is None {
        Some(int_reason("version"@))
    } else {
        None
    }
}

/// Why the first refused entry of a palette list is refused, if one is.
pub open spec fn palette_reason(l: Seq<NbtV>) -> Option<Seq<char>>
    decreases l.len(),
{
    if l.len() == 0 {
        None
    } else if entry_reason(l[0]) is Some {
        entry_reason(l[0])
    } else {
        palette_reason(l.drop_first())
    }
}

/// Why a `block_position_data` key is refused inside a volume, if it is.
pub open spec fn key_reason(k: Seq<char>, volume: int) -> Option<Seq<char>> {
    match parse_usize_spec(k) {
        None => Some("block_position_data key "@ + str_debug(k) + " is not a block index"@),
        Some(i) => if i >= volume {
            Some("block_position_data key "@ + str_debug(k) + " is outside the structure"@)
        } else {
            None
        },
    }
}

/// Why the first refused key of `block_position_data` is refused, if one is.
pub open spec fn keys_reason(m: Seq<(Seq<char>, NbtV)>, volume: int) -> Option<Seq<char>>
    decreases m.len(),
{
    if m.len() == 0 {
        None
    } else if key_reason(m[0].0, volume) is Some {
        key_reason(m[0].0, volume)
    } else {
        keys_reason(m.drop_first(), volume)
    }
}

/// Why `decode_tree` refuses the structure `st` (the root's `structure`
/// field) of a tree whose size is `t`, checking in the order it reads.
pub open spec fn body_refusal(st: NbtV, t: (i32, i32, i32)) -> Option<Seq<char>> {
    let dims = triple_text(t.0 as int, t.1 as int, t.2 as int);
    let vol = Size { x: t.0, y: t.1, z: t.2 }.volume_spec();
    let bi = field_of(st, "block_indices"@);
    let pg = field_of(st, "palette"@);
    if bi is None {
        Some(field_reason(st, "block_indices"@))
    } else if !(bi.unwrap() is List) {
        Some(list_reason("block_indices"@))
    } else if bi.unwrap()->List_0.len() != 2 {
        Some("block_indices needs exactly 2 layers, found "@ + decimal(bi.unwrap()->List_0.len() as int))
    } else if ints_of(bi.unwrap()->List_0[0]) is None {
        Some(ints_reason(bi.unwrap()->List_0[0], "block_indices[0]"@))
    } else if ints_of(bi.unwrap()->List_0[1]) is None {
        Some(ints_reason(bi.unwrap()->List_0[1], "block_indices[1]"@))
    } else if ints_of(bi.unwrap()->List_0[0]).unwrap().len() != ints_of(bi.unwrap()->List_0[1]).unwrap().len() {
        Some("the two block_indices layers must be the same length: "@ + decimal(
            ints_of(bi.unwrap()->List_0[0]).unwrap().len() as int,
        ) + " and "@ + decimal(ints_of(bi.unwrap()->List_0[1]).unwrap().len() as int))
    } else if vol > usize::MAX {
        Some("size "@ + dims + " is too large to address"@)
    } else if ints_of(bi.unwrap()->List_0[0]).unwrap().len() != vol {
        Some("block_indices has "@ + decimal(ints_of(bi.unwrap()->List_0[0]).unwrap().len() as int)
            + " entries but size "@ + dims + " needs "@ + decimal(vol))
    } else if pg is None {
        Some(field_reason(st, "palette"@))
    } else if field_of(pg.unwrap(), "default"@) is None {
        Some("no `default` palette; the game places no blocks at all for such a file"@)
    } else {
        default_refusal(st, field_of(pg.unwrap(), "default"@).unwrap(), vol)
    }
}

/// Why `decode_tree` refuses a structure whose `default` palette is `d`,
/// once everything before it was read.
pub open spec fn default_refusal(st: NbtV, d: NbtV, vol: int) -> Option<Seq<char>> {
    let bp = field_of(d, "block_palette"@);
    let bd = field_of(d, "block_position_data"@);
    let en = field_of(st, "entities"@);
    if bp is None {
        Some(field_reason(d, "block_palette"@))
    } else if !(bp.unwrap() is List) {
        Some(list_reason("block_palette"@))
    } else if palette_reason(bp.unwrap()->List_0) is Some {
        palette_reason(bp.unwrap()->List_0)
    } else if bd is None {
        Some(field_reason(d, "block_position_data"@))
    } else if !(bd.unwrap() is Compound) {
        Some(compound_reason("block_position_data"@))
    } else if keys_reason(bd.unwrap()->Compound_0, vol) is Some {
        keys_reason(bd.unwrap()->Compound_0, vol)
    } else if en is None {
        Some(field_reason(st, "entities"@))
    } else if !(en.unwrap() is List) {
        Some(list_reason("entities"@))
    } else {
        None
    }
}

/// Why `decode_tree` refuses `root`, if it does: the first field it cannot
/// read or the first check that fails, in the order it reads them.
pub open spec fn decode_refusal(root: NbtV) -> Option<Seq<char>> {
    let fv = field_of(root, "format_version"@);
    let sz = field_of(root, "size"@);
    let og = field_of(root, "structure_world_origin"@);
    let st = field_of(root, "structure"@);
    if fv is None {
        Some(field_reason(root, "format_version"@))
    } else if int_of(fv) is None {
        Some(int_reason("format_version"@))
    } else if sz is None {
        Some(field_reason(root, "size"@))
    } else if triple_of(sz) is None {
        Some(triple_reason(sz.unwrap(), "size"@))
    } else if !(triple_of(sz).unwrap().0 >= 0 && triple_of(sz).unwrap().1 >= 0 && triple_of(sz).unwrap().2 >= 0) {
        Some("size has a negative dimension: "@ + triple_text(
            triple_of(sz).unwrap().0 as int,
            triple_of(sz).unwrap().1 as int,
            triple_of(sz).unwrap().2 as int,
        ))
    } else if og is None {
        Some(field_reason(root, "structure_world_origin"@))
    } else if triple_of(og) is None {
        Some(triple_reason(og.unwrap(), "structure_world_origin"@))
    } else if st is None {
        Some(field_reason(root, "structure"@))
    } else {
        body_refusal(st.unwrap(), triple_of(sz).unwrap())
    }
}

proof fn lemma_palette_reason(l: Seq<NbtV>, i: int)
    requires
        0 <= i < l.len(),
        forall|j: int| 0 <= j < i ==> (#[trigger] entry_reason(l[j])) is None,
        entry_reason(l[i]) is Some,
    ensures
        palette_reason(l) == entry_reason(l[i]),
    decreases i,
{
    if i > 0 {
        assert forall|j: int| 0 <= j < i - 1 implies (#[trigger] entry_reason(l.drop_first()[j])) is None by {
            assert(l.drop_first()[j] == l[j + 1]);
        }
        assert(entry_reason(l[0]) is None);
        lemma_palette_reason(l.drop_first(), i - 1);
    }
}

proof fn lemma_keys_reason(m: Seq<(Seq<char>, NbtV)>, volume: int, i: int)
    requires
        0 <= i < m.len(),
        forall|j: int| 0 <= j < i ==> (#[trigger] key_reason(m[j].0, volume)) is None,
        key_reason(m[i].0, volume) is Some,
    ensures
        keys_reason(m, volume) == key_reason(m[i].0, volume),
    decreases i,
{
    if i > 0 {
        assert forall|j: int| 0 <= j < i - 1 implies (#[trigger] key_reason(m.drop_first()[j].0, volume)) is None by {
            assert(m.drop_first()[j] == m[j + 1]);
        }
        assert(key_reason(m[0].0, volume) is None);
        lemma_keys_reason(m.drop_first(), volume, i - 1);
    }
}

proof fn lemma_palette_reason_none(l: Seq<NbtV>)
    requires
        forall|j: int| 0 <= j < l.len() ==> (#[trigger] entry_reason(l[j])) is None,
    ensures
        palette_reason(l) is None,
    decreases l.len(),
{
    if l.len() > 0 {
        assert forall|j: int| 0 <= j < l.len() - 1 implies (#[trigger] entry_reason(l.drop_first()[j])) is None by {
            assert(l.drop_first()[j] == l[j + 1]);
        }
        assert(entry_reason(l[0]) is None);
        lemma_palette_reason_none(l.drop_first());
    }
}

proof fn lemma_keys_reason_none(m: Seq<(Seq<char>, NbtV)>, volume: int)
    requires
        forall|j: int| 0 <= j < m.len() ==> (#[trigger] key_reason(m[j].0, volume)) is None,
    ensures
        keys_reason(m, volume) is None,
    decreases m.len(),
{
    if m.len() > 0 {
        assert forall|j: int| 0 <= j < m.len() - 1 implies (#[trigger] key_reason(m.drop_first()[j].0, volume)) is None by {
            assert(m.drop_first()[j] == m[j + 1]);
        }
        assert(key_reason(m[0].0, volume) is None);
        lemma_keys_reason_none(m.drop_first(), volume);
    }
}

/// `s` is what a loadable tree decodes to.
pub open spec fn decoded(root: NbtV, s: StructureV) -> bool {
    let st = field_of(root, "structure"@).unwrap();
    let d = default_of(st).unwrap();
    let o = triple_of(field_of(root, "structure_world_origin"@)).unwrap();
    &&& s.format_version == int_of(field_of(root, "format_version"@)).unwrap()
    &&& s.size == size_of_root(root)
    &&& s.origin == (Coord { x: o.0, y: o.1, z: o.2 })
    &&& s.layer0 == layers_of(st).unwrap().0
    &&& s.layer1 == layers_of(st).unwrap().1
    &&& s.palette == palette_of(field_of(d, "block_palette"@).unwrap()->List_0).unwrap()
    &&& data_from(
        s.block_position_data,
        field_of(d, "block_position_data"@).unwrap()->Compound_0,
    )
    &&& s.entities == field_of(st, "entities"@).unwrap()->List_0
}

/// `e` is the refusal of a structure named `what`, for `reason`.
pub open spec fn refused_for(e: CoreError, what: Seq<char>, reason: Seq<char>) -> bool {
    e matches CoreError::BadStructureFile { what: w, reason: m } && w@ == what && m@ == reason
}

/// The malformed-structure error for `what`.
pub fn bad(what: &str, reason: String) -> (e: CoreError)
    ensures
        bad_structure(e, what@),
        refused_for(e, what@, reason@),
{
    CoreError::BadStructureFile { what: what.to_owned(), reason }
}

/// Field `name` of `v`, which must be a compound holding it.
pub fn field<'a>(v: &'a Nbt, name: &str, what: &str) -> (r: Result<&'a Nbt, CoreError>)
    ensures
        r matches Ok(x) ==> field_of(v.deep(), name@) == Some(x.deep()),
        r is Err ==> field_of(v.deep(), name@) is None && bad_structure(r->Err_0, what@),
        r is Err ==> refused_for(r->Err_0, what@, field_reason(v.deep(), name@)),
{
    match get_field(v, name) {
        Some(x) => Ok(x),
        None => {
            let reason = match v {
                Nbt::Compound(_) => cat3("required field \"", name, "\" is missing"),
                _ => cat3("expected a compound to read \"", name, "\" from"),
            };
            Err(bad(what, reason))
        },
    }
}

pub fn as_int(v: &Nbt, name: &str, what: &str) -> (r: Result<i32, CoreError>)
    ensures
        r matches Ok(i) ==> int_of(Some(v.deep())) == Some(i),
        r is Err ==> int_of(Some(v.deep())) is None && bad_structure(r->Err_0, what@),
        r is Err ==> refused_for(r->Err_0, what@, int_reason(name@)),
{
    match v {
        Nbt::Int(i) => Ok(*i),
        _ => Err(bad(what, cat3("field \"", name, "\" is not an int"))),
    }
}

pub fn as_list<'a>(v: &'a Nbt, name: &str, what: &str) -> (r: Result<&'a Vec<Nbt>, CoreError>)
    ensures
        r matches Ok(l) ==> v.deep() == NbtV::List(list_view(l@)),
        r is Err ==> !(v.deep() is List) && bad_structure(r->Err_0, what@),
        r is Err ==> refused_for(r->Err_0, what@, list_reason(name@)),
{
    match v {
        Nbt::List(l) => {
            assert(v.deep()->List_0 =~= list_view(l@));
            Ok(l)
        },
        _ => Err(bad(what, cat3("field \"", name, "\" is not a list"))),
    }
}

pub open spec fn entries_view(m: Seq<(String, Nbt)>) -> Seq<(Seq<char>, NbtV)> {
    Seq::new(m.len(), |i: int| (m[i].0@, m[i].1.deep()))
}

pub fn as_compound<'a>(v: &'a Nbt, name: &str, what: &str) -> (r: Result<&'a Vec<(String, Nbt)>, CoreError>)
    ensures
        r matches Ok(m) ==> v.deep() == NbtV::Compound(entries_view(m@)),
        r is Err ==> !(v.deep() is Compound) && bad_structure(r->Err_0, what@),
        r is Err ==> refused_for(r->Err_0, what@, compound_reason(name@)),
{
    match v {
        Nbt::Compound(m) => {
            assert(v.deep()->Compound_0 =~= entries_view(m@));
            Ok(m)
        },
        _ => Err(bad(what, cat3("field \"", name, "\" is not a compound"))),
    }
}

pub fn as_triple(v: &Nbt, name: &str, what: &str) -> (r: Result<(i32, i32, i32), CoreError>)
    ensures
        r matches Ok(t) ==> triple_of(Some(v.deep())) == Some(t),
        r is Err ==> triple_of(Some(v.deep())) is None && bad_structure(r->Err_0, what@),
        r is Err ==> refused_for(r->Err_0, what@, triple_reason(v.deep(), name@)),
{
    let list = match as_list(v, name, what) {
        Ok(l) => l,
        Err(e) => {
            return Err(e);
        },
    };
    if list.len() != 3 {
        let count = nat_text(list.len() as u64);
        let head = cat3("field \"", name, "\" needs exactly 3 values, found ");
        assert(v.deep()->List_0.len() == list@.len());
        return Err(bad(what, cat(head.as_str(), count.as_str())));
    }
    let a = as_int(&list[0], name, what)?;
    let b = as_int(&list[1], name, what)?;
    let c = as_int(&list[2], name, what)?;
    Ok((a, b, c))
}

/// Reads a run of ints written either as a list or as an int array.
pub fn as_int_vec(v: &Nbt, name: &str, what: &str) -> (r: Result<Vec<i32>, CoreError>)
    ensures
        r matches Ok(a) ==> ints_of(v.deep()) == Some(a@),
        r is Err ==> ints_of(v.deep()) is None && bad_structure(r->Err_0, what@),
        r is Err ==> refused_for(r->Err_0, what@, ints_reason(v.deep(), name@)),
{
    if let Nbt::IntArray(a) = v {
        let mut out: Vec<i32> = Vec::new();
        let mut i: usize = 0;
        while i < a.len()
            invariant
                i <= a@.len(),
                out@ == a@.subrange(0, i as int),
            decreases a@.len() - i,
        {
            out.push(a[i]);
            i += 1;
            assert(out@ =~= a@.subrange(0, i as int));
        }
        assert(out@ =~= a@);
        return Ok(out);
    }
    let list = as_list(v, name, what)?;
    let ghost lv = list_view(list@);
    let mut out: Vec<i32> = Vec::new();
    let mut i: usize = 0;
    while i < list.len()
        invariant
            i <= list@.len(),
            lv == list_view(list@),
            v.deep() == NbtV::List(lv),
            out@.len() == i,
            forall|j: int| 0 <= j < i ==> (#[trigger] lv[j]) is Int && out@[j] == lv[j]->Int_0,
        decreases list@.len() - i,
    {
        let x = as_int(&list[i], name, what);
        match x {
            Ok(n) => {
                out.push(n);
            },
            Err(e) => {
                assert(!(lv[i as int] is Int));
                return Err(e);
            },
        }
        i += 1;
    }
    assert(out@ =~= Seq::new(lv.len(), |j: int| lv[j]->Int_0));
    Ok(out)
}

/// One palette entry.
fn palette_entry(entry: &Nbt, what: &str) -> (r: Result<BlockState, CoreError>)
    ensures
        r matches Ok(b) ==> entry_of(entry.deep()) == Some(b@),
        r is Err ==> entry_of(entry.deep()) is None && bad_structure(r->Err_0, what@),
        r is Err ==> entry_reason(entry.deep()) == Some(r->Err_0->BadStructureFile_reason@) && bad_structure(r->Err_0, what@),
{
    let name_v = field(entry, "name", what)?;
    let name = match name_v {
        Nbt::String(s) => s.clone(),
        _ => {
            return Err(bad(what, String::from_str("a block_palette entry's `name` is not a string")));
        },
    };
    let states = field(entry, "states", what)?;
    let version_v = field(entry, "version", what)?;
    let version = as_int(version_v, "version", what)?;
    Ok(BlockState { name, states: states.clone(), version })
}

/// Decodes a `.mcstructure` tree, refusing anything the game would not load
/// or would load wrong.
#[verifier::loop_isolation(false)]
#[verifier::rlimit(100)]
#[verifier::spinoff_prover]
pub fn decode_tree(root: &Nbt, what: &str) -> (r: Result<Structure, CoreError>)
    ensures
        r is Ok <==> decode_ok(root.deep()),
        r matches Ok(s) ==> decoded(root.deep(), s@),
        r is Err ==> bad_structure(r->Err_0, what@),
        r is Err ==> (decode_refusal(root.deep()) matches Some(m) && refused_for(r->Err_0, what@, m)),
{
    let ghost rv = root.deep();
    let format_version = as_int(field(root, "format_version", what)?, "format_version", what)?;
    let (sx, sy, sz) = as_triple(field(root, "size", what)?, "size", what)?;
    let dims = triple_text_of(sx, sy, sz);
    if sx < 0 || sy < 0 || sz < 0 {
        return Err(bad(what, cat("size has a negative dimension: ", dims.as_str())));
    }
    let size = Size { x: sx, y: sy, z: sz };
    let (ox, oy, oz) = as_triple(
        field(root, "structure_world_origin", what)?,
        "structure_world_origin",
        what,
    )?;
    let structure = field(root, "structure", what)?;
    let raw_layers = as_list(field(structure, "block_indices", what)?, "block_indices", what)?;
    if raw_layers.len() != 2 {
        let count = nat_text(raw_layers.len() as u64);
        return Err(bad(what, cat("block_indices needs exactly 2 layers, found ", count.as_str())));
    }
    let layer0 = as_int_vec(&raw_layers[0], "block_indices[0]", what)?;
    let layer1 = as_int_vec(&raw_layers[1], "block_indices[1]", what)?;
    if layer0.len() != layer1.len() {
        let mut reason = String::from_str("the two block_indices layers must be the same length: ");
        reason.append(nat_text(layer0.len() as u64).as_str());
        reason.append(" and ");
        reason.append(nat_text(layer1.len() as u64).as_str());
        return Err(bad(what, reason));
    }
    let vol: i64 = size.volume();
    if vol as u128 > usize::MAX as u128 {
        return Err(bad(what, cat3("size ", dims.as_str(), " is too large to address")));
    }
    let volume: usize = vol as usize;
    if layer0.len() != volume {
        let have = nat_text(layer0.len() as u64);
        let need = int_text(vol);
        let mut reason = String::from_str("block_indices has ");
        reason.append(have.as_str());
        reason.append(" entries but size ");
        reason.append(dims.as_str());
        reason.append(" needs ");
        reason.append(need.as_str());
        return Err(bad(what, reason));
    }
    let palette_group = field(structure, "palette", what)?;
    let default = match field(palette_group, "default", what) {
        Ok(d) => d,
        Err(_) => {
            return Err(
                bad(
                    what,
                    String::from_str("no `default` palette; the game places no blocks at all for such a file"),
                ),
            );
        },
    };
    let entries = as_list(field(default, "block_palette", what)?, "block_palette", what)?;
    let ghost ev = list_view(entries@);
    let mut palette: Vec<BlockState> = Vec::new();
    let mut i: usize = 0;
    while i < entries.len()
        invariant
            i <= entries@.len(),
            ev == list_view(entries@),
            palette@.len() == i,
            forall|j: int|
                0 <= j < i ==> (#[trigger] entry_of(ev[j])) == Some(palette@[j]@),
            forall|j: int| 0 <= j < i ==> (#[trigger] entry_reason(ev[j])) is None,
        decreases entries@.len() - i,
    {
        let b = match palette_entry(&entries[i], what) {
            Ok(b) => b,
            Err(e) => {
                assert(entry_of(ev[i as int]) is None);
                assert(palette_of(ev) is None);
                proof {
                    lemma_palette_reason(ev, i as int);
                }
                return Err(e);
            },
        };
        palette.push(b);
        i += 1;
    }
    assert(palette_view(palette@) =~= palette_of(ev).unwrap());
    proof {
        lemma_palette_reason_none(ev);
    }
    let raw_data = as_compound(
        field(default, "block_position_data", what)?,
        "block_position_data",
        what,
    )?;
    let ghost mv = entries_view(raw_data@);
    let mut block_position_data: Vec<(usize, Nbt)> = Vec::new();
    let mut k: usize = 0;
    while k < raw_data.len()
        invariant
            k <= raw_data@.len(),
            mv == entries_view(raw_data@),
            keys_in_volume(mv.subrange(0, k as int), volume as int),
            forall|j: int| 0 <= j < k ==> (#[trigger] key_reason(mv[j].0, volume as int)) is None,
            data_from(data_view(block_position_data@), mv.subrange(0, k as int)),
        decreases raw_data@.len() - k,
    {
        let key = &raw_data[k].0;
        assert(mv[k as int].0 == key@);
        let index = match parse_usize(key.as_str()) {
            Some(n) => n,
            None => {
                assert(!keys_in_volume(mv, volume as int));
                proof {
                    lemma_keys_reason(mv, volume as int, k as int);
                }
                let shown = debug_str(key.as_str());
                return Err(bad(what, cat3("block_position_data key ", shown.as_str(), " is not a block index")));
            },
        };
        if index >= volume {
            assert(!keys_in_volume(mv, volume as int));
            proof {
                lemma_keys_reason(mv, volume as int, k as int);
            }
            let shown = debug_str(key.as_str());
            return Err(bad(what, cat3("block_position_data key ", shown.as_str(), " is outside the structure")));
        }
        let ghost before = data_view(block_position_data@);
        put(&mut block_position_data, index, raw_data[k].1.clone());
        proof {
            lemma_data_from_step(before, data_view(block_position_data@), mv, k as int, index);
        }
        k += 1;
    }
    assert(mv.subrange(0, raw_data@.len() as int) =~= mv);
    proof {
        lemma_keys_reason_none(mv, volume as int);
    }
    let raw_entities = as_list(field(structure, "entities", what)?, "entities", what)?;
    let mut entities: Vec<Nbt> = Vec::new();
    let mut e: usize = 0;
    while e < raw_entities.len()
        invariant
            e <= raw_entities@.len(),
            entities@.len() == e,
            forall|j: int| 0 <= j < e ==> (#[trigger] entities@[j]).deep() == raw_entities@[j].deep(),
        decreases raw_entities@.len() - e,
    {
        entities.push(raw_entities[e].clone());
        e += 1;
    }
    assert(list_view(entities@) =~= list_view(raw_entities@));
    Ok(
        Structure {
            format_version,
            size,
            origin: Coord { x: ox, y: oy, z: oz },
            layers: [layer0, layer1],
            palette,
            block_position_data,
            entities,
        },
    )
}

pub open spec fn put_result(
    before: Seq<(usize, NbtV)>,
    after: Seq<(usize, NbtV)>,
    index: usize,
    val: NbtV,
) -> bool {
    &&& sorted_keys(after)
    &&& super::blockdata::holds(after, index, val)
    &&& forall|i: int|
        0 <= i < after.len() ==> (#[trigger] after[i] == (index, val) || (after[i].0 != index
            && super::blockdata::holds(before, after[i].0, after[i].1)))
    &&& forall|i: int|
        0 <= i < before.len() && #[trigger] before[i].0 != index ==> super::blockdata::holds(
            after,
            before[i].0,
            before[i].1,
        )
}

#[verifier::rlimit(40)]
pub proof fn lemma_data_from_step(
    before: Seq<(usize, NbtV)>,
    after: Seq<(usize, NbtV)>,
    mv: Seq<(Seq<char>, NbtV)>,
    k: int,
    index: usize,
)
    requires
        0 <= k < mv.len(),
        parse_usize_spec(mv[k].0) == Some(index as nat),
        data_from(before, mv.subrange(0, k)),
        put_result(before, after, index, mv[k].1),
    ensures
        data_from(after, mv.subrange(0, k + 1)),
{
    lemma_data_from_step_values(before, after, mv, k, index);
    lemma_data_from_step_cover(before, after, mv, k, index);
}

#[verifier::rlimit(40)]
#[verifier::spinoff_prover]
proof fn lemma_data_from_step_values(
    before: Seq<(usize, NbtV)>,
    after: Seq<(usize, NbtV)>,
    mv: Seq<(Seq<char>, NbtV)>,
    k: int,
    index: usize,
)
    requires
        0 <= k < mv.len(),
        parse_usize_spec(mv[k].0) == Some(index as nat),
        data_from(before, mv.subrange(0, k)),
        put_result(before, after, index, mv[k].1),
    ensures
        data_values(after, mv.subrange(0, k + 1)),
{
    let pre = mv.subrange(0, k);
    let post = mv.subrange(0, k + 1);
    assert forall|i: int| 0 <= i < after.len() implies exists|j: int|
        0 <= j < post.len() && parse_usize_spec(post[j].0) == Some(#[trigger] after[i].0 as nat)
            && after[i].1 == post[j].1 && forall|j2: int|
            j < j2 < post.len() ==> parse_usize_spec(#[trigger] post[j2].0) != Some(
            after[i].0 as nat,
        ) by {
        if after[i] == (index, mv[k].1) {
            assert(post[k] == mv[k]);
        } else {
            let ib = choose|ib: int| 0 <= ib < before.len() && before[ib] == (after[i].0, after[i].1);
            assert(before[ib].0 == after[i].0);
            let j = choose|j: int|
                0 <= j < pre.len() && parse_usize_spec(pre[j].0) == Some(#[trigger] before[ib].0 as nat)
                    && before[ib].1 == pre[j].1 && forall|j2: int|
                    j < j2 < pre.len() ==> parse_usize_spec(#[trigger] pre[j2].0) != Some(
                    before[ib].0 as nat,
                );
            assert(post[j] == pre[j]);
            assert forall|j2: int| j < j2 < post.len() implies parse_usize_spec(
                #[trigger] post[j2].0,
            ) != Some(after[i].0 as nat) by {
                if j2 < k {
                    assert(post[j2] == pre[j2]);
                } else {
                    assert(post[j2] == mv[k]);
                }
            }
        }
    }
}

#[verifier::rlimit(40)]
proof fn lemma_data_from_step_cover(
    before: Seq<(usize, NbtV)>,
    after: Seq<(usize, NbtV)>,
    mv: Seq<(Seq<char>, NbtV)>,
    k: int,
    index: usize,
)
    requires
        0 <= k < mv.len(),
        parse_usize_spec(mv[k].0) == Some(index as nat),
        data_from(before, mv.subrange(0, k)),
        put_result(before, after, index, mv[k].1),
    ensures
        data_cover(after, mv.subrange(0, k + 1)),
{
    let pre = mv.subrange(0, k);
    let post = mv.subrange(0, k + 1);
    assert forall|j: int| 0 <= j < post.len() implies exists|i: int|
        0 <= i < after.len() && Some(after[i].0 as nat) == parse_usize_spec(#[trigger] post[j].0) by {
        if j == k {
            let i = choose|i: int| 0 <= i < after.len() && after[i] == (index, mv[k].1);
            assert(post[j] == mv[k]);
            assert(after[i].0 == index);
        } else {
            assert(post[j] == pre[j]);
            let ib = choose|ib: int|
                0 <= ib < before.len() && Some(before[ib].0 as nat) == parse_usize_spec(#[trigger] pre[j].0);
            if before[ib].0 == index {
                let i = choose|i: int| 0 <= i < after.len() && after[i] == (index, mv[k].1);
                assert(after[i].0 == index);
            } else {
                let i = choose|i: int| 0 <= i < after.len() && after[i] == (before[ib].0, before[ib].1);
                assert(after[i].0 == before[ib].0);
            }
        }
    }
}


/// The reason given for bytes that are not NBT at all.
pub open spec fn unreadable_reason(problem: Seq<char>) -> Seq<char> {
    "not readable as little-endian NBT: "@ + problem
}

/// Decodes `.mcstructure` bytes, naming `what` in any refusal.
///
/// Bytes that are not little-endian NBT, or that nest deeper than the reader
/// allows, are refused before any field is looked at; otherwise the tree they
/// hold is decoded as [`decode_tree`] does.
pub fn decode(bytes: &[u8], what: &str) -> (r: Result<Structure, CoreError>)
    ensures
        read_problem(bytes@) is Some ==> (r matches Err(CoreError::BadStructureFile { what: w, reason })
            && w@ == what@ && reason@ == unreadable_reason(read_problem(bytes@)->0)),
        r matches Ok(s) ==> (exists|t: NbtV| decode_ok(t) && decoded(t, #[trigger] s@)),
        r is Err ==> bad_structure(r->Err_0, what@),
        read_problem(bytes@) is None ==> exists|t: NbtV| #[trigger] same_up_to_order(t, le_value(bytes@)) && {
            &&& (r is Ok <==> decode_ok(t))
            &&& (r matches Ok(s) ==> decoded(t, s@))
            &&& (r is Err ==> (decode_refusal(t) matches Some(m) && refused_for(r->Err_0, what@, m)))
        },
{
    match read(bytes) {
        Err(problem) => {
            let mut reason = String::from_str("not readable as little-endian NBT: ");
            reason.append(problem.as_str());
            Err(CoreError::BadStructureFile { what: what.to_owned(), reason })
        },
        Ok((root, _)) => {
            let r = decode_tree(&root, what);
            assert(same_up_to_order(root@, le_value(bytes@)));
            r
        },
    }
}

} // verus!
