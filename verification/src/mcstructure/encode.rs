//! Encoding a [`Structure`] back into the `.mcstructure` NBT tree.
//!
//! `decode`'s invariants are checked again on the way out, because `merge`
//! builds a `Structure` in memory: a grid disagreeing with its own `size`
//! would write happily and fail to load in-game.
//!
//! Compounds are unordered, so round trips compare decoded values, not bytes.
use super::blockdata::{data_view, sorted_keys};
use super::decode::{bad, bad_structure, lemma_decoded_unique, refused_for, decode_ok, decoded, default_of, entry_of, ints_of, keys_in_volume, layers_of, palette_of, size_of_root, triple_of, data_from, BlockState, BlockStateV, Structure, StructureV, VOID};
use super::nbt::{field_of, lookup, Nbt, NbtV};
use crate::error::CoreError;
use crate::text::{cat, decimal, int_text, lemma_parse_decimal, nat_text, parse_usize_spec, triple_text, triple_text_of};
use vstd::prelude::*;

verus! {

broadcast use vstd::std_specs::vec::group_vec_axioms;

/// A list of ints.
pub open spec fn int_list(v: Seq<i32>) -> NbtV {
    NbtV::List(Seq::new(v.len(), |i: int| NbtV::Int(v[i])))
}

/// One `block_palette` entry.
pub open spec fn entry_tree(b: BlockStateV) -> NbtV {
    NbtV::Compound(
        seq![("name"@, NbtV::String(b.name)), ("states"@, b.states), ("version"@, NbtV::Int(b.version))],
    )
}

/// `block_position_data`: each index written in decimal.
pub open spec fn data_tree(d: Seq<(usize, NbtV)>) -> NbtV {
    NbtV::Compound(Seq::new(d.len(), |i: int| (decimal(d[i].0 as int), d[i].1)))
}

/// The `structure` compound.
pub open spec fn body_tree(s: StructureV) -> NbtV {
    NbtV::Compound(
        seq![
            ("block_indices"@, NbtV::List(seq![int_list(s.layer0), int_list(s.layer1)])),
            ("entities"@, NbtV::List(s.entities)),
            ("palette"@, NbtV::Compound(seq![("default"@, default_tree(s))])),
        ],
    )
}

/// The `default` palette.
pub open spec fn default_tree(s: StructureV) -> NbtV {
    NbtV::Compound(
        seq![
            ("block_palette"@, NbtV::List(Seq::new(s.palette.len(), |i: int| entry_tree(s.palette[i])))),
            ("block_position_data"@, data_tree(s.block_position_data)),
        ],
    )
}

/// The whole tree a structure is written as.
pub open spec fn structure_tree(s: StructureV) -> NbtV {
    NbtV::Compound(
        seq![
            ("format_version"@, NbtV::Int(s.format_version)),
            ("size"@, int_list(seq![s.size.x, s.size.y, s.size.z])),
            ("structure"@, body_tree(s)),
            ("structure_world_origin"@, int_list(seq![s.origin.x, s.origin.y, s.origin.z])),
        ],
    )
}

/// A layer value the game can place: structure void or a palette entry.
pub open spec fn placeable(v: i32, palette_len: int) -> bool {
    v == VOID || (0 <= v < palette_len)
}

/// Whether a structure is one the game would load: non-negative size, both
/// layers exactly the volume long, every index void or inside the palette,
/// every extra-data index inside the volume.
pub open spec fn encode_ok(s: StructureV) -> bool {
    let vol = s.size.volume_spec();
    &&& s.size.x >= 0 && s.size.y >= 0 && s.size.z >= 0
    &&& vol <= usize::MAX
    &&& s.layer0.len() == vol
    &&& s.layer1.len() == vol
    &&& s.palette.len() <= i32::MAX
    &&& forall|i: int| 0 <= i < s.layer0.len() ==> placeable(#[trigger] s.layer0[i], s.palette.len() as int)
    &&& forall|i: int| 0 <= i < s.layer1.len() ==> placeable(#[trigger] s.layer1[i], s.palette.len() as int)
    &&& forall|i: int| 0 <= i < s.block_position_data.len() ==> (#[trigger] s.block_position_data[i]).0 < vol
}

/// The first value of a layer the game cannot place, if any.
pub open spec fn first_unplaceable(layer: Seq<i32>, palette_len: int) -> Option<i32>
    decreases layer.len(),
{
    if layer.len() == 0 {
        None
    } else if !placeable(layer[0], palette_len) {
        Some(layer[0])
    } else {
        first_unplaceable(layer.drop_first(), palette_len)
    }
}

proof fn lemma_first_unplaceable(layer: Seq<i32>, palette_len: int, i: int)
    requires
        0 <= i <= layer.len(),
        forall|j: int| 0 <= j < i ==> placeable(#[trigger] layer[j], palette_len),
    ensures
        i < layer.len() && !placeable(layer[i], palette_len) ==> first_unplaceable(layer, palette_len) == Some(layer[i]),
        i == layer.len() ==> first_unplaceable(layer, palette_len) is None,
    decreases i,
{
    if i > 0 {
        assert forall|j: int| 0 <= j < i - 1 implies placeable(#[trigger] layer.drop_first()[j], palette_len) by {
            assert(layer.drop_first()[j] == layer[j + 1]);
        }
        lemma_first_unplaceable(layer.drop_first(), palette_len, i - 1);
        assert(placeable(layer[0], palette_len));
    }
}

/// The first extra-data index outside a volume, if any.
pub open spec fn first_outside(d: Seq<(usize, NbtV)>, volume: int) -> Option<usize>
    decreases d.len(),
{
    if d.len() == 0 {
        None
    } else if d[0].0 >= volume {
        Some(d[0].0)
    } else {
        first_outside(d.drop_first(), volume)
    }
}

proof fn lemma_first_outside(d: Seq<(usize, NbtV)>, volume: int, i: int)
    requires
        0 <= i <= d.len(),
        forall|j: int| 0 <= j < i ==> (#[trigger] d[j]).0 < volume,
    ensures
        i < d.len() && d[i].0 >= volume ==> first_outside(d, volume) == Some(d[i].0),
        i == d.len() ==> first_outside(d, volume) is None,
    decreases i,
{
    if i > 0 {
        assert forall|j: int| 0 <= j < i - 1 implies (#[trigger] d.drop_first()[j]).0 < volume by {
            assert(d.drop_first()[j] == d[j + 1]);
        }
        lemma_first_outside(d.drop_first(), volume, i - 1);
        assert(d[0].0 < volume);
    }
}

/// The reason a layer of the wrong length is refused.
pub open spec fn layer_length_reason(l: int, len: int, s: StructureV) -> Seq<char> {
    "layer "@ + decimal(l) + " has "@ + decimal(len) + " entries but size "@ + triple_text(
        s.size.x as int,
        s.size.y as int,
        s.size.z as int,
    ) + " needs "@ + decimal(s.size.volume_spec())
}

/// The reason a layer naming a missing palette entry is refused.
pub open spec fn palette_reason(l: int, b: i32, s: StructureV) -> Seq<char> {
    "layer "@ + decimal(l) + " refers to palette entry "@ + decimal(b as int) + ", but the palette has "@
        + decimal(s.palette.len() as int)
}

/// Why `encode` refuses `s`, checking in order: the size's signs, whether its
/// volume is addressable, each layer's length, the palette's length, each
/// layer's values, and the extra-data indices.
pub open spec fn encode_refusal(s: StructureV) -> Option<Seq<char>> {
    let vol = s.size.volume_spec();
    let plen = s.palette.len() as int;
    if !(s.size.x >= 0 && s.size.y >= 0 && s.size.z >= 0) {
        Some("size has a negative dimension: "@ + triple_text(s.size.x as int, s.size.y as int, s.size.z as int))
    } else if vol > usize::MAX {
        Some("size is too large to address"@)
    } else if s.layer0.len() != vol {
        Some(layer_length_reason(0, s.layer0.len() as int, s))
    } else if s.layer1.len() != vol {
        Some(layer_length_reason(1, s.layer1.len() as int, s))
    } else if plen > i32::MAX {
        Some("palette is too large"@)
    } else if first_unplaceable(s.layer0, plen) is Some {
        Some(palette_reason(0, first_unplaceable(s.layer0, plen)->0, s))
    } else if first_unplaceable(s.layer1, plen) is Some {
        Some(palette_reason(1, first_unplaceable(s.layer1, plen)->0, s))
    } else if first_outside(s.block_position_data, vol) is Some {
        Some("block_position_data index "@ + decimal(first_outside(s.block_position_data, vol)->0 as int)
            + " is outside the structure"@)
    } else {
        None
    }
}

fn int_list_nbt(v: &[i32]) -> (r: Nbt)
    ensures
        r@ == int_list(v@),
{
    let mut out: Vec<Nbt> = Vec::new();
    let mut i: usize = 0;
    while i < v.len()
        invariant
            i <= v@.len(),
            out@.len() == i,
            forall|j: int| 0 <= j < i ==> (#[trigger] out@[j]).deep() == NbtV::Int(v@[j]),
        decreases v@.len() - i,
    {
        out.push(Nbt::Int(v[i]));
        i += 1;
    }
    let r = Nbt::List(out);
    assert(r.deep()->List_0 =~= int_list(v@)->List_0);
    r
}

fn entry_nbt(b: &BlockState) -> (r: Nbt)
    ensures
        r@ == entry_tree(b@),
{
    let mut m: Vec<(String, Nbt)> = Vec::new();
    m.push((String::from_str("name"), Nbt::String(b.name.clone())));
    m.push((String::from_str("states"), b.states.clone()));
    m.push((String::from_str("version"), Nbt::Int(b.version)));
    assert(m@[0].0@ == "name"@ && m@[1].0@ == "states"@ && m@[2].0@ == "version"@);
    assert(m@[0].1.deep() == NbtV::String(b.name@));
    assert(m@[1].1.deep() == b.states.deep());
    assert(m@[2].1.deep() == NbtV::Int(b.version));
    let r = Nbt::Compound(m);
    let ghost rv = r.deep()->Compound_0;
    assert(rv.len() == 3);
    assert(rv[0] == ("name"@, NbtV::String(b.name@)));
    assert(rv[1] == ("states"@, b.states.deep()));
    assert(rv[2] == ("version"@, NbtV::Int(b.version)));
    assert(rv =~= entry_tree(b@)->Compound_0);
    r
}

fn data_nbt(d: &Vec<(usize, Nbt)>) -> (r: Nbt)
    ensures
        r@ == data_tree(data_view(d@)),
{
    let ghost dv = data_view(d@);
    let mut m: Vec<(String, Nbt)> = Vec::new();
    let mut i: usize = 0;
    while i < d.len()
        invariant
            i <= d@.len(),
            dv == data_view(d@),
            m@.len() == i,
            forall|j: int| 0 <= j < i ==> (#[trigger] m@[j]).0@ == decimal(dv[j].0 as int) && m@[j].1.deep() == dv[j].1,
        decreases d@.len() - i,
    {
        let key = nat_text(d[i].0 as u64);
        m.push((key, d[i].1.clone()));
        i += 1;
    }
    let r = Nbt::Compound(m);
    assert(r.deep()->Compound_0 =~= data_tree(dv)->Compound_0);
    r
}

fn compound_of(entries: Vec<(String, Nbt)>) -> (r: Nbt)
    ensures
        r == Nbt::Compound(entries),
{
    Nbt::Compound(entries)
}

/// Encodes `s` as its `.mcstructure` tree, refusing a structure the game
/// would not load.
pub fn encode(s: &Structure, what: &str) -> (r: Result<Nbt, CoreError>)
    ensures
        r is Ok <==> encode_ok(s@),
        r matches Ok(t) ==> t@ == structure_tree(s@),
        r is Err ==> bad_structure(r->Err_0, what@),
        r is Err ==> (encode_refusal(s@) matches Some(m) && refused_for(r->Err_0, what@, m)),
{
    let ghost sv = s@;
    if s.size.x < 0 || s.size.y < 0 || s.size.z < 0 {
        let dims = triple_text_of(s.size.x, s.size.y, s.size.z);
        return Err(bad(what, cat("size has a negative dimension: ", dims.as_str())));
    }
    let vol: i64 = s.size.volume();
    if vol as u128 > usize::MAX as u128 {
        return Err(bad(what, String::from_str("size is too large to address")));
    }
    let volume: usize = vol as usize;
    let mut l: usize = 0;
    while l < 2
        invariant
            l <= 2,
            sv == s@,
            sv.size.x >= 0 && sv.size.y >= 0 && sv.size.z >= 0,
            volume == sv.size.volume_spec(),
            l > 0 ==> sv.layer0.len() == volume,
            l > 1 ==> sv.layer1.len() == volume,
        decreases 2 - l,
    {
        let layer = if l == 0 { &s.layers[0] } else { &s.layers[1] };
        if layer.len() != volume {
            let mut reason = String::from_str("layer ");
            reason.append(nat_text(l as u64).as_str());
            reason.append(" has ");
            reason.append(nat_text(layer.len() as u64).as_str());
            reason.append(" entries but size ");
            reason.append(triple_text_of(s.size.x, s.size.y, s.size.z).as_str());
            reason.append(" needs ");
            reason.append(nat_text(volume as u64).as_str());
            assert(reason@ == layer_length_reason(l as int, layer@.len() as int, sv));
            return Err(bad(what, reason));
        }
        l += 1;
    }
    if s.palette.len() > 2147483647usize {
        return Err(bad(what, String::from_str("palette is too large")));
    }
    let palette_len: i32 = s.palette.len() as i32;
    let mut l: usize = 0;
    while l < 2
        invariant
            l <= 2,
            sv == s@,
            palette_len == sv.palette.len(),
            sv.size.x >= 0 && sv.size.y >= 0 && sv.size.z >= 0,
            l > 0 ==> forall|i: int| 0 <= i < sv.layer0.len() ==> placeable(#[trigger] sv.layer0[i], sv.palette.len() as int),
            l > 1 ==> forall|i: int| 0 <= i < sv.layer1.len() ==> placeable(#[trigger] sv.layer1[i], sv.palette.len() as int),
            volume == sv.size.volume_spec(),
            sv.layer0.len() == volume && sv.layer1.len() == volume,
        decreases 2 - l,
    {
        let layer = if l == 0 { &s.layers[0] } else { &s.layers[1] };
        let mut i: usize = 0;
        while i < layer.len()
            invariant
                i <= layer@.len(),
                l < 2,
                sv == s@,
                layer@ == if l == 0 { sv.layer0 } else { sv.layer1 },
                palette_len == sv.palette.len(),
                forall|j: int| 0 <= j < i ==> placeable(#[trigger] layer@[j], sv.palette.len() as int),
                l > 0 ==> forall|i: int| 0 <= i < sv.layer0.len() ==> placeable(#[trigger] sv.layer0[i], sv.palette.len() as int),
                sv.size.x >= 0 && sv.size.y >= 0 && sv.size.z >= 0,
                volume == sv.size.volume_spec(),
                sv.layer0.len() == volume && sv.layer1.len() == volume,
            decreases layer@.len() - i,
        {
            let b = layer[i];
            if b != VOID && (b < 0 || b >= palette_len) {
                assert(layer@ == if l == 0 { sv.layer0 } else { sv.layer1 });
                assert(!placeable(layer@[i as int], sv.palette.len() as int));
                proof {
                    lemma_first_unplaceable(layer@, sv.palette.len() as int, i as int);
                    if l == 1 {
                        lemma_first_unplaceable(sv.layer0, sv.palette.len() as int, sv.layer0.len() as int);
                    }
                }
                let mut reason = String::from_str("layer ");
                reason.append(nat_text(l as u64).as_str());
                reason.append(" refers to palette entry ");
                reason.append(int_text(b as i64).as_str());
                reason.append(", but the palette has ");
                reason.append(int_text(palette_len as i64).as_str());
                assert(reason@ == palette_reason(l as int, b, sv));
                return Err(bad(what, reason));
            }
            i += 1;
        }
        l += 1;
    }
    proof {
        lemma_first_unplaceable(sv.layer0, sv.palette.len() as int, sv.layer0.len() as int);
        lemma_first_unplaceable(sv.layer1, sv.palette.len() as int, sv.layer1.len() as int);
    }
    let data = &s.block_position_data;
    let ghost dv = data_view(data@);
    let mut k: usize = 0;
    while k < data.len()
        invariant
            k <= data@.len(),
            dv == data_view(data@),
            sv == s@,
            dv == sv.block_position_data,
            sv.size.x >= 0 && sv.size.y >= 0 && sv.size.z >= 0,
            volume == sv.size.volume_spec(),
            forall|j: int| 0 <= j < k ==> (#[trigger] dv[j]).0 < volume,
            sv.layer0.len() == volume && sv.layer1.len() == volume,
            sv.palette.len() <= i32::MAX,
            first_unplaceable(sv.layer0, sv.palette.len() as int) is None,
            first_unplaceable(sv.layer1, sv.palette.len() as int) is None,
        decreases data@.len() - k,
    {
        let index = data[k].0;
        assert(dv[k as int].0 == index);
        if index >= volume {
            proof {
                lemma_first_outside(dv, volume as int, k as int);
            }
            let mut reason = String::from_str("block_position_data index ");
            reason.append(nat_text(index as u64).as_str());
            reason.append(" is outside the structure");
            return Err(bad(what, reason));
        }
        k += 1;
    }
    let mut entries: Vec<Nbt> = Vec::new();
    let mut p: usize = 0;
    while p < s.palette.len()
        invariant
            p <= s.palette@.len(),
            entries@.len() == p,
            forall|j: int| 0 <= j < p ==> (#[trigger] entries@[j]).deep() == entry_tree(s.palette@[j]@),
        decreases s.palette@.len() - p,
    {
        entries.push(entry_nbt(&s.palette[p]));
        p += 1;
    }
    let palette_list = Nbt::List(entries);
    assert(palette_list.deep()->List_0 =~= Seq::new(sv.palette.len(), |i: int| entry_tree(sv.palette[i])));
    let mut dm: Vec<(String, Nbt)> = Vec::new();
    dm.push((String::from_str("block_palette"), palette_list));
    dm.push((String::from_str("block_position_data"), data_nbt(data)));
    let default = compound_of(dm);
    assert(default.deep()->Compound_0 =~= default_tree(sv)->Compound_0);
    let mut group: Vec<(String, Nbt)> = Vec::new();
    group.push((String::from_str("default"), default));
    let palette_group = compound_of(group);
    assert(palette_group.deep()->Compound_0 =~= seq![("default"@, default_tree(sv))]);
    let mut layers: Vec<Nbt> = Vec::new();
    layers.push(int_list_nbt(s.layers[0].as_slice()));
    layers.push(int_list_nbt(s.layers[1].as_slice()));
    let indices = Nbt::List(layers);
    assert(indices.deep()->List_0 =~= seq![int_list(sv.layer0), int_list(sv.layer1)]);
    let mut ents: Vec<Nbt> = Vec::new();
    let mut e: usize = 0;
    while e < s.entities.len()
        invariant
            e <= s.entities@.len(),
            ents@.len() == e,
            forall|j: int| 0 <= j < e ==> (#[trigger] ents@[j]).deep() == s.entities@[j].deep(),
        decreases s.entities@.len() - e,
    {
        ents.push(s.entities[e].clone());
        e += 1;
    }
    let entities = Nbt::List(ents);
    assert(entities.deep()->List_0 =~= sv.entities);
    let mut bm: Vec<(String, Nbt)> = Vec::new();
    bm.push((String::from_str("block_indices"), indices));
    bm.push((String::from_str("entities"), entities));
    bm.push((String::from_str("palette"), palette_group));
    let body = compound_of(bm);
    assert(body.deep()->Compound_0 =~= body_tree(sv)->Compound_0);
    let dims = [s.size.x, s.size.y, s.size.z];
    let origin = [s.origin.x, s.origin.y, s.origin.z];
    let size_list = int_list_nbt(&dims);
    let origin_list = int_list_nbt(&origin);
    assert(dims@ =~= seq![sv.size.x, sv.size.y, sv.size.z]);
    assert(origin@ =~= seq![sv.origin.x, sv.origin.y, sv.origin.z]);
    let mut rm: Vec<(String, Nbt)> = Vec::new();
    rm.push((String::from_str("format_version"), Nbt::Int(s.format_version)));
    rm.push((String::from_str("size"), size_list));
    rm.push((String::from_str("structure"), body));
    rm.push((String::from_str("structure_world_origin"), origin_list));
    assert(rm@[0].0@ == "format_version"@ && rm@[1].0@ == "size"@ && rm@[2].0@ == "structure"@ && rm@[3].0@ == "structure_world_origin"@);
    assert(rm@[0].1.deep() == NbtV::Int(sv.format_version));
    assert(rm@[1].1.deep() == int_list(seq![sv.size.x, sv.size.y, sv.size.z]));
    assert(rm@[2].1.deep() == body_tree(sv));
    assert(rm@[3].1.deep() == int_list(seq![sv.origin.x, sv.origin.y, sv.origin.z]));
    let root = compound_of(rm);
    assert(root.deep()->Compound_0 =~= structure_tree(sv)->Compound_0);
    Ok(root)
}

proof fn lemma_ints_of(v: Seq<i32>)
    ensures
        ints_of(int_list(v)) == Some(v),
{
    let l = int_list(v)->List_0;
    assert forall|i: int| 0 <= i < l.len() implies (#[trigger] l[i]) is Int by {}
    assert(Seq::new(l.len(), |i: int| l[i]->Int_0) =~= v);
}

/// The value stored under the `k`-th key, when no earlier key repeats it.
pub proof fn lemma_lookup_at(m: Seq<(Seq<char>, NbtV)>, k: int)
    requires
        0 <= k < m.len(),
        forall|j: int| 0 <= j < k ==> m[j].0 != m[k].0,
    ensures
        lookup(m, m[k].0) == Some(m[k].1),
    decreases k,
{
    if k > 0 {
        let rest = m.drop_first();
        assert forall|j: int| 0 <= j < k - 1 implies (#[trigger] rest[j]).0 != rest[k - 1].0 by {
            assert(rest[j] == m[j + 1]);
        }
        lemma_lookup_at(rest, k - 1);
    }
}

proof fn lemma_entry_of(b: BlockStateV)
    ensures
        entry_of(entry_tree(b)) == Some(b),
{
    reveal_strlit("name");
    reveal_strlit("states");
    reveal_strlit("version");
    let m = entry_tree(b)->Compound_0;
    assert("name"@.len() == 4 && "states"@.len() == 6 && "version"@.len() == 7);
    assert(m[0].0 != m[1].0 && m[0].0 != m[2].0 && m[1].0 != m[2].0);
    lemma_lookup_at(m, 0);
    lemma_lookup_at(m, 1);
    lemma_lookup_at(m, 2);
}

/// Writing a structure the game would load, then reading the tree back,
/// gives the same structure: every field, both layers, the palette, the
/// extra block data and the entities.
pub proof fn lemma_encode_decode(s: StructureV)
    requires
        encode_ok(s),
        sorted_keys(s.block_position_data),
    ensures
        decode_ok(structure_tree(s)),
        decoded(structure_tree(s), s),
{
    reveal_strlit("format_version");
    reveal_strlit("size");
    reveal_strlit("structure");
    reveal_strlit("structure_world_origin");
    reveal_strlit("block_indices");
    reveal_strlit("entities");
    reveal_strlit("palette");
    reveal_strlit("default");
    reveal_strlit("block_palette");
    reveal_strlit("block_position_data");
    let t = structure_tree(s);
    let body = body_tree(s);
    let dflt = default_tree(s);
    let tm = t->Compound_0;
    let bm = body->Compound_0;
    let dm = dflt->Compound_0;
    assert("format_version"@.len() == 14 && "size"@.len() == 4 && "structure"@.len() == 9);
    assert("structure_world_origin"@.len() == 22);
    assert(tm[0].0 != tm[1].0 && tm[0].0 != tm[2].0 && tm[1].0 != tm[2].0);
    assert(tm[0].0 != tm[3].0 && tm[1].0 != tm[3].0 && tm[2].0 != tm[3].0);
    assert("block_indices"@.len() == 13 && "entities"@.len() == 8 && "palette"@.len() == 7);
    assert(bm[0].0 != bm[1].0 && bm[0].0 != bm[2].0 && bm[1].0 != bm[2].0);
    assert("block_palette"@.len() == 13 && "block_position_data"@.len() == 19);
    assert(dm[0].0 != dm[1].0);
    lemma_lookup_at(tm, 0);
    lemma_lookup_at(tm, 1);
    lemma_lookup_at(tm, 2);
    lemma_lookup_at(tm, 3);
    lemma_lookup_at(bm, 0);
    lemma_lookup_at(bm, 1);
    lemma_lookup_at(bm, 2);
    lemma_lookup_at(dm, 0);
    lemma_lookup_at(dm, 1);
    lemma_lookup_at(seq![("default"@, dflt)], 0);
    let size_l = int_list(seq![s.size.x, s.size.y, s.size.z]);
    let origin_l = int_list(seq![s.origin.x, s.origin.y, s.origin.z]);
    assert(field_of(t, "format_version"@) == Some(NbtV::Int(s.format_version)));
    assert(field_of(t, "size"@) == Some(size_l));
    assert(field_of(t, "structure"@) == Some(body));
    assert(field_of(t, "structure_world_origin"@) == Some(origin_l));
    assert(triple_of(Some(size_l)) == Some((s.size.x, s.size.y, s.size.z)));
    assert(triple_of(Some(origin_l)) == Some((s.origin.x, s.origin.y, s.origin.z)));
    assert(size_of_root(t) == s.size);
    lemma_ints_of(s.layer0);
    lemma_ints_of(s.layer1);
    assert(field_of(body, "block_indices"@) == Some(NbtV::List(seq![int_list(s.layer0), int_list(s.layer1)])));
    assert(layers_of(body) == Some((s.layer0, s.layer1)));
    assert(field_of(body, "palette"@) == Some(NbtV::Compound(seq![("default"@, dflt)])));
    assert(default_of(body) == Some(dflt));
    assert(field_of(body, "entities"@) == Some(NbtV::List(s.entities)));
    let pl = Seq::new(s.palette.len(), |i: int| entry_tree(s.palette[i]));
    assert(field_of(dflt, "block_palette"@) == Some(NbtV::List(pl)));
    assert forall|i: int| 0 <= i < pl.len() implies (#[trigger] entry_of(pl[i])) is Some by {
        lemma_entry_of(s.palette[i]);
    }
    assert(palette_of(pl) is Some);
    assert(palette_of(pl).unwrap() =~= s.palette) by {
        assert forall|i: int| 0 <= i < pl.len() implies palette_of(pl).unwrap()[i] == s.palette[i] by {
            lemma_entry_of(s.palette[i]);
        }
    }
    let d = s.block_position_data;
    let entries = data_tree(d)->Compound_0;
    assert(field_of(dflt, "block_position_data"@) == Some(data_tree(d)));
    lemma_data_round_trip(d, s.size.volume_spec());
    assert(data_from(d, entries));
}

/// Encoding accepts every structure with a non-negative size whose volume
/// can be addressed, both layers exactly that long, every layer value void
/// or an entry of a palette no longer than an `i32` counts, and every extra
/// block-data index inside the volume; and then it gives no refusal.
pub proof fn lemma_encode_accepts(s: StructureV)
    requires
        s.size.x >= 0 && s.size.y >= 0 && s.size.z >= 0,
        s.size.volume_spec() <= usize::MAX,
        s.layer0.len() == s.size.volume_spec(),
        s.layer1.len() == s.size.volume_spec(),
        s.palette.len() <= i32::MAX,
        forall|i: int| 0 <= i < s.layer0.len() ==> (#[trigger] s.layer0[i] == VOID || 0 <= s.layer0[i] < s.palette.len()),
        forall|i: int| 0 <= i < s.layer1.len() ==> (#[trigger] s.layer1[i] == VOID || 0 <= s.layer1[i] < s.palette.len()),
        forall|i: int| 0 <= i < s.block_position_data.len() ==> (#[trigger] s.block_position_data[i]).0 < s.size.volume_spec(),
    ensures
        encode_ok(s),
        encode_refusal(s) is None,
{
    let plen = s.palette.len() as int;
    assert forall|i: int| 0 <= i < s.layer0.len() implies placeable(#[trigger] s.layer0[i], plen) by {
        assert(s.layer0[i] == VOID || 0 <= s.layer0[i] < s.palette.len());
    }
    assert forall|i: int| 0 <= i < s.layer1.len() implies placeable(#[trigger] s.layer1[i], plen) by {
        assert(s.layer1[i] == VOID || 0 <= s.layer1[i] < s.palette.len());
    }
    lemma_first_unplaceable(s.layer0, plen, s.layer0.len() as int);
    lemma_first_unplaceable(s.layer1, plen, s.layer1.len() as int);
    lemma_first_outside(s.block_position_data, s.size.volume_spec(), s.block_position_data.len() as int);
}

/// Every structure decoding reads whose layer values are void or palette
/// entries, and whose palette fits `i32` counts, is one encoding accepts.
pub proof fn lemma_decoded_is_encodable(t: NbtV, s: StructureV)
    requires
        decode_ok(t),
        decoded(t, s),
        s.palette.len() <= i32::MAX,
        forall|i: int| 0 <= i < s.layer0.len() ==> (#[trigger] s.layer0[i] == VOID || 0 <= s.layer0[i] < s.palette.len()),
        forall|i: int| 0 <= i < s.layer1.len() ==> (#[trigger] s.layer1[i] == VOID || 0 <= s.layer1[i] < s.palette.len()),
    ensures
        encode_ok(s),
{
    let st = field_of(t, "structure"@).unwrap();
    let d = default_of(st).unwrap();
    let m = field_of(d, "block_position_data"@).unwrap()->Compound_0;
    let vol = s.size.volume_spec();
    assert forall|i: int| 0 <= i < s.block_position_data.len() implies (#[trigger] s.block_position_data[i]).0 < vol by {
        let j = choose|j: int|
            0 <= j < m.len() && parse_usize_spec(m[j].0) == Some(#[trigger] s.block_position_data[i].0 as nat)
                && s.block_position_data[i].1 == m[j].1 && forall|j2: int|
                j < j2 < m.len() ==> parse_usize_spec(#[trigger] m[j2].0) != Some(s.block_position_data[i].0 as nat);
        assert(parse_usize_spec(m[j].0) matches Some(k) && k < vol);
    }
    lemma_encode_accepts(s);
}

/// Reading back the tree a loadable structure is written as gives exactly
/// that structure: every field, both layers, the palette, the extra block
/// data and the entities are equal.
pub proof fn lemma_encode_decode_exact(s: StructureV, t: StructureV)
    requires
        encode_ok(s),
        sorted_keys(s.block_position_data),
        decoded(structure_tree(s), t),
    ensures
        t == s,
{
    lemma_encode_decode(s);
    lemma_decoded_unique(structure_tree(s), s, t);
}

/// Extra block data written with decimal keys reads back as itself.
proof fn lemma_data_round_trip(d: Seq<(usize, NbtV)>, vol: int)
    requires
        sorted_keys(d),
        forall|i: int| 0 <= i < d.len() ==> (#[trigger] d[i]).0 < vol,
    ensures
        keys_in_volume(data_tree(d)->Compound_0, vol),
        data_from(d, data_tree(d)->Compound_0),
{
    let entries = data_tree(d)->Compound_0;
    assert forall|j: int| 0 <= j < entries.len() implies (parse_usize_spec(#[trigger] entries[j].0) matches Some(k) && k < vol) by {
        lemma_parse_decimal(d[j].0 as int);
        assert(d[j].0 < vol);
    }
    lemma_data_prefix(d, d.len() as int);
    assert(d.subrange(0, d.len() as int) =~= d);
    assert(entries.subrange(0, d.len() as int) =~= entries);
}

proof fn lemma_data_prefix(d: Seq<(usize, NbtV)>, k: int)
    requires
        sorted_keys(d),
        0 <= k <= d.len(),
    ensures
        data_from(d.subrange(0, k), (data_tree(d)->Compound_0).subrange(0, k)),
    decreases k,
{
    let mv = data_tree(d)->Compound_0;
    if k == 0 {
        assert(d.subrange(0, 0) =~= Seq::<(usize, NbtV)>::empty());
        assert(mv.subrange(0, 0) =~= Seq::<(Seq<char>, NbtV)>::empty());
    } else {
        lemma_data_prefix(d, k - 1);
        let before = d.subrange(0, k - 1);
        let after = d.subrange(0, k);
        let index = d[k - 1].0;
        lemma_parse_decimal(index as int);
        assert(mv[k - 1] == (decimal(index as int), d[k - 1].1));
        assert(after[k - 1] == (index, mv[k - 1].1));
        assert forall|i: int| 0 <= i < after.len() implies (#[trigger] after[i] == (index, mv[k - 1].1) || (after[i].0 != index
            && super::blockdata::holds(before, after[i].0, after[i].1))) by {
            if i < k - 1 {
                assert(after[i] == before[i]);
                assert(d[i].0 < d[k - 1].0);
            }
        }
        assert forall|i: int| 0 <= i < before.len() && #[trigger] before[i].0 != index implies super::blockdata::holds(after, before[i].0, before[i].1) by {
            assert(after[i] == before[i]);
        }
        super::decode::lemma_data_from_step(before, after, mv, k - 1, index);
    }
}

} // verus!
