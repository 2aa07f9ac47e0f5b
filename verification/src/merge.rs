//! Merging several structures into one that reassembles them at their
//! recorded world origins.
//!
//! The output's `structure_world_origin` is the min corner of the union of
//! every piece's bounding box. That is what makes entity positions need no
//! rewriting: a placed position is `Pos - origin + load_position`, so shifting
//! origin and load position together cancels out.
//!
//! Space inside the union that no piece covers is filled with **air**, so
//! placing the result clears the gaps rather than leaving the terrain there. A
//! structure void a piece records for itself is not a gap: it is a builder
//! saying "leave this alone", and it survives the fill.
use crate::error::CoreError;
use crate::text::{decimal, int_text, nat_text, strings_view};
use crate::mcstructure::blockdata::{data_view, holds, put, sorted_keys};
use crate::mcstructure::decode::{list_view, palette_view, BlockState, BlockStateV, Structure, StructureV, VOID};
use crate::mcstructure::nbt::{equiv, nbt_eq, Nbt, NbtV};
use crate::mcstructure::geometry::{box_of, lemma_coord_in_range, lemma_index_coord_round_trip, union_spec, BoundingBox, Coord, Size};
use vstd::prelude::*;

verus! {

broadcast use vstd::std_specs::vec::group_vec_axioms;

/// How to resolve two pieces both contributing a block at one position.
#[derive(Debug, Clone, Copy, PartialEq, Eq, Structural)]
pub enum OnOverlap {
    /// The piece appearing later in the argument list wins.
    Last,
    /// The piece appearing earlier in the argument list wins.
    First,
    /// Refuse the merge.
    Error,
}

impl Default for OnOverlap {
    fn default() -> (r: Self)
        ensures
            r == OnOverlap::Last,
    {
        OnOverlap::Last
    }
}

#[derive(Debug, Clone)]
pub struct MergeOptions {
    pub on_overlap: OnOverlap,
    /// Refuse a union bounding box with more blocks than this. An allocation
    /// guard, not a game limit: the grid costs 16 bytes per cell, two `i32`
    /// layers plus a `u32` owner per layer.
    pub max_volume: i64,
}

/// 64 million blocks: about 1 GB of layer and owner data at the cap.
pub const DEFAULT_MAX_VOLUME: i64 = 64_000_000;

/// Above this many blocks the merge warns that placing the result may be slow.
pub const PERFORMANCE_WARN_VOLUME: i64 = 1_048_576;

pub const NO_OWNER: u32 = 0xffff_ffffu32;

/// The placeholder for a cell nothing has written yet.
pub const GAP: i32 = -2147483648i32;

impl Default for MergeOptions {
    fn default() -> (r: Self)
        ensures
            r.on_overlap == OnOverlap::Last,
            r.max_volume == DEFAULT_MAX_VOLUME,
    {
        MergeOptions { on_overlap: OnOverlap::Last, max_volume: DEFAULT_MAX_VOLUME }
    }
}

/// Two pieces that both placed blocks in the same cells.
#[derive(Debug, Clone)]
pub struct Overlap {
    pub count: u64,
    /// The names of the two contending pieces, loser first.
    pub pieces: Vec<String>,
}

#[derive(Debug)]
pub struct MergeReport {
    pub structure: Structure,
    pub overlaps: Vec<Overlap>,
    pub warnings: Vec<String>,
}

/// The refusal carrying `reason`.
pub fn refused(reason: String) -> (e: CoreError)
    ensures
        e == (CoreError::MergeRefused { reason }),
{
    CoreError::MergeRefused { reason }
}

pub open spec fn in_i32(v: int) -> bool {
    i32::MIN <= v <= i32::MAX
}

/// `c` moved by `(dx, dy, dz)`, when every coordinate stays an `i32`.
pub open spec fn shift(c: Coord, dx: int, dy: int, dz: int) -> Option<Coord> {
    if in_i32(c.x + dx) && in_i32(c.y + dy) && in_i32(c.z + dz) {
        Some(Coord { x: (c.x + dx) as i32, y: (c.y + dy) as i32, z: (c.z + dz) as i32 })
    } else {
        None
    }
}

/// The output cell that block `i` of a piece (of size `ps` saved at `po`)
/// lands in, inside an output grid of size `size` whose min corner is `min`.
pub open spec fn cell_of(ps: Size, po: Coord, i: int, size: Size, min: Coord) -> Option<int> {
    match ps.coord_of_spec(i) {
        Some(local) => match shift(po, local.x as int, local.y as int, local.z as int) {
            Some(world) => match shift(world, -min.x, -min.y, -min.z) {
                Some(target) => match size.index_of_spec(target) {
                    Some(o) => if o < size.volume_spec() {
                        Some(o as int)
                    } else {
                        None
                    },
                    None => None,
                },
                None => None,
            },
            None => None,
        },
        None => None,
    }
}

/// The block of a piece that lies at output cell `o`: the inverse of [`cell_of`].
pub open spec fn source_of(ps: Size, po: Coord, o: int, size: Size, min: Coord) -> Option<int> {
    match size.coord_of_spec(o) {
        Some(target) => match shift(target, min.x as int, min.y as int, min.z as int) {
            Some(world) => match shift(world, -po.x, -po.y, -po.z) {
                Some(local) => match ps.index_of_spec(local) {
                    Some(i) => if i < ps.volume_spec() {
                        Some(i as int)
                    } else {
                        None
                    },
                    None => None,
                },
                None => None,
            },
            None => None,
        },
        None => None,
    }
}

/// A block lands in a cell exactly when that cell's source is the block.
pub proof fn lemma_cell_source(ps: Size, po: Coord, i: int, o: int, size: Size, min: Coord)
    requires
        0 <= i <= usize::MAX,
        0 <= o <= usize::MAX,
    ensures
        cell_of(ps, po, i, size, min) == Some(o) <==> source_of(ps, po, o, size, min) == Some(i),
{
    if cell_of(ps, po, i, size, min) == Some(o) {
        let local = ps.coord_of_spec(i).unwrap();
        let world = shift(po, local.x as int, local.y as int, local.z as int).unwrap();
        let target = shift(world, -min.x, -min.y, -min.z).unwrap();
        crate::mcstructure::geometry::lemma_coord_index_round_trip(size, target);
        assert(size.coord_of_spec(o) == Some(target));
        assert(shift(target, min.x as int, min.y as int, min.z as int) == Some(world));
        assert(shift(world, -po.x, -po.y, -po.z) == Some(local));
        crate::mcstructure::geometry::lemma_index_coord_round_trip(ps, i);
    }
    if source_of(ps, po, o, size, min) == Some(i) {
        let target = size.coord_of_spec(o).unwrap();
        let world = shift(target, min.x as int, min.y as int, min.z as int).unwrap();
        let local = shift(world, -po.x, -po.y, -po.z).unwrap();
        crate::mcstructure::geometry::lemma_coord_index_round_trip(ps, local);
        assert(ps.coord_of_spec(i) == Some(local));
        assert(shift(po, local.x as int, local.y as int, local.z as int) == Some(world));
        assert(shift(world, -min.x, -min.y, -min.z) == Some(target));
        crate::mcstructure::geometry::lemma_index_coord_round_trip(size, o);
    }
}

fn checked_add(a: Coord, b: Coord) -> (r: Option<Coord>)
    ensures
        r == shift(a, b.x as int, b.y as int, b.z as int),
{
    let x = match a.x.checked_add(b.x) {
        Some(v) => v,
        None => {
            return None;
        },
    };
    let y = match a.y.checked_add(b.y) {
        Some(v) => v,
        None => {
            return None;
        },
    };
    let z = match a.z.checked_add(b.z) {
        Some(v) => v,
        None => {
            return None;
        },
    };
    Some(Coord { x, y, z })
}

fn checked_sub(a: Coord, b: Coord) -> (r: Option<Coord>)
    ensures
        r == shift(a, -b.x, -b.y, -b.z),
{
    let x = match a.x.checked_sub(b.x) {
        Some(v) => v,
        None => {
            return None;
        },
    };
    let y = match a.y.checked_sub(b.y) {
        Some(v) => v,
        None => {
            return None;
        },
    };
    let z = match a.z.checked_sub(b.z) {
        Some(v) => v,
        None => {
            return None;
        },
    };
    Some(Coord { x, y, z })
}

/// The output cell block `i` of `piece` lands in.
fn out_index(piece: &Structure, i: usize, size: &Size, min: Coord) -> (r: Option<usize>)
    ensures
        r matches Some(o) ==> cell_of(piece.size, piece.origin, i as int, *size, min) == Some(
            o as int,
        ),
        r is None ==> cell_of(piece.size, piece.origin, i as int, *size, min) is None,
{
    let local = match piece.size.coord_of(i) {
        Some(c) => c,
        None => {
            return None;
        },
    };
    let world = match checked_add(piece.origin, local) {
        Some(c) => c,
        None => {
            return None;
        },
    };
    let target = match checked_sub(world, min) {
        Some(c) => c,
        None => {
            return None;
        },
    };
    let o = match size.index_of(target) {
        Some(o) => o,
        None => {
            return None;
        },
    };
    let vol: i64 = size.volume();
    if (o as u128) < (vol as u128) {
        Some(o)
    } else {
        None
    }
}

/// How many of the cells `0..n` satisfy `f`.
pub open spec fn count_cells(f: spec_fn(int) -> bool, n: int) -> nat
    decreases n,
{
    if n <= 0 {
        0
    } else {
        count_cells(f, n - 1) + if f(n - 1) {
            1nat
        } else {
            0nat
        }
    }
}

pub proof fn lemma_count_bound(f: spec_fn(int) -> bool, n: int)
    ensures
        count_cells(f, n) <= if n < 0 {
            0
        } else {
            n
        },
    decreases n,
{
    if n > 0 {
        lemma_count_bound(f, n - 1);
    }
}

/// Counts agree for predicates that agree on the cells counted.
pub proof fn lemma_count_same(f: spec_fn(int) -> bool, g: spec_fn(int) -> bool, n: int)
    requires
        forall|o: int| 0 <= o < n ==> #[trigger] f(o) == g(o),
    ensures
        count_cells(f, n) == count_cells(g, n),
    decreases n,
{
    if n > 0 {
        lemma_count_same(f, g, n - 1);
    }
}

/// Changing a predicate at one cell changes its count by at most that cell.
pub proof fn lemma_count_step(f: spec_fn(int) -> bool, g: spec_fn(int) -> bool, n: int, at: int)
    requires
        forall|o: int| 0 <= o < n && o != at ==> #[trigger] f(o) == g(o),
        0 <= at < n,
        !f(at),
        g(at),
    ensures
        count_cells(g, n) == count_cells(f, n) + 1,
    decreases n,
{
    if n - 1 > at {
        lemma_count_step(f, g, n - 1, at);
    } else {
        lemma_count_same(f, g, n - 1);
    }
}


/// Two palette entries the codec considers equal: same name, equal states,
/// same version.
pub open spec fn same_state(a: BlockStateV, b: BlockStateV) -> bool {
    a.name == b.name && equiv(a.states, b.states) && a.version == b.version
}

/// The first entry of `pal` equal to `e`.
pub open spec fn first_same(pal: Seq<BlockStateV>, e: BlockStateV) -> Option<int>
    decreases pal.len(),
{
    if pal.len() == 0 {
        None
    } else {
        match first_same(pal.drop_last(), e) {
            Some(j) => Some(j),
            None => if same_state(pal.last(), e) {
                Some(pal.len() - 1)
            } else {
                None
            },
        }
    }
}

/// Adds `e` to `pal` unless an equal entry is already there; gives the
/// entry's index either way.
pub open spec fn unify_step(pal: Seq<BlockStateV>, e: BlockStateV) -> (Seq<BlockStateV>, int) {
    match first_same(pal, e) {
        Some(j) => (pal, j),
        None => (pal.push(e), pal.len() as int),
    }
}

/// Folds the entries `es` of one piece into `pal`, in order.
pub open spec fn unify_entries(pal: Seq<BlockStateV>, es: Seq<BlockStateV>) -> (
    Seq<BlockStateV>,
    Seq<int>,
)
    decreases es.len(),
{
    if es.len() == 0 {
        (pal, Seq::empty())
    } else {
        let (p1, r1) = unify_entries(pal, es.drop_last());
        let (p2, j) = unify_step(p1, es.last());
        (p2, r1.push(j))
    }
}

/// The shared palette of several pieces, and for each piece where each of
/// its entries went.
pub open spec fn unify_all(pals: Seq<Seq<BlockStateV>>) -> (Seq<BlockStateV>, Seq<Seq<int>>)
    decreases pals.len(),
{
    if pals.len() == 0 {
        (Seq::empty(), Seq::empty())
    } else {
        let (p1, rs) = unify_all(pals.drop_last());
        let (p2, r) = unify_entries(p1, pals.last());
        (p2, rs.push(r))
    }
}

pub open spec fn as_i32s(s: Seq<int>) -> Seq<i32> {
    Seq::new(s.len(), |k: int| s[k] as i32)
}

/// A copy of a palette entry.
pub fn copy_state(b: &BlockState) -> (r: BlockState)
    ensures
        r@ == b@,
{
    BlockState { name: b.name.clone(), states: b.states.clone(), version: b.version }
}

fn same_block(a: &BlockState, b: &BlockState) -> (r: bool)
    ensures
        r == same_state(a@, b@),
{
    a.name == b.name && nbt_eq(&a.states, &b.states) && a.version == b.version
}

fn position_of(pal: &Vec<BlockState>, e: &BlockState) -> (r: Option<usize>)
    ensures
        match r {
            Some(j) => first_same(palette_view(pal@), e@) == Some(j as int),
            None => first_same(palette_view(pal@), e@) is None,
        },
{
    let ghost pv = palette_view(pal@);
    let mut j: usize = 0;
    while j < pal.len()
        invariant
            j <= pal@.len(),
            pv == palette_view(pal@),
            first_same(pv.subrange(0, j as int), e@) is None,
        decreases pal@.len() - j,
    {
        assert(pv.subrange(0, j + 1).drop_last() =~= pv.subrange(0, j as int));
        if same_block(&pal[j], e) {
            assert(first_same(pv.subrange(0, j + 1), e@) == Some(j as int));
            proof {
                lemma_first_same_prefix(pv, e@, j + 1);
            }
            return Some(j);
        }
        j += 1;
    }
    assert(pv.subrange(0, pv.len() as int) =~= pv);
    None
}

/// A match in a prefix is the match in the whole.
proof fn lemma_first_same_prefix(pal: Seq<BlockStateV>, e: BlockStateV, n: int)
    requires
        0 <= n <= pal.len(),
        first_same(pal.subrange(0, n), e) is Some,
    ensures
        first_same(pal, e) == first_same(pal.subrange(0, n), e),
    decreases pal.len() - n,
{
    if n < pal.len() {
        assert(pal.subrange(0, n + 1).drop_last() =~= pal.subrange(0, n));
        lemma_first_same_prefix(pal, e, n + 1);
    } else {
        assert(pal.subrange(0, n) =~= pal);
    }
}

/// Folds one piece's palette into `palette`; gives where each entry went.
fn unify_into(palette: &mut Vec<BlockState>, entries: &Vec<BlockState>) -> (remap: Vec<i32>)
    ensures
        palette_view(final(palette)@) == unify_entries(palette_view(old(palette)@), palette_view(
            entries@,
        )).0,
        remap@ == as_i32s(
            unify_entries(palette_view(old(palette)@), palette_view(entries@)).1,
        ),
{
    let ghost start = palette_view(palette@);
    let ghost es = palette_view(entries@);
    let mut remap: Vec<i32> = Vec::new();
    let mut k: usize = 0;
    while k < entries.len()
        invariant
            k <= entries@.len(),
            es == palette_view(entries@),
            palette_view(palette@) == unify_entries(start, es.subrange(0, k as int)).0,
            remap@ == as_i32s(unify_entries(start, es.subrange(0, k as int)).1),
        decreases entries@.len() - k,
    {
        assert(es.subrange(0, k + 1).drop_last() =~= es.subrange(0, k as int));
        assert(es.subrange(0, k + 1).last() == es[k as int]);
        let ghost before = palette_view(palette@);
        let index: i32 = match position_of(palette, &entries[k]) {
            Some(j) => j as i32,
            None => {
                palette.push(copy_state(&entries[k]));
                assert(palette_view(palette@) =~= before.push(es[k as int]));
                (palette.len() - 1) as i32
            },
        };
        remap.push(index);
        k += 1;
        assert(remap@ =~= as_i32s(unify_entries(start, es.subrange(0, k as int)).1));
    }
    assert(es.subrange(0, entries@.len() as int) =~= es);
    remap
}

pub open spec fn palettes_of(pieces: Seq<Structure>) -> Seq<Seq<BlockStateV>> {
    Seq::new(pieces.len(), |p: int| palette_view(pieces[p].palette@))
}

/// One palette for several pieces: equal entries collapse to one, kept in
/// the order first seen; `remaps[p][k]` is where entry `k` of piece `p` went.
pub fn unify_palettes(pieces: &[Structure]) -> (r: (Vec<BlockState>, Vec<Vec<i32>>))
    ensures
        palette_view(r.0@) == unify_all(palettes_of(pieces@)).0,
        r.1@.len() == pieces@.len(),
        forall|p: int|
            0 <= p < pieces@.len() ==> (#[trigger] r.1@[p])@ == as_i32s(
                unify_all(palettes_of(pieces@)).1[p],
            ),
{
    let ghost pals = palettes_of(pieces@);
    let mut palette: Vec<BlockState> = Vec::new();
    let mut remaps: Vec<Vec<i32>> = Vec::new();
    let mut p: usize = 0;
    assert(palette_view(palette@) =~= Seq::<BlockStateV>::empty());
    while p < pieces.len()
        invariant
            p <= pieces@.len(),
            pals == palettes_of(pieces@),
            palette_view(palette@) == unify_all(pals.subrange(0, p as int)).0,
            remaps@.len() == p,
            unify_all(pals.subrange(0, p as int)).1.len() == p,
            forall|q: int|
                0 <= q < p ==> (#[trigger] remaps@[q])@ == as_i32s(
                    unify_all(pals.subrange(0, p as int)).1[q],
                ),
        decreases pieces@.len() - p,
    {
        assert(pals.subrange(0, p + 1).drop_last() =~= pals.subrange(0, p as int));
        assert(pals.subrange(0, p + 1).last() == pals[p as int]);
        let remap = unify_into(&mut palette, &pieces[p].palette);
        remaps.push(remap);
        p += 1;
    }
    assert(pals.subrange(0, pieces@.len() as int) =~= pals);
    (palette, remaps)
}


/// The block every gap in the union is filled with.
pub const AIR: &'static str = "minecraft:air";

/// The first entry of `pal` named `name`.
pub open spec fn first_named(pal: Seq<BlockStateV>, name: Seq<char>) -> Option<int>
    decreases pal.len(),
{
    if pal.len() == 0 {
        None
    } else {
        match first_named(pal.drop_last(), name) {
            Some(j) => Some(j),
            None => if pal.last().name == name {
                Some(pal.len() - 1)
            } else {
                None
            },
        }
    }
}

/// The greatest version in `pal`, or 0 for an empty palette.
pub open spec fn max_version(pal: Seq<BlockStateV>) -> i32
    decreases pal.len(),
{
    if pal.len() == 0 {
        0
    } else if pal.len() == 1 {
        pal[0].version
    } else {
        let m = max_version(pal.drop_last());
        if pal.last().version > m {
            pal.last().version
        } else {
            m
        }
    }
}

/// The palette with an air entry, and that entry's index: the first entry
/// already named air, else a new one with empty states at the palette's
/// greatest version.
pub open spec fn with_air(pal: Seq<BlockStateV>) -> (Seq<BlockStateV>, int) {
    match first_named(pal, AIR@) {
        Some(j) => (pal, j),
        None => (
            pal.push(
                BlockStateV {
                    name: AIR@,
                    states: NbtV::Compound(Seq::empty()),
                    version: max_version(pal),
                },
            ),
            pal.len() as int,
        ),
    }
}

fn air_index(palette: &mut Vec<BlockState>) -> (r: i32)
    ensures
        palette_view(final(palette)@) == with_air(palette_view(old(palette)@)).0,
        r == with_air(palette_view(old(palette)@)).1 as i32,
{
    let ghost pv = palette_view(palette@);
    let air = AIR.to_owned();
    let mut j: usize = 0;
    let mut version: i32 = 0;
    while j < palette.len()
        invariant
            j <= palette@.len(),
            pv == palette_view(palette@),
            air@ == AIR@,
            first_named(pv.subrange(0, j as int), AIR@) is None,
            version == max_version(pv.subrange(0, j as int)),
        decreases palette@.len() - j,
    {
        let ghost pre = pv.subrange(0, j + 1);
        assert(pre.drop_last() =~= pv.subrange(0, j as int));
        assert(pre.last() == pv[j as int]);
        if palette[j].name == air {
            proof {
                lemma_first_named_prefix(pv, AIR@, j + 1);
            }
            return j as i32;
        }
        if j == 0 || palette[j].version > version {
            version = palette[j].version;
        }
        j += 1;
    }
    assert(pv.subrange(0, pv.len() as int) =~= pv);
    let states = Nbt::Compound(Vec::new());
    assert(states.deep()->Compound_0 =~= Seq::<(Seq<char>, NbtV)>::empty());
    palette.push(BlockState { name: air, states, version });
    assert(palette_view(palette@) =~= with_air(pv).0);
    (palette.len() - 1) as i32
}

proof fn lemma_first_named_prefix(pal: Seq<BlockStateV>, name: Seq<char>, n: int)
    requires
        0 <= n <= pal.len(),
        first_named(pal.subrange(0, n), name) is Some,
    ensures
        first_named(pal, name) == first_named(pal.subrange(0, n), name),
    decreases pal.len() - n,
{
    if n < pal.len() {
        assert(pal.subrange(0, n + 1).drop_last() =~= pal.subrange(0, n));
        lemma_first_named_prefix(pal, name, n + 1);
    } else {
        assert(pal.subrange(0, n) =~= pal);
    }
}

/// Overlap counts, one entry per contending pair `(loser, winner, count)`,
/// sorted by pair, every count positive.
pub open spec fn tally_ok(v: Seq<(usize, usize, u64)>) -> bool {
    &&& forall|i: int, j: int|
        0 <= i < j < v.len() ==> (v[i].0 < v[j].0 || (v[i].0 == v[j].0 && v[i].1 < v[j].1))
    &&& forall|i: int| 0 <= i < v.len() ==> #[trigger] v[i].2 > 0
}

pub open spec fn tally_has(v: Seq<(usize, usize, u64)>, x: int, y: int) -> bool {
    exists|i: int| 0 <= i < v.len() && v[i].0 == x && v[i].1 == y
}

/// The count recorded for the pair `(x, y)`.
pub open spec fn tally_count(v: Seq<(usize, usize, u64)>, x: int, y: int) -> nat {
    if tally_has(v, x, y) {
        let i = choose|i: int| 0 <= i < v.len() && v[i].0 == x && v[i].1 == y;
        v[i].2 as nat
    } else {
        0
    }
}

proof fn lemma_tally_at(v: Seq<(usize, usize, u64)>, i: int)
    requires
        tally_ok(v),
        0 <= i < v.len(),
    ensures
        tally_count(v, v[i].0 as int, v[i].1 as int) == v[i].2,
{
    let j = choose|j: int| 0 <= j < v.len() && v[j].0 == v[i].0 && v[j].1 == v[i].1;
    if j < i {
        assert(!(v[j].0 == v[i].0 && v[j].1 == v[i].1));
    } else if i < j {
        assert(!(v[j].0 == v[i].0 && v[j].1 == v[i].1));
    }
}

/// Adds one to the count of the pair `(a, b)`.
fn bump(v: &mut Vec<(usize, usize, u64)>, a: usize, b: usize)
    requires
        tally_ok(old(v)@),
        tally_count(old(v)@, a as int, b as int) < u64::MAX,
    ensures
        tally_ok(final(v)@),
        forall|x: int, y: int|
            #[trigger] tally_count(final(v)@, x, y) == tally_count(old(v)@, x, y) + if x == a && y
                == b {
                1nat
            } else {
                0nat
            },
{
    let ghost old_v = v@;
    let mut p: usize = 0;
    while p < v.len() && (v[p].0 < a || (v[p].0 == a && v[p].1 < b))
        invariant
            p <= v@.len(),
            old_v == v@,
            tally_ok(old_v),
            forall|j: int|
                0 <= j < p ==> (old_v[j].0 < a || (old_v[j].0 == a && old_v[j].1 < b)),
        decreases v@.len() - p,
    {
        p += 1;
    }
    if p < v.len() && v[p].0 == a && v[p].1 == b {
        proof {
            lemma_tally_at(old_v, p as int);
        }
        let c = v[p].2;
        v.set(p, (a, b, c + 1));
        let ghost new_v = v@;
        assert(new_v =~= old_v.update(p as int, (a, b, (c + 1) as u64)));
        assert forall|x: int, y: int|
            #[trigger] tally_count(new_v, x, y) == tally_count(old_v, x, y) + if x == a && y == b {
                1nat
            } else {
                0nat
            } by {
            if tally_has(new_v, x, y) {
                let i = choose|i: int| 0 <= i < new_v.len() && new_v[i].0 == x && new_v[i].1 == y;
                lemma_tally_at(new_v, i);
                lemma_tally_at(old_v, i);
            } else if tally_has(old_v, x, y) {
                let i = choose|i: int| 0 <= i < old_v.len() && old_v[i].0 == x && old_v[i].1 == y;
                assert(new_v[i].0 == x && new_v[i].1 == y);
            }
        }
    } else {
        proof {
            if tally_has(old_v, a as int, b as int) {
                let i = choose|i: int| 0 <= i < old_v.len() && old_v[i].0 == a && old_v[i].1 == b;
                if i >= p {
                    if p < old_v.len() && i > p {
                        assert(old_v[p as int].0 < old_v[i].0 || (old_v[p as int].0 == old_v[i].0
                            && old_v[p as int].1 < old_v[i].1));
                    }
                }
            }
        }
        v.insert(p, (a, b, 1));
        let ghost new_v = v@;
        assert(new_v =~= old_v.insert(p as int, (a, b, 1u64)));
        assert forall|i: int, j: int|
            0 <= i < j < new_v.len() implies (new_v[i].0 < new_v[j].0 || (new_v[i].0 == new_v[j].0
                && new_v[i].1 < new_v[j].1)) by {
            if j < p {
            } else if j == p {
                assert(new_v[i] == old_v[i]);
            } else if i < p {
                assert(new_v[j] == old_v[j - 1]);
                assert(old_v[p as int].0 < old_v[j - 1].0 || (old_v[p as int].0 == old_v[j - 1].0
                    && old_v[p as int].1 <= old_v[j - 1].1)) by {
                    if j - 1 > p {
                    }
                }
            } else if i == p {
                assert(new_v[j] == old_v[j - 1]);
                if j - 1 > p {
                    assert(old_v[p as int].0 < old_v[j - 1].0 || (old_v[p as int].0 == old_v[j
                        - 1].0 && old_v[p as int].1 < old_v[j - 1].1));
                }
            } else {
                assert(new_v[i] == old_v[i - 1]);
                assert(new_v[j] == old_v[j - 1]);
            }
        }
        assert forall|x: int, y: int|
            #[trigger] tally_count(new_v, x, y) == tally_count(old_v, x, y) + if x == a && y == b {
                1nat
            } else {
                0nat
            } by {
            if x == a && y == b {
                lemma_tally_at(new_v, p as int);
            } else if tally_has(new_v, x, y) {
                let i = choose|i: int| 0 <= i < new_v.len() && new_v[i].0 == x && new_v[i].1 == y;
                lemma_tally_at(new_v, i);
                if i < p {
                    lemma_tally_at(old_v, i);
                } else {
                    assert(i != p);
                    assert(new_v[i] == old_v[i - 1]);
                    lemma_tally_at(old_v, i - 1);
                }
            } else if tally_has(old_v, x, y) {
                let i = choose|i: int| 0 <= i < old_v.len() && old_v[i].0 == x && old_v[i].1 == y;
                if i < p {
                    assert(new_v[i] == old_v[i]);
                } else {
                    assert(new_v[i + 1] == old_v[i]);
                }
            }
        }
    }
}


/// The structures of named pieces.
pub open spec fn views(pieces: Seq<(String, Structure)>) -> Seq<StructureV> {
    Seq::new(pieces.len(), |p: int| pieces[p].1@)
}

pub open spec fn layer_of(s: StructureV, l: int) -> Seq<i32> {
    if l == 0 {
        s.layer0
    } else {
        s.layer1
    }
}

/// The block of piece `s` at output cell `o`.
pub open spec fn src(s: StructureV, o: int, size: Size, min: Coord) -> Option<int> {
    source_of(s.size, s.origin, o, size, min)
}

/// Piece `s` places a block at output cell `o` of layer `l`: its block there
/// is neither structure void nor outside its palette.
pub open spec fn claims(s: StructureV, l: int, o: int, size: Size, min: Coord) -> bool {
    src(s, o, size, min) matches Some(i) && i < layer_of(s, l).len() && layer_of(s, l)[i] != VOID
        && 0 <= layer_of(s, l)[i] < s.palette.len()
}

/// Piece `s` has a block at cell `o` of layer `l` whose index lies outside
/// its palette.
pub open spec fn misses(s: StructureV, l: int, o: int, size: Size, min: Coord) -> bool {
    src(s, o, size, min) matches Some(i) && i < layer_of(s, l).len() && layer_of(s, l)[i] != VOID
        && !(0 <= layer_of(s, l)[i] < s.palette.len())
}

/// Piece `s` records a structure void at output cell `o`.
pub open spec fn voids(s: StructureV, o: int, size: Size, min: Coord) -> bool {
    src(s, o, size, min) matches Some(i) && i < s.layer0.len() && s.layer0[i] == VOID
}

/// The last of the first `n` pieces that places a block at `(l, o)`.
pub open spec fn last_claim(ps: Seq<StructureV>, l: int, o: int, n: int, size: Size, min: Coord) -> Option<int>
    decreases n,
{
    if n <= 0 {
        None
    } else if claims(ps[n - 1], l, o, size, min) {
        Some(n - 1)
    } else {
        last_claim(ps, l, o, n - 1, size, min)
    }
}

/// The first of the first `n` pieces that places a block at `(l, o)`.
pub open spec fn first_claim(ps: Seq<StructureV>, l: int, o: int, n: int, size: Size, min: Coord) -> Option<int>
    decreases n,
{
    if n <= 0 {
        None
    } else {
        match first_claim(ps, l, o, n - 1, size, min) {
            Some(p) => Some(p),
            None => if claims(ps[n - 1], l, o, size, min) {
                Some(n - 1)
            } else {
                None
            },
        }
    }
}

/// Which of the first `n` pieces holds cell `(l, o)`: the last to place a
/// block there when later pieces win, else the first.
pub open spec fn claimant(ps: Seq<StructureV>, keep_last: bool, l: int, o: int, n: int, size: Size, min: Coord) -> Option<int> {
    if keep_last {
        last_claim(ps, l, o, n, size, min)
    } else {
        first_claim(ps, l, o, n, size, min)
    }
}

pub proof fn lemma_claimant_range(ps: Seq<StructureV>, keep_last: bool, l: int, o: int, n: int, size: Size, min: Coord)
    ensures
        claimant(ps, keep_last, l, o, n, size, min) matches Some(p) ==> 0 <= p < n && claims(ps[p], l, o, size, min),
    decreases n,
{
    if n > 0 {
        lemma_claimant_range(ps, keep_last, l, o, n - 1, size, min);
    }
}

/// The holder of `(l, o)` once piece `b` has placed its blocks `0..k`.
pub open spec fn claim_upto(ps: Seq<StructureV>, keep_last: bool, l: int, o: int, b: int, k: int, size: Size, min: Coord) -> Option<int> {
    if claims(ps[b], l, o, size, min) && src(ps[b], o, size, min).unwrap() < k {
        if keep_last || first_claim(ps, l, o, b, size, min) is None {
            Some(b)
        } else {
            first_claim(ps, l, o, b, size, min)
        }
    } else {
        claimant(ps, keep_last, l, o, b, size, min)
    }
}

/// Piece `b` places a block at `(l, o)` while piece `a` holds it.
pub open spec fn overlap_at(ps: Seq<StructureV>, keep_last: bool, l: int, o: int, a: int, b: int, size: Size, min: Coord) -> bool {
    claims(ps[b], l, o, size, min) && claimant(ps, keep_last, l, o, b, size, min) == Some(a)
}

pub open spec fn overlap_pred(ps: Seq<StructureV>, keep_last: bool, l: int, a: int, b: int, k: int, size: Size, min: Coord) -> spec_fn(int) -> bool {
    |o: int| overlap_at(ps, keep_last, l, o, a, b, size, min) && src(ps[b], o, size, min).unwrap() < k
}

/// How many blocks piece `b` placed over blocks of piece `a`, both layers.
pub open spec fn overlap_total(ps: Seq<StructureV>, keep_last: bool, a: int, b: int, size: Size, min: Coord, cells: int) -> nat {
    count_cells(overlap_pred(ps, keep_last, 0, a, b, i64::MAX as int, size, min), cells)
        + count_cells(overlap_pred(ps, keep_last, 1, a, b, i64::MAX as int, size, min), cells)
}

/// The overlap counts once piece `b` has placed blocks `0..k` of layer `l`.
pub open spec fn expected_tally(ps: Seq<StructureV>, keep_last: bool, x: int, y: int, b: int, l: int, k: int, size: Size, min: Coord, cells: int) -> nat {
    if y < b {
        overlap_total(ps, keep_last, x, y, size, min, cells)
    } else if y == b {
        (if l == 1 {
            count_cells(overlap_pred(ps, keep_last, 0, x, b, i64::MAX as int, size, min), cells)
        } else {
            0
        }) + count_cells(overlap_pred(ps, keep_last, l, x, b, k, size, min), cells)
    } else {
        0
    }
}

pub open spec fn miss_pred(s: StructureV, l: int, k: int, size: Size, min: Coord) -> spec_fn(int) -> bool {
    |o: int| misses(s, l, o, size, min) && src(s, o, size, min).unwrap() < k
}

/// How many of a piece's blocks, both layers, lie outside its palette.
pub open spec fn miss_total(s: StructureV, size: Size, min: Coord, cells: int) -> nat {
    count_cells(miss_pred(s, 0, i64::MAX as int, size, min), cells) + count_cells(
        miss_pred(s, 1, i64::MAX as int, size, min),
        cells,
    )
}

pub open spec fn owner_code(c: Option<int>) -> u32 {
    match c {
        Some(p) => p as u32,
        None => NO_OWNER,
    }
}

/// The output index of piece `p`'s block at `(l, o)`.
pub open spec fn cell_value(ps: Seq<StructureV>, rs: Seq<Seq<int>>, l: int, o: int, p: int, size: Size, min: Coord) -> i32 {
    rs[p][layer_of(ps[p], l)[src(ps[p], o, size, min).unwrap()] as int] as i32
}

/// The grid of layer `l` once piece `b` has placed blocks `0..k`.
pub open spec fn grid_ok(
    layer: Seq<i32>,
    owner: Seq<u32>,
    init: Seq<i32>,
    ps: Seq<StructureV>,
    rs: Seq<Seq<int>>,
    keep_last: bool,
    l: int,
    b: int,
    k: int,
    size: Size,
    min: Coord,
    cells: int,
) -> bool {
    &&& layer.len() == cells
    &&& owner.len() == cells
    &&& init.len() == cells
    &&& forall|o: int|
        0 <= o < cells ==> #[trigger] owner[o] == owner_code(
            claim_upto(ps, keep_last, l, o, b, k, size, min),
        )
    &&& forall|o: int|
        0 <= o < cells ==> #[trigger] layer[o] == match claim_upto(
            ps,
            keep_last,
            l,
            o,
            b,
            k,
            size,
            min,
        ) {
            Some(p) => cell_value(ps, rs, l, o, p, size, min),
            None => init[o],
        }
}

/// Piece `b` having placed all its blocks is piece `b + 1` having placed none.
proof fn lemma_claim_done(ps: Seq<StructureV>, keep_last: bool, l: int, o: int, b: int, k: int, size: Size, min: Coord)
    requires
        0 <= b,
        k >= layer_of(ps[b], l).len(),
    ensures
        claim_upto(ps, keep_last, l, o, b, k, size, min) == claim_upto(ps, keep_last, l, o, b + 1, 0, size, min),
        claim_upto(ps, keep_last, l, o, b + 1, 0, size, min) == claimant(ps, keep_last, l, o, b + 1, size, min),
{
    if claims(ps[b + 1], l, o, size, min) {
        assert(src(ps[b + 1], o, size, min).unwrap() >= 0);
    }
}


/// Nothing of block `k` lands: every cell keeps its holder and counts.
proof fn lemma_unlanded(ps: Seq<StructureV>, keep_last: bool, l: int, b: int, k: int, size: Size, min: Coord, cells: int)
    requires
        forall|o: int| 0 <= o < cells ==> src(ps[b], o, size, min) != Some(k) || !(claims(ps[b], l, o, size, min) || misses(ps[b], l, o, size, min)),
    ensures
        forall|o: int| 0 <= o < cells ==> #[trigger] claim_upto(ps, keep_last, l, o, b, k + 1, size, min) == claim_upto(ps, keep_last, l, o, b, k, size, min),
        forall|x: int| #[trigger] count_cells(overlap_pred(ps, keep_last, l, x, b, k + 1, size, min), cells) == count_cells(overlap_pred(ps, keep_last, l, x, b, k, size, min), cells),
        count_cells(miss_pred(ps[b], l, k + 1, size, min), cells) == count_cells(miss_pred(ps[b], l, k, size, min), cells),
{
    assert forall|x: int| #[trigger] count_cells(overlap_pred(ps, keep_last, l, x, b, k + 1, size, min), cells) == count_cells(overlap_pred(ps, keep_last, l, x, b, k, size, min), cells) by {
        lemma_count_same(overlap_pred(ps, keep_last, l, x, b, k + 1, size, min), overlap_pred(ps, keep_last, l, x, b, k, size, min), cells);
    }
    lemma_count_same(miss_pred(ps[b], l, k + 1, size, min), miss_pred(ps[b], l, k, size, min), cells);
}

/// Block `k` lands in cell `at` alone: every other cell keeps its holder.
proof fn lemma_landed_elsewhere(ps: Seq<StructureV>, keep_last: bool, l: int, b: int, k: int, at: int, size: Size, min: Coord, cells: int)
    requires
        0 <= k <= usize::MAX,
        cells <= usize::MAX,
        cell_of(ps[b].size, ps[b].origin, k, size, min) == Some(at),
    ensures
        src(ps[b], at, size, min) == Some(k),
        forall|o: int| 0 <= o < cells && o != at ==> #[trigger] claim_upto(ps, keep_last, l, o, b, k + 1, size, min) == claim_upto(ps, keep_last, l, o, b, k, size, min),
        forall|o: int, x: int| 0 <= o < cells && o != at ==> #[trigger] overlap_pred(ps, keep_last, l, x, b, k + 1, size, min)(o) == overlap_pred(ps, keep_last, l, x, b, k, size, min)(o),
        forall|o: int| 0 <= o < cells && o != at ==> #[trigger] miss_pred(ps[b], l, k + 1, size, min)(o) == miss_pred(ps[b], l, k, size, min)(o),
{
    lemma_cell_source(ps[b].size, ps[b].origin, k, at, size, min);
    assert forall|o: int| 0 <= o < cells && o != at implies src(ps[b], o, size, min) != Some(k) by {
        lemma_cell_source(ps[b].size, ps[b].origin, k, o, size, min);
    }
}

proof fn lemma_grid_same(layer: Seq<i32>, owner: Seq<u32>, init: Seq<i32>, ps: Seq<StructureV>, rs: Seq<Seq<int>>, keep_last: bool, l: int, b: int, k: int, size: Size, min: Coord, cells: int)
    requires
        grid_ok(layer, owner, init, ps, rs, keep_last, l, b, k, size, min, cells),
        forall|o: int| 0 <= o < cells ==> #[trigger] claim_upto(ps, keep_last, l, o, b, k + 1, size, min) == claim_upto(ps, keep_last, l, o, b, k, size, min),
    ensures
        grid_ok(layer, owner, init, ps, rs, keep_last, l, b, k + 1, size, min, cells),
{
    assert forall|o: int| 0 <= o < cells implies #[trigger] owner[o] == owner_code(claim_upto(ps, keep_last, l, o, b, k + 1, size, min)) by {
        assert(claim_upto(ps, keep_last, l, o, b, k + 1, size, min) == claim_upto(ps, keep_last, l, o, b, k, size, min));
    }
    assert forall|o: int| 0 <= o < cells implies #[trigger] layer[o] == match claim_upto(ps, keep_last, l, o, b, k + 1, size, min) {
        Some(p) => cell_value(ps, rs, l, o, p, size, min),
        None => init[o],
    } by {
        assert(claim_upto(ps, keep_last, l, o, b, k + 1, size, min) == claim_upto(ps, keep_last, l, o, b, k, size, min));
    }
}

/// The grid after one cell `at` changed to what its new holder dictates.
proof fn lemma_grid_set(layer: Seq<i32>, owner: Seq<u32>, layer2: Seq<i32>, owner2: Seq<u32>, init: Seq<i32>, ps: Seq<StructureV>, rs: Seq<Seq<int>>, keep_last: bool, l: int, b: int, k: int, at: int, size: Size, min: Coord, cells: int)
    requires
        grid_ok(layer, owner, init, ps, rs, keep_last, l, b, k, size, min, cells),
        0 <= at < cells,
        forall|o: int| 0 <= o < cells && o != at ==> #[trigger] claim_upto(ps, keep_last, l, o, b, k + 1, size, min) == claim_upto(ps, keep_last, l, o, b, k, size, min),
        layer2.len() == cells,
        owner2.len() == cells,
        forall|o: int| 0 <= o < cells && o != at ==> layer2[o] == layer[o] && owner2[o] == owner[o],
        owner2[at] == owner_code(claim_upto(ps, keep_last, l, at, b, k + 1, size, min)),
        layer2[at] == match claim_upto(ps, keep_last, l, at, b, k + 1, size, min) {
            Some(p) => cell_value(ps, rs, l, at, p, size, min),
            None => init[at],
        },
    ensures
        grid_ok(layer2, owner2, init, ps, rs, keep_last, l, b, k + 1, size, min, cells),
{
    assert forall|o: int| 0 <= o < cells implies #[trigger] owner2[o] == owner_code(claim_upto(ps, keep_last, l, o, b, k + 1, size, min)) by {
        if o != at {
            assert(owner2[o] == owner[o]);
        }
    }
    assert forall|o: int| 0 <= o < cells implies #[trigger] layer2[o] == match claim_upto(ps, keep_last, l, o, b, k + 1, size, min) {
        Some(p) => cell_value(ps, rs, l, o, p, size, min),
        None => init[o],
    } by {
        if o != at {
            assert(layer2[o] == layer[o]);
        }
    }
}

/// Expected counts follow the per-pair counts of layer `l` of piece `b`.
proof fn lemma_tally_follows(tally: Seq<(usize, usize, u64)>, tally2: Seq<(usize, usize, u64)>, ps: Seq<StructureV>, keep_last: bool, b: int, l: int, k: int, k2: int, bumped: Option<int>, size: Size, min: Coord, cells: int)
    requires
        forall|x: int, y: int| #[trigger] tally_count(tally, x, y) == expected_tally(ps, keep_last, x, y, b, l, k, size, min, cells),
        forall|x: int| #[trigger] count_cells(overlap_pred(ps, keep_last, l, x, b, k2, size, min), cells) == count_cells(overlap_pred(ps, keep_last, l, x, b, k, size, min), cells) + if bumped == Some(x) { 1nat } else { 0nat },
        forall|x: int, y: int| #[trigger] tally_count(tally2, x, y) == tally_count(tally, x, y) + if bumped == Some(x) && y == b { 1nat } else { 0nat },
    ensures
        forall|x: int, y: int| #[trigger] tally_count(tally2, x, y) == expected_tally(ps, keep_last, x, y, b, l, k2, size, min, cells),
{
    assert forall|x: int, y: int| #[trigger] tally_count(tally2, x, y) == expected_tally(ps, keep_last, x, y, b, l, k2, size, min, cells) by {
        assert(tally_count(tally, x, y) == expected_tally(ps, keep_last, x, y, b, l, k, size, min, cells));
        assert(count_cells(overlap_pred(ps, keep_last, l, x, b, k2, size, min), cells) == count_cells(overlap_pred(ps, keep_last, l, x, b, k, size, min), cells) + if bumped == Some(x) { 1nat } else { 0nat });
    }
}

/// Places block `k` of layer `l` of piece `b`.
#[verifier::rlimit(40)]
fn place_block(
    layer: &mut Vec<i32>,
    owner: &mut Vec<u32>,
    tally: &mut Vec<(usize, usize, u64)>,
    bad: &mut u64,
    piece: &Structure,
    b: usize,
    l: usize,
    pl: &Vec<i32>,
    k: usize,
    remap: &Vec<i32>,
    size: &Size,
    min: Coord,
    keep_last: bool,
    cells: usize,
    Ghost(ps): Ghost<Seq<StructureV>>,
    Ghost(rs): Ghost<Seq<Seq<int>>>,
    Ghost(init): Ghost<Seq<i32>>,
    Ghost(bad0): Ghost<int>,
)
    requires
        l == 0 || l == 1,
        b < ps.len() < u32::MAX,
        ps[b as int] == piece@,
        pl@ == layer_of(ps[b as int], l as int),
        k < pl@.len(),
        cells == size.volume_spec(),
        remap@ == as_i32s(rs[b as int]),
        rs[b as int].len() == ps[b as int].palette.len(),
        grid_ok(old(layer)@, old(owner)@, init, ps, rs, keep_last, l as int, b as int, k as int, *size, min, cells as int),
        tally_ok(old(tally)@),
        forall|x: int, y: int| #[trigger] tally_count(old(tally)@, x, y) == expected_tally(ps, keep_last, x, y, b as int, l as int, k as int, *size, min, cells as int),
        0 <= bad0 <= cells,
        *old(bad) == bad0 + count_cells(miss_pred(ps[b as int], l as int, k as int, *size, min), cells as int),
    ensures
        grid_ok(final(layer)@, final(owner)@, init, ps, rs, keep_last, l as int, b as int, k + 1, *size, min, cells as int),
        tally_ok(final(tally)@),
        forall|x: int, y: int| #[trigger] tally_count(final(tally)@, x, y) == expected_tally(ps, keep_last, x, y, b as int, l as int, k + 1, *size, min, cells as int),
        *final(bad) == bad0 + count_cells(miss_pred(ps[b as int], l as int, k + 1, *size, min), cells as int),
{
    let ghost pv = ps[b as int];
    assert(cells <= i64::MAX);
    let index = pl[k];
    let target = if index != VOID {
        out_index(piece, k, size, min)
    } else {
        None
    };
    match target {
        None => {
            assert forall|o: int| 0 <= o < cells implies src(pv, o, *size, min) != Some(k as int) || !(
                claims(pv, l as int, o, *size, min) || misses(pv, l as int, o, *size, min)) by {
                if index != VOID {
                    lemma_cell_source(pv.size, pv.origin, k as int, o, *size, min);
                }
            }
            proof {
                lemma_unlanded(ps, keep_last, l as int, b as int, k as int, *size, min, cells as int);
                lemma_grid_same(layer@, owner@, init, ps, rs, keep_last, l as int, b as int, k as int, *size, min, cells as int);
                lemma_tally_follows(tally@, tally@, ps, keep_last, b as int, l as int, k as int, k + 1, None, *size, min, cells as int);
            }
        },
        Some(o) => {
            proof {
                lemma_landed_elsewhere(ps, keep_last, l as int, b as int, k as int, o as int, *size, min, cells as int);
            }
            if index < 0 || index as usize >= remap.len() {
                proof {
                    assert(misses(pv, l as int, o as int, *size, min));
                    assert(!claims(pv, l as int, o as int, *size, min));
                    assert forall|o2: int| 0 <= o2 < cells implies #[trigger] claim_upto(ps, keep_last, l as int, o2, b as int, k + 1, *size, min) == claim_upto(ps, keep_last, l as int, o2, b as int, k as int, *size, min) by {}
                    lemma_grid_same(layer@, owner@, init, ps, rs, keep_last, l as int, b as int, k as int, *size, min, cells as int);
                    assert forall|x: int| #[trigger] count_cells(overlap_pred(ps, keep_last, l as int, x, b as int, k + 1, *size, min), cells as int) == count_cells(overlap_pred(ps, keep_last, l as int, x, b as int, k as int, *size, min), cells as int) by {
                        lemma_count_same(overlap_pred(ps, keep_last, l as int, x, b as int, k + 1, *size, min), overlap_pred(ps, keep_last, l as int, x, b as int, k as int, *size, min), cells as int);
                    }
                    lemma_tally_follows(tally@, tally@, ps, keep_last, b as int, l as int, k as int, k + 1, None, *size, min, cells as int);
                    lemma_count_step(miss_pred(pv, l as int, k as int, *size, min), miss_pred(pv, l as int, k + 1, *size, min), cells as int, o as int);
                    lemma_count_bound(miss_pred(pv, l as int, k + 1, *size, min), cells as int);
                }
                *bad = *bad + 1;
            } else {
                let remapped = remap[index as usize];
                let prev = owner[o];
                let ghost holder = claimant(ps, keep_last, l as int, o as int, b as int, *size, min);
                proof {
                    assert(claims(pv, l as int, o as int, *size, min));
                    assert(!misses(pv, l as int, o as int, *size, min));
                    lemma_claimant_range(ps, keep_last, l as int, o as int, b as int, *size, min);
                    assert(claim_upto(ps, keep_last, l as int, o as int, b as int, k as int, *size, min) == holder);
                    assert(prev == owner_code(holder));
                    assert(remapped == cell_value(ps, rs, l as int, o as int, b as int, *size, min));
                    lemma_count_same(miss_pred(pv, l as int, k as int, *size, min), miss_pred(pv, l as int, k + 1, *size, min), cells as int);
                }
                let ghost layer0 = layer@;
                let ghost owner0 = owner@;
                if prev == NO_OWNER {
                    layer.set(o, remapped);
                    owner.set(o, b as u32);
                    proof {
                        assert(holder is None);
                        assert forall|x: int| #[trigger] count_cells(overlap_pred(ps, keep_last, l as int, x, b as int, k + 1, *size, min), cells as int) == count_cells(overlap_pred(ps, keep_last, l as int, x, b as int, k as int, *size, min), cells as int) by {
                            assert(!overlap_pred(ps, keep_last, l as int, x, b as int, k + 1, *size, min)(o as int));
                            lemma_count_same(overlap_pred(ps, keep_last, l as int, x, b as int, k + 1, *size, min), overlap_pred(ps, keep_last, l as int, x, b as int, k as int, *size, min), cells as int);
                        }
                        lemma_tally_follows(tally@, tally@, ps, keep_last, b as int, l as int, k as int, k + 1, None, *size, min, cells as int);
                    }
                } else {
                    let a: usize = prev as usize;
                    proof {
                        assert(holder == Some(a as int));
                        assert forall|x: int| #[trigger] count_cells(overlap_pred(ps, keep_last, l as int, x, b as int, k + 1, *size, min), cells as int) == count_cells(overlap_pred(ps, keep_last, l as int, x, b as int, k as int, *size, min), cells as int) + if Some(a as int) == Some(x) { 1nat } else { 0nat } by {
                            if x == a {
                                assert(overlap_pred(ps, keep_last, l as int, x, b as int, k + 1, *size, min)(o as int));
                                assert(!overlap_pred(ps, keep_last, l as int, x, b as int, k as int, *size, min)(o as int));
                                lemma_count_step(overlap_pred(ps, keep_last, l as int, x, b as int, k as int, *size, min), overlap_pred(ps, keep_last, l as int, x, b as int, k + 1, *size, min), cells as int, o as int);
                            } else {
                                assert(!overlap_pred(ps, keep_last, l as int, x, b as int, k + 1, *size, min)(o as int));
                                lemma_count_same(overlap_pred(ps, keep_last, l as int, x, b as int, k + 1, *size, min), overlap_pred(ps, keep_last, l as int, x, b as int, k as int, *size, min), cells as int);
                            }
                        }
                        lemma_count_bound(overlap_pred(ps, keep_last, l as int, a as int, b as int, k + 1, *size, min), cells as int);
                        lemma_count_bound(overlap_pred(ps, keep_last, 0, a as int, b as int, i64::MAX as int, *size, min), cells as int);
                        assert(tally_count(tally@, a as int, b as int) == expected_tally(ps, keep_last, a as int, b as int, b as int, l as int, k as int, *size, min, cells as int));
                    }
                    let ghost tally0 = tally@;
                    bump(tally, a, b);
                    proof {
                        lemma_tally_follows(tally0, tally@, ps, keep_last, b as int, l as int, k as int, k + 1, Some(a as int), *size, min, cells as int);
                    }
                    if keep_last {
                        layer.set(o, remapped);
                        owner.set(o, b as u32);
                    }
                }
                proof {
                    lemma_grid_set(layer0, owner0, layer@, owner@, init, ps, rs, keep_last, l as int, b as int, k as int, o as int, *size, min, cells as int);
                }
            }
        },
    }
}

/// Places the blocks of layer `l` of piece `b`, counting overlaps and
/// out-of-palette indices as it goes.
fn place_layer(
    layer: &mut Vec<i32>,
    owner: &mut Vec<u32>,
    tally: &mut Vec<(usize, usize, u64)>,
    bad: &mut u64,
    piece: &Structure,
    b: usize,
    l: usize,
    remap: &Vec<i32>,
    size: &Size,
    min: Coord,
    keep_last: bool,
    cells: usize,
    Ghost(ps): Ghost<Seq<StructureV>>,
    Ghost(rs): Ghost<Seq<Seq<int>>>,
    Ghost(init): Ghost<Seq<i32>>,
)
    requires
        l == 0 || l == 1,
        b < ps.len() < u32::MAX,
        ps[b as int] == piece@,
        cells == size.volume_spec(),
        remap@ == as_i32s(rs[b as int]),
        rs[b as int].len() == ps[b as int].palette.len(),
        grid_ok(old(layer)@, old(owner)@, init, ps, rs, keep_last, l as int, b as int, 0, *size, min, cells as int),
        tally_ok(old(tally)@),
        forall|x: int, y: int| #[trigger] tally_count(old(tally)@, x, y) == expected_tally(ps, keep_last, x, y, b as int, l as int, 0, *size, min, cells as int),
        *old(bad) <= cells,
    ensures
        grid_ok(final(layer)@, final(owner)@, init, ps, rs, keep_last, l as int, b + 1, 0, *size, min, cells as int),
        tally_ok(final(tally)@),
        forall|x: int, y: int| #[trigger] tally_count(final(tally)@, x, y) == expected_tally(ps, keep_last, x, y, b as int, l as int, i64::MAX as int, *size, min, cells as int),
        *final(bad) == *old(bad) + count_cells(miss_pred(ps[b as int], l as int, i64::MAX as int, *size, min), cells as int),
{
    let pl: &Vec<i32> = if l == 0 {
        &piece.layers[0]
    } else {
        &piece.layers[1]
    };
    let ghost bad0 = *bad as int;
    assert forall|o: int| !(#[trigger] miss_pred(ps[b as int], l as int, 0, *size, min)(o)) by {
        if misses(ps[b as int], l as int, o, *size, min) {
            assert(src(ps[b as int], o, *size, min).unwrap() >= 0);
        }
    }
    proof {
        lemma_count_same(miss_pred(ps[b as int], l as int, 0, *size, min), |o: int| false, cells as int);
        lemma_count_zero(cells as int);
    }
    let mut k: usize = 0;
    while k < pl.len()
        invariant
            l == 0 || l == 1,
            b < ps.len() < u32::MAX,
            ps[b as int] == piece@,
            pl@ == layer_of(ps[b as int], l as int),
            cells == size.volume_spec(),
            remap@ == as_i32s(rs[b as int]),
            rs[b as int].len() == ps[b as int].palette.len(),
            k <= pl@.len(),
            grid_ok(layer@, owner@, init, ps, rs, keep_last, l as int, b as int, k as int, *size, min, cells as int),
            tally_ok(tally@),
            forall|x: int, y: int| #[trigger] tally_count(tally@, x, y) == expected_tally(ps, keep_last, x, y, b as int, l as int, k as int, *size, min, cells as int),
            0 <= bad0 <= cells,
            *bad == bad0 + count_cells(miss_pred(ps[b as int], l as int, k as int, *size, min), cells as int),
        decreases pl@.len() - k,
    {
        place_block(layer, owner, tally, bad, piece, b, l, pl, k, remap, size, min, keep_last, cells, Ghost(ps), Ghost(rs), Ghost(init), Ghost(bad0));
        k += 1;
    }
    proof {
        assert forall|o: int| 0 <= o < cells implies #[trigger] claim_upto(ps, keep_last, l as int, o, b as int, k as int, *size, min)
            == claim_upto(ps, keep_last, l as int, o, b + 1, 0, *size, min) by {
            lemma_claim_done(ps, keep_last, l as int, o, b as int, k as int, *size, min);
        }
        lemma_grid_moved(layer@, owner@, init, ps, rs, keep_last, l as int, b as int, k as int, *size, min, cells as int);
        lemma_count_same(miss_pred(ps[b as int], l as int, k as int, *size, min), miss_pred(ps[b as int], l as int, i64::MAX as int, *size, min), cells as int);
        assert forall|x: int| #[trigger] count_cells(overlap_pred(ps, keep_last, l as int, x, b as int, i64::MAX as int, *size, min), cells as int) == count_cells(overlap_pred(ps, keep_last, l as int, x, b as int, k as int, *size, min), cells as int) by {
            lemma_count_same(overlap_pred(ps, keep_last, l as int, x, b as int, k as int, *size, min), overlap_pred(ps, keep_last, l as int, x, b as int, i64::MAX as int, *size, min), cells as int);
        }
        lemma_tally_follows(tally@, tally@, ps, keep_last, b as int, l as int, k as int, i64::MAX as int, None, *size, min, cells as int);
    }
}

proof fn lemma_grid_moved(layer: Seq<i32>, owner: Seq<u32>, init: Seq<i32>, ps: Seq<StructureV>, rs: Seq<Seq<int>>, keep_last: bool, l: int, b: int, k: int, size: Size, min: Coord, cells: int)
    requires
        grid_ok(layer, owner, init, ps, rs, keep_last, l, b, k, size, min, cells),
        forall|o: int| 0 <= o < cells ==> #[trigger] claim_upto(ps, keep_last, l, o, b, k, size, min) == claim_upto(ps, keep_last, l, o, b + 1, 0, size, min),
    ensures
        grid_ok(layer, owner, init, ps, rs, keep_last, l, b + 1, 0, size, min, cells),
{
    assert forall|o: int| 0 <= o < cells implies #[trigger] owner[o] == owner_code(claim_upto(ps, keep_last, l, o, b + 1, 0, size, min)) by {
        assert(claim_upto(ps, keep_last, l, o, b, k, size, min) == claim_upto(ps, keep_last, l, o, b + 1, 0, size, min));
    }
    assert forall|o: int| 0 <= o < cells implies #[trigger] layer[o] == match claim_upto(ps, keep_last, l, o, b + 1, 0, size, min) {
        Some(p) => cell_value(ps, rs, l, o, p, size, min),
        None => init[o],
    } by {
        assert(claim_upto(ps, keep_last, l, o, b, k, size, min) == claim_upto(ps, keep_last, l, o, b + 1, 0, size, min));
    }
}

pub proof fn lemma_count_zero(n: int)
    ensures
        count_cells(|o: int| false, n) == 0,
    decreases n,
{
    if n > 0 {
        lemma_count_zero(n - 1);
    }
}

/// A predicate implied by another counts at least as many cells.
pub proof fn lemma_count_mono(f: spec_fn(int) -> bool, g: spec_fn(int) -> bool, n: int)
    requires
        forall|o: int| 0 <= o < n && #[trigger] f(o) ==> g(o),
    ensures
        count_cells(f, n) <= count_cells(g, n),
    decreases n,
{
    if n > 0 {
        lemma_count_mono(f, g, n - 1);
    }
}


fn repeat_i32(v: i32, n: usize) -> (r: Vec<i32>)
    ensures
        r@ == Seq::new(n as nat, |i: int| v),
{
    let mut r: Vec<i32> = Vec::new();
    let mut i: usize = 0;
    while i < n
        invariant
            i <= n,
            r@ == Seq::new(i as nat, |j: int| v),
        decreases n - i,
    {
        r.push(v);
        i += 1;
        assert(r@ =~= Seq::new(i as nat, |j: int| v));
    }
    r
}

fn repeat_u32(v: u32, n: usize) -> (r: Vec<u32>)
    ensures
        r@ == Seq::new(n as nat, |i: int| v),
{
    let mut r: Vec<u32> = Vec::new();
    let mut i: usize = 0;
    while i < n
        invariant
            i <= n,
            r@ == Seq::new(i as nat, |j: int| v),
        decreases n - i,
    {
        r.push(v);
        i += 1;
        assert(r@ =~= Seq::new(i as nat, |j: int| v));
    }
    r
}

/// Some of the first `n` pieces records a structure void at cell `o`.
pub open spec fn voided(ps: Seq<StructureV>, o: int, n: int, size: Size, min: Coord) -> bool {
    exists|p: int| 0 <= p < n && #[trigger] voids(ps[p], o, size, min)
}

/// Layer 0 before any block is placed: structure void where a piece records
/// one, a gap elsewhere.
pub open spec fn init_layer0(ps: Seq<StructureV>, size: Size, min: Coord, cells: int) -> Seq<i32> {
    Seq::new(cells as nat, |o: int| if voided(ps, o, ps.len() as int, size, min) { VOID } else { GAP })
}

pub open spec fn void_upto(ps: Seq<StructureV>, o: int, p: int, k: int, size: Size, min: Coord) -> bool {
    voided(ps, o, p, size, min) || (voids(ps[p], o, size, min) && src(ps[p], o, size, min).unwrap() < k)
}

/// Marks every cell some piece records as structure void.
fn void_pass(layer0: &mut Vec<i32>, pieces: &[(String, Structure)], size: &Size, min: Coord, cells: usize, Ghost(ps): Ghost<Seq<StructureV>>)
    requires
        old(layer0)@.len() == cells,
        forall|o: int| 0 <= o < cells ==> old(layer0)@[o] == GAP,
        ps == views(pieces@),
        cells == size.volume_spec(),
    ensures
        final(layer0)@ == init_layer0(ps, *size, min, cells as int),
{
    assert(cells <= i64::MAX);
    let mut p: usize = 0;
    while p < pieces.len()
        invariant
            layer0@.len() == cells,
            ps == views(pieces@),
            cells == size.volume_spec(),
            cells <= i64::MAX,
            p <= pieces@.len(),
            forall|o: int| 0 <= o < cells ==> #[trigger] layer0@[o] == if voided(ps, o, p as int, *size, min) { VOID } else { GAP },
        decreases pieces@.len() - p,
    {
        let piece = &pieces[p].1;
        let pl = &piece.layers[0];
        let ghost pv = ps[p as int];
        assert(pv == piece@);
        let mut k: usize = 0;
        while k < pl.len()
            invariant
                layer0@.len() == cells,
                ps == views(pieces@),
                cells == size.volume_spec(),
                cells <= i64::MAX,
                p < pieces@.len(),
                pv == ps[p as int],
                pv == piece@,
                pl@ == pv.layer0,
                k <= pl@.len(),
                forall|o: int| 0 <= o < cells ==> #[trigger] layer0@[o] == if void_upto(ps, o, p as int, k as int, *size, min) { VOID } else { GAP },
            decreases pl@.len() - k,
        {
            let ghost before = layer0@;
            let mut landed: Option<usize> = None;
            if pl[k] == VOID {
                landed = out_index(piece, k, size, min);
            }
            match landed {
                Some(o) => {
                    layer0.set(o, VOID);
                    proof {
                        lemma_cell_source(pv.size, pv.origin, k as int, o as int, *size, min);
                        assert forall|o2: int| 0 <= o2 < cells implies #[trigger] layer0@[o2] == if void_upto(ps, o2, p as int, k + 1, *size, min) { VOID } else { GAP } by {
                            if o2 != o {
                                lemma_cell_source(pv.size, pv.origin, k as int, o2, *size, min);
                                assert(layer0@[o2] == before[o2]);
                            }
                        }
                    }
                },
                None => {
                    proof {
                        assert forall|o2: int| 0 <= o2 < cells implies #[trigger] layer0@[o2] == if void_upto(ps, o2, p as int, k + 1, *size, min) { VOID } else { GAP } by {
                            if pl@[k as int] == VOID {
                                lemma_cell_source(pv.size, pv.origin, k as int, o2, *size, min);
                            }
                            assert(layer0@[o2] == before[o2]);
                        }
                    }
                },
            }
            k += 1;
        }
        proof {
            assert forall|o: int| 0 <= o < cells implies #[trigger] layer0@[o] == if voided(ps, o, p + 1, *size, min) { VOID } else { GAP } by {
                assert(layer0@[o] == if void_upto(ps, o, p as int, k as int, *size, min) { VOID } else { GAP });
                if voided(ps, o, p + 1, *size, min) {
                    let q = choose|q: int| 0 <= q < p + 1 && #[trigger] voids(ps[q], o, *size, min);
                    if q < p {
                        assert(voided(ps, o, p as int, *size, min));
                    }
                }
                if voided(ps, o, p as int, *size, min) {
                    let q = choose|q: int| 0 <= q < p && #[trigger] voids(ps[q], o, *size, min);
                    assert(voided(ps, o, p + 1, *size, min));
                }
                if voids(ps[p as int], o, *size, min) {
                    assert(voided(ps, o, p + 1, *size, min));
                }
            }
        }
        p += 1;
    }
    assert(layer0@ =~= init_layer0(ps, *size, min, cells as int));
}


pub open spec fn init_layer1(cells: int) -> Seq<i32> {
    Seq::new(cells as nat, |o: int| VOID)
}

/// The grid, counts and misses with every piece placed.
pub struct Grid {
    pub layer0: Vec<i32>,
    pub layer1: Vec<i32>,
    pub owner0: Vec<u32>,
    pub owner1: Vec<u32>,
    pub tally: Vec<(usize, usize, u64)>,
    pub bad: Vec<u64>,
}

proof fn lemma_nothing_placed(ps: Seq<StructureV>, keep_last: bool, l: int, x: int, b: int, size: Size, min: Coord, cells: int)
    ensures
        count_cells(overlap_pred(ps, keep_last, l, x, b, 0, size, min), cells) == 0,
{
    assert forall|o: int| !(#[trigger] overlap_pred(ps, keep_last, l, x, b, 0, size, min)(o)) by {
        if claims(ps[b], l, o, size, min) {
            assert(src(ps[b], o, size, min).unwrap() >= 0);
        }
    }
    lemma_count_same(overlap_pred(ps, keep_last, l, x, b, 0, size, min), |o: int| false, cells);
    lemma_count_zero(cells);
}

proof fn lemma_grid_start(layer: Seq<i32>, owner: Seq<u32>, init: Seq<i32>, ps: Seq<StructureV>, rs: Seq<Seq<int>>, keep_last: bool, l: int, size: Size, min: Coord, cells: int)
    requires
        layer == init,
        init.len() == cells,
        owner == Seq::new(cells as nat, |o: int| NO_OWNER),
    ensures
        grid_ok(layer, owner, init, ps, rs, keep_last, l, 0, 0, size, min, cells),
{
    assert forall|o: int| 0 <= o < cells implies #[trigger] claim_upto(ps, keep_last, l, o, 0, 0, size, min) is None by {
        if claims(ps[0], l, o, size, min) {
            assert(src(ps[0], o, size, min).unwrap() >= 0);
        }
    }
}

/// Places every piece, both layers, over the voids marked beforehand.
fn build_grid(
    pieces: &[(String, Structure)],
    remaps: &Vec<Vec<i32>>,
    size: &Size,
    min: Coord,
    keep_last: bool,
    cells: usize,
    Ghost(rs): Ghost<Seq<Seq<int>>>,
) -> (g: Grid)
    requires
        pieces@.len() < u32::MAX,
        cells == size.volume_spec(),
        remaps@.len() == pieces@.len(),
        rs.len() == pieces@.len(),
        forall|p: int| 0 <= p < pieces@.len() ==> (#[trigger] remaps@[p])@ == as_i32s(rs[p]) && rs[p].len() == pieces@[p].1.palette@.len(),
    ensures
        grid_ok(g.layer0@, g.owner0@, init_layer0(views(pieces@), *size, min, cells as int), views(pieces@), rs, keep_last, 0, pieces@.len() as int, 0, *size, min, cells as int),
        grid_ok(g.layer1@, g.owner1@, init_layer1(cells as int), views(pieces@), rs, keep_last, 1, pieces@.len() as int, 0, *size, min, cells as int),
        tally_ok(g.tally@),
        forall|x: int, y: int| #[trigger] tally_count(g.tally@, x, y) == expected_tally(views(pieces@), keep_last, x, y, pieces@.len() as int, 0, 0, *size, min, cells as int),
        g.bad@.len() == pieces@.len(),
        forall|p: int| 0 <= p < pieces@.len() ==> #[trigger] g.bad@[p] == miss_total(views(pieces@)[p], *size, min, cells as int),
{
    let ghost ps = views(pieces@);
    let ghost init0 = init_layer0(ps, *size, min, cells as int);
    let ghost init1 = init_layer1(cells as int);
    let mut layer0 = repeat_i32(GAP, cells);
    void_pass(&mut layer0, pieces, size, min, cells, Ghost(ps));
    let mut layer1 = repeat_i32(VOID, cells);
    let mut owner0 = repeat_u32(NO_OWNER, cells);
    let mut owner1 = repeat_u32(NO_OWNER, cells);
    assert(layer1@ =~= init1);
    proof {
        lemma_grid_start(layer0@, owner0@, init0, ps, rs, keep_last, 0, *size, min, cells as int);
        lemma_grid_start(layer1@, owner1@, init1, ps, rs, keep_last, 1, *size, min, cells as int);
    }
    let mut tally: Vec<(usize, usize, u64)> = Vec::new();
    let mut bad: Vec<u64> = Vec::new();
    proof {
        assert forall|x: int, y: int| #[trigger] tally_count(tally@, x, y) == expected_tally(ps, keep_last, x, y, 0, 0, 0, *size, min, cells as int) by {
            lemma_nothing_placed(ps, keep_last, 0, x, 0, *size, min, cells as int);
            if y < 0 {
                lemma_no_overlap_before_start(ps, keep_last, x, y, *size, min, cells as int);
            }
        }
    }
    let mut b: usize = 0;
    while b < pieces.len()
        invariant
            pieces@.len() < u32::MAX,
            ps == views(pieces@),
            cells == size.volume_spec(),
            remaps@.len() == pieces@.len(),
            rs.len() == pieces@.len(),
            forall|p: int| 0 <= p < pieces@.len() ==> (#[trigger] remaps@[p])@ == as_i32s(rs[p]) && rs[p].len() == pieces@[p].1.palette@.len(),
            b <= pieces@.len(),
            grid_ok(layer0@, owner0@, init0, ps, rs, keep_last, 0, b as int, 0, *size, min, cells as int),
            grid_ok(layer1@, owner1@, init1, ps, rs, keep_last, 1, b as int, 0, *size, min, cells as int),
            tally_ok(tally@),
            forall|x: int, y: int| #[trigger] tally_count(tally@, x, y) == expected_tally(ps, keep_last, x, y, b as int, 0, 0, *size, min, cells as int),
            bad@.len() == b,
            forall|p: int| 0 <= p < b ==> #[trigger] bad@[p] == miss_total(ps[p], *size, min, cells as int),
        decreases pieces@.len() - b,
    {
        let piece = &pieces[b].1;
        assert(ps[b as int] == piece@);
        assert(remaps@[b as int]@ == as_i32s(rs[b as int]));
        let mut count: u64 = 0;
        place_layer(&mut layer0, &mut owner0, &mut tally, &mut count, piece, b, 0, &remaps[b], size, min, keep_last, cells, Ghost(ps), Ghost(rs), Ghost(init0));
        proof {
            assert forall|x: int, y: int| #[trigger] tally_count(tally@, x, y) == expected_tally(ps, keep_last, x, y, b as int, 1, 0, *size, min, cells as int) by {
                lemma_nothing_placed(ps, keep_last, 1, x, b as int, *size, min, cells as int);
                assert(tally_count(tally@, x, y) == expected_tally(ps, keep_last, x, y, b as int, 0, i64::MAX as int, *size, min, cells as int));
            }
            lemma_count_bound(miss_pred(ps[b as int], 0, i64::MAX as int, *size, min), cells as int);
        }
        place_layer(&mut layer1, &mut owner1, &mut tally, &mut count, piece, b, 1, &remaps[b], size, min, keep_last, cells, Ghost(ps), Ghost(rs), Ghost(init1));
        proof {
            assert forall|x: int, y: int| #[trigger] tally_count(tally@, x, y) == expected_tally(ps, keep_last, x, y, b + 1, 0, 0, *size, min, cells as int) by {
                lemma_nothing_placed(ps, keep_last, 0, x, b + 1, *size, min, cells as int);
                assert(tally_count(tally@, x, y) == expected_tally(ps, keep_last, x, y, b as int, 1, i64::MAX as int, *size, min, cells as int));
            }
        }
        bad.push(count);
        b += 1;
    }
    Grid { layer0, layer1, owner0, owner1, tally, bad }
}

proof fn lemma_no_overlap_before_start(ps: Seq<StructureV>, keep_last: bool, x: int, y: int, size: Size, min: Coord, cells: int)
    requires
        y < 0,
    ensures
        overlap_total(ps, keep_last, x, y, size, min, cells) == 0,
{
    assert forall|l: int, o: int| !(#[trigger] overlap_pred(ps, keep_last, l, x, y, i64::MAX as int, size, min)(o)) by {
        assert(claimant(ps, keep_last, l, o, y, size, min) is None);
    }
    lemma_count_same(overlap_pred(ps, keep_last, 0, x, y, i64::MAX as int, size, min), |o: int| false, cells);
    lemma_count_same(overlap_pred(ps, keep_last, 1, x, y, i64::MAX as int, size, min), |o: int| false, cells);
    lemma_count_zero(cells);
}


/// The names of the pieces.
pub open spec fn names_of(pieces: Seq<(String, Structure)>) -> Seq<Seq<char>> {
    Seq::new(pieces.len(), |p: int| pieces[p].0@)
}

pub open spec fn pair_before(p: (int, int), q: (int, int)) -> bool {
    p.0 < q.0 || (p.0 == q.0 && p.1 < q.1)
}

/// `ks` lists, in order of pair, every `(loser, winner)` pair of pieces
/// where the winner placed blocks over the loser's.
pub open spec fn overlap_keys(ks: Seq<(int, int)>, ps: Seq<StructureV>, keep_last: bool, size: Size, min: Coord, cells: int) -> bool {
    &&& forall|i: int, j: int| 0 <= i < j < ks.len() ==> pair_before(ks[i], ks[j])
    &&& forall|i: int|
        0 <= i < ks.len() ==> 0 <= (#[trigger] ks[i]).0 < ks[i].1 < ps.len() && overlap_total(
            ps,
            keep_last,
            ks[i].0,
            ks[i].1,
            size,
            min,
            cells,
        ) > 0
    &&& forall|a: int, b: int|
        0 <= a < ps.len() && 0 <= b < ps.len() && #[trigger] overlap_total(ps, keep_last, a, b, size, min, cells) > 0 ==> exists|i: int| 0 <= i < ks.len() && ks[i] == (a, b)
}

/// `ov` reports the pairs `ks`, naming each pair's pieces, loser first.
pub open spec fn overlaps_listed(ov: Seq<Overlap>, ks: Seq<(int, int)>, names: Seq<Seq<char>>, ps: Seq<StructureV>, keep_last: bool, size: Size, min: Coord, cells: int) -> bool {
    &&& ov.len() == ks.len()
    &&& forall|j: int|
        0 <= j < ov.len() ==> {
            &&& (#[trigger] ov[j]).count == overlap_total(ps, keep_last, ks[j].0, ks[j].1, size, min, cells)
            &&& ov[j].pieces@.len() == 2
            &&& ov[j].pieces@[0]@ == names[ks[j].0]
            &&& ov[j].pieces@[1]@ == names[ks[j].1]
        }
}

proof fn lemma_count_pos(f: spec_fn(int) -> bool, n: int)
    requires
        count_cells(f, n) > 0,
    ensures
        exists|o: int| 0 <= o < n && #[trigger] f(o),
    decreases n,
{
    if n > 0 && !f(n - 1) {
        lemma_count_pos(f, n - 1);
    }
}

proof fn lemma_overlap_order(ps: Seq<StructureV>, keep_last: bool, a: int, b: int, size: Size, min: Coord, cells: int)
    requires
        overlap_total(ps, keep_last, a, b, size, min, cells) > 0,
    ensures
        0 <= a < b,
{
    let f0 = overlap_pred(ps, keep_last, 0, a, b, i64::MAX as int, size, min);
    let f1 = overlap_pred(ps, keep_last, 1, a, b, i64::MAX as int, size, min);
    if count_cells(f0, cells) > 0 {
        lemma_count_pos(f0, cells);
        let o = choose|o: int| 0 <= o < cells && #[trigger] f0(o);
        lemma_claimant_range(ps, keep_last, 0, o, b, size, min);
    } else {
        lemma_count_pos(f1, cells);
        let o = choose|o: int| 0 <= o < cells && #[trigger] f1(o);
        lemma_claimant_range(ps, keep_last, 1, o, b, size, min);
    }
}

/// The overlap report, in order of pair.
fn list_overlaps(
    tally: &Vec<(usize, usize, u64)>,
    pieces: &[(String, Structure)],
    keep_last: bool,
    size: &Size,
    min: Coord,
    cells: usize,
) -> (ov: Vec<Overlap>)
    requires
        tally_ok(tally@),
        forall|x: int, y: int| #[trigger] tally_count(tally@, x, y) == expected_tally(views(pieces@), keep_last, x, y, pieces@.len() as int, 0, 0, *size, min, cells as int),
    ensures
        exists|ks: Seq<(int, int)>| overlap_keys(ks, views(pieces@), keep_last, *size, min, cells as int)
            && overlaps_listed(ov@, ks, names_of(pieces@), views(pieces@), keep_last, *size, min, cells as int),
{
    let ghost ps = views(pieces@);
    let ghost n = pieces@.len() as int;
    let ghost ks = Seq::new(tally@.len(), |j: int| (tally@[j].0 as int, tally@[j].1 as int));
    proof {
        assert forall|j: int| 0 <= j < ks.len() implies 0 <= (#[trigger] ks[j]).0 < ks[j].1 < n && overlap_total(ps, keep_last, ks[j].0, ks[j].1, *size, min, cells as int) == tally@[j].2 by {
            lemma_tally_at(tally@, j);
            let y = ks[j].1;
            if y >= n {
                if y == n {
                    lemma_nothing_placed(ps, keep_last, 0, ks[j].0, n, *size, min, cells as int);
                }
                assert(tally@[j].2 > 0);
            }
            lemma_overlap_order(ps, keep_last, ks[j].0, ks[j].1, *size, min, cells as int);
        }
        assert forall|a: int, b: int| 0 <= a < n && 0 <= b < n && #[trigger] overlap_total(ps, keep_last, a, b, *size, min, cells as int) > 0 implies exists|i: int| 0 <= i < ks.len() && ks[i] == (a, b) by {
            assert(tally_count(tally@, a, b) > 0);
            let i = choose|i: int| 0 <= i < tally@.len() && tally@[i].0 == a && tally@[i].1 == b;
            assert(ks[i] == (a, b));
        }
    }
    let mut ov: Vec<Overlap> = Vec::new();
    let mut j: usize = 0;
    while j < tally.len()
        invariant
            j <= tally@.len(),
            ov@.len() == j,
            ps == views(pieces@),
            ks.len() == tally@.len(),
            forall|i: int| 0 <= i < ks.len() ==> 0 <= (#[trigger] ks[i]).0 < ks[i].1 < n && overlap_total(ps, keep_last, ks[i].0, ks[i].1, *size, min, cells as int) == tally@[i].2,
            forall|i: int| 0 <= i < ks.len() ==> ks[i] == (tally@[i].0 as int, tally@[i].1 as int),
            n == pieces@.len(),
            forall|i: int|
                0 <= i < j ==> {
                    &&& (#[trigger] ov@[i]).count == overlap_total(ps, keep_last, ks[i].0, ks[i].1, *size, min, cells as int)
                    &&& ov@[i].pieces@.len() == 2
                    &&& ov@[i].pieces@[0]@ == names_of(pieces@)[ks[i].0]
                    &&& ov@[i].pieces@[1]@ == names_of(pieces@)[ks[i].1]
                },
        decreases tally@.len() - j,
    {
        let (a, b, count) = tally[j];
        assert(ks[j as int] == (a as int, b as int));
        let mut names: Vec<String> = Vec::new();
        names.push(pieces[a].0.clone());
        names.push(pieces[b].0.clone());
        ov.push(Overlap { count, pieces: names });
        j += 1;
    }
    proof {
        assert(overlap_keys(ks, ps, keep_last, *size, min, cells as int));
        assert(overlaps_listed(ov@, ks, names_of(pieces@), ps, keep_last, *size, min, cells as int));
    }
    ov
}

pub open spec fn has_gap(l: Seq<i32>) -> bool {
    exists|o: int| 0 <= o < l.len() && l[o] == GAP
}

pub open spec fn filled(l: Seq<i32>, air: i32) -> Seq<i32> {
    Seq::new(l.len(), |o: int| if l[o] == GAP { air } else { l[o] })
}

/// Fills every gap with air, adding an air entry to the palette only when
/// some gap needs it.
fn fill_air(layer0: &mut Vec<i32>, palette: &mut Vec<BlockState>)
    ensures
        has_gap(old(layer0)@) ==> palette_view(final(palette)@) == with_air(palette_view(old(palette)@)).0
            && final(layer0)@ == filled(old(layer0)@, with_air(palette_view(old(palette)@)).1 as i32),
        !has_gap(old(layer0)@) ==> final(palette)@ == old(palette)@ && final(layer0)@ == old(layer0)@,
{
    let ghost l0 = layer0@;
    let ghost pv = palette_view(palette@);
    let ghost pal0 = palette@;
    let mut air: Option<i32> = None;
    let mut o: usize = 0;
    while o < layer0.len()
        invariant
            o <= layer0@.len(),
            layer0@.len() == l0.len(),
            forall|i: int| o <= i < l0.len() ==> layer0@[i] == l0[i],
            pv == palette_view(pal0),
            air is None ==> palette@ == pal0,
            air is None ==> forall|i: int| #![trigger l0[i]] 0 <= i < o ==> (l0[i] != GAP && layer0@[i] == l0[i]),
            air matches Some(a) ==> palette_view(palette@) == with_air(pv).0,
            air matches Some(a) ==> a == with_air(pv).1 as i32,
            air is Some ==> has_gap(l0),
            air matches Some(a) ==> forall|i: int| 0 <= i < o ==> #[trigger] layer0@[i] == filled(l0, a)[i],
        decreases layer0@.len() - o,
    {
        assert(layer0@[o as int] == l0[o as int]);
        let ghost start_air = air;
        let ghost start_layer = layer0@;
        if layer0[o] == GAP {
            assert(l0[o as int] == GAP);
            let a = match air {
                Some(a) => a,
                None => {
                    let a = air_index(palette);
                    air = Some(a);
                    a
                },
            };
            layer0.set(o, a);
        }
        proof {
            if air is None {
                assert(start_air is None);
                assert(layer0@ == start_layer);
                assert(layer0@[o as int] != GAP);
                assert forall|i: int| #![trigger l0[i]] 0 <= i < o + 1 implies (l0[i] != GAP && layer0@[i] == l0[i]) by {
                    if i == o {
                        assert(layer0@[i] != GAP);
                    } else {
                        assert(l0[i] != GAP && start_layer[i] == l0[i]);
                    }
                }
            }
        }
        o += 1;
    }
    match air {
        Some(a) => {
            assert(layer0@ =~= filled(l0, a));
        },
        None => {
            assert(layer0@ =~= l0);
        },
    }
}

/// Block `j` of piece `p`'s extra data belongs at cell `o` of the result:
/// its block lands there and the piece holds that cell.
pub open spec fn data_lands(ps: Seq<StructureV>, keep_last: bool, p: int, j: int, o: int, size: Size, min: Coord) -> bool {
    0 <= j < ps[p].block_position_data.len() && cell_of(
        ps[p].size,
        ps[p].origin,
        ps[p].block_position_data[j].0 as int,
        size,
        min,
    ) == Some(o) && claimant(ps, keep_last, 0, o, ps.len() as int, size, min) == Some(p)
}

/// `(o, d)` is extra data of the result, counting pieces before `n` and the
/// first `m` entries of piece `n`.
pub open spec fn data_placed(ps: Seq<StructureV>, keep_last: bool, o: int, d: NbtV, n: int, m: int, size: Size, min: Coord) -> bool {
    exists|p: int, j: int|
        0 <= p && (p < n || (p == n && j < m)) && #[trigger] data_lands(ps, keep_last, p, j, o, size, min)
            && ps[p].block_position_data[j].1 == d
}

/// Carries each piece's extra block data to the cells it holds.
fn place_data(
    pieces: &[(String, Structure)],
    owner0: &Vec<u32>,
    size: &Size,
    min: Coord,
    keep_last: bool,
    cells: usize,
) -> (out: Vec<(usize, Nbt)>)
    requires
        pieces@.len() < u32::MAX,
        cells == size.volume_spec(),
        owner0@.len() == cells,
        forall|o: int| 0 <= o < cells ==> #[trigger] owner0@[o] == owner_code(claimant(views(pieces@), keep_last, 0, o, pieces@.len() as int, *size, min)),
        forall|p: int| 0 <= p < pieces@.len() ==> sorted_keys(#[trigger] views(pieces@)[p].block_position_data),
    ensures
        sorted_keys(data_view(out@)),
        forall|o: int, d: NbtV| #[trigger] holds(data_view(out@), o as usize, d) && 0 <= o <= usize::MAX <==> data_placed(views(pieces@), keep_last, o, d, pieces@.len() as int, 0, *size, min),
{
    let ghost ps = views(pieces@);
    let ghost n = pieces@.len() as int;
    let mut out: Vec<(usize, Nbt)> = Vec::new();
    assert(cells <= i64::MAX);
    let mut p: usize = 0;
    while p < pieces.len()
        invariant
            pieces@.len() < u32::MAX,
            ps == views(pieces@),
            n == pieces@.len(),
            cells == size.volume_spec(),
            cells <= i64::MAX,
            owner0@.len() == cells,
            forall|o: int| 0 <= o < cells ==> #[trigger] owner0@[o] == owner_code(claimant(ps, keep_last, 0, o, n, *size, min)),
            forall|q: int| 0 <= q < n ==> sorted_keys(#[trigger] ps[q].block_position_data),
            p <= n,
            sorted_keys(data_view(out@)),
            forall|o: int, d: NbtV| #[trigger] holds(data_view(out@), o as usize, d) && 0 <= o <= usize::MAX <==> data_placed(ps, keep_last, o, d, p as int, 0, *size, min),
        decreases n - p,
    {
        let piece = &pieces[p].1;
        let data = &piece.block_position_data;
        let ghost pv = ps[p as int];
        assert(pv == piece@);
        assert(data_view(data@) == pv.block_position_data);
        proof {

        }
        let mut j: usize = 0;
        while j < data.len()
            invariant
                pieces@.len() < u32::MAX,
                ps == views(pieces@),
                n == pieces@.len(),
                cells == size.volume_spec(),
                cells <= i64::MAX,
                owner0@.len() == cells,
                forall|o: int| 0 <= o < cells ==> #[trigger] owner0@[o] == owner_code(claimant(ps, keep_last, 0, o, n, *size, min)),
                p < n,
                pv == ps[p as int],
                pv == piece@,
                data_view(data@) == pv.block_position_data,
                sorted_keys(pv.block_position_data),
                j <= data@.len(),
                sorted_keys(data_view(out@)),
                forall|o: int, d: NbtV| #[trigger] holds(data_view(out@), o as usize, d) && 0 <= o <= usize::MAX <==> data_placed(ps, keep_last, o, d, p as int, j as int, *size, min),
            decreases data@.len() - j,
        {
            let local = data[j].0;
            let ghost dv = data_view(data@);
            assert(dv[j as int] == (local, data@[j as int].1.deep()));
            match out_index(piece, local, size, min) {
                Some(o) => {
                    let ghost holder = claimant(ps, keep_last, 0, o as int, n, *size, min);
                    proof {
                        lemma_claimant_range(ps, keep_last, 0, o as int, n, *size, min);
                    }
                    if owner0[o] == p as u32 {
                        assert(holder == Some(p as int));
                        let ghost before = data_view(out@);
                        let item = data[j].1.clone();
                        let ghost iv = item.deep();
                        put(&mut out, o, item);
                        proof {
                            assert(data_lands(ps, keep_last, p as int, j as int, o as int, *size, min));
                            assert forall|o2: int, d: NbtV| #[trigger] holds(data_view(out@), o2 as usize, d) && 0 <= o2 <= usize::MAX <==> data_placed(ps, keep_last, o2, d, p as int, j + 1, *size, min) by {
                                lemma_data_step(ps, keep_last, before, data_view(out@), o2, d, p as int, j as int, o as int, iv, *size, min);
                            }
                        }
                    } else {
                        proof {
                            assert(holder != Some(p as int));
                            assert forall|o2: int, d: NbtV| #[trigger] holds(data_view(out@), o2 as usize, d) && 0 <= o2 <= usize::MAX <==> data_placed(ps, keep_last, o2, d, p as int, j + 1, *size, min) by {
                                lemma_data_skip(ps, keep_last, o2, d, p as int, j as int, *size, min);
                            }
                        }
                    }
                },
                None => {
                    proof {
                        assert forall|o2: int, d: NbtV| #[trigger] holds(data_view(out@), o2 as usize, d) && 0 <= o2 <= usize::MAX <==> data_placed(ps, keep_last, o2, d, p as int, j + 1, *size, min) by {
                            lemma_data_skip(ps, keep_last, o2, d, p as int, j as int, *size, min);
                        }
                    }
                },
            }
            j += 1;
        }
        proof {
            assert forall|o: int, d: NbtV| #[trigger] holds(data_view(out@), o as usize, d) && 0 <= o <= usize::MAX <==> data_placed(ps, keep_last, o, d, p + 1, 0, *size, min) by {
                lemma_data_next_piece(ps, keep_last, o, d, p as int, j as int, *size, min);
            }
        }
        p += 1;
    }
    out
}

proof fn lemma_data_skip(ps: Seq<StructureV>, keep_last: bool, o: int, d: NbtV, p: int, j: int, size: Size, min: Coord)
    requires
        forall|o2: int| !#[trigger] data_lands(ps, keep_last, p, j, o2, size, min),
    ensures
        data_placed(ps, keep_last, o, d, p, j + 1, size, min) == data_placed(ps, keep_last, o, d, p, j, size, min),
{
    if data_placed(ps, keep_last, o, d, p, j + 1, size, min) {
        let (q, i) = choose|q: int, i: int| 0 <= q && (q < p || (q == p && i < j + 1)) && #[trigger] data_lands(ps, keep_last, q, i, o, size, min) && ps[q].block_position_data[i].1 == d;
        assert(!(q == p && i == j));
    }
}

proof fn lemma_data_next_piece(ps: Seq<StructureV>, keep_last: bool, o: int, d: NbtV, p: int, m: int, size: Size, min: Coord)
    requires
        m >= ps[p].block_position_data.len(),
    ensures
        data_placed(ps, keep_last, o, d, p, m, size, min) == data_placed(ps, keep_last, o, d, p + 1, 0, size, min),
{
    if data_placed(ps, keep_last, o, d, p, m, size, min) {
        let (q, i) = choose|q: int, i: int| 0 <= q && (q < p || (q == p && i < m)) && #[trigger] data_lands(ps, keep_last, q, i, o, size, min) && ps[q].block_position_data[i].1 == d;
        assert(data_placed(ps, keep_last, o, d, p + 1, 0, size, min));
    }
    if data_placed(ps, keep_last, o, d, p + 1, 0, size, min) {
        let (q, i) = choose|q: int, i: int| 0 <= q && (q < p + 1 || (q == p + 1 && i < 0)) && #[trigger] data_lands(ps, keep_last, q, i, o, size, min) && ps[q].block_position_data[i].1 == d;
        assert(data_placed(ps, keep_last, o, d, p, m, size, min));
    }
}

#[verifier::rlimit(30)]
proof fn lemma_data_step(ps: Seq<StructureV>, keep_last: bool, before: Seq<(usize, NbtV)>, after: Seq<(usize, NbtV)>, o2: int, d: NbtV, p: int, j: int, at: int, dv: NbtV, size: Size, min: Coord)
    requires
        data_lands(ps, keep_last, p, j, at, size, min),
        ps[p].block_position_data[j].1 == dv,
        0 <= at <= usize::MAX,
        0 <= p,
        sorted_keys(ps[p].block_position_data),
        forall|o: int, d2: NbtV| #[trigger] holds(before, o as usize, d2) && 0 <= o <= usize::MAX <==> data_placed(ps, keep_last, o, d2, p, j, size, min),
        holds(after, at as usize, dv),
        forall|i: int| 0 <= i < after.len() ==> (#[trigger] after[i] == (at as usize, dv) || (after[i].0 != at as usize && holds(before, after[i].0, after[i].1))),
        forall|i: int| 0 <= i < before.len() && #[trigger] before[i].0 != at as usize ==> holds(after, before[i].0, before[i].1),
    ensures
        holds(after, o2 as usize, d) && 0 <= o2 <= usize::MAX <==> data_placed(ps, keep_last, o2, d, p, j + 1, size, min),
{
    if holds(after, o2 as usize, d) && 0 <= o2 <= usize::MAX {
        let i = choose|i: int| 0 <= i < after.len() && after[i] == (o2 as usize, d);
        if after[i] == (at as usize, dv) {
            assert(o2 == at);
            assert(data_placed(ps, keep_last, o2, d, p, j + 1, size, min));
        } else {
            assert(holds(before, o2 as usize, d));
            assert(data_placed(ps, keep_last, o2, d, p, j, size, min));
            let (q, k) = choose|q: int, k: int| 0 <= q && (q < p || (q == p && k < j)) && #[trigger] data_lands(ps, keep_last, q, k, o2, size, min) && ps[q].block_position_data[k].1 == d;
            assert(data_placed(ps, keep_last, o2, d, p, j + 1, size, min));
        }
    }
    if data_placed(ps, keep_last, o2, d, p, j + 1, size, min) {
        let (q, k) = choose|q: int, k: int| 0 <= q && (q < p || (q == p && k < j + 1)) && #[trigger] data_lands(ps, keep_last, q, k, o2, size, min) && ps[q].block_position_data[k].1 == d;
        let key = ps[q].block_position_data[k].0 as int;
        assert(0 <= o2 <= usize::MAX) by {
            lemma_cell_in_range(ps[q].size, ps[q].origin, key, size, min);
        }
        if q == p && k == j {
            assert(o2 == at);
        } else {
            assert(data_placed(ps, keep_last, o2, d, p, j, size, min));
            assert(holds(before, o2 as usize, d));
            if o2 == at {
                // the same cell is held by piece p, reached by two of its entries
                assert(q == p);
                let kj = ps[p].block_position_data[j].0 as int;
                lemma_cell_source(ps[p].size, ps[p].origin, key, at, size, min);
                lemma_cell_source(ps[p].size, ps[p].origin, kj, at, size, min);
                assert(key == kj);
                assert(k < j);
                assert(false);
            } else {
                let i = choose|i: int| 0 <= i < before.len() && before[i] == (o2 as usize, d);
                assert(before[i].0 != at as usize);
            }
        }
    }
}

/// A cell a block lands in is an index of the grid.
proof fn lemma_cell_in_range(ps: Size, po: Coord, i: int, size: Size, min: Coord)
    ensures
        cell_of(ps, po, i, size, min) matches Some(o) ==> 0 <= o < size.volume_spec() && o <= usize::MAX,
{
}

/// Every entity of every piece, in order.
pub open spec fn all_entities(ps: Seq<StructureV>) -> Seq<NbtV>
    decreases ps.len(),
{
    if ps.len() == 0 {
        Seq::empty()
    } else {
        all_entities(ps.drop_last()) + ps.last().entities
    }
}

fn gather_entities(pieces: &[(String, Structure)]) -> (r: Vec<Nbt>)
    ensures
        list_view(r@) == all_entities(views(pieces@)),
{
    let ghost ps = views(pieces@);
    let mut r: Vec<Nbt> = Vec::new();
    let mut p: usize = 0;
    while p < pieces.len()
        invariant
            p <= pieces@.len(),
            ps == views(pieces@),
            list_view(r@) == all_entities(ps.subrange(0, p as int)),
        decreases pieces@.len() - p,
    {
        let es = &pieces[p].1.entities;
        let ghost start = list_view(r@);
        let mut e: usize = 0;
        while e < es.len()
            invariant
                e <= es@.len(),
                list_view(r@) == start + list_view(es@).subrange(0, e as int),
            decreases es@.len() - e,
        {
            let ghost r0 = r@;
            let c = es[e].clone();
            r.push(c);
            assert(r@ == r0.push(c));
            assert(list_view(r@) =~= list_view(r0).push(es@[e as int].deep()));
            e += 1;
            assert(list_view(r@) =~= start + list_view(es@).subrange(0, e as int));
        }
        assert(ps.subrange(0, p + 1).drop_last() =~= ps.subrange(0, p as int));
        assert(ps[p as int].entities == list_view(es@));
        assert(list_view(es@).subrange(0, es@.len() as int) =~= list_view(es@));
        p += 1;
    }
    assert(ps.subrange(0, pieces@.len() as int) =~= ps);
    r
}


/// The parts, separated by `sep`.
pub open spec fn join(parts: Seq<Seq<char>>, sep: Seq<char>) -> Seq<char>
    decreases parts.len(),
{
    if parts.len() == 0 {
        Seq::empty()
    } else if parts.len() == 1 {
        parts[0]
    } else {
        join(parts.drop_last(), sep) + sep + parts.last()
    }
}


/// `parts` joined by `sep`.
pub fn join_strings(parts: &Vec<String>, sep: &str) -> (r: String)
    ensures
        r@ == join(strings_view(parts@), sep@),
{
    let ghost pv = strings_view(parts@);
    let mut r = String::new();
    let mut i: usize = 0;
    while i < parts.len()
        invariant
            i <= parts@.len(),
            pv == strings_view(parts@),
            r@ == join(pv.subrange(0, i as int), sep@),
        decreases parts@.len() - i,
    {
        assert(pv.subrange(0, i + 1).drop_last() =~= pv.subrange(0, i as int));
        if i > 0 {
            r.append(sep);
        } else {
            assert(pv.subrange(0, 1)[0] == pv[0]);
            assert(r@ =~= Seq::<char>::empty());
        }
        r.append(parts[i].as_str());
        i += 1;
        assert(r@ =~= join(pv.subrange(0, i as int), sep@));
    }
    assert(pv.subrange(0, parts@.len() as int) =~= pv);
    r
}

pub open spec fn is_zero(c: Coord) -> bool {
    c.x == 0 && c.y == 0 && c.z == 0
}

/// The names of the pieces saved at the world origin, in order.
pub open spec fn zeroed_names(pieces: Seq<(String, Structure)>) -> Seq<Seq<char>>
    decreases pieces.len(),
{
    if pieces.len() == 0 {
        Seq::empty()
    } else {
        zeroed_names(pieces.drop_last()) + if is_zero(pieces.last().1.origin) {
            seq![pieces.last().0@]
        } else {
            Seq::empty()
        }
    }
}

pub open spec fn zero_warning(pieces: Seq<(String, Structure)>) -> Seq<char> {
    "origin may be unset on: "@ + join(zeroed_names(pieces), ", "@)
        + " \u{2014} these will be placed at world origin"@
}

/// `X x Y x Z = V`.
pub open spec fn dims_text(size: Size, volume: int) -> Seq<char> {
    decimal(size.x as int) + " x "@ + decimal(size.y as int) + " x "@ + decimal(size.z as int) + " = "@
        + decimal(volume)
}

pub open spec fn large_warning(size: Size, volume: int) -> Seq<char> {
    "the merged structure is large: "@ + dims_text(size, volume)
        + " blocks. It will load, but placing it may be slow"@
}

pub open spec fn miss_warning(name: Seq<char>, count: int) -> Seq<char> {
    name + " has "@ + decimal(count)
        + " block index value(s) outside its palette; treated as air, which is what the game places for them"@
}

/// One warning per piece, among the first `n`, with indices outside its palette.
pub open spec fn miss_warnings(pieces: Seq<(String, Structure)>, size: Size, min: Coord, cells: int, n: int) -> Seq<Seq<char>>
    decreases n,
{
    if n <= 0 {
        Seq::empty()
    } else {
        let count = miss_total(pieces[n - 1].1@, size, min, cells);
        miss_warnings(pieces, size, min, cells, n - 1) + if count > 0 {
            seq![miss_warning(pieces[n - 1].0@, count as int)]
        } else {
            Seq::empty()
        }
    }
}

pub open spec fn stacked_text(c: Coord) -> Seq<char> {
    "every structure has the same origin ["@ + decimal(c.x as int) + ", "@ + decimal(c.y as int) + ", "@
        + decimal(c.z as int) + "], so the pieces would stack in one spot rather than reassemble"@
}

pub open spec fn too_large_text(size: Size, volume: int, limit: int) -> Seq<char> {
    "the merged bounding box is "@ + dims_text(size, volume)
        + " blocks, too large to build in memory (limit "@ + decimal(limit) + ")"@
}

/// `N blocks between A and B` for each listed pair.
pub open spec fn overlap_details(ks: Seq<(int, int)>, names: Seq<Seq<char>>, ps: Seq<StructureV>, keep_last: bool, size: Size, min: Coord, cells: int) -> Seq<Seq<char>> {
    Seq::new(
        ks.len(),
        |j: int|
            decimal(overlap_total(ps, keep_last, ks[j].0, ks[j].1, size, min, cells) as int)
                + " blocks between "@ + names[ks[j].0] + " and "@ + names[ks[j].1],
    )
}

pub open spec fn overlap_refusal_text(details: Seq<Seq<char>>) -> Seq<char> {
    "structures overlap and --on-overlap=error was given: "@ + join(details, "; "@)
}

fn dims(size: &Size, volume: i64) -> (r: String)
    ensures
        r@ == dims_text(*size, volume as int),
{
    let mut r = int_text(size.x as i64);
    r.append(" x ");
    r.append(int_text(size.y as i64).as_str());
    r.append(" x ");
    r.append(int_text(size.z as i64).as_str());
    r.append(" = ");
    r.append(int_text(volume).as_str());
    r
}

fn zero_warning_text(pieces: &[(String, Structure)]) -> (r: Option<String>)
    ensures
        r is Some <==> zeroed_names(pieces@).len() > 0,
        r matches Some(w) ==> w@ == zero_warning(pieces@),
{
    let mut zeroed: Vec<String> = Vec::new();
    let mut p: usize = 0;
    while p < pieces.len()
        invariant
            p <= pieces@.len(),
            strings_view(zeroed@) == zeroed_names(pieces@.subrange(0, p as int)),
        decreases pieces@.len() - p,
    {
        assert(pieces@.subrange(0, p + 1).drop_last() =~= pieces@.subrange(0, p as int));
        let o = pieces[p].1.origin;
        if o.x == 0 && o.y == 0 && o.z == 0 {
            zeroed.push(pieces[p].0.clone());
        }
        p += 1;
        assert(strings_view(zeroed@) =~= zeroed_names(pieces@.subrange(0, p as int)));
    }
    assert(pieces@.subrange(0, pieces@.len() as int) =~= pieces@);
    if zeroed.len() == 0 {
        return None;
    }
    let mut w = String::from_str("origin may be unset on: ");
    w.append(join_strings(&zeroed, ", ").as_str());
    w.append(" \u{2014} these will be placed at world origin");
    Some(w)
}

fn miss_warning_list(pieces: &[(String, Structure)], bad: &Vec<u64>, size: &Size, min: Coord, cells: usize) -> (r: Vec<String>)
    requires
        bad@.len() == pieces@.len(),
        forall|p: int| 0 <= p < pieces@.len() ==> #[trigger] bad@[p] == miss_total(views(pieces@)[p], *size, min, cells as int),
    ensures
        strings_view(r@) == miss_warnings(pieces@, *size, min, cells as int, pieces@.len() as int),
{
    let mut r: Vec<String> = Vec::new();
    let mut p: usize = 0;
    while p < pieces.len()
        invariant
            p <= pieces@.len(),
            bad@.len() == pieces@.len(),
            forall|q: int| 0 <= q < pieces@.len() ==> #[trigger] bad@[q] == miss_total(views(pieces@)[q], *size, min, cells as int),
            strings_view(r@) == miss_warnings(pieces@, *size, min, cells as int, p as int),
        decreases pieces@.len() - p,
    {
        let count = bad[p];
        assert(views(pieces@)[p as int] == pieces@[p as int].1@);
        if count > 0 {
            let mut w = pieces[p].0.clone();
            w.append(" has ");
            w.append(nat_text(count).as_str());
            w.append(
                " block index value(s) outside its palette; treated as air, which is what the game places for them",
            );
            r.push(w);
        }
        p += 1;
        assert(strings_view(r@) =~= miss_warnings(pieces@, *size, min, cells as int, p as int));
    }
    r
}

fn overlap_refusal(ov: &Vec<Overlap>, Ghost(ks): Ghost<Seq<(int, int)>>, Ghost(names): Ghost<Seq<Seq<char>>>, Ghost(ps): Ghost<Seq<StructureV>>, keep_last: bool, size: &Size, min: Coord, cells: usize) -> (r: String)
    requires
        overlaps_listed(ov@, ks, names, ps, keep_last, *size, min, cells as int),
    ensures
        r@ == overlap_refusal_text(overlap_details(ks, names, ps, keep_last, *size, min, cells as int)),
{
    let ghost want = overlap_details(ks, names, ps, keep_last, *size, min, cells as int);
    let mut details: Vec<String> = Vec::new();
    let mut j: usize = 0;
    while j < ov.len()
        invariant
            j <= ov@.len(),
            overlaps_listed(ov@, ks, names, ps, keep_last, *size, min, cells as int),
            want == overlap_details(ks, names, ps, keep_last, *size, min, cells as int),
            strings_view(details@) == want.subrange(0, j as int),
        decreases ov@.len() - j,
    {
        let o = &ov[j];
        let ghost jj = j as int;
        assert(ov@[jj].count == overlap_total(ps, keep_last, ks[jj].0, ks[jj].1, *size, min, cells as int));
        assert(o.pieces@.len() == 2);
        assert(o.pieces@[0]@ == names[ks[jj].0] && o.pieces@[1]@ == names[ks[jj].1]);
        let mut d = nat_text(o.count);
        d.append(" blocks between ");
        d.append(o.pieces[0].as_str());
        d.append(" and ");
        d.append(o.pieces[1].as_str());
        assert(d@ == want[jj]);
        let ghost old_d = details@;
        details.push(d);
        assert(strings_view(details@) =~= strings_view(old_d).push(want[jj]));
        assert(want.subrange(0, jj + 1) =~= want.subrange(0, jj).push(want[jj]));
        j += 1;
        assert(strings_view(details@) =~= want.subrange(0, j as int));
    }
    assert(want.subrange(0, ov@.len() as int) =~= want);
    let mut r = String::from_str("structures overlap and --on-overlap=error was given: ");
    r.append(join_strings(&details, "; ").as_str());
    r
}


/// The union of every piece's bounding box.
pub open spec fn union_of(pieces: Seq<(String, Structure)>) -> BoundingBox {
    union_spec(Seq::new(pieces.len(), |p: int| box_of(pieces[p].1.origin, pieces[p].1.size)))
}

/// Several pieces, all saved at the same origin: they would stack in one spot.
pub open spec fn stacked(pieces: Seq<(String, Structure)>) -> bool {
    pieces.len() > 1 && forall|p: int| 0 <= p < pieces.len() ==> #[trigger] pieces[p].1.origin == pieces[0].1.origin
}

/// Pieces count as stacked exactly when there are several and every one
/// was saved at the first one's origin on all three of x, y and z: two
/// pieces whose origins differ in any one coordinate are not stacked.
pub proof fn lemma_stacked_means_one_origin(pieces: Seq<(String, Structure)>)
    ensures
        stacked(pieces) <==> (pieces.len() > 1 && forall|p: int|
            0 <= p < pieces.len() ==> (#[trigger] pieces[p].1.origin.x) == pieces[0].1.origin.x
                && pieces[p].1.origin.y == pieces[0].1.origin.y && pieces[p].1.origin.z
                == pieces[0].1.origin.z),
{
    if pieces.len() > 1 && forall|p: int|
        0 <= p < pieces.len() ==> (#[trigger] pieces[p].1.origin.x) == pieces[0].1.origin.x
            && pieces[p].1.origin.y == pieces[0].1.origin.y && pieces[p].1.origin.z == pieces[0].1.origin.z {
        assert forall|p: int| 0 <= p < pieces.len() implies #[trigger] pieces[p].1.origin == pieces[0].1.origin by {
            assert(pieces[p].1.origin.x == pieces[0].1.origin.x);
        }
    }
}

/// Two pieces saved at different heights above the same column are not
/// stacked: they reassemble one above the other.
pub proof fn lemma_different_heights_not_stacked(pieces: Seq<(String, Structure)>, p: int)
    requires
        0 <= p < pieces.len(),
        pieces[p].1.origin.y != pieces[0].1.origin.y,
    ensures
        !stacked(pieces),
{
    lemma_stacked_means_one_origin(pieces);
    assert(pieces[p].1.origin.x == pieces[p].1.origin.x);
}

pub open spec fn piece_palettes(pieces: Seq<(String, Structure)>) -> Seq<Seq<BlockStateV>> {
    Seq::new(pieces.len(), |p: int| palette_view(pieces[p].1.palette@))
}

/// Some piece placed blocks over another's.
pub open spec fn any_overlap(ps: Seq<StructureV>, keep_last: bool, size: Size, min: Coord, cells: int) -> bool {
    exists|a: int, b: int| 0 <= a < ps.len() && 0 <= b < ps.len() && #[trigger] overlap_total(ps, keep_last, a, b, size, min, cells) > 0
}

/// Layer `l` of the result before gaps are filled: each cell holds the
/// block of the piece holding it, else its starting value.
pub open spec fn merged_layer(ps: Seq<StructureV>, rs: Seq<Seq<int>>, keep_last: bool, l: int, init: Seq<i32>, size: Size, min: Coord, cells: int) -> Seq<i32> {
    Seq::new(
        cells as nat,
        |o: int| match claimant(ps, keep_last, l, o, ps.len() as int, size, min) {
            Some(p) => cell_value(ps, rs, l, o, p, size, min),
            None => init[o],
        },
    )
}

pub open spec fn merge_warnings(pieces: Seq<(String, Structure)>, size: Size, min: Coord, cells: int) -> Seq<Seq<char>> {
    (if pieces.len() > 1 && zeroed_names(pieces).len() > 0 {
        seq![zero_warning(pieces)]
    } else {
        Seq::empty()
    }) + (if size.volume_spec() > PERFORMANCE_WARN_VOLUME {
        seq![large_warning(size, size.volume_spec())]
    } else {
        Seq::empty()
    }) + miss_warnings(pieces, size, min, cells, pieces.len() as int)
}

pub open spec fn refused_with(e: CoreError, reason: Seq<char>) -> bool {
    e matches CoreError::MergeRefused { reason: r } && r@ == reason
}

/// `rep` is the merge of `pieces`.
pub open spec fn merged(rep: MergeReport, pieces: Seq<(String, Structure)>, options: MergeOptions) -> bool {
    let ps = views(pieces);
    let u = union_of(pieces);
    let size = u.size_spec();
    let min = u.min;
    let cells = size.volume_spec();
    let keep_last = options.on_overlap == OnOverlap::Last;
    let pal = unify_all(piece_palettes(pieces)).0;
    let rs = unify_all(piece_palettes(pieces)).1;
    let pre0 = merged_layer(ps, rs, keep_last, 0, init_layer0(ps, size, min, cells), size, min, cells);
    let s = rep.structure;
    &&& s.format_version == pieces[0].1.format_version
    &&& s.size == size
    &&& s.origin == min
    &&& has_gap(pre0) ==> palette_view(s.palette@) == with_air(pal).0 && s.layers[0]@ == filled(
        pre0,
        with_air(pal).1 as i32,
    )
    &&& !has_gap(pre0) ==> palette_view(s.palette@) == pal && s.layers[0]@ == pre0
    &&& s.layers[1]@ == merged_layer(ps, rs, keep_last, 1, init_layer1(cells), size, min, cells)
    &&& sorted_keys(data_view(s.block_position_data@))
    &&& forall|o: int, d: NbtV|
        #[trigger] holds(data_view(s.block_position_data@), o as usize, d) && 0 <= o <= usize::MAX
            <==> data_placed(ps, keep_last, o, d, pieces.len() as int, 0, size, min)
    &&& list_view(s.entities@) == all_entities(ps)
    &&& exists|ks: Seq<(int, int)>|
        overlap_keys(ks, ps, keep_last, size, min, cells) && overlaps_listed(
            rep.overlaps@,
            ks,
            names_of(pieces),
            ps,
            keep_last,
            size,
            min,
            cells,
        )
    &&& strings_view(rep.warnings@) == merge_warnings(pieces, size, min, cells)
}

proof fn lemma_final_grid(layer: Seq<i32>, owner: Seq<u32>, init: Seq<i32>, ps: Seq<StructureV>, rs: Seq<Seq<int>>, keep_last: bool, l: int, size: Size, min: Coord, cells: int)
    requires
        grid_ok(layer, owner, init, ps, rs, keep_last, l, ps.len() as int, 0, size, min, cells),
    ensures
        layer == merged_layer(ps, rs, keep_last, l, init, size, min, cells),
        forall|o: int| 0 <= o < cells ==> #[trigger] owner[o] == owner_code(claimant(ps, keep_last, l, o, ps.len() as int, size, min)),
{
    assert forall|o: int| 0 <= o < cells implies #[trigger] claim_upto(ps, keep_last, l, o, ps.len() as int, 0, size, min) == claimant(ps, keep_last, l, o, ps.len() as int, size, min) by {
        if claims(ps[ps.len() as int], l, o, size, min) {
            assert(src(ps[ps.len() as int], o, size, min).unwrap() >= 0);
        }
    }
    assert(layer =~= merged_layer(ps, rs, keep_last, l, init, size, min, cells));
}

/// Merges `pieces` into one structure positioned at the min corner of the
/// union of their bounding boxes.
#[verifier::rlimit(80)]
pub fn merge(pieces: &[(String, Structure)], options: &MergeOptions) -> (r: Result<MergeReport, CoreError>)
    requires
        pieces@.len() < u32::MAX,
        forall|p: int| 0 <= p < pieces@.len() ==> sorted_keys(#[trigger] views(pieces@)[p].block_position_data),
    ensures
        ({
            let n = pieces@.len();
            let ps = views(pieces@);
            let size = union_of(pieces@).size_spec();
            let min = union_of(pieces@).min;
            let vol = size.volume_spec();
            let keep_last = options.on_overlap == OnOverlap::Last;
            let fits = n > 0 && !stacked(pieces@) && vol <= options.max_volume && vol <= usize::MAX;
            &&& n == 0 ==> (r matches Err(e) && refused_with(e, "no structures to merge"@))
            &&& n > 0 && stacked(pieces@) ==> (r matches Err(e) && refused_with(e, stacked_text(pieces@[0].1.origin)))
            &&& n > 0 && !stacked(pieces@) && vol > options.max_volume ==> (r matches Err(e) && refused_with(
                e,
                too_large_text(size, vol, options.max_volume as int),
            ))
            &&& n > 0 && !stacked(pieces@) && vol <= options.max_volume && vol > usize::MAX ==> (r matches Err(e)
                && refused_with(e, "merged size is too large to address"@))
            &&& fits && options.on_overlap == OnOverlap::Error && any_overlap(ps, keep_last, size, min, vol)
                ==> (r matches Err(e) && exists|ks: Seq<(int, int)>|
                overlap_keys(ks, ps, keep_last, size, min, vol) && refused_with(
                    e,
                    overlap_refusal_text(overlap_details(ks, names_of(pieces@), ps, keep_last, size, min, vol)),
                ))
            &&& fits && !(options.on_overlap == OnOverlap::Error && any_overlap(ps, keep_last, size, min, vol))
                ==> (r matches Ok(rep) && merged(rep, pieces@, *options))
        }),
{
    let ghost ps = views(pieces@);
    if pieces.len() == 0 {
        return Err(refused(String::from_str("no structures to merge")));
    }
    if pieces.len() > 1 {
        let first = pieces[0].1.origin;
        let mut same = true;
        let mut p: usize = 1;
        while p < pieces.len()
            invariant
                1 <= p <= pieces@.len(),
                first == pieces@[0].1.origin,
                same <==> forall|q: int| 0 <= q < p ==> #[trigger] pieces@[q].1.origin == first,
            decreases pieces@.len() - p,
        {
            if pieces[p].1.origin != first {
                same = false;
            }
            p += 1;
        }
        if same {
            let mut reason = String::from_str("every structure has the same origin [");
            reason.append(int_text(first.x as i64).as_str());
            reason.append(", ");
            reason.append(int_text(first.y as i64).as_str());
            reason.append(", ");
            reason.append(int_text(first.z as i64).as_str());
            reason.append("], so the pieces would stack in one spot rather than reassemble");
            return Err(refused(reason));
        }
        assert(!stacked(pieces@));
    }
    let mut warnings: Vec<String> = Vec::new();
    if pieces.len() > 1 {
        match zero_warning_text(pieces) {
            Some(w) => warnings.push(w),
            None => {},
        }
    }
    let mut boxes: Vec<BoundingBox> = Vec::new();
    let mut p: usize = 0;
    while p < pieces.len()
        invariant
            p <= pieces@.len(),
            boxes@ == Seq::new(p as nat, |q: int| box_of(pieces@[q].1.origin, pieces@[q].1.size)),
        decreases pieces@.len() - p,
    {
        boxes.push(BoundingBox::of(pieces[p].1.origin, pieces[p].1.size));
        p += 1;
        assert(boxes@ =~= Seq::new(p as nat, |q: int| box_of(pieces@[q].1.origin, pieces@[q].1.size)));
    }
    let union = match BoundingBox::union(&boxes) {
        Some(u) => u,
        None => {
            return Err(refused(String::from_str("no structures to merge")));
        },
    };
    let size = union.size();
    let volume = size.volume();
    if volume > options.max_volume {
        let mut reason = String::from_str("the merged bounding box is ");
        reason.append(dims(&size, volume).as_str());
        reason.append(" blocks, too large to build in memory (limit ");
        reason.append(int_text(options.max_volume).as_str());
        reason.append(")");
        return Err(refused(reason));
    }
    if volume > PERFORMANCE_WARN_VOLUME {
        let mut w = String::from_str("the merged structure is large: ");
        w.append(dims(&size, volume).as_str());
        w.append(" blocks. It will load, but placing it may be slow");
        warnings.push(w);
    }
    let ghost pals = piece_palettes(pieces@);
    let mut palette: Vec<BlockState> = Vec::new();
    let mut remaps: Vec<Vec<i32>> = Vec::new();
    let mut q: usize = 0;
    assert(palette_view(palette@) =~= Seq::<BlockStateV>::empty());
    while q < pieces.len()
        invariant
            q <= pieces@.len(),
            pals == piece_palettes(pieces@),
            palette_view(palette@) == unify_all(pals.subrange(0, q as int)).0,
            remaps@.len() == q,
            unify_all(pals.subrange(0, q as int)).1.len() == q,
            forall|i: int| 0 <= i < q ==> (#[trigger] remaps@[i])@ == as_i32s(unify_all(pals.subrange(0, q as int)).1[i]),
        decreases pieces@.len() - q,
    {
        assert(pals.subrange(0, q + 1).drop_last() =~= pals.subrange(0, q as int));
        assert(pals.subrange(0, q + 1).last() == pals[q as int]);
        let remap = unify_into(&mut palette, &pieces[q].1.palette);
        remaps.push(remap);
        q += 1;
    }
    assert(pals.subrange(0, pieces@.len() as int) =~= pals);
    let ghost rs = unify_all(pals).1;
    proof {
        lemma_remap_lengths(pals);
    }
    if volume as u128 > usize::MAX as u128 {
        return Err(refused(String::from_str("merged size is too large to address")));
    }
    let cells = volume as usize;
    let keep_last = options.on_overlap == OnOverlap::Last;
    let grid = build_grid(pieces, &remaps, &size, union.min, keep_last, cells, Ghost(rs));
    let misses = miss_warning_list(pieces, &grid.bad, &size, union.min, cells);
    let ghost w0 = warnings@;
    let mut i: usize = 0;
    while i < misses.len()
        invariant
            i <= misses@.len(),
            warnings@ == w0 + misses@.subrange(0, i as int),
        decreases misses@.len() - i,
    {
        warnings.push(misses[i].clone());
        i += 1;
        assert(warnings@ =~= w0 + misses@.subrange(0, i as int));
    }
    assert(misses@.subrange(0, misses@.len() as int) =~= misses@);
    let overlaps = list_overlaps(&grid.tally, pieces, keep_last, &size, union.min, cells);
    let ghost ks = choose|ks: Seq<(int, int)>| overlap_keys(ks, ps, keep_last, size, union.min, cells as int) && overlaps_listed(overlaps@, ks, names_of(pieces@), ps, keep_last, size, union.min, cells as int);
    proof {
        lemma_any_overlap(ks, ps, keep_last, size, union.min, cells as int);
    }
    if options.on_overlap == OnOverlap::Error && overlaps.len() > 0 {
        let reason = overlap_refusal(&overlaps, Ghost(ks), Ghost(names_of(pieces@)), Ghost(ps), keep_last, &size, union.min, cells);
        return Err(refused(reason));
    }
    let Grid { layer0, layer1, owner0, owner1, tally, bad } = grid;
    let mut layer0 = layer0;
    proof {
        lemma_final_grid(layer0@, owner0@, init_layer0(ps, size, union.min, cells as int), ps, rs, keep_last, 0, size, union.min, cells as int);
        lemma_final_grid(layer1@, owner1@, init_layer1(cells as int), ps, rs, keep_last, 1, size, union.min, cells as int);
    }
    fill_air(&mut layer0, &mut palette);
    let block_position_data = place_data(pieces, &owner0, &size, union.min, keep_last, cells);
    let entities = gather_entities(pieces);
    let structure = Structure {
        format_version: pieces[0].1.format_version,
        size,
        origin: union.min,
        layers: [layer0, layer1],
        palette,
        block_position_data,
        entities,
    };
    let report = MergeReport { structure, overlaps, warnings };
    proof {
        assert(strings_view(report.warnings@) =~= merge_warnings(pieces@, size, union.min, cells as int));
    }
    Ok(report)
}

proof fn lemma_remap_lengths(pals: Seq<Seq<BlockStateV>>)
    ensures
        unify_all(pals).1.len() == pals.len(),
        forall|p: int| 0 <= p < pals.len() ==> (#[trigger] unify_all(pals).1[p]).len() == pals[p].len(),
    decreases pals.len(),
{
    if pals.len() > 0 {
        lemma_remap_lengths(pals.drop_last());
        lemma_entries_length(unify_all(pals.drop_last()).0, pals.last());
    }
}

proof fn lemma_entries_length(pal: Seq<BlockStateV>, es: Seq<BlockStateV>)
    ensures
        unify_entries(pal, es).1.len() == es.len(),
    decreases es.len(),
{
    if es.len() > 0 {
        lemma_entries_length(pal, es.drop_last());
    }
}

proof fn lemma_any_overlap(ks: Seq<(int, int)>, ps: Seq<StructureV>, keep_last: bool, size: Size, min: Coord, cells: int)
    requires
        overlap_keys(ks, ps, keep_last, size, min, cells),
    ensures
        ks.len() > 0 <==> any_overlap(ps, keep_last, size, min, cells),
{
    if ks.len() > 0 {
        assert(overlap_total(ps, keep_last, ks[0].0, ks[0].1, size, min, cells) > 0);
    }
}


proof fn lemma_first_same_facts(pal: Seq<BlockStateV>, e: BlockStateV)
    ensures
        first_same(pal, e) matches Some(j) ==> 0 <= j < pal.len() && same_state(pal[j], e) && forall|i: int| 0 <= i < j ==> !same_state(#[trigger] pal[i], e),
        first_same(pal, e) is None ==> forall|i: int| 0 <= i < pal.len() ==> !same_state(#[trigger] pal[i], e),
    decreases pal.len(),
{
    if pal.len() > 0 {
        lemma_first_same_facts(pal.drop_last(), e);
        assert forall|i: int| 0 <= i < pal.len() - 1 implies pal[i] == pal.drop_last()[i] by {}
    }
}

/// The shared palette holds no two equal entries; entry `k` of a piece went
/// to the first entry equal to it, or to a copy of itself.
pub open spec fn unified(u: Seq<BlockStateV>, pal0: Seq<BlockStateV>, es: Seq<BlockStateV>, r: Seq<int>) -> bool {
    &&& pal0.len() <= u.len()
    &&& forall|i: int| 0 <= i < pal0.len() ==> u[i] == pal0[i]
    &&& forall|i: int, j: int| 0 <= i < j < u.len() ==> !same_state(u[i], u[j])
    &&& r.len() == es.len()
    &&& forall|k: int|
        0 <= k < es.len() ==> 0 <= #[trigger] r[k] < u.len() && (same_state(u[r[k]], es[k])
            || u[r[k]] == es[k]) && forall|j: int| 0 <= j < r[k] ==> !same_state(#[trigger] u[j], es[k])
}

proof fn lemma_unify_entries(pal: Seq<BlockStateV>, es: Seq<BlockStateV>)
    requires
        forall|i: int, j: int| 0 <= i < j < pal.len() ==> !same_state(pal[i], pal[j]),
    ensures
        unified(unify_entries(pal, es).0, pal, es, unify_entries(pal, es).1),
    decreases es.len(),
{
    if es.len() > 0 {
        let pre = es.drop_last();
        lemma_unify_entries(pal, pre);
        let (p1, r1) = unify_entries(pal, pre);
        let e = es.last();
        lemma_first_same_facts(p1, e);
        let (p2, j) = unify_step(p1, e);
        assert forall|k: int| 0 <= k < es.len() - 1 implies es[k] == pre[k] by {}
        if first_same(p1, e) is None {
            assert forall|i: int, k: int| 0 <= i < k < p2.len() implies !same_state(p2[i], p2[k]) by {
                if k == p1.len() {
                    assert(!same_state(p1[i], e));
                } else {
                    assert(p2[i] == p1[i] && p2[k] == p1[k]);
                }
            }
        }
        let r2 = r1.push(j);
        assert forall|k: int| 0 <= k < es.len() implies 0 <= #[trigger] r2[k] < p2.len() && (same_state(p2[r2[k]], es[k])
            || p2[r2[k]] == es[k]) && forall|i: int| 0 <= i < r2[k] ==> !same_state(#[trigger] p2[i], es[k]) by {
            if k < es.len() - 1 {
                assert(r2[k] == r1[k]);
                assert(es[k] == pre[k]);
                assert forall|i: int| 0 <= i < r2[k] implies !same_state(#[trigger] p2[i], es[k]) by {
                    assert(p2[i] == p1[i]);
                }
            } else {
                assert forall|i: int| 0 <= i < r2[k] implies !same_state(#[trigger] p2[i], es[k]) by {
                    assert(p2[i] == p1[i]);
                }
            }
        }
    }
}

/// Entry `e` went to `u[r]`: the first entry of `u` equal to it, or a copy
/// of itself.
pub open spec fn maps_well(u: Seq<BlockStateV>, e: BlockStateV, r: int) -> bool {
    &&& 0 <= r < u.len()
    &&& same_state(u[r], e) || u[r] == e
    &&& forall|j: int| 0 <= j < r ==> !same_state(#[trigger] u[j], e)
}

/// Unifying palettes keeps one entry per distinct block state: the shared
/// palette holds no two equal entries, and each entry of each piece maps to
/// the first shared entry equal to it, or to a copy of itself when it equals
/// nothing (as a state holding a NaN does).
pub proof fn lemma_unify_dedup(pals: Seq<Seq<BlockStateV>>)
    ensures
        unify_all(pals).1.len() == pals.len(),
        forall|i: int, j: int| 0 <= i < j < unify_all(pals).0.len() ==> !same_state(unify_all(pals).0[i], unify_all(pals).0[j]),
        forall|p: int| 0 <= p < pals.len() ==> (#[trigger] unify_all(pals).1[p]).len() == pals[p].len(),
        forall|p: int, k: int|
            0 <= p < pals.len() && 0 <= k < pals[p].len() ==> maps_well(unify_all(pals).0, pals[p][k], #[trigger] unify_all(pals).1[p][k]),
    decreases pals.len(),
{
    if pals.len() > 0 {
        let pre = pals.drop_last();
        lemma_unify_dedup(pre);
        let (u1, rs1) = unify_all(pre);
        lemma_unify_entries(u1, pals.last());
        let (u2, r) = unify_entries(u1, pals.last());
        assert forall|p: int| 0 <= p < pals.len() implies (#[trigger] unify_all(pals).1[p]).len() == pals[p].len() by {
            if p < pals.len() - 1 {
                assert(pals[p] == pre[p]);
                assert(unify_all(pals).1[p] == rs1[p]);
            }
        }
        assert forall|p: int, k: int|
            0 <= p < pals.len() && 0 <= k < pals[p].len() implies maps_well(u2, pals[p][k], #[trigger] unify_all(pals).1[p][k]) by {
            if p < pals.len() - 1 {
                assert(pals[p] == pre[p]);
                let rr = rs1[p][k];
                assert(unify_all(pals).1[p] == rs1[p]);
                assert(maps_well(u1, pals[p][k], rr));
                assert(u2[rr] == u1[rr]);
                assert forall|j: int| 0 <= j < rr implies !same_state(#[trigger] u2[j], pals[p][k]) by {
                    assert(u2[j] == u1[j]);
                }
            } else {
                assert(unify_all(pals).1[p] == r);
                assert(pals[p] == pals.last());
                let rr = r[k];
                assert(0 <= rr < u2.len());
            }
        }
    }
}

// ---------------------------------------------------------------------------
// One piece alone
// ---------------------------------------------------------------------------

/// A piece that merging on its own must give back as it is: its box lies in
/// the coordinate range, its layers cover its volume with structure void or
/// indices into its palette, no two palette entries are the same block, and
/// its extra data sits at blocks it places. Each condition excludes inputs
/// the merge changes: a clamped box, a gap filled with air, a duplicate
/// entry folded into its first copy, data at a cell the piece leaves empty.
pub open spec fn mergeable_alone(s: StructureV) -> bool {
    let vol = s.size.volume_spec();
    &&& in_i32(s.origin.x + s.size.x) && in_i32(s.origin.y + s.size.y) && in_i32(s.origin.z + s.size.z)
    &&& vol <= usize::MAX
    &&& s.layer0.len() == vol && s.layer1.len() == vol
    &&& forall|i: int| 0 <= i < vol ==> (#[trigger] s.layer0[i] == VOID || 0 <= s.layer0[i] < s.palette.len())
    &&& forall|i: int| 0 <= i < vol ==> (#[trigger] s.layer1[i] == VOID || 0 <= s.layer1[i] < s.palette.len())
    &&& forall|a: int, b: int| 0 <= a < b < s.palette.len() ==> !same_state(#[trigger] s.palette[a], #[trigger] s.palette[b])
    &&& forall|j: int|
        0 <= j < s.block_position_data.len() ==> (#[trigger] s.block_position_data[j]).0 < vol
            && s.layer0[s.block_position_data[j].0 as int] != VOID
}

proof fn lemma_first_same_found(pal: Seq<BlockStateV>, e: BlockStateV)
    ensures
        first_same(pal, e) matches Some(j) ==> 0 <= j < pal.len() && same_state(pal[j], e),
    decreases pal.len(),
{
    if pal.len() > 0 {
        lemma_first_same_found(pal.drop_last(), e);
    }
}

/// A palette of distinct entries unifies into itself, each entry in place.
proof fn lemma_unify_distinct(pv: Seq<BlockStateV>, n: int)
    requires
        0 <= n <= pv.len(),
        forall|a: int, b: int| 0 <= a < b < pv.len() ==> !same_state(#[trigger] pv[a], #[trigger] pv[b]),
    ensures
        unify_entries(Seq::empty(), pv.subrange(0, n)) == (pv.subrange(0, n), Seq::new(n as nat, |k: int| k)),
    decreases n,
{
    if n > 0 {
        let es = pv.subrange(0, n);
        assert(es.drop_last() =~= pv.subrange(0, n - 1));
        lemma_unify_distinct(pv, n - 1);
        let pre = pv.subrange(0, n - 1);
        lemma_first_same_found(pre, pv[n - 1]);
        if first_same(pre, pv[n - 1]) is Some {
            let j = first_same(pre, pv[n - 1])->0;
            assert(same_state(pv[j], pv[n - 1]));
        }
        assert(pre.push(pv[n - 1]) =~= es);
        assert(Seq::new((n - 1) as nat, |k: int| k).push(n - 1) =~= Seq::new(n as nat, |k: int| k));
    } else {
        assert(pv.subrange(0, 0) =~= Seq::<BlockStateV>::empty());
        assert(Seq::new(0, |k: int| k) =~= Seq::<int>::empty());
    }
}

/// Inside a piece's own grid, at its own origin, every cell is fed by the
/// block of the same index.
proof fn lemma_own_source(s: StructureV, o: int)
    requires
        mergeable_alone(s),
        0 <= o < s.size.volume_spec(),
    ensures
        src(s, o, s.size, s.origin) == Some(o),
        cell_of(s.size, s.origin, o, s.size, s.origin) == Some(o),
{
    lemma_coord_in_range(s.size, o);
    lemma_index_coord_round_trip(s.size, o);
    let c = s.size.coord_of_spec(o)->0;
    assert(shift(c, s.origin.x as int, s.origin.y as int, s.origin.z as int) == Some(
        Coord { x: (c.x + s.origin.x) as i32, y: (c.y + s.origin.y) as i32, z: (c.z + s.origin.z) as i32 },
    ));
    let world = Coord { x: (c.x + s.origin.x) as i32, y: (c.y + s.origin.y) as i32, z: (c.z + s.origin.z) as i32 };
    assert(shift(world, -s.origin.x, -s.origin.y, -s.origin.z) == Some(c));
    assert(source_of(s.size, s.origin, o, s.size, s.origin) == Some(o));
    lemma_cell_source(s.size, s.origin, o, o, s.size, s.origin);
}

/// Two key-sorted lists holding the same entries are the same list.
proof fn lemma_sorted_same(a: Seq<(usize, NbtV)>, b: Seq<(usize, NbtV)>)
    requires
        sorted_keys(a),
        sorted_keys(b),
        forall|k: usize, v: NbtV| holds(a, k, v) <==> holds(b, k, v),
    ensures
        a == b,
    decreases a.len(),
{
    if a.len() == 0 {
        if b.len() > 0 {
            assert(holds(b, b[0].0, b[0].1));
        }
        assert(a =~= b);
    } else {
        assert(holds(a, a[0].0, a[0].1));
        let j = choose|j: int| 0 <= j < b.len() && b[j] == (a[0].0, a[0].1);
        assert(holds(b, b[0].0, b[0].1));
        let i = choose|i: int| 0 <= i < a.len() && a[i] == (b[0].0, b[0].1);
        if j > 0 {
            assert(b[0].0 < b[j].0);
            if i > 0 {
                assert(a[0].0 < a[i].0);
            }
        }
        assert(j == 0);
        let a2 = a.drop_first();
        let b2 = b.drop_first();
        assert forall|k: usize, v: NbtV| holds(a2, k, v) <==> holds(b2, k, v) by {
            if holds(a2, k, v) {
                let x = choose|x: int| 0 <= x < a2.len() && a2[x] == (k, v);
                assert(a[x + 1] == (k, v));
                assert(holds(a, k, v));
                let y = choose|y: int| 0 <= y < b.len() && b[y] == (k, v);
                assert(a[0].0 < a[x + 1].0);
                assert(y != 0);
                assert(b2[y - 1] == (k, v));
            }
            if holds(b2, k, v) {
                let x = choose|x: int| 0 <= x < b2.len() && b2[x] == (k, v);
                assert(b[x + 1] == (k, v));
                assert(holds(b, k, v));
                let y = choose|y: int| 0 <= y < a.len() && a[y] == (k, v);
                assert(b[0].0 < b[x + 1].0);
                assert(y != 0);
                assert(a2[y - 1] == (k, v));
            }
        }
        lemma_sorted_same(a2, b2);
        assert(a =~= seq![a[0]] + a2);
        assert(b =~= seq![b[0]] + b2);
    }
}

/// One piece never overlaps anything: there is no other piece.
pub proof fn lemma_one_piece_no_overlap(ps: Seq<StructureV>, keep_last: bool, size: Size, min: Coord, cells: int)
    requires
        ps.len() == 1,
    ensures
        !any_overlap(ps, keep_last, size, min, cells),
{
    assert forall|l: int| #[trigger] count_cells(overlap_pred(ps, keep_last, l, 0, 0, i64::MAX as int, size, min), cells) == 0 by {
        lemma_count_mono(overlap_pred(ps, keep_last, l, 0, 0, i64::MAX as int, size, min), |o: int| false, cells);
        lemma_count_zero(cells);
    }
    if any_overlap(ps, keep_last, size, min, cells) {
        let (a, b) = choose|a: int, b: int| 0 <= a < ps.len() && 0 <= b < ps.len() && #[trigger] overlap_total(ps, keep_last, a, b, size, min, cells) > 0;
        assert(a == 0 && b == 0);
        assert(count_cells(overlap_pred(ps, keep_last, 0, 0, 0, i64::MAX as int, size, min), cells) == 0);
        assert(count_cells(overlap_pred(ps, keep_last, 1, 0, 0, i64::MAX as int, size, min), cells) == 0);
    }
}

/// Merging one piece on its own gives it back unchanged: same size and
/// origin, same layers, same palette, same extra data, same entities; and
/// no overlap is possible, so the merge succeeds whenever the piece's volume
/// is within the limit.
pub proof fn lemma_merge_one_is_identity(pieces: Seq<(String, Structure)>, options: MergeOptions, rep: MergeReport)
    requires
        pieces.len() == 1,
        mergeable_alone(pieces[0].1@),
        sorted_keys(pieces[0].1@.block_position_data),
        merged(rep, pieces, options),
    ensures
        rep.structure@ == pieces[0].1@,
{
    let s = pieces[0].1@;
    let ps = views(pieces);
    assert(ps =~= seq![s]);
    let u = union_of(pieces);
    assert(Seq::new(pieces.len(), |p: int| box_of(pieces[p].1.origin, pieces[p].1.size))[0] == box_of(s.origin, s.size));
    assert(u == box_of(s.origin, s.size));
    let size = u.size_spec();
    assert(size == s.size);
    let min = u.min;
    assert(min == s.origin);
    let cells = size.volume_spec();
    let keep_last = options.on_overlap == OnOverlap::Last;
    assert(piece_palettes(pieces) =~= seq![s.palette]);
    lemma_unify_distinct(s.palette, s.palette.len() as int);
    assert(s.palette.subrange(0, s.palette.len() as int) =~= s.palette);
    let ident = Seq::new(s.palette.len(), |k: int| k);
    assert(unify_entries(Seq::empty(), s.palette) == (s.palette, ident));
    assert(unify_all(seq![s.palette]) == (s.palette, seq![ident])) by {
        let pals = seq![s.palette];
        assert(pals.drop_last() =~= Seq::<Seq<BlockStateV>>::empty());
        assert(unify_all(Seq::<Seq<BlockStateV>>::empty()) == (Seq::<BlockStateV>::empty(), Seq::<Seq<int>>::empty()));
        assert(pals.last() == s.palette);
        assert(Seq::<Seq<int>>::empty().push(ident) =~= seq![ident]);
    }
    let pal = unify_all(piece_palettes(pieces)).0;
    let rs = unify_all(piece_palettes(pieces)).1;
    assert forall|o: int| 0 <= o < cells implies #[trigger] src(ps[0], o, size, min) == Some(o) by {
        lemma_own_source(s, o);
    }
    let pre0 = merged_layer(ps, rs, keep_last, 0, init_layer0(ps, size, min, cells), size, min, cells);
    assert(pre0 =~= s.layer0) by {
        assert forall|o: int| 0 <= o < cells implies #[trigger] pre0[o] == s.layer0[o] by {
            assert(src(ps[0], o, size, min) == Some(o));
            assert(first_claim(ps, 0, o, 0, size, min) is None);
            if s.layer0[o] == VOID {
                assert(!claims(ps[0], 0, o, size, min));
                assert(last_claim(ps, 0, o, 0, size, min) is None);
                assert(last_claim(ps, 0, o, 1, size, min) is None);
                assert(first_claim(ps, 0, o, 1, size, min) is None);
                assert(claimant(ps, keep_last, 0, o, 1, size, min) is None);
                assert(voids(ps[0], o, size, min));
                assert(voided(ps, o, 1, size, min));
            } else {
                assert(0 <= s.layer0[o] < s.palette.len());
                assert(claims(ps[0], 0, o, size, min));
                assert(claimant(ps, keep_last, 0, o, 1, size, min) == Some(0int));
                assert(rs[0] == ident);
                assert(cell_value(ps, rs, 0, o, 0, size, min) == s.layer0[o]);
            }
        }
    }
    assert(!has_gap(pre0)) by {
        if has_gap(pre0) {
            let o = choose|o: int| 0 <= o < pre0.len() && pre0[o] == GAP;
            assert(s.layer0[o] == VOID || 0 <= s.layer0[o]);
        }
    }
    let m1 = merged_layer(ps, rs, keep_last, 1, init_layer1(cells), size, min, cells);
    assert(m1 =~= s.layer1) by {
        assert forall|o: int| 0 <= o < cells implies #[trigger] m1[o] == s.layer1[o] by {
            assert(src(ps[0], o, size, min) == Some(o));
            assert(first_claim(ps, 1, o, 0, size, min) is None);
            if s.layer1[o] == VOID {
                assert(!claims(ps[0], 1, o, size, min));
                assert(last_claim(ps, 1, o, 0, size, min) is None);
                assert(last_claim(ps, 1, o, 1, size, min) is None);
                assert(first_claim(ps, 1, o, 1, size, min) is None);
                assert(claimant(ps, keep_last, 1, o, 1, size, min) is None);
            } else {
                assert(0 <= s.layer1[o] < s.palette.len());
                assert(claims(ps[0], 1, o, size, min));
                assert(claimant(ps, keep_last, 1, o, 1, size, min) == Some(0int));
                assert(rs[0] == ident);
                assert(cell_value(ps, rs, 1, o, 0, size, min) == s.layer1[o]);
            }
        }
    }
    let out = rep.structure@;
    assert(out.block_position_data == s.block_position_data) by {
        assert forall|k: usize, v: NbtV| holds(out.block_position_data, k, v) <==> holds(s.block_position_data, k, v) by {
            let o = k as int;
            if holds(s.block_position_data, k, v) {
                let j = choose|j: int| 0 <= j < s.block_position_data.len() && s.block_position_data[j] == (k, v);
                assert(s.block_position_data[j].0 < cells);
                assert(s.layer0[s.block_position_data[j].0 as int] != VOID);
                lemma_own_source(s, o);
                assert(src(ps[0], o, size, min) == Some(o));
                assert(claims(ps[0], 0, o, size, min));
                assert(last_claim(ps, 0, o, 1, size, min) == Some(0int));
                assert(first_claim(ps, 0, o, 0, size, min) is None);
                assert(first_claim(ps, 0, o, 1, size, min) == Some(0int));
                assert(claimant(ps, keep_last, 0, o, 1, size, min) == Some(0int));
                assert(ps[0].block_position_data[j].1 == v);
                assert(cell_of(ps[0].size, ps[0].origin, ps[0].block_position_data[j].0 as int, size, min) == Some(o));
                assert(data_lands(ps, keep_last, 0int, j, o, size, min));
                assert(0 <= 0int && (0int < 1 || (0int == 1 && j < 0)) && data_lands(ps, keep_last, 0int, j, o, size, min)
                    && ps[0int].block_position_data[j].1 == v);
                assert(data_placed(ps, keep_last, o, v, 1, 0, size, min));
                assert(o as usize == k);
                assert(holds(data_view(rep.structure.block_position_data@), o as usize, v));
            }
            if holds(out.block_position_data, k, v) {
                assert(o as usize == k);
                assert(holds(data_view(rep.structure.block_position_data@), o as usize, v));
                assert(data_placed(ps, keep_last, o, v, 1, 0, size, min));
                let (p, j) = choose|p: int, j: int|
                    0 <= p && (p < 1 || (p == 1 && j < 0)) && #[trigger] data_lands(ps, keep_last, p, j, o, size, min)
                        && ps[p].block_position_data[j].1 == v;
                assert(p == 0);
                let key = s.block_position_data[j].0 as int;
                lemma_own_source(s, key);
                assert(key == o);
                assert(s.block_position_data[j] == (k, v));
            }
        }
        lemma_sorted_same(out.block_position_data, s.block_position_data);
    }
    assert(all_entities(ps) =~= s.entities) by {
        assert(ps.drop_last() =~= Seq::<StructureV>::empty());
        assert(all_entities(Seq::<StructureV>::empty()) == Seq::<NbtV>::empty());
        assert(all_entities(ps) == all_entities(ps.drop_last()) + ps.last().entities);
        assert(Seq::<NbtV>::empty() + s.entities =~= s.entities);
    }
    assert(out =~= s);
}

} // verus!
