//! Sizes, origins, and the flattened block index.
//!
//! A `.mcstructure` stores its blocks in one flat list per layer, in **ZYX**
//! order: `index = SZ*SY*X + SZ*Y + Z`. Getting this order wrong produces a
//! structure that loads without error and is transposed, so it is isolated
//! here and proved once rather than open-coded at each use.
use vstd::arithmetic::div_mod::*;
use vstd::arithmetic::mul::*;
use vstd::prelude::*;

verus! {

/// A block coordinate, also used for world origins.
#[derive(Debug, Clone, Copy, PartialEq, Eq, Hash, Structural)]
pub struct Coord {
    pub x: i32,
    pub y: i32,
    pub z: i32,
}

/// A structure's dimensions in blocks.
#[derive(Debug, Clone, Copy, PartialEq, Eq, Structural)]
pub struct Size {
    pub x: i32,
    pub y: i32,
    pub z: i32,
}

/// A half-open box in world space: `min` inclusive, `max_exclusive` exclusive.
#[derive(Debug, Clone, Copy, PartialEq, Eq, Structural)]
pub struct BoundingBox {
    pub min: Coord,
    pub max_exclusive: Coord,
}

pub open spec fn max0(v: i32) -> int {
    if v < 0 {
        0
    } else {
        v as int
    }
}

/// `v` clamped into the range of `i32`.
pub open spec fn clamp_i32(v: int) -> i32 {
    if v > i32::MAX {
        i32::MAX
    } else if v < i32::MIN {
        i32::MIN
    } else {
        v as i32
    }
}

/// The flattened ZYX index of `c` in a structure of size `s`.
pub open spec fn raw_index(s: Size, c: Coord) -> int {
    s.z * s.y * c.x + s.z * c.y + c.z
}

pub open spec fn in_bounds(s: Size, c: Coord) -> bool {
    0 <= c.x < s.x && 0 <= c.y < s.y && 0 <= c.z < s.z
}

impl Size {
    /// The number of blocks: the product of the dimensions, each negative one
    /// counted as zero, capped at `i64::MAX`.
    pub open spec fn volume_spec(self) -> int {
        let p = max0(self.x) * max0(self.y) * max0(self.z);
        if p > i64::MAX {
            i64::MAX as int
        } else {
            p
        }
    }

    /// The flattened index of a coordinate inside the size, when it fits the
    /// machine's integers.
    pub open spec fn index_of_spec(self, c: Coord) -> Option<usize> {
        if in_bounds(self, c) && raw_index(self, c) <= i64::MAX && raw_index(self, c) <= usize::MAX {
            Some(raw_index(self, c) as usize)
        } else {
            None
        }
    }

    /// The coordinate an index inside the volume refers to.
    pub open spec fn coord_of_spec(self, i: int) -> Option<Coord> {
        if 0 <= i < self.volume_spec() {
            Some(
                Coord {
                    x: ((i / (self.z as int)) / (self.y as int)) as i32,
                    y: ((i / self.z as int) % (self.y as int)) as i32,
                    z: (i % (self.z as int)) as i32,
                },
            )
        } else {
            None
        }
    }

    /// Total block count, computed without wrapping: sizes come from a file
    /// this tool did not write. Saturates at `i64::MAX`.
    pub fn volume(&self) -> (v: i64)
        ensures
            v == self.volume_spec(),
    {
        let x: i128 = if self.x < 0 { 0 } else { self.x as i128 };
        let y: i128 = if self.y < 0 { 0 } else { self.y as i128 };
        let z: i128 = if self.z < 0 { 0 } else { self.z as i128 };
        assert(0 <= x * y <= (i32::MAX as int) * (i32::MAX as int)) by (nonlinear_arith)
            requires 0 <= x <= i32::MAX, 0 <= y <= i32::MAX;
        let xy: i128 = x * y;
        assert(0 <= xy * z <= (i32::MAX as int) * (i32::MAX as int) * (i32::MAX as int)) by (nonlinear_arith)
            requires 0 <= xy <= (i32::MAX as int) * (i32::MAX as int), 0 <= z <= i32::MAX;
        let p: i128 = xy * z;
        if p > i64::MAX as i128 {
            i64::MAX
        } else {
            p as i64
        }
    }

    /// The flattened index of a coordinate, or `None` if it lies outside.
    pub fn index_of(&self, c: Coord) -> (r: Option<usize>)
        ensures
            r == self.index_of_spec(c),
    {
        if c.x < 0 || c.y < 0 || c.z < 0 || c.x >= self.x || c.y >= self.y || c.z >= self.z {
            return None;
        }
        let sz: i128 = self.z as i128;
        let sy: i128 = self.y as i128;
        let cx: i128 = c.x as i128;
        let cy: i128 = c.y as i128;
        let cz: i128 = c.z as i128;
        assert(0 <= sz * sy <= (i32::MAX as int) * (i32::MAX as int)) by (nonlinear_arith)
            requires 0 <= sz <= i32::MAX, 0 <= sy <= i32::MAX;
        let zy: i128 = sz * sy;
        assert(0 <= zy * cx <= (i32::MAX as int) * (i32::MAX as int) * (i32::MAX as int)) by (nonlinear_arith)
            requires 0 <= zy <= (i32::MAX as int) * (i32::MAX as int), 0 <= cx <= i32::MAX;
        assert(0 <= sz * cy <= (i32::MAX as int) * (i32::MAX as int)) by (nonlinear_arith)
            requires 0 <= sz <= i32::MAX, 0 <= cy <= i32::MAX;
        let i: i128 = zy * cx + sz * cy + cz;
        assert(i == raw_index(*self, c)) by (nonlinear_arith)
            requires zy == sz * sy, sz == self.z, sy == self.y, cx == c.x, cy == c.y, cz == c.z,
                i == zy * cx + sz * cy + cz;
        if i > i64::MAX as i128 || i > usize::MAX as i128 {
            return None;
        }
        Some(i as usize)
    }

    /// The coordinate a flattened index refers to, or `None` if out of range.
    pub fn coord_of(&self, i: usize) -> (r: Option<Coord>)
        ensures
            r == self.coord_of_spec(i as int),
    {
        let vol: i64 = self.volume();
        if i as u128 >= i64::MAX as u128 || (i as i64) >= vol {
            proof {
                if i as int >= i64::MAX {
                    assert(self.volume_spec() <= i64::MAX);
                }
            }
            return None;
        }
        let ii: i64 = i as i64;
        proof {
            lemma_positive_dims(*self);
        }
        let sz: i64 = self.z as i64;
        let sy: i64 = self.y as i64;
        let q: i64 = ii / sz;
        let x: i64 = q / sy;
        let y: i64 = q % sy;
        let z: i64 = ii % sz;
        proof {
            lemma_coord_in_range(*self, ii as int);
        }
        Some(Coord { x: x as i32, y: y as i32, z: z as i32 })
    }
}

/// A non-empty volume has every dimension positive.
pub proof fn lemma_positive_dims(s: Size)
    requires
        s.volume_spec() > 0,
    ensures
        s.x > 0,
        s.y > 0,
        s.z > 0,
{
    let (a, b, c) = (max0(s.x), max0(s.y), max0(s.z));
    if a == 0 || b == 0 || c == 0 {
        assert(a * b * c == 0) by (nonlinear_arith)
            requires a == 0 || b == 0 || c == 0;
    }
}

/// The coordinate of an index inside the volume lies inside the size.
pub proof fn lemma_coord_in_range(s: Size, i: int)
    requires
        0 <= i < s.volume_spec(),
    ensures
        s.coord_of_spec(i) matches Some(c) && in_bounds(s, c),
        0 <= (i / (s.z as int)) / (s.y as int) < s.x,
{
    lemma_positive_dims(s);
    let (sx, sy, sz) = (s.x as int, s.y as int, s.z as int);
    assert(i < sx * sy * sz);
    let q = i / sz;
    lemma_div_pos_is_pos(i, sz);
    lemma_mod_bound(i, sz);
    lemma_mod_bound(q, sy);
    lemma_div_pos_is_pos(q, sy);
    // i < sz * (sx * sy)  ==>  i / sz < sx * sy  ==>  q / sy < sx
    assert(sx * sy * sz == sz * (sx * sy)) by (nonlinear_arith);
    lemma_multiply_divide_lt(i, sz, sx * sy);
    assert(sx * sy == sy * sx) by (nonlinear_arith);
    lemma_multiply_divide_lt(q, sy, sx);
}

/// Every index inside the volume names a coordinate whose index is that index.
pub proof fn lemma_index_coord_round_trip(s: Size, i: int)
    requires
        0 <= i < s.volume_spec(),
        i <= usize::MAX,
    ensures
        s.coord_of_spec(i) matches Some(c) && s.index_of_spec(c) == Some(i as usize),
{
    lemma_coord_in_range(s, i);
    lemma_positive_dims(s);
    let (sy, sz) = (s.y as int, s.z as int);
    let c = s.coord_of_spec(i).unwrap();
    let q = i / sz;
    lemma_fundamental_div_mod(i, sz);
    lemma_fundamental_div_mod(q, sy);
    assert(raw_index(s, c) == i) by (nonlinear_arith)
        requires
            i == sz * q + i % sz,
            q == sy * (q / sy) + q % sy,
            c.x == q / sy,
            c.y == q % sy,
            c.z == i % sz,
            raw_index(s, c) == sz * sy * c.x + sz * c.y + c.z;
    assert(i <= i64::MAX);
}

/// Every coordinate inside the size, whose index fits, comes back from that index.
pub proof fn lemma_coord_index_round_trip(s: Size, c: Coord)
    requires
        in_bounds(s, c),
        s.index_of_spec(c) is Some,
        raw_index(s, c) < i64::MAX,
    ensures
        s.coord_of_spec(s.index_of_spec(c).unwrap() as int) == Some(c),
{
    let (sx, sy, sz) = (s.x as int, s.y as int, s.z as int);
    let i = raw_index(s, c);
    assert(0 <= i < sx * sy * sz) by (nonlinear_arith)
        requires
            0 <= c.x < sx, 0 <= c.y < sy, 0 <= c.z < sz,
            i == sz * sy * c.x + sz * c.y + c.z;
    assert(i < s.volume_spec());
    assert(i == (sy * c.x + c.y) * sz + c.z) by (nonlinear_arith)
        requires i == sz * sy * c.x + sz * c.y + c.z;
    lemma_fundamental_div_mod_converse(i, sz, sy * c.x + c.y, c.z as int);
    assert(sy * c.x + c.y == c.x * sy + c.y) by (nonlinear_arith);
    lemma_fundamental_div_mod_converse(sy * c.x + c.y, sy, c.x as int, c.y as int);
}

/// The box spanning `origin` to `origin + size`, each bound clamped into `i32`.
pub open spec fn box_of(origin: Coord, size: Size) -> BoundingBox {
    BoundingBox {
        min: origin,
        max_exclusive: Coord {
            x: clamp_i32(origin.x + size.x),
            y: clamp_i32(origin.y + size.y),
            z: clamp_i32(origin.z + size.z),
        },
    }
}

impl BoundingBox {
    /// The extent on each axis, clamped into `i32`.
    pub open spec fn size_spec(self) -> Size {
        Size {
            x: clamp_i32(self.max_exclusive.x - self.min.x),
            y: clamp_i32(self.max_exclusive.y - self.min.y),
            z: clamp_i32(self.max_exclusive.z - self.min.z),
        }
    }
}

impl BoundingBox {
    /// The box spanning `origin` to `origin + size`, each bound clamped into `i32`.
    pub fn of(origin: Coord, size: Size) -> (b: BoundingBox)
        ensures
            b == box_of(origin, size),
    {
        BoundingBox {
            min: origin,
            max_exclusive: Coord {
                x: sat_add(origin.x, size.x),
                y: sat_add(origin.y, size.y),
                z: sat_add(origin.z, size.z),
            },
        }
    }

    /// The extent on each axis, clamped into `i32`.
    pub fn size(&self) -> (s: Size)
        ensures
            s == self.size_spec(),
    {
        Size {
            x: sat_sub(self.max_exclusive.x, self.min.x),
            y: sat_sub(self.max_exclusive.y, self.min.y),
            z: sat_sub(self.max_exclusive.z, self.min.z),
        }
    }

    /// The smallest box containing all of `boxes`, or `None` when empty.
    pub fn union(boxes: &[BoundingBox]) -> (r: Option<BoundingBox>)
        ensures
            boxes@.len() == 0 <==> r is None,
            r matches Some(u) ==> union_spec(boxes@) == u,
    {
        if boxes.len() == 0 {
            return None;
        }
        let mut acc: BoundingBox = boxes[0];
        let mut i: usize = 1;
        while i < boxes.len()
            invariant
                1 <= i <= boxes@.len(),
                acc == union_spec(boxes@.subrange(0, i as int)),
            decreases boxes@.len() - i,
        {
            let b = boxes[i];
            acc = BoundingBox {
                min: Coord {
                    x: if b.min.x < acc.min.x { b.min.x } else { acc.min.x },
                    y: if b.min.y < acc.min.y { b.min.y } else { acc.min.y },
                    z: if b.min.z < acc.min.z { b.min.z } else { acc.min.z },
                },
                max_exclusive: Coord {
                    x: if b.max_exclusive.x > acc.max_exclusive.x { b.max_exclusive.x } else { acc.max_exclusive.x },
                    y: if b.max_exclusive.y > acc.max_exclusive.y { b.max_exclusive.y } else { acc.max_exclusive.y },
                    z: if b.max_exclusive.z > acc.max_exclusive.z { b.max_exclusive.z } else { acc.max_exclusive.z },
                },
            };
            assert(boxes@.subrange(0, i + 1).drop_last() =~= boxes@.subrange(0, i as int));
            i += 1;
        }
        assert(boxes@.subrange(0, boxes@.len() as int) =~= boxes@);
        Some(acc)
    }
}

pub open spec fn min_i32(a: i32, b: i32) -> i32 {
    if a < b {
        a
    } else {
        b
    }
}

pub open spec fn max_i32(a: i32, b: i32) -> i32 {
    if a > b {
        a
    } else {
        b
    }
}

/// Folds boxes left to right, keeping the least minimum and the greatest
/// maximum on each axis.
pub open spec fn union_spec(boxes: Seq<BoundingBox>) -> BoundingBox
    decreases boxes.len(),
{
    if boxes.len() <= 1 {
        boxes[0]
    } else {
        let acc = union_spec(boxes.drop_last());
        let b = boxes.last();
        BoundingBox {
            min: Coord {
                x: min_i32(b.min.x, acc.min.x),
                y: min_i32(b.min.y, acc.min.y),
                z: min_i32(b.min.z, acc.min.z),
            },
            max_exclusive: Coord {
                x: max_i32(b.max_exclusive.x, acc.max_exclusive.x),
                y: max_i32(b.max_exclusive.y, acc.max_exclusive.y),
                z: max_i32(b.max_exclusive.z, acc.max_exclusive.z),
            },
        }
    }
}

/// The union contains every box it was made from.
pub proof fn lemma_union_contains(boxes: Seq<BoundingBox>, k: int)
    requires
        0 <= k < boxes.len(),
    ensures
        union_spec(boxes).min.x <= boxes[k].min.x,
        union_spec(boxes).min.y <= boxes[k].min.y,
        union_spec(boxes).min.z <= boxes[k].min.z,
        union_spec(boxes).max_exclusive.x >= boxes[k].max_exclusive.x,
        union_spec(boxes).max_exclusive.y >= boxes[k].max_exclusive.y,
        union_spec(boxes).max_exclusive.z >= boxes[k].max_exclusive.z,
    decreases boxes.len(),
{
    if boxes.len() > 1 && k < boxes.len() - 1 {
        lemma_union_contains(boxes.drop_last(), k);
    }
}

fn sat_add(a: i32, b: i32) -> (r: i32)
    ensures
        r == clamp_i32(a + b),
{
    let s: i64 = a as i64 + b as i64;
    if s > i32::MAX as i64 {
        i32::MAX
    } else if s < i32::MIN as i64 {
        i32::MIN
    } else {
        s as i32
    }
}

fn sat_sub(a: i32, b: i32) -> (r: i32)
    ensures
        r == clamp_i32(a - b),
{
    let s: i64 = a as i64 - b as i64;
    if s > i32::MAX as i64 {
        i32::MAX
    } else if s < i32::MIN as i64 {
        i32::MIN
    } else {
        s as i32
    }
}

} // verus!
