//! Reading little-endian NBT bytes into the library's [`Nbt`] tree.
//!
//! `nbtx` does the reading. It recurses once per nested compound or list and
//! has no limit of its own, so bytes nesting deeper than [`MAX_DEPTH`] are
//! refused here first, by a walk over the bytes that keeps its own depth
//! bounded. A crafted file is then a refusal, not a stack overflow.
use super::nbt::{same_up_to_order, Nbt, NbtV};
use vstd::prelude::*;

verus! {

/// The deepest nesting of compounds and lists accepted, counting the root
/// compound as one. Real structures and `level.dat` files nest a handful of
/// levels.
pub const MAX_DEPTH: u64 = 128;

/// How a walk over NBT bytes ended.
pub enum Walk {
    /// The value ends just before this position.
    Done(int),
    /// The bytes are not NBT at this point; the walk stops.
    Bad,
    /// The nesting went past [`MAX_DEPTH`].
    Deep,
}

/// Two bytes, little-endian.
pub open spec fn le16(b: Seq<u8>, p: int) -> int {
    b[p] as int + 256 * b[p + 1] as int
}

/// Four bytes, little-endian, as an unsigned count.
pub open spec fn le32(b: Seq<u8>, p: int) -> int {
    b[p] as int + 256 * b[p + 1] as int + 65536 * b[p + 2] as int + 16777216 * b[p + 3] as int
}

/// A run of `width` bytes starting at `p`, if the bytes hold it.
pub open spec fn fixed(b: Seq<u8>, p: int, width: int) -> Walk {
    if p + width <= b.len() {
        Walk::Done(p + width)
    } else {
        Walk::Bad
    }
}

/// An array: a four-byte count, then that many elements of `width` bytes.
pub open spec fn array(b: Seq<u8>, p: int, width: int) -> Walk {
    if p + 4 <= b.len() && p + 4 + width * le32(b, p) <= b.len() {
        Walk::Done(p + 4 + width * le32(b, p))
    } else {
        Walk::Bad
    }
}

/// The payload of a value of type `tag` starting at `p`, `depth` levels down.
pub open spec fn walk_payload(b: Seq<u8>, p: int, tag: u8, depth: int) -> Walk
    decreases b.len() - p, 2int,
{
    if p < 0 || p > b.len() {
        Walk::Bad
    } else if tag == 1 {
        fixed(b, p, 1)
    } else if tag == 2 {
        fixed(b, p, 2)
    } else if tag == 3 || tag == 5 {
        fixed(b, p, 4)
    } else if tag == 4 || tag == 6 {
        fixed(b, p, 8)
    } else if tag == 7 {
        array(b, p, 1)
    } else if tag == 11 {
        array(b, p, 4)
    } else if tag == 12 {
        array(b, p, 8)
    } else if tag == 8 {
        if p + 2 <= b.len() && p + 2 + le16(b, p) <= b.len() {
            Walk::Done(p + 2 + le16(b, p))
        } else {
            Walk::Bad
        }
    } else if tag == 9 {
        if depth + 1 > MAX_DEPTH {
            Walk::Deep
        } else if p + 5 <= b.len() {
            walk_list(b, p + 5, b[p], le32(b, p + 1), depth + 1)
        } else {
            Walk::Bad
        }
    } else if tag == 10 {
        if depth + 1 > MAX_DEPTH {
            Walk::Deep
        } else {
            walk_compound(b, p, depth + 1)
        }
    } else {
        Walk::Bad
    }
}

/// `count` list elements of type `elem` starting at `p`.
pub open spec fn walk_list(b: Seq<u8>, p: int, elem: u8, count: int, depth: int) -> Walk
    decreases b.len() - p, 3int,
{
    if count <= 0 {
        Walk::Done(p)
    } else if p < 0 || p > b.len() {
        Walk::Bad
    } else {
        match walk_payload(b, p, elem, depth) {
            Walk::Done(q) => if p < q <= b.len() {
                walk_list(b, q, elem, count - 1, depth)
            } else {
                Walk::Bad
            },
            other => other,
        }
    }
}

/// Named entries of a compound starting at `p`, up to and including its end tag.
pub open spec fn walk_compound(b: Seq<u8>, p: int, depth: int) -> Walk
    decreases b.len() - p, 1int,
{
    if p < 0 || p >= b.len() {
        Walk::Bad
    } else if b[p] == 0 {
        Walk::Done(p + 1)
    } else if p + 3 <= b.len() && p + 3 + le16(b, p + 1) <= b.len() {
        let q = p + 3 + le16(b, p + 1);
        match walk_payload(b, q, b[p], depth) {
            Walk::Done(r) => if p < r <= b.len() {
                walk_compound(b, r, depth)
            } else {
                Walk::Bad
            },
            other => other,
        }
    } else {
        Walk::Bad
    }
}

/// The walk over a whole value: a root compound with its name, then its entries.
pub open spec fn walk_root(b: Seq<u8>) -> Walk {
    if b.len() >= 3 && b[0] == 10 && 3 + le16(b, 1) <= b.len() {
        walk_compound(b, 3 + le16(b, 1), 1)
    } else {
        Walk::Bad
    }
}

/// Whether the bytes nest deeper than [`MAX_DEPTH`] before they stop being NBT.
pub open spec fn too_deep(b: Seq<u8>) -> bool {
    walk_root(b) is Deep
}

/// How a walk ended, as the walk computes it.
pub enum Stop {
    Done(u64),
    Bad,
    Deep,
}

impl View for Stop {
    type V = Walk;

    open spec fn view(&self) -> Walk {
        match self {
            Stop::Done(p) => Walk::Done(*p as int),
            Stop::Bad => Walk::Bad,
            Stop::Deep => Walk::Deep,
        }
    }
}

fn read16(b: &[u8], p: u64) -> (r: u64)
    requires
        p + 2 <= b@.len(),
    ensures
        r == le16(b@, p as int),
{
    let i = p as usize;
    b[i] as u64 + 256 * (b[i + 1] as u64)
}

fn read32(b: &[u8], p: u64) -> (r: u64)
    requires
        p + 4 <= b@.len(),
    ensures
        r == le32(b@, p as int),
{
    let i = p as usize;
    b[i] as u64 + 256 * (b[i + 1] as u64) + 65536 * (b[i + 2] as u64) + 16777216 * (b[i + 3] as u64)
}

fn fixed_end(b: &[u8], p: u64, width: u64) -> (r: Stop)
    requires
        p <= b@.len(),
        width <= 8,
    ensures
        r@ == fixed(b@, p as int, width as int),
{
    if (p as u128) + (width as u128) <= (b.len() as u128) {
        Stop::Done(p + width)
    } else {
        Stop::Bad
    }
}

fn array_end(b: &[u8], p: u64, width: u64) -> (r: Stop)
    requires
        p <= b@.len(),
        width <= 8,
    ensures
        r@ == array(b@, p as int, width as int),
{
    if (p as u128) + 4 > (b.len() as u128) {
        return Stop::Bad;
    }
    let n = read32(b, p);
    assert((width as u128) * (n as u128) <= 8 * 0xffff_ffff_ffff_ffffu128) by (nonlinear_arith)
        requires
            width <= 8,
            n <= 0xffff_ffff_ffff_ffffu64,
    ;
    let end: u128 = (p as u128) + 4 + (width as u128) * (n as u128);
    assert(end == p + 4 + width * le32(b@, p as int)) by (nonlinear_arith)
        requires
            end == (p as u128) + 4 + (width as u128) * (n as u128),
            n == le32(b@, p as int),
    ;
    if end <= (b.len() as u128) {
        Stop::Done(end as u64)
    } else {
        Stop::Bad
    }
}

/// Where the payload of a value of type `tag` at `p` ends.
fn payload_end(b: &[u8], p: u64, tag: u8, depth: u64) -> (r: Stop)
    requires
        p <= b@.len(),
        depth <= MAX_DEPTH,
    ensures
        r@ == walk_payload(b@, p as int, tag, depth as int),
    decreases b@.len() - p, 2int,
{
    if tag == 1 {
        fixed_end(b, p, 1)
    } else if tag == 2 {
        fixed_end(b, p, 2)
    } else if tag == 3 || tag == 5 {
        fixed_end(b, p, 4)
    } else if tag == 4 || tag == 6 {
        fixed_end(b, p, 8)
    } else if tag == 7 {
        array_end(b, p, 1)
    } else if tag == 11 {
        array_end(b, p, 4)
    } else if tag == 12 {
        array_end(b, p, 8)
    } else if tag == 8 {
        if (p as u128) + 2 > (b.len() as u128) {
            return Stop::Bad;
        }
        let n = read16(b, p);
        if (p as u128) + 2 + (n as u128) <= (b.len() as u128) {
            Stop::Done(p + 2 + n)
        } else {
            Stop::Bad
        }
    } else if tag == 9 {
        if depth + 1 > MAX_DEPTH {
            Stop::Deep
        } else if (p as u128) + 5 <= (b.len() as u128) {
            let elem = b[p as usize];
            let count = read32(b, p + 1);
            list_end(b, p + 5, elem, count, depth + 1)
        } else {
            Stop::Bad
        }
    } else if tag == 10 {
        if depth + 1 > MAX_DEPTH {
            Stop::Deep
        } else {
            compound_end(b, p, depth + 1)
        }
    } else {
        Stop::Bad
    }
}

/// Where `count` list elements of type `elem` starting at `p` end.
fn list_end(b: &[u8], p: u64, elem: u8, count: u64, depth: u64) -> (r: Stop)
    requires
        p <= b@.len(),
        depth <= MAX_DEPTH,
    ensures
        r@ == walk_list(b@, p as int, elem, count as int, depth as int),
    decreases b@.len() - p, 3int,
{
    if count == 0 {
        return Stop::Done(p);
    }
    match payload_end(b, p, elem, depth) {
        Stop::Done(q) => {
            if p < q && (q as u128) <= (b.len() as u128) {
                list_end(b, q, elem, count - 1, depth)
            } else {
                Stop::Bad
            }
        },
        Stop::Bad => Stop::Bad,
        Stop::Deep => Stop::Deep,
    }
}

/// Where the entries of a compound starting at `p` end, after its end tag.
fn compound_end(b: &[u8], p: u64, depth: u64) -> (r: Stop)
    requires
        p <= b@.len(),
        depth <= MAX_DEPTH,
    ensures
        r@ == walk_compound(b@, p as int, depth as int),
    decreases b@.len() - p, 1int,
{
    if (p as u128) >= (b.len() as u128) {
        return Stop::Bad;
    }
    let tag = b[p as usize];
    if tag == 0 {
        return Stop::Done(p + 1);
    }
    if (p as u128) + 3 > (b.len() as u128) {
        return Stop::Bad;
    }
    let n = read16(b, p + 1);
    if (p as u128) + 3 + (n as u128) > (b.len() as u128) {
        return Stop::Bad;
    }
    let q = p + 3 + n;
    match payload_end(b, q, tag, depth) {
        Stop::Done(r) => {
            if p < r && (r as u128) <= (b.len() as u128) {
                compound_end(b, r, depth)
            } else {
                Stop::Bad
            }
        },
        Stop::Bad => Stop::Bad,
        Stop::Deep => Stop::Deep,
    }
}

/// Whether the bytes nest compounds and lists deeper than [`MAX_DEPTH`].
pub fn nests_too_deep(b: &[u8]) -> (r: bool)
    ensures
        r == too_deep(b@),
{
    if b.len() < 3 || b[0] != 10 {
        return false;
    }
    let n = read16(b, 1);
    if 3 + (n as u128) > (b.len() as u128) {
        return false;
    }
    match compound_end(b, 3 + n, 1) {
        Stop::Deep => true,
        _ => false,
    }
}


// ---------------------------------------------------------------------------
// nbtx
// ---------------------------------------------------------------------------

/// `nbtx::Value`, one NBT value as `nbtx` reads it: carried through opaque,
/// and turned into the library's own tree by [`tree_of`].
#[verifier::external_type_specification]
#[verifier::external_body]
pub struct ExNbtxValue(nbtx::Value);

/// What `nbtx::from_le_bytes` makes of some bytes: `Ok` when it reads a
/// value from them, else the text of the error it gives.
pub uninterp spec fn le_read(bytes: Seq<u8>) -> Result<(), Seq<char>>;

/// The value `nbtx::from_le_bytes` reads from the front of some bytes, as
/// the library's tree, with every compound's entries in ascending key order.
pub uninterp spec fn le_value(bytes: Seq<u8>) -> NbtV;

/// The length of what `nbtx::to_le_bytes` writes for the value
/// `nbtx::from_le_bytes` reads from some bytes, or `None` when either fails.
/// The length does not depend on the order a compound's entries are written
/// in, so it is fixed by the bytes.
pub uninterp spec fn le_rewrite_len(bytes: Seq<u8>) -> Option<nat>;

/// `nbtx::from_le_bytes`: one little-endian NBT value from the front of the
/// bytes, with the library's tree for it made by [`tree_of`], and the length
/// `nbtx::to_le_bytes` writes that same value back at. The contract claims
/// whether reading succeeds and the text of its error, both fixed by the
/// bytes; that the tree is the value read up to the order of compound
/// entries (a compound is a `HashMap` that each process seeds, so the order
/// its entries come out in is not fixed by the bytes, while its keys are
/// distinct); and that the length is the one [`le_rewrite_len`] names. Bytes
/// nesting deeper than [`MAX_DEPTH`] are never handed over: `nbtx` recurses
/// once per level with no limit.
#[verifier::external_body]
pub(crate) fn read_value(bytes: &[u8]) -> (r: Result<(Nbt, Option<usize>), String>)
    requires
        !too_deep(bytes@),
    ensures
        r is Ok <==> le_read(bytes@) is Ok,
        r is Err ==> le_read(bytes@) == Err::<(), Seq<char>>(r->Err_0@),
        r matches Ok((t, _)) ==> same_up_to_order(t@, le_value(bytes@)),
        r matches Ok((_, n)) ==> (match n {
            Some(k) => le_rewrite_len(bytes@) == Some(k as nat),
            None => le_rewrite_len(bytes@) is None,
        }),
{
    let mut cursor = bytes;
    let value = nbtx::from_le_bytes(&mut cursor).map_err(|e: nbtx::Error| e.to_string())?;
    let rewritten = nbtx::to_le_bytes(&value).ok().map(|out| out.len());
    Ok((tree_of(&value), rewritten))
}

/// The library's tree for a value `nbtx` read: a list or a compound moves
/// across element by element, a compound's entries in the order its map
/// yields them; every other tag goes to [`leaf_of`]. Nothing is claimed: the
/// input is opaque.
#[verifier::external_body]
pub(crate) fn tree_of(v: &nbtx::Value) -> Nbt {
    match v {
        nbtx::Value::List(x) => Nbt::List(x.iter().map(tree_of).collect()),
        nbtx::Value::Compound(m) => Nbt::Compound(m.iter().map(|(k, x)| (k.clone(), tree_of(x))).collect()),
        _ => leaf_of(v),
    }
}

/// The library's value for one of `nbtx`'s ten tags that hold no other
/// value: one arm per tag, moving its payload across, a float by its bit
/// pattern. A list or a compound goes back to [`tree_of`]. Nothing is
/// claimed: the input is opaque.
#[verifier::external_body]
pub(crate) fn leaf_of(v: &nbtx::Value) -> Nbt {
    match v {
        nbtx::Value::Byte(x) => Nbt::Byte(*x),
        nbtx::Value::Short(x) => Nbt::Short(*x),
        nbtx::Value::Int(x) => Nbt::Int(*x),
        nbtx::Value::Long(x) => Nbt::Long(*x),
        nbtx::Value::Float(x) => Nbt::Float(x.to_bits()),
        nbtx::Value::Double(x) => Nbt::Double(x.to_bits()),
        nbtx::Value::ByteArray(x) => Nbt::ByteArray(x.clone()),
        nbtx::Value::String(x) => Nbt::String(x.clone()),
        nbtx::Value::IntArray(x) => Nbt::IntArray(x.clone()),
        nbtx::Value::LongArray(x) => Nbt::LongArray(x.clone()),
        _ => tree_of(v),
    }
}

/// Why bytes could not be read as NBT, if they could not: nested too deep,
/// or refused by `nbtx` with its message.
pub open spec fn read_problem(bytes: Seq<u8>) -> Option<Seq<char>> {
    if too_deep(bytes) {
        Some("nested more than 128 levels deep"@)
    } else if le_read(bytes) is Err {
        Some(le_read(bytes)->Err_0)
    } else {
        None
    }
}

/// Reads one little-endian NBT value from the front of the bytes: the tree,
/// and the length `nbtx` writes it back at, when it can.
pub fn read(bytes: &[u8]) -> (r: Result<(Nbt, Option<usize>), String>)
    ensures
        r is Ok <==> read_problem(bytes@) is None,
        r matches Err(m) ==> read_problem(bytes@) == Some(m@),
        r matches Ok((t, _)) ==> same_up_to_order(t@, le_value(bytes@)),
        r matches Ok((_, n)) ==> (match n {
            Some(k) => le_rewrite_len(bytes@) == Some(k as nat),
            None => le_rewrite_len(bytes@) is None,
        }),
{
    if nests_too_deep(bytes) {
        return Err(String::from_str("nested more than 128 levels deep"));
    }
    read_value(bytes)
}

} // verus!
