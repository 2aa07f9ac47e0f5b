//! `level.dat`: little-endian NBT behind an 8-byte header.
//!
//! The root is kept as a generic [`Nbt`] tree rather than a typed struct so
//! that keys this library does not understand survive a read. The Beta APIs
//! switch rewrites the `experiments` compound in place: a wholesale
//! replacement would silently disable whatever else the world had enabled.
use crate::error::CoreError;
use crate::mcstructure::codec::{le32, le_rewrite_len, le_value, read, read_problem};
use crate::mcstructure::decode::entries_view;
use crate::mcstructure::nbt::{duplicate, field_of, lookup, same_up_to_order, Nbt, NbtV};
use crate::text::{seq_lt, str_lt};
use vstd::prelude::*;

verus! {

broadcast use vstd::std_specs::vec::group_vec_axioms;

/// The `Byte` entry holding the Beta APIs state.
pub const GAMETEST: &'static str = "gametest";

/// Set with Beta APIs on; records that the world once used experiments.
pub const EVER_USED: &'static str = "experiments_ever_used";

/// Set with Beta APIs on; records that the world was saved with experiments toggled.
pub const TOGGLED: &'static str = "saved_with_toggled_experiments";

/// A parsed `level.dat`.
#[derive(Debug)]
pub struct LevelDat {
    pub version: i32,
    pub root: Nbt,
    /// The payload length this file was read with.
    payload_len: usize,
    /// Whether writing the untouched tree back reproduces a payload of the
    /// same length. The writer turns array tags into lists (one byte longer
    /// each) and writes empty lists short and unreadable; both change the
    /// length, so a mismatch is a reliable refusal rather than a guess.
    faithful: bool,
}

pub struct LevelDatV {
    pub version: i32,
    pub root: NbtV,
    pub payload_len: usize,
    pub faithful: bool,
}

impl View for LevelDat {
    type V = LevelDatV;

    closed spec fn view(&self) -> LevelDatV {
        LevelDatV {
            version: self.version,
            root: self.root.deep(),
            payload_len: self.payload_len,
            faithful: self.faithful,
        }
    }
}

/// Four bytes, little-endian, as a signed number.
pub open spec fn le_i32(b: Seq<u8>, p: int) -> int {
    if le32(b, p) < 0x8000_0000 {
        le32(b, p)
    } else {
        le32(b, p) - 0x1_0000_0000
    }
}

fn read_i32(b: &[u8], p: usize) -> (r: i32)
    requires
        p + 4 <= b@.len(),
    ensures
        r == le_i32(b@, p as int),
{
    let u: u64 = b[p] as u64 + 256 * (b[p + 1] as u64) + 65536 * (b[p + 2] as u64) + 16777216 * (
    b[p + 3] as u64);
    if u < 0x8000_0000 {
        u as i32
    } else {
        ((u - 0x8000_0000) as i32) + i32::MIN
    }
}

/// Why bytes are not a `level.dat`, if they are not.
pub open spec fn header_problem(b: Seq<u8>) -> Option<Seq<char>> {
    if b.len() < 8 {
        Some("shorter than the 8-byte header"@)
    } else if le_i32(b, 4) < 0 {
        Some("negative payload length"@)
    } else if 8 + le_i32(b, 4) > b.len() {
        Some("declared payload length runs past the end of the file"@)
    } else {
        None
    }
}

/// The payload a well-framed file declares.
pub open spec fn payload_of(b: Seq<u8>) -> Seq<u8> {
    b.subrange(8, 8 + le_i32(b, 4))
}

/// Why a file could not be parsed, if it could not.
pub open spec fn parse_problem(b: Seq<u8>) -> Option<Seq<char>> {
    if header_problem(b) is Some {
        header_problem(b)
    } else if read_problem(payload_of(b)) is Some {
        Some("invalid NBT: "@ + read_problem(payload_of(b))->0)
    } else {
        None
    }
}

/// The refusal of an unreadable `level.dat`.
pub open spec fn is_bad_level_dat(e: CoreError, path: Seq<char>, reason: Seq<char>) -> bool {
    e matches CoreError::BadLevelDat { path: p, reason: r } && p@ == path && r@ == reason
}

/// Parses `level.dat` bytes, naming `path` in any refusal.
pub fn parse(bytes: &[u8], path: &str) -> (r: Result<LevelDat, CoreError>)
    ensures
        r is Ok <==> parse_problem(bytes@) is None,
        r is Err ==> is_bad_level_dat(r->Err_0, path@, parse_problem(bytes@)->0),
        r matches Ok(d) ==> (d@.version == le_i32(bytes@, 0) && d@.payload_len == le_i32(bytes@, 4)),
        r matches Ok(d) ==> same_up_to_order(d@.root, le_value(payload_of(bytes@))),
        r matches Ok(d) ==> (d@.faithful <==> le_rewrite_len(payload_of(bytes@)) == Some(le_i32(bytes@, 4) as nat)),
{
    let bad = |reason: String| -> (e: CoreError)
        ensures
            is_bad_level_dat(e, path@, reason@),
        { CoreError::BadLevelDat { path: String::from_str(path), reason } };
    if bytes.len() < 8 {
        return Err(bad(String::from_str("shorter than the 8-byte header")));
    }
    let version = read_i32(bytes, 0);
    let declared = read_i32(bytes, 4);
    if declared < 0 {
        return Err(bad(String::from_str("negative payload length")));
    }
    let declared = declared as usize;
    if declared > bytes.len() - 8 {
        return Err(bad(String::from_str("declared payload length runs past the end of the file")));
    }
    let payload = crate::text::sub_bytes(bytes, 8, 8 + declared);
    assert(payload@ == payload_of(bytes@));
    match read(payload.as_slice()) {
        Err(problem) => {
            let mut reason = String::from_str("invalid NBT: ");
            reason.append(problem.as_str());
            Err(bad(reason))
        },
        Ok((root, rewritten)) => {
            let faithful = match rewritten {
                Some(n) => n == declared,
                None => false,
            };
            Ok(LevelDat { version, root, payload_len: declared, faithful })
        },
    }
}


// ---------------------------------------------------------------------------
// Reading fields
// ---------------------------------------------------------------------------

/// `LastPlayed`, when present and a Long.
pub open spec fn last_played_of(root: NbtV) -> Option<i64> {
    match field_of(root, "LastPlayed"@) {
        Some(NbtV::Long(v)) => Some(v),
        _ => None,
    }
}

/// The entries of the `experiments` compound, when the world has one.
pub open spec fn experiments_of(root: NbtV) -> Option<Seq<(Seq<char>, NbtV)>> {
    match field_of(root, "experiments"@) {
        Some(NbtV::Compound(m)) => Some(m),
        _ => None,
    }
}

/// Whether Beta APIs are on: `gametest` is a nonzero Byte. `None` when the
/// world has no `experiments` compound.
pub open spec fn beta_of(root: NbtV) -> Option<bool> {
    match experiments_of(root) {
        Some(m) => Some(
            match lookup(m, GAMETEST@) {
                Some(NbtV::Byte(b)) => b != 0,
                _ => false,
            },
        ),
        None => None,
    }
}

/// Entry `j` is the first with its key, so it is the one a lookup finds.
pub open spec fn key_first(m: Seq<(Seq<char>, NbtV)>, j: int) -> bool {
    0 <= j < m.len() && forall|l: int| 0 <= l < j ==> #[trigger] m[l].0 != m[j].0
}

/// Some entry before `n` is the first keyed `k`.
pub open spec fn seen_key(m: Seq<(Seq<char>, NbtV)>, n: int, k: Seq<char>) -> bool {
    exists|j: int| 0 <= j < n && key_first(m, j) && #[trigger] m[j].0 == k
}

/// The flags as `(key, value)` pairs.
pub open spec fn flags_view(v: Seq<(String, i8)>) -> Seq<(Seq<char>, i8)> {
    Seq::new(v.len(), |i: int| (v[i].0@, v[i].1))
}

/// Keys strictly increase.
pub open spec fn flags_sorted(v: Seq<(Seq<char>, i8)>) -> bool {
    forall|i: int, j: int| 0 <= i < j < v.len() ==> seq_lt(#[trigger] v[i].0, #[trigger] v[j].0)
}

proof fn lemma_lookup_first(m: Seq<(Seq<char>, NbtV)>, k: Seq<char>, v: NbtV)
    ensures
        lookup(m, k) == Some(v) <==> exists|j: int| key_first(m, j) && #[trigger] m[j] == (k, v),
    decreases m.len(),
{
    if m.len() > 0 {
        lemma_lookup_first(m.drop_first(), k, v);
        let t = m.drop_first();
        if lookup(m, k) == Some(v) {
            if m[0].0 == k {
                assert(key_first(m, 0));
                assert(m[0] == (k, v));
            } else {
                let j = choose|j: int| key_first(t, j) && #[trigger] t[j] == (k, v);
                assert(m[j + 1] == t[j]);
                assert forall|l: int| 0 <= l < j + 1 implies #[trigger] m[l].0 != m[j + 1].0 by {
                    if l > 0 {
                        assert(m[l] == t[l - 1]);
                    }
                }
                assert(key_first(m, j + 1));
            }
        }
        if exists|j: int| key_first(m, j) && #[trigger] m[j] == (k, v) {
            let j = choose|j: int| key_first(m, j) && #[trigger] m[j] == (k, v);
            if j == 0 {
            } else {
                assert(m[0].0 != m[j].0);
                assert(t[j - 1] == m[j]);
                assert forall|l: int| 0 <= l < j - 1 implies #[trigger] t[l].0 != t[j - 1].0 by {
                    assert(t[l] == m[l + 1]);
                }
                assert(key_first(t, j - 1));
            }
        }
    }
}

/// The index of the first entry keyed `key`, or the length.
fn first_key_index(m: &Vec<(String, Nbt)>, key: &String) -> (r: usize)
    ensures
        r <= m@.len(),
        forall|l: int| 0 <= l < r ==> #[trigger] m@[l].0@ != key@,
        r < m@.len() ==> m@[r as int].0@ == key@,
{
    let mut i: usize = 0;
    while i < m.len()
        invariant
            i <= m@.len(),
            forall|l: int| 0 <= l < i ==> #[trigger] m@[l].0@ != key@,
        decreases m@.len() - i,
    {
        if m[i].0 == *key {
            return i;
        }
        i += 1;
    }
    i
}

/// Puts `(k, b)` among flags kept in key order; `k` is not there yet.
fn insert_flag(out: &mut Vec<(String, i8)>, k: String, b: i8)
    requires
        flags_sorted(flags_view(old(out)@)),
        forall|i: int| 0 <= i < old(out)@.len() ==> #[trigger] old(out)@[i].0@ != k@,
    ensures
        flags_sorted(flags_view(final(out)@)),
        forall|x: (Seq<char>, i8)|
            flags_view(final(out)@).contains(x) <==> (flags_view(old(out)@).contains(x) || x == (
                k@,
                b,
            )),
{
    let ghost s = flags_view(out@);
    let mut j: usize = 0;
    while j < out.len() && !str_lt(k.as_str(), out[j].0.as_str())
        invariant
            j <= out@.len(),
            s == flags_view(out@),
            flags_sorted(s),
            forall|i: int| 0 <= i < out@.len() ==> #[trigger] out@[i].0@ != k@,
            forall|i: int| 0 <= i < j ==> seq_lt(#[trigger] s[i].0, k@),
        decreases out@.len() - j,
    {
        proof {
            crate::text::lemma_seq_lt_total(k@, s[j as int].0);
            assert(s[j as int].0 == out@[j as int].0@);
        }
        j += 1;
    }
    proof {
        if j < out@.len() {
            assert(s[j as int].0 == out@[j as int].0@);
            assert forall|i: int| j <= i < s.len() implies seq_lt(k@, #[trigger] s[i].0) by {
                if i > j {
                    crate::text::lemma_seq_lt_transitive(k@, s[j as int].0, s[i].0);
                }
            }
        }
    }
    out.insert(j, (k, b));
    let ghost t = flags_view(out@);
    assert(t =~= s.insert(j as int, (k@, b)));
    assert forall|p: int, q: int| 0 <= p < q < t.len() implies seq_lt(#[trigger] t[p].0, #[trigger] t[q].0) by {
        if q < j {
            assert(t[p] == s[p] && t[q] == s[q]);
        } else if q == j {
            assert(t[p] == s[p]);
        } else if p == j {
            assert(t[q] == s[q - 1]);
        } else if p < j {
            assert(t[p] == s[p] && t[q] == s[q - 1]);
            crate::text::lemma_seq_lt_transitive(s[p].0, k@, s[q - 1].0);
        } else {
            assert(t[p] == s[p - 1] && t[q] == s[q - 1]);
        }
    }
    assert forall|x: (Seq<char>, i8)| t.contains(x) <==> (s.contains(x) || x == (k@, b)) by {
        if t.contains(x) {
            let i = choose|i: int| 0 <= i < t.len() && t[i] == x;
            if i < j {
                assert(s[i] == x);
            } else if i > j {
                assert(s[i - 1] == x);
            }
        }
        if s.contains(x) {
            let i = choose|i: int| 0 <= i < s.len() && s[i] == x;
            if i < j {
                assert(t[i] == x);
            } else {
                assert(t[i + 1] == x);
            }
        }
        if x == (k@, b) {
            assert(t[j as int] == x);
        }
    }
}

impl LevelDat {
    /// Unix seconds of the last session, if the field is present and a Long.
    pub fn last_played(&self) -> (r: Option<i64>)
        ensures
            r == last_played_of(self@.root),
    {
        match crate::mcstructure::nbt::get_field(&self.root, "LastPlayed") {
            Some(Nbt::Long(v)) => Some(*v),
            _ => None,
        }
    }

    /// The payload length this file was read with.
    pub fn payload_len(&self) -> (r: usize)
        ensures
            r == self@.payload_len,
    {
        self.payload_len
    }

    /// False when this file's NBT cannot be written back without changing:
    /// an array tag or an empty list. [`Self::to_bytes`] refuses such a file.
    pub fn is_faithful(&self) -> (r: bool)
        ensures
            r == self@.faithful,
    {
        self.faithful
    }

    /// The `experiments` compound's Byte flags in key order, or `None` when
    /// the world has no such compound.
    ///
    /// A read-only projection: entries of other types are left out, and
    /// `root` keeps every original entry. Writing goes through
    /// [`Self::set_beta_apis`], never through a compound rebuilt from this.
    pub fn experiments(&self) -> (r: Option<Vec<(String, i8)>>)
        ensures
            r is None <==> experiments_of(self@.root) is None,
            r matches Some(v) ==> (flags_sorted(flags_view(v@)) && forall|x: (Seq<char>, i8)|
                flags_view(v@).contains(x) <==> lookup(experiments_of(self@.root)->0, x.0) == Some(
                    NbtV::Byte(x.1),
                )),
    {
        let m = match crate::mcstructure::nbt::get_field(&self.root, "experiments") {
            Some(Nbt::Compound(m)) => m,
            _ => return None,
        };
        let ghost mv = entries_view(m@);
        assert(experiments_of(self@.root) == Some(mv)) by {
            assert(Nbt::Compound(*m).deep()->Compound_0 =~= mv);
        }
        let mut out: Vec<(String, i8)> = Vec::new();
        let mut i: usize = 0;
        while i < m.len()
            invariant
                i <= m@.len(),
                mv == entries_view(m@),
                flags_sorted(flags_view(out@)),
                forall|x: (Seq<char>, i8)|
                    flags_view(out@).contains(x) <==> exists|j: int|
                        0 <= j < i && key_first(mv, j) && #[trigger] mv[j] == (x.0, NbtV::Byte(x.1)),
                forall|l: int| 0 <= l < out@.len() ==> seen_key(mv, i as int, #[trigger] out@[l].0@),
            decreases m@.len() - i,
        {
            assert(mv[i as int] == (m@[i as int].0@, m@[i as int].1.deep()));
            let ghost before = flags_view(out@);
            if let Nbt::Byte(b) = &m[i].1 {
                let p = first_key_index(m, &m[i].0);
                if p == i {
                    assert(key_first(mv, i as int));
                    assert forall|l: int| 0 <= l < out@.len() implies #[trigger] out@[l].0@ != m@[i as int].0@ by {
                        assert(seen_key(mv, i as int, out@[l].0@));
                        let j = choose|j: int| 0 <= j < i && key_first(mv, j) && #[trigger] mv[j].0 == out@[l].0@;
                        assert(mv[j].0 != mv[i as int].0);
                    }
                    let k = m[i].0.clone();
                    insert_flag(&mut out, k, *b);
                    proof {
                        assert forall|x: (Seq<char>, i8)|
                            flags_view(out@).contains(x) <==> exists|j: int|
                                0 <= j < i + 1 && key_first(mv, j) && #[trigger] mv[j] == (x.0, NbtV::Byte(x.1)) by {
                            if x == (mv[i as int].0, *b) {
                                assert(mv[i as int] == (x.0, NbtV::Byte(x.1)));
                            }
                            if exists|j: int| 0 <= j < i + 1 && key_first(mv, j) && #[trigger] mv[j] == (x.0, NbtV::Byte(x.1)) {
                                let j = choose|j: int| 0 <= j < i + 1 && key_first(mv, j) && #[trigger] mv[j] == (x.0, NbtV::Byte(x.1));
                                if j == i {
                                    assert(x == (mv[i as int].0, *b));
                                }
                            }
                        }
                        assert forall|l: int| 0 <= l < out@.len() implies seen_key(mv, i + 1, #[trigger] out@[l].0@) by {
                            let y = flags_view(out@)[l];
                            assert(flags_view(out@).contains(y));
                            if before.contains(y) {
                                let j = choose|j: int| 0 <= j < i && key_first(mv, j) && #[trigger] mv[j] == (y.0, NbtV::Byte(y.1));
                                assert(mv[j].0 == out@[l].0@);
                            } else {
                                assert(mv[i as int].0 == out@[l].0@);
                            }
                        }
                    }
                } else {
                    assert forall|x: (Seq<char>, i8)|
                        flags_view(out@).contains(x) <==> exists|j: int|
                            0 <= j < i + 1 && key_first(mv, j) && #[trigger] mv[j] == (x.0, NbtV::Byte(x.1)) by {
                        if exists|j: int| 0 <= j < i + 1 && key_first(mv, j) && #[trigger] mv[j] == (x.0, NbtV::Byte(x.1)) {
                            let j = choose|j: int| 0 <= j < i + 1 && key_first(mv, j) && #[trigger] mv[j] == (x.0, NbtV::Byte(x.1));
                            if j == i {
                                assert(mv[p as int].0 == mv[i as int].0);
                            }
                        }
                    }
                    assert forall|l: int| 0 <= l < out@.len() implies seen_key(mv, i + 1, #[trigger] out@[l].0@) by {
                        assert(seen_key(mv, i as int, out@[l].0@));
                    }
                }
            } else {
                assert forall|x: (Seq<char>, i8)|
                    flags_view(out@).contains(x) <==> exists|j: int|
                        0 <= j < i + 1 && key_first(mv, j) && #[trigger] mv[j] == (x.0, NbtV::Byte(x.1)) by {
                    if exists|j: int| 0 <= j < i + 1 && key_first(mv, j) && #[trigger] mv[j] == (x.0, NbtV::Byte(x.1)) {
                        let j = choose|j: int| 0 <= j < i + 1 && key_first(mv, j) && #[trigger] mv[j] == (x.0, NbtV::Byte(x.1));
                        assert(j != i);
                    }
                }
                assert forall|l: int| 0 <= l < out@.len() implies seen_key(mv, i + 1, #[trigger] out@[l].0@) by {
                    assert(seen_key(mv, i as int, out@[l].0@));
                }
            }
            i += 1;
        }
        proof {
            assert forall|x: (Seq<char>, i8)|
                flags_view(out@).contains(x) <==> lookup(mv, x.0) == Some(NbtV::Byte(x.1)) by {
                lemma_lookup_first(mv, x.0, NbtV::Byte(x.1));
            }
        }
        Some(out)
    }
}


// ---------------------------------------------------------------------------
// The Beta APIs switch
// ---------------------------------------------------------------------------

/// The index of the first entry keyed `k`, or the length.
pub open spec fn key_pos(m: Seq<(Seq<char>, NbtV)>, k: Seq<char>) -> int
    decreases m.len(),
{
    if m.len() == 0 {
        0
    } else if m[0].0 == k {
        0
    } else {
        1 + key_pos(m.drop_first(), k)
    }
}

/// `m` with `k` holding `v`: the entry a lookup finds is replaced in place,
/// or a new entry is added at the end.
pub open spec fn put_spec(m: Seq<(Seq<char>, NbtV)>, k: Seq<char>, v: NbtV) -> Seq<(Seq<char>, NbtV)> {
    if key_pos(m, k) < m.len() {
        m.update(key_pos(m, k), (k, v))
    } else {
        m.push((k, v))
    }
}

/// The experiments entries with Beta APIs set to `on`. Turning it on also
/// sets the two companion flags; turning it off leaves them as they were:
/// they record that the world once used experiments.
pub open spec fn with_beta(x: Seq<(Seq<char>, NbtV)>, on: bool) -> Seq<(Seq<char>, NbtV)> {
    let a = put_spec(x, GAMETEST@, NbtV::Byte(if on { 1 } else { 0 }));
    if on {
        put_spec(put_spec(a, EVER_USED@, NbtV::Byte(1)), TOGGLED@, NbtV::Byte(1))
    } else {
        a
    }
}

/// The root with Beta APIs set to `on`, creating the `experiments` compound
/// when the world has none. A root that is not a compound, or whose
/// `experiments` is not one, is left alone.
pub open spec fn set_beta_spec(root: NbtV, on: bool) -> NbtV {
    match root {
        NbtV::Compound(m) => {
            let p = key_pos(m, "experiments"@);
            if p >= m.len() {
                NbtV::Compound(m.push(("experiments"@, NbtV::Compound(with_beta(Seq::empty(), on)))))
            } else {
                match m[p].1 {
                    NbtV::Compound(x) => NbtV::Compound(
                        m.update(p, ("experiments"@, NbtV::Compound(with_beta(x, on)))),
                    ),
                    _ => root,
                }
            }
        },
        _ => root,
    }
}

proof fn lemma_key_pos(m: Seq<(Seq<char>, NbtV)>, k: Seq<char>, i: int)
    requires
        0 <= i <= m.len(),
        forall|l: int| 0 <= l < i ==> #[trigger] m[l].0 != k,
        i < m.len() ==> m[i].0 == k,
    ensures
        key_pos(m, k) == i,
    decreases i,
{
    if i > 0 {
        assert forall|l: int| 0 <= l < i - 1 implies #[trigger] m.drop_first()[l].0 != k by {
            assert(m.drop_first()[l] == m[l + 1]);
        }
        if i < m.len() {
            assert(m.drop_first()[i - 1] == m[i]);
        }
        assert(m[0].0 != k);
        lemma_key_pos(m.drop_first(), k, i - 1);
    }
}

/// A lookup finds the entry at [`key_pos`].
proof fn lemma_lookup_pos(m: Seq<(Seq<char>, NbtV)>, k: Seq<char>)
    ensures
        0 <= key_pos(m, k) <= m.len(),
        lookup(m, k) == if key_pos(m, k) < m.len() {
            Some(m[key_pos(m, k)].1)
        } else {
            None::<NbtV>
        },
        key_pos(m, k) < m.len() ==> m[key_pos(m, k)].0 == k,
        forall|l: int| 0 <= l < key_pos(m, k) ==> #[trigger] m[l].0 != k,
    decreases m.len(),
{
    if m.len() > 0 && m[0].0 != k {
        let t = m.drop_first();
        lemma_lookup_pos(t, k);
        assert forall|l: int| 0 <= l < key_pos(m, k) implies #[trigger] m[l].0 != k by {
            if l > 0 {
                assert(m[l] == t[l - 1]);
            }
        }
    }
}

/// After a put, a lookup of that key finds the new value and every other
/// key finds what it found before.
pub proof fn lemma_put_lookup(m: Seq<(Seq<char>, NbtV)>, k: Seq<char>, v: NbtV, j: Seq<char>)
    ensures
        lookup(put_spec(m, k, v), k) == Some(v),
        j != k ==> lookup(put_spec(m, k, v), j) == lookup(m, j),
{
    let n = put_spec(m, k, v);
    lemma_lookup_pos(m, k);
    lemma_lookup_pos(m, j);
    let p = key_pos(m, k);
    if p < m.len() {
        lemma_key_pos(n, k, p);
        if j != k {
            let q = key_pos(m, j);
            assert forall|l: int| 0 <= l < q implies #[trigger] n[l].0 != j by {
                if l != p {
                    assert(n[l] == m[l]);
                }
            }
            if q < m.len() {
                assert(n[q].0 == j) by {
                    if q != p {
                        assert(n[q] == m[q]);
                    }
                }
            }
            lemma_key_pos(n, j, q);
            lemma_lookup_pos(n, j);
            if q < m.len() {
                assert(q != p);
                assert(n[q] == m[q]);
            }
        }
    } else {
        assert forall|l: int| 0 <= l < m.len() implies #[trigger] n[l].0 != k by {
            assert(n[l] == m[l]);
        }
        lemma_key_pos(n, k, m.len() as int);
        if j != k {
            let q = key_pos(m, j);
            assert forall|l: int| 0 <= l < q implies #[trigger] n[l].0 != j by {
                assert(n[l] == m[l]);
            }
            if q < m.len() {
                assert(n[q] == m[q]);
                lemma_key_pos(n, j, q);
            } else {
                assert(n[m.len() as int].0 == k);
                lemma_key_pos(n, j, n.len() as int);
            }
            lemma_lookup_pos(n, j);
        }
    }
    lemma_lookup_pos(n, k);
}

/// A put of what a key already holds changes nothing.
pub proof fn lemma_put_same(m: Seq<(Seq<char>, NbtV)>, k: Seq<char>, v: NbtV)
    requires
        lookup(m, k) == Some(v),
    ensures
        put_spec(m, k, v) == m,
{
    lemma_lookup_pos(m, k);
    let p = key_pos(m, k);
    assert(m[p] == (k, v));
    assert(m.update(p, (k, v)) =~= m);
}

/// Stores `val` under `key`, in place where a lookup would find it, else at the end.
fn put_entry(m: &mut Vec<(String, Nbt)>, key: &str, val: Nbt)
    ensures
        entries_view(final(m)@) == put_spec(entries_view(old(m)@), key@, val.deep()),
{
    let ghost before = entries_view(m@);
    let k = String::from_str(key);
    let p = first_key_index(m, &k);
    proof {
        assert forall|l: int| 0 <= l < p implies #[trigger] before[l].0 != key@ by {
            assert(before[l].0 == m@[l].0@);
        }
        lemma_key_pos(before, key@, p as int);
    }
    if p < m.len() {
        m.set(p, (k, val));
        assert(entries_view(m@) =~= before.update(p as int, (key@, val.deep())));
    } else {
        m.push((k, val));
        assert(entries_view(m@) =~= before.push((key@, val.deep())));
    }
}

/// Sets the Beta APIs flags among experiment entries.
fn put_flags(x: &mut Vec<(String, Nbt)>, on: bool)
    ensures
        entries_view(final(x)@) == with_beta(entries_view(old(x)@), on),
{
    let b: i8 = if on {
        1
    } else {
        0
    };
    put_entry(x, GAMETEST, Nbt::Byte(b));
    if on {
        put_entry(x, EVER_USED, Nbt::Byte(1));
        put_entry(x, TOGGLED, Nbt::Byte(1));
    }
}

impl LevelDat {
    /// Whether Beta APIs are on, or `None` when the world has no `experiments`.
    pub fn beta_apis(&self) -> (r: Option<bool>)
        ensures
            r == beta_of(self@.root),
    {
        match crate::mcstructure::nbt::get_field(&self.root, "experiments") {
            Some(Nbt::Compound(m)) => {
                let ghost mv = entries_view(m@);
                assert(Nbt::Compound(*m).deep()->Compound_0 =~= mv);
                let k = String::from_str(GAMETEST);
                let p = first_key_index(m, &k);
                proof {
                    assert forall|l: int| 0 <= l < p implies #[trigger] mv[l].0 != GAMETEST@ by {
                        assert(mv[l].0 == m@[l].0@);
                    }
                    lemma_key_pos(mv, GAMETEST@, p as int);
                    lemma_lookup_pos(mv, GAMETEST@);
                }
                if p < m.len() {
                    assert(mv[p as int].1 == m@[p as int].1.deep());
                    match &m[p].1 {
                        Nbt::Byte(b) => Some(*b != 0),
                        _ => Some(false),
                    }
                } else {
                    Some(false)
                }
            },
            _ => None,
        }
    }

    /// Sets the Beta APIs state, creating the `experiments` compound if the
    /// world has none.
    ///
    /// Read-modify-write, never a replacement: worlds carry other experiment
    /// keys and rewriting the compound wholesale would silently disable them.
    pub fn set_beta_apis(&mut self, on: bool)
        ensures
            final(self)@.root == set_beta_spec(old(self)@.root, on),
            final(self)@.version == old(self)@.version,
            final(self)@.payload_len == old(self)@.payload_len,
            final(self)@.faithful == old(self)@.faithful,
    {
        let mut root = Nbt::Byte(0);
        std::mem::swap(&mut root, &mut self.root);
        let ghost rv = root.deep();
        match root {
            Nbt::Compound(mut m) => {
                let ghost mv = entries_view(m@);
                assert(rv == NbtV::Compound(mv)) by {
                    assert(rv->Compound_0 =~= mv);
                }
                let k = String::from_str("experiments");
                let p = first_key_index(&m, &k);
                proof {
                    assert forall|l: int| 0 <= l < p implies #[trigger] mv[l].0 != "experiments"@ by {
                        assert(mv[l].0 == m@[l].0@);
                    }
                    lemma_key_pos(mv, "experiments"@, p as int);
                }
                if p >= m.len() {
                    let mut x: Vec<(String, Nbt)> = Vec::new();
                    assert(entries_view(x@) =~= Seq::<(Seq<char>, NbtV)>::empty());
                    put_flags(&mut x, on);
                    let e = Nbt::Compound(x);
                    assert(e.deep() == NbtV::Compound(entries_view(x@))) by {
                        assert(e.deep()->Compound_0 =~= entries_view(x@));
                    }
                    m.push((k, e));
                    assert(entries_view(m@) =~= mv.push(("experiments"@, e.deep())));
                } else {
                    assert(mv[p as int].1 == m@[p as int].1.deep());
                    let cur = duplicate(&m[p].1);
                    match cur {
                        Nbt::Compound(mut x) => {
                            assert(cur.deep() == NbtV::Compound(entries_view(x@))) by {
                                assert(cur.deep()->Compound_0 =~= entries_view(x@));
                            }
                            put_flags(&mut x, on);
                            let e = Nbt::Compound(x);
                            assert(e.deep() == NbtV::Compound(entries_view(x@))) by {
                                assert(e.deep()->Compound_0 =~= entries_view(x@));
                            }
                            m.set(p, (k, e));
                            assert(entries_view(m@) =~= mv.update(p as int, ("experiments"@, e.deep())));
                        },
                        _ => {},
                    }
                }
                let out = Nbt::Compound(m);
                assert(out.deep()->Compound_0 =~= entries_view(m@));
                self.root = out;
            },
            other => {
                self.root = other;
            },
        }
    }

    /// The complete file: the 8-byte header, then `payload`, the root as the
    /// NBT writer wrote it.
    ///
    /// Refuses when [`Self::is_faithful`] is false: a length-preserving
    /// round trip is what stands between this library and a corrupted save.
    pub fn to_bytes(&self, payload: &[u8]) -> (r: Result<Vec<u8>, CoreError>)
        requires
            payload@.len() <= i32::MAX,
        ensures
            r is Ok <==> self@.faithful,
            r matches Ok(out) ==> out@ == frame_spec(self@.version, payload@),
            r matches Err(e) ==> (e matches CoreError::UnwritableLevelDat { path, reason, written }
                && path@.len() == 0 && reason@ == not_faithful_reason() && !written),
    {
        if !self.faithful {
            return Err(
                CoreError::UnwritableLevelDat {
                    path: String::new(),
                    reason: String::from_str(
                        "this level.dat uses NBT this tool cannot rewrite without changing it (an array tag or an empty list); the world was not modified",
                    ),
                    written: false,
                },
            );
        }
        let mut out: Vec<u8> = Vec::new();
        push_i32(&mut out, self.version);
        push_i32(&mut out, payload.len() as i32);
        let all = crate::text::concat_bytes(out.as_slice(), payload);
        Ok(all)
    }
}

pub open spec fn not_faithful_reason() -> Seq<char> {
    "this level.dat uses NBT this tool cannot rewrite without changing it (an array tag or an empty list); the world was not modified"@
}

/// The four little-endian bytes of a signed number.
pub open spec fn i32_bytes(v: int) -> Seq<u8> {
    let u = if v < 0 { v + 0x1_0000_0000 } else { v };
    seq![(u % 256) as u8, ((u / 256) % 256) as u8, ((u / 65536) % 256) as u8, (u / 16777216) as u8]
}

/// A `level.dat`: version, payload length, payload.
pub open spec fn frame_spec(version: i32, payload: Seq<u8>) -> Seq<u8> {
    i32_bytes(version as int) + i32_bytes(payload.len() as int) + payload
}

fn push_i32(out: &mut Vec<u8>, v: i32)
    ensures
        final(out)@ == old(out)@ + i32_bytes(v as int),
{
    let u: u32 = if v < 0 {
        (v as i64 + 0x1_0000_0000i64) as u32
    } else {
        v as u32
    };
    assert(u == if v < 0 { v + 0x1_0000_0000 } else { v as int });
    out.push((u % 256) as u8);
    out.push(((u / 256) % 256) as u8);
    out.push(((u / 65536) % 256) as u8);
    out.push((u / 16777216) as u8);
}

/// Reading back what was framed gives the version and payload that went in.
pub proof fn lemma_frame_parses(version: i32, payload: Seq<u8>)
    requires
        payload.len() <= i32::MAX,
    ensures
        header_problem(frame_spec(version, payload)) is None,
        le_i32(frame_spec(version, payload), 0) == version,
        payload_of(frame_spec(version, payload)) == payload,
{
    let b = frame_spec(version, payload);
    let v = version as int;
    let u = if v < 0 { v + 0x1_0000_0000 } else { v };
    assert(le32(b, 0) == u) by {
        assert(b[0] == (u % 256) as u8);
        assert(b[1] == ((u / 256) % 256) as u8);
        assert(b[2] == ((u / 65536) % 256) as u8);
        assert(b[3] == (u / 16777216) as u8);
        assert(0 <= u < 0x1_0000_0000);
        assert((u % 256) + 256 * ((u / 256) % 256) + 65536 * ((u / 65536) % 256) + 16777216 * (u
            / 16777216) == u) by (nonlinear_arith)
            requires
                0 <= u < 0x1_0000_0000,
        ;
    }
    let n = payload.len() as int;
    assert(le32(b, 4) == n) by {
        assert(b[4] == (n % 256) as u8);
        assert(b[5] == ((n / 256) % 256) as u8);
        assert(b[6] == ((n / 65536) % 256) as u8);
        assert(b[7] == (n / 16777216) as u8);
        assert((n % 256) + 256 * ((n / 256) % 256) + 65536 * ((n / 65536) % 256) + 16777216 * (n
            / 16777216) == n) by (nonlinear_arith)
            requires
                0 <= n < 0x8000_0000,
        ;
    }
    assert(b.subrange(8, 8 + n) =~= payload);
}


/// A root holding a place for the flags: a compound whose `experiments`, if
/// present, is a compound too.
pub open spec fn has_flag_room(root: NbtV) -> bool {
    root is Compound && match field_of(root, "experiments"@) {
        Some(NbtV::Compound(_)) => true,
        None => true,
        _ => false,
    }
}

/// The experiment entries a root holds, none when it has no compound.
pub open spec fn experiment_entries(root: NbtV) -> Seq<(Seq<char>, NbtV)> {
    match experiments_of(root) {
        Some(x) => x,
        None => Seq::empty(),
    }
}

proof fn lemma_set_is_put(root: NbtV, on: bool)
    requires
        has_flag_room(root),
    ensures
        set_beta_spec(root, on) == NbtV::Compound(
            put_spec(
                root->Compound_0,
                "experiments"@,
                NbtV::Compound(with_beta(experiment_entries(root), on)),
            ),
        ),
{
    let m = root->Compound_0;
    lemma_lookup_pos(m, "experiments"@);
}

proof fn lemma_with_beta_lookup(x: Seq<(Seq<char>, NbtV)>, on: bool, k: Seq<char>)
    ensures
        lookup(with_beta(x, on), GAMETEST@) == Some(NbtV::Byte(if on { 1 } else { 0 })),
        on ==> lookup(with_beta(x, on), EVER_USED@) == Some(NbtV::Byte(1)),
        on ==> lookup(with_beta(x, on), TOGGLED@) == Some(NbtV::Byte(1)),
        k != GAMETEST@ && (on ==> k != EVER_USED@ && k != TOGGLED@) ==> lookup(with_beta(x, on), k)
            == lookup(x, k),
{
    reveal_strlit("gametest");
    reveal_strlit("experiments_ever_used");
    reveal_strlit("saved_with_toggled_experiments");
    assert(GAMETEST@ != EVER_USED@ && GAMETEST@ != TOGGLED@ && EVER_USED@ != TOGGLED@) by {
        assert(GAMETEST@.len() != EVER_USED@.len());
        assert(GAMETEST@.len() != TOGGLED@.len());
        assert(EVER_USED@.len() != TOGGLED@.len());
    }
    let g = NbtV::Byte(if on { 1 } else { 0 });
    let a = put_spec(x, GAMETEST@, g);
    lemma_put_lookup(x, GAMETEST@, g, k);
    if on {
        let b = put_spec(a, EVER_USED@, NbtV::Byte(1));
        lemma_put_lookup(a, EVER_USED@, NbtV::Byte(1), GAMETEST@);
        lemma_put_lookup(a, EVER_USED@, NbtV::Byte(1), k);
        lemma_put_lookup(b, TOGGLED@, NbtV::Byte(1), GAMETEST@);
        lemma_put_lookup(b, TOGGLED@, NbtV::Byte(1), EVER_USED@);
        lemma_put_lookup(b, TOGGLED@, NbtV::Byte(1), k);
    }
}

/// Setting Beta APIs and reading them back gives what was set, whenever the
/// root has room for the flags.
pub proof fn lemma_set_then_read(root: NbtV, on: bool)
    requires
        has_flag_room(root),
    ensures
        beta_of(set_beta_spec(root, on)) == Some(on),
{
    let m = root->Compound_0;
    lemma_set_is_put(root, on);
    let e = NbtV::Compound(with_beta(experiment_entries(root), on));
    lemma_put_lookup(m, "experiments"@, e, "experiments"@);
    lemma_with_beta_lookup(experiment_entries(root), on, GAMETEST@);
}

/// Setting Beta APIs touches nothing but its own flags: every other field of
/// the root, and every other experiment, reads as before. Turning it off
/// touches `gametest` alone, so the two companion flags keep their record.
pub proof fn lemma_set_keeps_the_rest(root: NbtV, on: bool, k: Seq<char>)
    requires
        has_flag_room(root),
    ensures
        k != "experiments"@ ==> field_of(set_beta_spec(root, on), k) == field_of(root, k),
        k != GAMETEST@ && (on ==> k != EVER_USED@ && k != TOGGLED@) ==> lookup(
            experiment_entries(set_beta_spec(root, on)),
            k,
        ) == lookup(experiment_entries(root), k),
{
    let m = root->Compound_0;
    lemma_set_is_put(root, on);
    let e = NbtV::Compound(with_beta(experiment_entries(root), on));
    lemma_put_lookup(m, "experiments"@, e, k);
    lemma_put_lookup(m, "experiments"@, e, "experiments"@);
    lemma_with_beta_lookup(experiment_entries(root), on, k);
}

/// Turning Beta APIs on in a world whose three flags are already on changes
/// nothing.
pub proof fn lemma_enable_when_on_is_no_change(root: NbtV)
    requires
        root is Compound,
        experiments_of(root) is Some,
        lookup(experiment_entries(root), GAMETEST@) == Some(NbtV::Byte(1)),
        lookup(experiment_entries(root), EVER_USED@) == Some(NbtV::Byte(1)),
        lookup(experiment_entries(root), TOGGLED@) == Some(NbtV::Byte(1)),
    ensures
        set_beta_spec(root, true) == root,
{
    let m = root->Compound_0;
    let x = experiment_entries(root);
    lemma_set_is_put(root, true);
    lemma_put_same(x, GAMETEST@, NbtV::Byte(1));
    lemma_put_same(x, EVER_USED@, NbtV::Byte(1));
    lemma_put_same(x, TOGGLED@, NbtV::Byte(1));
    assert(with_beta(x, true) == x);
    lemma_put_same(m, "experiments"@, NbtV::Compound(x));
}


// ---------------------------------------------------------------------------
// Applying the switch to a file
// ---------------------------------------------------------------------------

#[derive(Debug, Clone, Copy, PartialEq, Eq, Structural)]
pub struct BetaApisChange {
    pub before: Option<bool>,
    pub after: bool,
    pub changed: bool,
}

/// Decides what applying the Beta APIs state `on` does to a parsed file, and
/// flips it when it must be written.
///
/// A world already in that state is reported unchanged and left alone; any
/// other is flipped in place, to be written and then read back and checked
/// with [`confirm_beta_apis`]. Backing the file up first is the caller's job.
pub fn apply_beta_apis(dat: &mut LevelDat, on: bool) -> (r: BetaApisChange)
    ensures
        r.before == beta_of(old(dat)@.root),
        r.after == on,
        r.changed == (r.before != Some(on)),
        r.changed ==> (final(dat)@.root == set_beta_spec(old(dat)@.root, on) && final(dat)@.version
            == old(dat)@.version && final(dat)@.payload_len == old(dat)@.payload_len
            && final(dat)@.faithful == old(dat)@.faithful),
        !r.changed ==> final(dat)@ == old(dat)@,
{
    let before = dat.beta_apis();
    let same = match before {
        Some(b) => b == on,
        None => false,
    };
    if same {
        return BetaApisChange { before, after: on, changed: false };
    }
    dat.set_beta_apis(on);
    BetaApisChange { before, after: on, changed: true }
}

/// How `Debug` prints an `Option<bool>`.
pub open spec fn opt_bool_text(v: Option<bool>) -> Seq<char> {
    match v {
        Some(true) => "Some(true)"@,
        Some(false) => "Some(false)"@,
        None => "None"@,
    }
}

/// The reason given when the written file does not read back as intended.
pub open spec fn read_back_reason(v: Option<bool>) -> Seq<char> {
    "wrote the Beta APIs flag but read back "@ + opt_bool_text(v)
}

/// Checks what reading the written file back said. "Write succeeded, value
/// unchanged" is a failure, reported as one that already landed on disk.
pub fn confirm_beta_apis(change: BetaApisChange, read_back: Option<bool>, path: &str) -> (r: Result<
    BetaApisChange,
    CoreError,
>)
    ensures
        r is Ok <==> read_back == Some(change.after),
        r matches Ok(c) ==> c == change,
        r matches Err(e) ==> (e matches CoreError::UnwritableLevelDat { path: p, reason, written }
            && p@ == path@ && reason@ == read_back_reason(read_back) && written),
{
    let ok = match read_back {
        Some(b) => b == change.after,
        None => false,
    };
    if ok {
        return Ok(change);
    }
    let mut reason = String::from_str("wrote the Beta APIs flag but read back ");
    match read_back {
        Some(true) => reason.append("Some(true)"),
        Some(false) => reason.append("Some(false)"),
        None => reason.append("None"),
    }
    Err(CoreError::UnwritableLevelDat { path: String::from_str(path), reason, written: true })
}

} // verus!
