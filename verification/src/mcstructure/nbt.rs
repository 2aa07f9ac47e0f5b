//! The NBT values a `.mcstructure` or `level.dat` is made of, as plain data.
//!
//! Reading and writing the binary encoding is the codec's job; everything
//! here works on the decoded tree. Floating-point payloads are carried as
//! their IEEE-754 bit patterns, since this library never computes with them
//! and only compares them the way the codec's equality does.

use vstd::prelude::*;

verus! {

broadcast use vstd::std_specs::vec::group_vec_axioms;

/// One NBT value.
#[derive(Debug)]
pub enum Nbt {
    Byte(i8),
    Short(i16),
    Int(i32),
    Long(i64),
    /// A float, by its bit pattern.
    Float(u32),
    /// A double, by its bit pattern.
    Double(u64),
    ByteArray(Vec<u8>),
    String(String),
    List(Vec<Nbt>),
    /// A compound, as its entries; keys are unique.
    Compound(Vec<(String, Nbt)>),
    IntArray(Vec<i32>),
    LongArray(Vec<i64>),
}

/// The mathematical value of an [`Nbt`].
pub enum NbtV {
    Byte(i8),
    Short(i16),
    Int(i32),
    Long(i64),
    Float(u32),
    Double(u64),
    ByteArray(Seq<u8>),
    String(Seq<char>),
    List(Seq<NbtV>),
    Compound(Seq<(Seq<char>, NbtV)>),
    IntArray(Seq<i32>),
    LongArray(Seq<i64>),
}

impl Nbt {
    pub open spec fn deep(&self) -> NbtV
        decreases self,
    {
        match self {
            Nbt::Byte(x) => NbtV::Byte(*x),
            Nbt::Short(x) => NbtV::Short(*x),
            Nbt::Int(x) => NbtV::Int(*x),
            Nbt::Long(x) => NbtV::Long(*x),
            Nbt::Float(x) => NbtV::Float(*x),
            Nbt::Double(x) => NbtV::Double(*x),
            Nbt::ByteArray(v) => NbtV::ByteArray(v@),
            Nbt::String(s) => NbtV::String(s@),
            Nbt::List(v) => NbtV::List(
                Seq::new(v.len() as nat, |i: int| if 0 <= i < v.len() { v[i].deep() } else { NbtV::Byte(0) }),
            ),
            Nbt::Compound(v) => NbtV::Compound(
                Seq::new(
                    v.len() as nat,
                    |i: int| if 0 <= i < v.len() { (v[i].0@, v[i].1.deep()) } else { (Seq::empty(), NbtV::Byte(0)) },
                ),
            ),
            Nbt::IntArray(v) => NbtV::IntArray(v@),
            Nbt::LongArray(v) => NbtV::LongArray(v@),
        }
    }
}

impl View for Nbt {
    type V = NbtV;

    open spec fn view(&self) -> NbtV {
        self.deep()
    }
}

/// The first value stored under `key` in a compound's entries.
pub open spec fn lookup(m: Seq<(Seq<char>, NbtV)>, key: Seq<char>) -> Option<NbtV>
    decreases m.len(),
{
    if m.len() == 0 {
        None
    } else if m[0].0 == key {
        Some(m[0].1)
    } else {
        lookup(m.drop_first(), key)
    }
}

/// Field `name` of `v`, when `v` is a compound holding it.
pub open spec fn field_of(v: NbtV, name: Seq<char>) -> Option<NbtV> {
    match v {
        NbtV::Compound(m) => lookup(m, name),
        _ => None,
    }
}

pub open spec fn f32_is_nan(x: u32) -> bool {
    (x & 0x7f80_0000u32) == 0x7f80_0000u32 && (x & 0x007f_ffffu32) != 0
}

pub open spec fn f64_is_nan(x: u64) -> bool {
    (x & 0x7ff0_0000_0000_0000u64) == 0x7ff0_0000_0000_0000u64 && (x & 0x000f_ffff_ffff_ffffu64) != 0
}

/// IEEE-754 equality on bit patterns: NaN equals nothing, the two zeros are equal.
pub open spec fn f32_eq(x: u32, y: u32) -> bool {
    !f32_is_nan(x) && !f32_is_nan(y) && (x == y || ((x & 0x7fff_ffffu32) == 0 && (y & 0x7fff_ffffu32) == 0))
}

pub open spec fn f64_eq(x: u64, y: u64) -> bool {
    !f64_is_nan(x) && !f64_is_nan(y) && (x == y || ((x & 0x7fff_ffff_ffff_ffffu64) == 0 && (y
        & 0x7fff_ffff_ffff_ffffu64) == 0))
}

/// The codec's equality: same tag and equal payloads, lists element by
/// element, compounds of the same size with every key of `a` present in `b`
/// holding an equal value.
pub open spec fn equiv(a: NbtV, b: NbtV) -> bool
    decreases a,
{
    match a {
        NbtV::Byte(x) => b == NbtV::Byte(x),
        NbtV::Short(x) => b == NbtV::Short(x),
        NbtV::Int(x) => b == NbtV::Int(x),
        NbtV::Long(x) => b == NbtV::Long(x),
        NbtV::Float(x) => b matches NbtV::Float(y) && f32_eq(x, y),
        NbtV::Double(x) => b matches NbtV::Double(y) && f64_eq(x, y),
        NbtV::ByteArray(x) => b == NbtV::ByteArray(x),
        NbtV::String(x) => b == NbtV::String(x),
        NbtV::IntArray(x) => b == NbtV::IntArray(x),
        NbtV::LongArray(x) => b == NbtV::LongArray(x),
        NbtV::List(x) => match b {
            NbtV::List(y) => x.len() == y.len() && forall|i: int|
                #![trigger x[i]]
                0 <= i < x.len() ==> equiv(x[i], y[i]),
            _ => false,
        },
        NbtV::Compound(x) => match b {
            NbtV::Compound(y) => x.len() == y.len() && forall|i: int|
                #![trigger x[i]]
                0 <= i < x.len() ==> (lookup(y, x[i].0) matches Some(w) && equiv(x[i].1, w)),
            _ => false,
        },
    }
}

/// `a` is `b` with each compound's entries possibly in another order: same
/// tags and payloads bit for bit, lists element by element, and compounds of
/// the same size whose keys in `a` are distinct and each found in `b` with
/// the same value.
pub open spec fn same_up_to_order(a: NbtV, b: NbtV) -> bool
    decreases a,
{
    match a {
        NbtV::List(x) => match b {
            NbtV::List(y) => x.len() == y.len() && forall|i: int|
                #![trigger x[i]]
                0 <= i < x.len() ==> same_up_to_order(x[i], y[i]),
            _ => false,
        },
        NbtV::Compound(x) => match b {
            NbtV::Compound(y) => {
                &&& x.len() == y.len()
                &&& forall|i: int, j: int| 0 <= i < j < x.len() ==> #[trigger] x[i].0 != #[trigger] x[j].0
                &&& forall|i: int|
                    #![trigger x[i]]
                    0 <= i < x.len() ==> (lookup(y, x[i].0) matches Some(w) && same_up_to_order(x[i].1, w))
            },
            _ => false,
        },
        _ => a == b,
    }
}

fn f32_eq_exec(x: u32, y: u32) -> (r: bool)
    ensures
        r == f32_eq(x, y),
{
    let nx = (x & 0x7f80_0000u32) == 0x7f80_0000u32 && (x & 0x007f_ffffu32) != 0;
    let ny = (y & 0x7f80_0000u32) == 0x7f80_0000u32 && (y & 0x007f_ffffu32) != 0;
    !nx && !ny && (x == y || ((x & 0x7fff_ffffu32) == 0 && (y & 0x7fff_ffffu32) == 0))
}

fn f64_eq_exec(x: u64, y: u64) -> (r: bool)
    ensures
        r == f64_eq(x, y),
{
    let nx = (x & 0x7ff0_0000_0000_0000u64) == 0x7ff0_0000_0000_0000u64 && (x & 0x000f_ffff_ffff_ffffu64)
        != 0;
    let ny = (y & 0x7ff0_0000_0000_0000u64) == 0x7ff0_0000_0000_0000u64 && (y & 0x000f_ffff_ffff_ffffu64)
        != 0;
    !nx && !ny && (x == y || ((x & 0x7fff_ffff_ffff_ffffu64) == 0 && (y & 0x7fff_ffff_ffff_ffffu64)
        == 0))
}

fn bytes_same(a: &Vec<u8>, b: &Vec<u8>) -> (r: bool)
    ensures
        r == (a@ == b@),
{
    crate::store::key::bytes_eq(a.as_slice(), b.as_slice())
}

fn ints_same(a: &Vec<i32>, b: &Vec<i32>) -> (r: bool)
    ensures
        r == (a@ == b@),
{
    if a.len() != b.len() {
        return false;
    }
    let mut i: usize = 0;
    while i < a.len()
        invariant
            a@.len() == b@.len(),
            i <= a@.len(),
            forall|j: int| 0 <= j < i ==> a@[j] == b@[j],
        decreases a@.len() - i,
    {
        if a[i] != b[i] {
            return false;
        }
        i += 1;
    }
    assert(a@ =~= b@);
    true
}

fn longs_same(a: &Vec<i64>, b: &Vec<i64>) -> (r: bool)
    ensures
        r == (a@ == b@),
{
    if a.len() != b.len() {
        return false;
    }
    let mut i: usize = 0;
    while i < a.len()
        invariant
            a@.len() == b@.len(),
            i <= a@.len(),
            forall|j: int| 0 <= j < i ==> a@[j] == b@[j],
        decreases a@.len() - i,
    {
        if a[i] != b[i] {
            return false;
        }
        i += 1;
    }
    assert(a@ =~= b@);
    true
}

/// The entry of a compound stored under `key`: its position, if any.
pub fn compound_position(m: &Vec<(String, Nbt)>, key: &String) -> (r: Option<usize>)
    ensures
        match r {
            Some(i) => i < m@.len() && m@[i as int].0@ == key@ && lookup(
                Nbt::Compound(*m).deep()->Compound_0,
                key@,
            ) == Some(m@[i as int].1.deep()),
            None => lookup(Nbt::Compound(*m).deep()->Compound_0, key@) is None,
        },
{
    let ghost mv = Nbt::Compound(*m).deep()->Compound_0;
    assert(mv.skip(0) =~= mv);
    let mut i: usize = 0;
    while i < m.len()
        invariant
            i <= m@.len(),
            mv == Nbt::Compound(*m).deep()->Compound_0,
            mv.len() == m@.len(),
            lookup(mv, key@) == lookup(mv.skip(i as int), key@),
        decreases m@.len() - i,
    {
        assert(mv.skip(i as int)[0] == mv[i as int]);
        assert(mv[i as int] == (m@[i as int].0@, m@[i as int].1.deep()));
        if m[i].0 == *key {
            return Some(i);
        }
        assert(mv.skip(i as int).drop_first() =~= mv.skip(i + 1));
        i += 1;
    }
    None
}

/// The value of field `name`, when `v` is a compound holding it.
pub fn get_field<'a>(v: &'a Nbt, name: &str) -> (r: Option<&'a Nbt>)
    ensures
        match r {
            Some(x) => field_of(v.deep(), name@) == Some(x.deep()),
            None => field_of(v.deep(), name@) is None,
        },
{
    match v {
        Nbt::Compound(m) => {
            let key = name.to_owned();
            match compound_position(m, &key) {
                Some(i) => Some(&m[i].1),
                None => None,
            }
        },
        _ => None,
    }
}

/// Whether two values are equal under the codec's equality.
pub fn nbt_eq(a: &Nbt, b: &Nbt) -> (r: bool)
    ensures
        r == equiv(a.deep(), b.deep()),
    decreases a,
{
    proof {
        reveal_with_fuel(equiv, 2);
    }
    match (a, b) {
        (Nbt::Byte(x), Nbt::Byte(y)) => *x == *y,
        (Nbt::Short(x), Nbt::Short(y)) => *x == *y,
        (Nbt::Int(x), Nbt::Int(y)) => *x == *y,
        (Nbt::Long(x), Nbt::Long(y)) => *x == *y,
        (Nbt::Float(x), Nbt::Float(y)) => f32_eq_exec(*x, *y),
        (Nbt::Double(x), Nbt::Double(y)) => f64_eq_exec(*x, *y),
        (Nbt::ByteArray(x), Nbt::ByteArray(y)) => bytes_same(x, y),
        (Nbt::String(x), Nbt::String(y)) => *x == *y,
        (Nbt::IntArray(x), Nbt::IntArray(y)) => ints_same(x, y),
        (Nbt::LongArray(x), Nbt::LongArray(y)) => longs_same(x, y),
        (Nbt::List(x), Nbt::List(y)) => {
            let ghost xs = a.deep()->List_0;
            let ghost ys = b.deep()->List_0;
            assert(xs.len() == x@.len() && ys.len() == y@.len());
            assert(a.deep() == NbtV::List(xs) && b.deep() == NbtV::List(ys));
            if x.len() != y.len() {
                return false;
            }
            let mut i: usize = 0;
            while i < x.len()
                invariant
                    *a == Nbt::List(*x),
                    *b == Nbt::List(*y),
                    a.deep() == NbtV::List(xs),
                    b.deep() == NbtV::List(ys),
                    x@.len() == y@.len(),
                    i <= x@.len(),
                    forall|j: int| #![trigger xs[j]] 0 <= j < i ==> equiv(xs[j], ys[j]),
                decreases x@.len() - i,
            {
                proof {
                    let ghost w = (*a)->List_0;
                    assert(decreases_to!(*a => w));
                    assert(decreases_to!(w => w[i as int]));
                }
                assert(xs[i as int] == x@[i as int].deep());
                assert(ys[i as int] == y@[i as int].deep());
                if !nbt_eq(&x[i], &y[i]) {
                    assert(!equiv(xs[i as int], ys[i as int]));
                    proof {
                        reveal_with_fuel(equiv, 2);
                    }
                    return false;
                }
                i += 1;
            }
            proof {
                reveal_with_fuel(equiv, 2);
            }
            assert(equiv(a.deep(), b.deep()));
            true
        },
        (Nbt::Compound(x), Nbt::Compound(y)) => {
            let ghost xs = a.deep()->Compound_0;
            let ghost ys = b.deep()->Compound_0;
            assert(xs.len() == x@.len() && ys.len() == y@.len());
            assert(a.deep() == NbtV::Compound(xs) && b.deep() == NbtV::Compound(ys));
            if x.len() != y.len() {
                return false;
            }
            let mut i: usize = 0;
            while i < x.len()
                invariant
                    *a == Nbt::Compound(*x),
                    *b == Nbt::Compound(*y),
                    a.deep() == NbtV::Compound(xs),
                    b.deep() == NbtV::Compound(ys),
                    x@.len() == y@.len(),
                    i <= x@.len(),
                    forall|j: int|
                        #![trigger xs[j]]
                        0 <= j < i ==> (lookup(ys, xs[j].0) matches Some(w) && equiv(xs[j].1, w)),
                decreases x@.len() - i,
            {
                proof {
                    let ghost w = (*a)->Compound_0;
                    assert(decreases_to!(*a => w));
                    assert(decreases_to!(w => w[i as int]));
                    assert(decreases_to!(w[i as int] => w[i as int].1));
                }
                assert(xs[i as int] == (x@[i as int].0@, x@[i as int].1.deep()));
                match compound_position(y, &x[i].0) {
                    None => {
                        return false;
                    },
                    Some(k) => {
                        if !nbt_eq(&x[i].1, &y[k].1) {
                            return false;
                        }
                    },
                }
                i += 1;
            }
            proof {
                reveal_with_fuel(equiv, 2);
            }
            assert(equiv(a.deep(), b.deep()));
            true
        },
        _ => false,
    }
}

/// A copy of `v`.
pub fn duplicate(v: &Nbt) -> (r: Nbt)
    ensures
        r.deep() == v.deep(),
    decreases v,
{
    match v {
        Nbt::Byte(x) => Nbt::Byte(*x),
        Nbt::Short(x) => Nbt::Short(*x),
        Nbt::Int(x) => Nbt::Int(*x),
        Nbt::Long(x) => Nbt::Long(*x),
        Nbt::Float(x) => Nbt::Float(*x),
        Nbt::Double(x) => Nbt::Double(*x),
        Nbt::ByteArray(x) => Nbt::ByteArray(crate::text::concat_bytes(x.as_slice(), &[])),
        Nbt::String(s) => Nbt::String(s.clone()),
        Nbt::IntArray(x) => {
            let mut out: Vec<i32> = Vec::new();
            let mut i: usize = 0;
            while i < x.len()
                invariant
                    i <= x@.len(),
                    out@ == x@.subrange(0, i as int),
                decreases x@.len() - i,
            {
                out.push(x[i]);
                i += 1;
                assert(out@ =~= x@.subrange(0, i as int));
            }
            assert(out@ =~= x@);
            Nbt::IntArray(out)
        },
        Nbt::LongArray(x) => {
            let mut out: Vec<i64> = Vec::new();
            let mut i: usize = 0;
            while i < x.len()
                invariant
                    i <= x@.len(),
                    out@ == x@.subrange(0, i as int),
                decreases x@.len() - i,
            {
                out.push(x[i]);
                i += 1;
                assert(out@ =~= x@.subrange(0, i as int));
            }
            assert(out@ =~= x@);
            Nbt::LongArray(out)
        },
        Nbt::List(x) => {
            let mut out: Vec<Nbt> = Vec::new();
            let mut i: usize = 0;
            while i < x.len()
                invariant
                    *v == Nbt::List(*x),
                    i <= x@.len(),
                    out@.len() == i,
                    forall|j: int| 0 <= j < i ==> out@[j].deep() == x@[j].deep(),
                decreases x@.len() - i,
            {
                proof {
                    let ghost w = (*v)->List_0;
                    assert(decreases_to!(*v => w));
                    assert(decreases_to!(w => w[i as int]));
                }
                let c = duplicate(&x[i]);
                out.push(c);
                i += 1;
            }
            let r = Nbt::List(out);
            assert(r.deep()->List_0 =~= v.deep()->List_0);
            r
        },
        Nbt::Compound(x) => {
            let mut out: Vec<(String, Nbt)> = Vec::new();
            let mut i: usize = 0;
            while i < x.len()
                invariant
                    *v == Nbt::Compound(*x),
                    i <= x@.len(),
                    out@.len() == i,
                    forall|j: int|
                        0 <= j < i ==> out@[j].0@ == x@[j].0@ && out@[j].1.deep() == x@[j].1.deep(),
                decreases x@.len() - i,
            {
                proof {
                    let ghost w = (*v)->Compound_0;
                    assert(decreases_to!(*v => w));
                    assert(decreases_to!(w => w[i as int]));
                    assert(decreases_to!(w[i as int] => w[i as int].1));
                }
                let c = duplicate(&x[i].1);
                out.push((x[i].0.clone(), c));
                i += 1;
            }
            let r = Nbt::Compound(out);
            assert(r.deep()->Compound_0 =~= v.deep()->Compound_0);
            r
        },
    }
}

impl Clone for Nbt {
    fn clone(&self) -> (r: Self)
        ensures
            r.deep() == self.deep(),
    {
        duplicate(self)
    }
}

} // verus!
