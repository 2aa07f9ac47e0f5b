//! Which structure files move when one copy of a pack is folded into
//! another, and under what names.
//!
//! Two cases. An upgrade keeps every structure of the old copy that the new
//! one does not ship. Folding a misplaced copy into the development one keeps
//! every structure: an identical file is already there, a new one is copied,
//! and one that differs from the file of the same name is kept beside it
//! under the first free numbered name. Reading and copying the files is the
//! caller's; each list holds relative paths, in the order they were found.
use crate::error::CoreError;
use crate::install::adopt::{no_free_name, numbered_file, numbered_file_spec, MAX_SUFFIX};
use crate::text::{join_path, join_spec, str_eq, strings_view};
use crate::store::key::bytes_eq;
use vstd::prelude::*;

verus! {

broadcast use vstd::std_specs::vec::group_vec_axioms;

/// The paths of `old` that `new` lacks, in order: what an upgrade carries
/// over.
pub open spec fn missing_spec(old: Seq<Seq<char>>, new: Seq<Seq<char>>) -> Seq<Seq<char>>
    decreases old.len(),
{
    if old.len() == 0 {
        Seq::empty()
    } else {
        let rest = missing_spec(old.drop_last(), new);
        if new.contains(old.last()) {
            rest
        } else {
            rest.push(old.last())
        }
    }
}

/// An upgrade carries over exactly the files of the old copy that the new
/// copy lacks, each once for each time the old copy lists it, in the old
/// copy's order.
pub proof fn lemma_missing_is_old_without_new(old: Seq<Seq<char>>, new: Seq<Seq<char>>)
    ensures
        missing_spec(old, new) == old.filter(|x: Seq<char>| !new.contains(x)),
        forall|x: Seq<char>| #[trigger] missing_spec(old, new).contains(x) <==> (old.contains(x) && !new.contains(x)),
    decreases old.len(),
{
    reveal(Seq::filter);
    if old.len() > 0 {
        let init = old.drop_last();
        let y = old.last();
        lemma_missing_is_old_without_new(init, new);
        assert(old.filter(|x: Seq<char>| !new.contains(x)) == {
            let sub = init.filter(|x: Seq<char>| !new.contains(x));
            if !new.contains(y) { sub.push(y) } else { sub }
        });
        assert forall|x: Seq<char>| #[trigger] missing_spec(old, new).contains(x) <==> (old.contains(x) && !new.contains(x)) by {
            let rest = missing_spec(init, new);
            if old.contains(x) {
                let k = choose|k: int| 0 <= k < old.len() && old[k] == x;
                if k < old.len() - 1 {
                    assert(init[k] == x);
                    assert(init.contains(x));
                }
            }
            if init.contains(x) {
                let k = choose|k: int| 0 <= k < init.len() && init[k] == x;
                assert(old[k] == x);
            }
            if !new.contains(y) {
                assert(rest.push(y)[rest.len() as int] == y);
                if rest.contains(x) {
                    let k = choose|k: int| 0 <= k < rest.len() && rest[k] == x;
                    assert(rest.push(y)[k] == x);
                }
                if rest.push(y).contains(x) {
                    let k = choose|k: int| 0 <= k < rest.len() + 1 && rest.push(y)[k] == x;
                    if k < rest.len() {
                        assert(rest[k] == x);
                    }
                }
            }
            assert(old[old.len() - 1] == y);
        }
    } else {
        assert(old.filter(|x: Seq<char>| !new.contains(x)) =~= Seq::<Seq<char>>::empty());
    }
}

fn contains_str(v: &Vec<String>, s: &str) -> (r: bool)
    ensures
        r == strings_view(v@).contains(s@),
{
    let mut i: usize = 0;
    while i < v.len()
        invariant
            i <= v@.len(),
            forall|j: int| 0 <= j < i ==> v@[j]@ != s@,
        decreases v@.len() - i,
    {
        if str_eq(v[i].as_str(), s) {
            assert(strings_view(v@)[i as int] == s@);
            return true;
        }
        i += 1;
    }
    assert(!strings_view(v@).contains(s@)) by {
        if strings_view(v@).contains(s@) {
            let j = choose|j: int| 0 <= j < strings_view(v@).len() && strings_view(v@)[j] == s@;
            assert(v@[j]@ == s@);
        }
    }
    false
}

/// The structures an upgrade carries over from the old copy: those the new
/// copy does not ship. Their number is the count of preserved structures.
pub fn missing(old: &Vec<String>, new: &Vec<String>) -> (r: Vec<String>)
    ensures
        strings_view(r@) == missing_spec(strings_view(old@), strings_view(new@)),
        strings_view(r@) == strings_view(old@).filter(|x: Seq<char>| !strings_view(new@).contains(x)),
{
    let ghost ov = strings_view(old@);
    let ghost nv = strings_view(new@);
    let mut out: Vec<String> = Vec::new();
    let mut i: usize = 0;
    while i < old.len()
        invariant
            i <= old@.len(),
            ov == strings_view(old@),
            nv == strings_view(new@),
            strings_view(out@) == missing_spec(ov.subrange(0, i as int), nv),
        decreases old@.len() - i,
    {
        let ghost before = strings_view(out@);
        assert(ov.subrange(0, i + 1).drop_last() =~= ov.subrange(0, i as int));
        if !contains_str(new, old[i].as_str()) {
            out.push(old[i].clone());
            assert(strings_view(out@) =~= before.push(ov[i as int]));
        }
        i += 1;
    }
    assert(ov.subrange(0, old@.len() as int) =~= ov);
    proof {
        lemma_missing_is_old_without_new(ov, nv);
    }
    out
}

/// What becomes of one incoming structure file.
#[derive(Debug)]
pub enum Carry {
    /// The same bytes are already there under that path.
    Skip,
    /// Nothing is there; the file is copied to its own path.
    Copy,
    /// Other bytes are there; the file is kept under this path.
    Rescue(String),
}

/// The model of a [`Carry`].
pub enum CarryV {
    Skip,
    Copy,
    Rescue(Seq<char>),
}

impl View for Carry {
    type V = CarryV;

    open spec fn view(&self) -> CarryV {
        match self {
            Carry::Skip => CarryV::Skip,
            Carry::Copy => CarryV::Copy,
            Carry::Rescue(p) => CarryV::Rescue(p@),
        }
    }
}

/// The bytes under `path` in a folder: those of its first entry.
pub open spec fn held(state: Seq<(Seq<char>, Seq<u8>)>, path: Seq<char>) -> Option<Seq<u8>>
    decreases state.len(),
{
    if state.len() == 0 {
        None
    } else if state[0].0 == path {
        Some(state[0].1)
    } else {
        held(state.drop_first(), path)
    }
}

/// The first number from `n` below [`MAX_SUFFIX`] whose numbered name for
/// `path` is free.
pub open spec fn free_number(state: Seq<(Seq<char>, Seq<u8>)>, path: Seq<char>, n: int) -> Option<int>
    decreases MAX_SUFFIX - n,
{
    if n >= MAX_SUFFIX || n < 1 {
        None
    } else if held(state, numbered_file_spec(path, n)) is None {
        Some(n)
    } else {
        free_number(state, path, n + 1)
    }
}

/// One incoming file folded into a folder: what becomes of it and the folder
/// after, or `None` when every numbered name is taken.
pub open spec fn carry_one(state: Seq<(Seq<char>, Seq<u8>)>, path: Seq<char>, bytes: Seq<u8>) -> Option<
    (CarryV, Seq<(Seq<char>, Seq<u8>)>),
> {
    match held(state, path) {
        None => Some((CarryV::Copy, state.push((path, bytes)))),
        Some(there) => if there == bytes {
            Some((CarryV::Skip, state))
        } else {
            match free_number(state, path, 1) {
                Some(n) => Some(
                    (
                        CarryV::Rescue(numbered_file_spec(path, n)),
                        state.push((numbered_file_spec(path, n), bytes)),
                    ),
                ),
                None => None,
            }
        },
    }
}

/// Every incoming file folded in, in order: what becomes of each, or the
/// path of the first that found no free name.
pub open spec fn carry_all(state: Seq<(Seq<char>, Seq<u8>)>, incoming: Seq<(Seq<char>, Seq<u8>)>) -> Result<
    Seq<CarryV>,
    Seq<char>,
>
    decreases incoming.len(),
{
    if incoming.len() == 0 {
        Ok(Seq::empty())
    } else {
        match carry_one(state, incoming[0].0, incoming[0].1) {
            None => Err(incoming[0].0),
            Some((c, after)) => match carry_all(after, incoming.drop_first()) {
                Ok(rest) => Ok(seq![c] + rest),
                Err(p) => Err(p),
            },
        }
    }
}

/// `done` in front of what follows.
pub open spec fn after_done(done: Seq<CarryV>, rest: Result<Seq<CarryV>, Seq<char>>) -> Result<
    Seq<CarryV>,
    Seq<char>,
> {
    match rest {
        Ok(r) => Ok(done + r),
        Err(p) => Err(p),
    }
}

/// How many files a plan writes: every one not skipped.
pub open spec fn written(plan: Seq<CarryV>) -> nat
    decreases plan.len(),
{
    if plan.len() == 0 {
        0
    } else {
        written(plan.drop_last()) + if plan.last() is Skip {
            0nat
        } else {
            1nat
        }
    }
}

pub open spec fn files_view(v: Seq<(String, Vec<u8>)>) -> Seq<(Seq<char>, Seq<u8>)> {
    Seq::new(v.len(), |i: int| (v[i].0@, v[i].1@))
}

fn held_at(state: &Vec<(String, Vec<u8>)>, path: &str) -> (r: Option<usize>)
    ensures
        match r {
            Some(i) => i < state@.len() && held(files_view(state@), path@) == Some(state@[i as int].1@),
            None => held(files_view(state@), path@) is None,
        },
{
    let ghost sv = files_view(state@);
    assert(sv.subrange(0, sv.len() as int) =~= sv);
    let mut i: usize = 0;
    while i < state.len()
        invariant
            i <= state@.len(),
            sv == files_view(state@),
            held(sv, path@) == held(sv.subrange(i as int, sv.len() as int), path@),
        decreases state@.len() - i,
    {
        let ghost tail = sv.subrange(i as int, sv.len() as int);
        assert(tail[0] == sv[i as int]);
        assert(tail.drop_first() =~= sv.subrange(i + 1, sv.len() as int));
        if str_eq(state[i].0.as_str(), path) {
            return Some(i);
        }
        i += 1;
    }
    assert(sv.subrange(i as int, sv.len() as int).len() == 0);
    None
}

fn copy_bytes(b: &[u8]) -> (r: Vec<u8>)
    ensures
        r@ == b@,
{
    crate::text::concat_bytes(b, &[])
}

/// The first free numbered name for `path`, if one is left.
fn free_name(state: &Vec<(String, Vec<u8>)>, path: &str) -> (r: Option<String>)
    ensures
        match r {
            Some(p) => free_number(files_view(state@), path@, 1) matches Some(n) && p@ == numbered_file_spec(
                path@,
                n,
            ),
            None => free_number(files_view(state@), path@, 1) is None,
        },
{
    let ghost sv = files_view(state@);
    let mut n: u64 = 1;
    while n < MAX_SUFFIX
        invariant
            1 <= n <= MAX_SUFFIX,
            sv == files_view(state@),
            free_number(sv, path@, 1) == free_number(sv, path@, n as int),
        decreases MAX_SUFFIX - n,
    {
        let candidate = numbered_file(path, n);
        if held_at(state, candidate.as_str()).is_none() {
            return Some(candidate);
        }
        n += 1;
    }
    None
}

/// How many files a plan writes.
pub fn written_count(plan: &Vec<Carry>) -> (r: usize)
    ensures
        r == written(Seq::new(plan@.len(), |j: int| plan@[j]@)),
{
    let ghost pv = Seq::new(plan@.len(), |j: int| plan@[j]@);
    let mut n: usize = 0;
    let mut i: usize = 0;
    while i < plan.len()
        invariant
            i <= plan@.len(),
            pv == Seq::new(plan@.len(), |j: int| plan@[j]@),
            n == written(pv.subrange(0, i as int)),
            n <= i,
        decreases plan@.len() - i,
    {
        assert(pv.subrange(0, i + 1).drop_last() =~= pv.subrange(0, i as int));
        match &plan[i] {
            Carry::Skip => {},
            _ => {
                n += 1;
            },
        }
        i += 1;
    }
    assert(pv.subrange(0, plan@.len() as int) =~= pv);
    n
}

/// Folding in files that are all already there, with the same bytes, writes
/// nothing: every one is skipped.
pub proof fn lemma_carry_again_skips(state: Seq<(Seq<char>, Seq<u8>)>, incoming: Seq<(Seq<char>, Seq<u8>)>)
    requires
        forall|i: int| 0 <= i < incoming.len() ==> held(state, (#[trigger] incoming[i]).0) == Some(incoming[i].1),
    ensures
        carry_all(state, incoming) == Ok::<Seq<CarryV>, Seq<char>>(Seq::new(incoming.len(), |i: int| CarryV::Skip)),
    decreases incoming.len(),
{
    if incoming.len() == 0 {
        assert(Seq::new(incoming.len(), |i: int| CarryV::Skip) =~= Seq::<CarryV>::empty());
    } else {
        assert forall|i: int| 0 <= i < incoming.len() - 1 implies held(
            state,
            (#[trigger] incoming.drop_first()[i]).0,
        ) == Some(incoming.drop_first()[i].1) by {
            assert(incoming.drop_first()[i] == incoming[i + 1]);
        }
        lemma_carry_again_skips(state, incoming.drop_first());
        assert(held(state, incoming[0].0) == Some(incoming[0].1));
        assert(carry_one(state, incoming[0].0, incoming[0].1) == Some((CarryV::Skip, state)));
        assert(seq![CarryV::Skip] + Seq::new((incoming.len() - 1) as nat, |i: int| CarryV::Skip) =~= Seq::new(
            incoming.len(),
            |i: int| CarryV::Skip,
        ));
    }
}

/// Folds `incoming` into a folder holding `present`, in order: what becomes
/// of each file, or the refusal for the first that found no free name, its
/// path taken under `dest`.
pub fn plan_carry(dest: &str, present: &Vec<(String, Vec<u8>)>, incoming: &Vec<(String, Vec<u8>)>) -> (r: Result<
    Vec<Carry>,
    CoreError,
>)
    ensures
        match carry_all(files_view(present@), files_view(incoming@)) {
            Ok(plan) => r matches Ok(v) && v@.len() == plan.len() && forall|i: int|
                0 <= i < plan.len() ==> (#[trigger] v@[i])@ == plan[i],
            Err(p) => r matches Err(CoreError::BadPack { path, reason }) && path@ == join_spec(dest@, p)
                && reason@ == "no free name for it after 1000 tries"@,
        },
{
    let ghost iv = files_view(incoming@);
    let ghost whole = carry_all(files_view(present@), iv);
    let mut state: Vec<(String, Vec<u8>)> = Vec::new();
    let mut k: usize = 0;
    while k < present.len()
        invariant
            k <= present@.len(),
            files_view(state@) == files_view(present@).subrange(0, k as int),
        decreases present@.len() - k,
    {
        let ghost before = files_view(state@);
        state.push((present[k].0.clone(), copy_bytes(present[k].1.as_slice())));
        assert(files_view(state@) =~= before.push(files_view(present@)[k as int]));
        k += 1;
        assert(files_view(state@) =~= files_view(present@).subrange(0, k as int));
    }
    assert(files_view(present@).subrange(0, present@.len() as int) =~= files_view(present@));
    let mut out: Vec<Carry> = Vec::new();
    let mut i: usize = 0;
    assert(iv.subrange(0, iv.len() as int) =~= iv);
    proof {
        let first = carry_all(files_view(state@), iv);
        if first is Ok {
            assert(Seq::new(out@.len(), |j: int| out@[j]@) + first->Ok_0 =~= first->Ok_0);
        }
    }
    while i < incoming.len()
        invariant
            i <= incoming@.len(),
            iv == files_view(incoming@),
            whole == carry_all(files_view(present@), iv),
            whole == after_done(
                Seq::new(out@.len(), |j: int| out@[j]@),
                carry_all(files_view(state@), iv.subrange(i as int, iv.len() as int)),
            ),
        decreases incoming@.len() - i,
    {
        let ghost done = Seq::new(out@.len(), |j: int| out@[j]@);
        let ghost st = files_view(state@);
        let ghost tail = iv.subrange(i as int, iv.len() as int);
        assert(tail[0] == iv[i as int]);
        assert(tail.drop_first() =~= iv.subrange(i + 1, iv.len() as int));
        let path = incoming[i].0.as_str();
        let bytes = incoming[i].1.as_slice();
        let step = match held_at(&state, path) {
            None => {
                state.push((incoming[i].0.clone(), copy_bytes(bytes)));
                assert(files_view(state@) =~= st.push((path@, bytes@)));
                Carry::Copy
            },
            Some(at) => {
                if bytes_eq(state[at].1.as_slice(), bytes) {
                    Carry::Skip
                } else {
                    match free_name(&state, path) {
                        Some(name) => {
                            let ghost nv = name@;
                            state.push((name.clone(), copy_bytes(bytes)));
                            assert(files_view(state@) =~= st.push((nv, bytes@)));
                            Carry::Rescue(name)
                        },
                        None => {
                            return Err(no_free_name(join_path(dest, path).as_str(), false));
                        },
                    }
                }
            },
        };
        let ghost sv = step@;
        out.push(step);
        assert(Seq::new(out@.len(), |j: int| out@[j]@) =~= done.push(sv));
        assert(done.push(sv) =~= done + seq![sv]);
        proof {
            let rest = carry_all(files_view(state@), iv.subrange(i + 1, iv.len() as int));
            if rest is Ok {
                assert(done + (seq![sv] + rest->Ok_0) =~= done.push(sv) + rest->Ok_0);
            }
        }
        i += 1;
    }
    assert(iv.subrange(i as int, iv.len() as int) =~= Seq::<(Seq<char>, Seq<u8>)>::empty());
    assert(Seq::new(out@.len(), |j: int| out@[j]@) + Seq::<CarryV>::empty() =~= Seq::new(
        out@.len(),
        |j: int| out@[j]@,
    ));
    Ok(out)
}

} // verus!
