//! The database backend's retry policy.
//!
//! Opening a leveldb runs recovery, and recovery finishes by renaming a
//! freshly written file over `CURRENT`. On Windows a file just written is
//! still open by whatever scanned it on close, so that rename can lose a race
//! and fail with a sharing violation. Nothing about the database is wrong;
//! the next attempt milliseconds later succeeds. Opening the database itself
//! is the caller's; when to try again is decided here.
use crate::error::CoreError;
use crate::store::key::{decode, decode_spec};
use crate::text::{contains_str, has_infix, split_spec, split_str, str_eq, strings_view};
use vstd::prelude::*;

verus! {

/// Milliseconds to wait before each retry: six attempts over about 310 ms.
/// Long enough for a scanner to let go of a file it has just read, short
/// enough that a genuine access-denied still fails promptly.
pub const RETRY_DELAYS_MS: [u64; 5] = [10, 20, 40, 80, 160];

/// Whether a database error message is one of the transient Windows locks:
/// the sharing violation, or the access-denied a delete-pending `CURRENT`
/// reports. Matched on the message because the database layer reduces every
/// status to one. "already in use" is the database's own `LOCK` refusal: it
/// will not clear by waiting and deliberately does not match.
pub open spec fn transient(message: Seq<char>) -> bool {
    has_infix(message, "being used by another process"@) || has_infix(message, "Access is denied"@)
}

/// Whether a database error message is one of the transient Windows locks.
pub fn is_transient_lock(message: &str) -> (r: bool)
    ensures
        r == transient(message@),
{
    contains_str(message, "being used by another process") || contains_str(message, "Access is denied")
}

/// The wait before trying again after attempt `attempt` (counting from 0)
/// failed with `message`: the attempt's delay when the failure is transient
/// and a retry remains, else none.
pub open spec fn retry_delay(attempt: int, message: Seq<char>) -> Option<u64> {
    if 0 <= attempt < 5 && transient(message) {
        Some(RETRY_DELAYS_MS@[attempt])
    } else {
        None
    }
}

/// The wait before trying again after a failed attempt, if any.
pub fn next_wait(attempt: usize, message: &str) -> (r: Option<u64>)
    ensures
        r == retry_delay(attempt as int, message@),
{
    if attempt < 5 && is_transient_lock(message) {
        Some(RETRY_DELAYS_MS[attempt])
    } else {
        None
    }
}

/// Runs `open` past transient locks: each failure [`next_wait`] names a wait
/// for is waited out through `sleep` and tried again; any other outcome, or
/// the attempt after the last wait, is returned as it came.
pub fn retry_with<T, O: FnMut() -> Result<T, String>, S: FnMut(u64)>(open: O, sleep: &mut S) -> (r: Result<T, String>)
    requires
        forall|o: O| call_requires(o, ()),
        forall|s: S, ms: u64| call_requires(s, (ms,)),
    ensures
        exists|o: O| call_ensures(o, (), r),
        (forall|o: O, x: Result<T, String>| #[trigger] call_ensures(o, (), x) ==> !(x matches Err(e) && transient(e@)))
            ==> call_ensures(open, (), r),
{
    let ghost calm = forall|o: O, x: Result<T, String>| #[trigger] call_ensures(o, (), x) ==> !(x matches Err(e) && transient(e@));
    let mut next = open;
    let mut attempt: usize = 0;
    while attempt < 5
        invariant
            attempt <= 5,
            attempt == 0 ==> next == open,
            calm ==> attempt == 0,
            calm == forall|o: O, x: Result<T, String>| #[trigger] call_ensures(o, (), x) ==> !(x matches Err(e) && transient(e@)),
            forall|o: O| call_requires(o, ()),
            forall|s: S, ms: u64| call_requires(s, (ms,)),
        decreases 5 - attempt,
    {
        let ghost before = next;
        let outcome = next();
        assert(call_ensures(before, (), outcome));
        let wait = match &outcome {
            Err(e) => next_wait(attempt, e.as_str()),
            Ok(_) => None,
        };
        match wait {
            Some(ms) => sleep(ms),
            None => return outcome,
        }
        attempt += 1;
    }
    let ghost before = next;
    let last = next();
    assert(call_ensures(before, (), last));
    last
}

// ---------------------------------------------------------------------------
// Reading and removing through the database
// ---------------------------------------------------------------------------

/// The structure ids among some database keys, in key order.
pub open spec fn ids_spec(keys: Seq<Seq<u8>>) -> Seq<Seq<char>>
    decreases keys.len(),
{
    if keys.len() == 0 {
        Seq::empty()
    } else {
        let rest = ids_spec(keys.drop_last());
        match decode_spec(keys.last()) {
            Some(id) => rest.push(id),
            None => rest,
        }
    }
}

/// The structure ids among the keys a database walk yielded.
pub fn structure_ids(keys: &Vec<Vec<u8>>) -> (r: Vec<String>)
    ensures
        strings_view(r@) == ids_spec(Seq::new(keys@.len(), |i: int| keys@[i]@)),
{
    let ghost kv = Seq::new(keys@.len(), |i: int| keys@[i]@);
    let mut out: Vec<String> = Vec::new();
    let mut i: usize = 0;
    while i < keys.len()
        invariant
            i <= keys@.len(),
            kv == Seq::new(keys@.len(), |i: int| keys@[i]@),
            strings_view(out@) == ids_spec(kv.subrange(0, i as int)),
        decreases keys@.len() - i,
    {
        let ghost pre = kv.subrange(0, i as int);
        let ghost cur = kv.subrange(0, i + 1);
        assert(cur.drop_last() =~= pre);
        assert(cur.last() == keys@[i as int]@);
        match decode(keys[i].as_slice()) {
            Some(id) => {
                let ghost before = strings_view(out@);
                out.push(id);
                assert(strings_view(out@) =~= before.push(out@[out@.len() - 1]@));
            },
            None => {},
        }
        i += 1;
    }
    assert(kv.subrange(0, keys@.len() as int) =~= kv);
    out
}

/// The structure ids and value lengths among `(key, value length)` pairs.
pub open spec fn sizes_spec(kv: Seq<(Seq<u8>, u64)>) -> Seq<(Seq<char>, u64)>
    decreases kv.len(),
{
    if kv.len() == 0 {
        Seq::empty()
    } else {
        let rest = sizes_spec(kv.drop_last());
        match decode_spec(kv.last().0) {
            Some(id) => rest.push((id, kv.last().1)),
            None => rest,
        }
    }
}

/// Every structure id a database walk yielded, with its value's length.
pub fn structure_sizes(kv: &Vec<(Vec<u8>, u64)>) -> (r: Vec<(String, u64)>)
    ensures
        Seq::new(r@.len(), |i: int| (r@[i].0@, r@[i].1)) == sizes_spec(
            Seq::new(kv@.len(), |i: int| (kv@[i].0@, kv@[i].1)),
        ),
{
    let ghost all = Seq::new(kv@.len(), |i: int| (kv@[i].0@, kv@[i].1));
    let mut out: Vec<(String, u64)> = Vec::new();
    let mut i: usize = 0;
    while i < kv.len()
        invariant
            i <= kv@.len(),
            all == Seq::new(kv@.len(), |i: int| (kv@[i].0@, kv@[i].1)),
            Seq::new(out@.len(), |j: int| (out@[j].0@, out@[j].1)) == sizes_spec(all.subrange(0, i as int)),
        decreases kv@.len() - i,
    {
        let ghost pre = all.subrange(0, i as int);
        let ghost cur = all.subrange(0, i + 1);
        assert(cur.drop_last() =~= pre);
        assert(cur.last() == (kv@[i as int].0@, kv@[i as int].1));
        let ghost before = Seq::new(out@.len(), |j: int| (out@[j].0@, out@[j].1));
        match decode(kv[i].0.as_slice()) {
            Some(id) => {
                out.push((id, kv[i].1));
                assert(Seq::new(out@.len(), |j: int| (out@[j].0@, out@[j].1)) =~= before.push(
                    (out@[out@.len() - 1].0@, kv@[i as int].1),
                ));
            },
            None => {},
        }
        i += 1;
    }
    assert(all.subrange(0, kv@.len() as int) =~= all);
    out
}

/// Which of an id's candidate keys to remove: the first that a read found
/// present, given for each candidate in order whether it was. None means the
/// id is not stored, and nothing is removed.
pub fn key_to_remove(present: &Vec<bool>) -> (r: Option<usize>)
    ensures
        match r {
            Some(i) => i < present@.len() && present@[i as int] && forall|j: int| 0 <= j < i ==> !present@[j],
            None => forall|j: int| 0 <= j < present@.len() ==> !present@[j],
        },
{
    let mut i: usize = 0;
    while i < present.len()
        invariant
            i <= present@.len(),
            forall|j: int| 0 <= j < i ==> !present@[j],
        decreases present@.len() - i,
    {
        if present[i] {
            return Some(i);
        }
        i += 1;
    }
    None
}

/// The reason given when a removed key is still there afterwards.
pub open spec fn still_present_reason(id: Seq<char>) -> Seq<char> {
    id + " was still present after being removed"@
}

/// Checks the read made after removing `id`'s key. The database reports
/// success for a delete that did nothing, so only this read shows that the
/// removal happened.
pub fn confirm_removed(id: &str, still_there: bool) -> (r: Result<bool, CoreError>)
    ensures
        r is Ok <==> !still_there,
        r matches Ok(b) ==> b,
        r matches Err(e) ==> (e matches CoreError::Db(m) && m@ == still_present_reason(id@)),
{
    if still_there {
        let mut m = String::from_str(id);
        m.append(" was still present after being removed");
        return Err(CoreError::Db(m));
    }
    Ok(true)
}

/// The `/`-separated components of `base` begin those of `path`.
pub open spec fn under_spec(path: Seq<char>, base: Seq<char>) -> bool {
    let p = split_spec(path, '/');
    let b = split_spec(base, '/');
    b.len() <= p.len() && p.subrange(0, b.len() as int) == b
}

/// Whether the canonical `path` lies in the canonical directory `base`,
/// compared component by component as `Path::starts_with` does for
/// canonical paths: `/tmpx` is not under `/tmp`.
pub fn is_under(path: &str, base: &str) -> (r: bool)
    ensures
        r == under_spec(path@, base@),
{
    let p = split_str(path, '/');
    let b = split_str(base, '/');
    let ghost pv = strings_view(p@);
    let ghost bv = strings_view(b@);
    if b.len() > p.len() {
        return false;
    }
    let mut i: usize = 0;
    while i < b.len()
        invariant
            i <= b@.len() <= p@.len(),
            pv == strings_view(p@),
            bv == strings_view(b@),
            pv == split_spec(path@, '/'),
            bv == split_spec(base@, '/'),
            forall|j: int| 0 <= j < i ==> pv[j] == bv[j],
        decreases b@.len() - i,
    {
        if !str_eq(p[i].as_str(), b[i].as_str()) {
            assert(pv.subrange(0, bv.len() as int)[i as int] != bv[i as int]);
            return false;
        }
        i += 1;
    }
    assert(pv.subrange(0, bv.len() as int) =~= bv);
    true
}

} // verus!
