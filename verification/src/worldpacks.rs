//! `world_behavior_packs.json` and `world_resource_packs.json`.
//!
//! Flat arrays of `{ pack_id, version }`. The game matches development packs
//! by UUID and leaves a stale version in place across an upgrade, so an
//! upsert keys on `pack_id` alone. Reading and writing the JSON is the
//! caller's; the list's rules are here.
use crate::discovery::World;
use crate::text::{join_path, join_spec, str_eq};
use vstd::prelude::*;

verus! {

#[derive(Debug, PartialEq, Eq)]
pub struct PackRef {
    pub pack_id: String,
    pub version: [u32; 3],
}

pub struct PackRefV {
    pub pack_id: Seq<char>,
    pub version: Seq<u32>,
}

impl View for PackRef {
    type V = PackRefV;

    open spec fn view(&self) -> PackRefV {
        PackRefV { pack_id: self.pack_id@, version: self.version@ }
    }
}

impl Clone for PackRef {
    fn clone(&self) -> (r: Self)
        ensures
            r@ == self@,
    {
        PackRef { pack_id: self.pack_id.clone(), version: self.version }
    }
}

pub open spec fn refs_view(s: Seq<PackRef>) -> Seq<PackRefV> {
    Seq::new(s.len(), |i: int| s[i]@)
}

pub fn behavior_path(world: &World) -> (r: String)
    ensures
        r@ == join_spec(world.path@, "world_behavior_packs.json"@),
{
    join_path(world.path.as_str(), "world_behavior_packs.json")
}

pub fn resource_path(world: &World) -> (r: String)
    ensures
        r@ == join_spec(world.path@, "world_resource_packs.json"@),
{
    join_path(world.path.as_str(), "world_resource_packs.json")
}

/// The index of the first entry for `id`, or the length.
pub open spec fn ref_pos(s: Seq<PackRefV>, id: Seq<char>) -> int
    decreases s.len(),
{
    if s.len() == 0 {
        0
    } else if s[0].pack_id == id {
        0
    } else {
        1 + ref_pos(s.drop_first(), id)
    }
}

proof fn lemma_ref_pos(s: Seq<PackRefV>, id: Seq<char>, i: int)
    requires
        0 <= i <= s.len(),
        forall|j: int| 0 <= j < i ==> #[trigger] s[j].pack_id != id,
        i < s.len() ==> s[i].pack_id == id,
    ensures
        ref_pos(s, id) == i,
    decreases i,
{
    if i > 0 {
        assert forall|j: int| 0 <= j < i - 1 implies #[trigger] s.drop_first()[j].pack_id != id by {
            assert(s.drop_first()[j] == s[j + 1]);
        }
        if i < s.len() {
            assert(s.drop_first()[i - 1] == s[i]);
        }
        assert(s[0].pack_id != id);
        lemma_ref_pos(s.drop_first(), id, i - 1);
    }
}

/// The list with `entry` in it: the first entry for its pack replaced in
/// place, or `entry` added at the end.
pub open spec fn upsert_spec(s: Seq<PackRefV>, entry: PackRefV) -> Seq<PackRefV> {
    let p = ref_pos(s, entry.pack_id);
    if p < s.len() {
        s.update(p, entry)
    } else {
        s.push(entry)
    }
}

/// Adds or replaces one entry, keyed on `pack_id`. Returns whether anything
/// changed: an identical entry already there leaves the list, and so the
/// file, untouched.
pub fn upsert(packs: &mut Vec<PackRef>, entry: PackRef) -> (changed: bool)
    ensures
        ({
            let before = refs_view(old(packs)@);
            let p = ref_pos(before, entry@.pack_id);
            &&& changed <==> !(p < before.len() && before[p] == entry@)
            &&& refs_view(final(packs)@) == upsert_spec(before, entry@)
        }),
{
    let ghost before = refs_view(packs@);
    let mut i: usize = 0;
    while i < packs.len()
        invariant
            i <= packs@.len(),
            before == refs_view(packs@),
            packs@ == old(packs)@,
            forall|j: int| 0 <= j < i ==> #[trigger] before[j].pack_id != entry@.pack_id,
        decreases packs@.len() - i,
    {
        if str_eq(packs[i].pack_id.as_str(), entry.pack_id.as_str()) {
            proof {
                lemma_ref_pos(before, entry@.pack_id, i as int);
            }
            let same = packs[i].version[0] == entry.version[0] && packs[i].version[1]
                == entry.version[1] && packs[i].version[2] == entry.version[2];
            if same {
                assert(before[i as int] == entry@) by {
                    assert(packs@[i as int].version@ =~= entry.version@);
                }
                assert(packs@ == old(packs)@);
                assert(upsert_spec(before, entry@) =~= before);
                return false;
            }
            assert(before[i as int] != entry@) by {
                if before[i as int] == entry@ {
                    assert(packs@[i as int].version@[0] == entry.version@[0]);
                    assert(packs@[i as int].version@[1] == entry.version@[1]);
                    assert(packs@[i as int].version@[2] == entry.version@[2]);
                }
            }
            let ghost ev = entry@;
            packs.set(i, entry);
            assert(refs_view(packs@) =~= before.update(i as int, ev));
            return true;
        }
        i += 1;
    }
    proof {
        lemma_ref_pos(before, entry@.pack_id, i as int);
    }
    let ghost ev = entry@;
    packs.push(entry);
    assert(refs_view(packs@) =~= before.push(ev));
    true
}

/// After an upsert the pack's entry is the one given, and a second upsert of
/// it changes nothing.
pub proof fn lemma_upsert_then_same(s: Seq<PackRefV>, entry: PackRefV)
    ensures
        ref_pos(upsert_spec(s, entry), entry.pack_id) < upsert_spec(s, entry).len(),
        upsert_spec(s, entry)[ref_pos(upsert_spec(s, entry), entry.pack_id)] == entry,
        upsert_spec(upsert_spec(s, entry), entry) == upsert_spec(s, entry),
{
    let p = ref_pos(s, entry.pack_id);
    let u = upsert_spec(s, entry);
    lemma_ref_pos_facts(s, entry.pack_id);
    if p < s.len() {
        assert forall|j: int| 0 <= j < p implies #[trigger] u[j].pack_id != entry.pack_id by {
            assert(u[j] == s[j]);
        }
        lemma_ref_pos(u, entry.pack_id, p);
    } else {
        assert forall|j: int| 0 <= j < s.len() implies #[trigger] u[j].pack_id != entry.pack_id by {
            assert(u[j] == s[j]);
        }
        lemma_ref_pos(u, entry.pack_id, s.len() as int);
    }
    let q = ref_pos(u, entry.pack_id);
    assert(u.update(q, entry) =~= u);
}

/// An upsert leaves every other pack's entry as it was, in its place.
pub proof fn lemma_upsert_keeps_others(s: Seq<PackRefV>, entry: PackRefV, j: int)
    requires
        0 <= j < s.len(),
        j != ref_pos(s, entry.pack_id),
    ensures
        upsert_spec(s, entry)[j] == s[j],
{
    lemma_ref_pos_facts(s, entry.pack_id);
}

proof fn lemma_ref_pos_facts(s: Seq<PackRefV>, id: Seq<char>)
    ensures
        0 <= ref_pos(s, id) <= s.len(),
        forall|j: int| 0 <= j < ref_pos(s, id) ==> #[trigger] s[j].pack_id != id,
        ref_pos(s, id) < s.len() ==> s[ref_pos(s, id)].pack_id == id,
    decreases s.len(),
{
    if s.len() > 0 && s[0].pack_id != id {
        lemma_ref_pos_facts(s.drop_first(), id);
        assert forall|j: int| 0 <= j < ref_pos(s, id) implies #[trigger] s[j].pack_id != id by {
            if j > 0 {
                assert(s[j] == s.drop_first()[j - 1]);
            }
        }
    }
}

} // verus!
