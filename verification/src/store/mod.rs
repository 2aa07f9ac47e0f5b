//! Read access to a world's structures, and an in-memory store.
pub mod bedrock;
pub mod key;
pub mod snapshot;

use crate::error::CoreError;
use crate::store::key::{qualify, qualify_spec};
use crate::text::{seq_lt, str_lt, strings_view, lemma_seq_lt_irreflexive, lemma_seq_lt_total, lemma_seq_lt_transitive};
use vstd::prelude::*;

verus! {

broadcast use vstd::std_specs::vec::group_vec_axioms;

/// The length a `sizes` listing reports for a value: its byte count, or 0
/// where the id has no value.
pub open spec fn value_size(v: Option<Seq<u8>>) -> u64 {
    match v {
        Some(b) => b.len() as u64,
        None => 0,
    }
}

/// The store vouches for listing its ids and for fetching every listed id.
pub open spec fn reads_all<S: StructureStore + ?Sized>(store: &S) -> bool {
    store.lists() && forall|i: int| 0 <= i < store.id_list().len() ==> #[trigger] store.reads(store.id_list()[i])
}

/// Read access to a world's structures.
///
/// A trait rather than a concrete type so the database backend can be
/// replaced.
pub trait StructureStore {
    /// The ids the store holds, in the order `ids` lists them.
    spec fn id_list(&self) -> Seq<Seq<char>>;

    /// The bytes `get` finds for `id` (bare or qualified), if any.
    spec fn value_of(&self, id: Seq<char>) -> Option<Seq<u8>>;

    /// The store vouches that listing its ids succeeds.
    spec fn lists(&self) -> bool;

    /// The store vouches that fetching `id` succeeds.
    spec fn reads(&self, id: Seq<char>) -> bool;

    /// Every structure id in the store, qualified (`mystructure:house`).
    fn ids(&self) -> (r: Result<Vec<String>, CoreError>)
        ensures
            r matches Ok(v) ==> strings_view(v@) == self.id_list(),
            self.lists() ==> r is Ok,
    ;

    /// The raw bytes of one structure, byte-identical to a `.mcstructure`
    /// file. `id` may be bare or qualified.
    fn get(&self, id: &str) -> (r: Result<Option<Vec<u8>>, CoreError>)
        ensures
            r matches Ok(found) ==> (match found {
                Some(b) => self.value_of(id@) == Some(b@),
                None => self.value_of(id@) is None,
            }),
            self.reads(id@) ==> r is Ok,
    ;

    /// Every structure id with the byte length of its value, in the order
    /// `ids` lists them.
    fn sizes(&self) -> (r: Result<Vec<(String, u64)>, CoreError>)
        ensures
            r matches Ok(v) ==> {
                &&& v@.len() == self.id_list().len()
                &&& forall|i: int| 0 <= i < v@.len() ==> (#[trigger] v@[i]).0@ == self.id_list()[i]
                    && v@[i].1 == value_size(self.value_of(self.id_list()[i]))
            },
            self.lists() && (forall|i: int| 0 <= i < self.id_list().len() ==> #[trigger] self.reads(self.id_list()[i]))
                ==> r is Ok,
    {
        let ids = match self.ids() {
            Ok(v) => v,
            Err(e) => {
                assert(!self.lists());
                return Err(e);
            },
        };
        let mut out: Vec<(String, u64)> = Vec::new();
        let mut i: usize = 0;
        while i < ids.len()
            invariant
                i <= ids@.len(),
                strings_view(ids@) == self.id_list(),
                out@.len() == i,
                forall|j: int| 0 <= j < i ==> (#[trigger] out@[j]).0@ == self.id_list()[j]
                    && out@[j].1 == value_size(self.value_of(self.id_list()[j])),
            decreases ids@.len() - i,
        {
            assert(ids@[i as int]@ == self.id_list()[i as int]);
            let len: u64 = match self.get(ids[i].as_str()) {
                Ok(Some(b)) => b.len() as u64,
                Ok(None) => 0,
                Err(e) => {
                    assert(self.reads(self.id_list()[i as int]) ==> false);
                    return Err(e);
                },
            };
            out.push((ids[i].clone(), len));
            i += 1;
        }
        Ok(out)
    }
}

/// Keys strictly increase, so each id appears once.
pub open spec fn keys_sorted(s: Seq<(String, Vec<u8>)>) -> bool {
    forall|i: int, j: int| 0 <= i < j < s.len() ==> seq_lt(s[i].0@, s[j].0@)
}

/// The bytes stored under `key`: those of the first entry with that id.
pub open spec fn stored(s: Seq<(String, Vec<u8>)>, key: Seq<char>) -> Option<Seq<u8>>
    decreases s.len(),
{
    if s.len() == 0 {
        None
    } else if s[0].0@ == key {
        Some(s[0].1@)
    } else {
        stored(s.drop_first(), key)
    }
}

proof fn lemma_stored_first(s: Seq<(String, Vec<u8>)>, key: Seq<char>, i: int)
    requires
        0 <= i < s.len(),
        s[i].0@ == key,
        forall|j: int| 0 <= j < i ==> s[j].0@ != key,
    ensures
        stored(s, key) == Some(s[i].1@),
    decreases i,
{
    if i > 0 {
        assert forall|j: int| 0 <= j < i - 1 implies (#[trigger] s.drop_first()[j]).0@ != key by {
            assert(s.drop_first()[j] == s[j + 1]);
        }
        lemma_stored_first(s.drop_first(), key, i - 1);
    }
}

proof fn lemma_stored_none(s: Seq<(String, Vec<u8>)>, key: Seq<char>)
    requires
        forall|j: int| 0 <= j < s.len() ==> s[j].0@ != key,
    ensures
        stored(s, key) is None,
    decreases s.len(),
{
    if s.len() > 0 {
        assert forall|j: int| 0 <= j < s.len() - 1 implies (#[trigger] s.drop_first()[j]).0@ != key by {
            assert(s.drop_first()[j] == s[j + 1]);
        }
        lemma_stored_none(s.drop_first(), key);
    }
}

/// An in-memory store, for everything above the database layer: entries
/// sorted by id, each id once.
#[derive(Debug)]
pub struct MemoryStore(pub Vec<(String, Vec<u8>)>);

/// The bytes the last of `entries` naming `key` (once qualified) carries.
pub open spec fn last_with(entries: Seq<(&str, &[u8])>, key: Seq<char>) -> Option<Seq<u8>>
    decreases entries.len(),
{
    if entries.len() == 0 {
        None
    } else if qualify_spec(entries.last().0@) == key {
        Some(entries.last().1@)
    } else {
        last_with(entries.drop_last(), key)
    }
}

proof fn lemma_stored_at(s: Seq<(String, Vec<u8>)>, i: int)
    requires
        keys_sorted(s),
        0 <= i < s.len(),
    ensures
        stored(s, s[i].0@) == Some(s[i].1@),
{
    assert forall|j: int| 0 <= j < i implies s[j].0@ != s[i].0@ by {
        lemma_seq_lt_irreflexive(s[i].0@);
    }
    lemma_stored_first(s, s[i].0@, i);
}

proof fn lemma_stored_absent(s: Seq<(String, Vec<u8>)>, key: Seq<char>)
    requires
        !exists|i: int| 0 <= i < s.len() && s[i].0@ == key,
    ensures
        stored(s, key) is None,
{
    assert forall|j: int| 0 <= j < s.len() implies s[j].0@ != key by {
        if s[j].0@ == key {
            assert(exists|i: int| 0 <= i < s.len() && s[i].0@ == key);
        }
    }
    lemma_stored_none(s, key);
}

fn copy_bytes(b: &[u8]) -> (r: Vec<u8>)
    ensures
        r@ == b@,
{
    crate::text::concat_bytes(b, &[])
}

fn key_before(s: &Vec<(String, Vec<u8>)>, p: usize, k: &String) -> (r: bool)
    ensures
        r == (p < s@.len() && seq_lt(s@[p as int].0@, k@)),
{
    if p < s.len() {
        str_lt(s[p].0.as_str(), k.as_str())
    } else {
        false
    }
}

/// Stores `v` under `k`, replacing what was there and keeping ids sorted.
fn put_entry(s: &mut Vec<(String, Vec<u8>)>, k: String, v: Vec<u8>)
    requires
        keys_sorted(old(s)@),
    ensures
        keys_sorted(final(s)@),
        forall|key: Seq<char>| #[trigger] stored(final(s)@, key) == if key == k@ {
            Some(v@)
        } else {
            stored(old(s)@, key)
        },
{
    let ghost old_s = s@;
    let ghost kv = k@;
    let ghost vv = v@;
    let n: usize = s.len();
    let mut p: usize = 0;
    let mut more = key_before(s, 0, &k);
    while more
        invariant
            n == s@.len(),
            p <= s@.len(),
            old_s == s@,
            kv == k@,
            keys_sorted(old_s),
            more == (p < s@.len() && seq_lt(s@[p as int].0@, kv)),
            forall|j: int| 0 <= j < p ==> seq_lt(#[trigger] old_s[j].0@, kv),
        decreases s@.len() - p,
    {
        p += 1;
        more = key_before(s, p, &k);
    }
    if p < s.len() && s[p].0 == k {
        s.set(p, (k, v));
        let ghost new_s = s@;
        assert(new_s =~= old_s.update(p as int, (new_s[p as int].0, new_s[p as int].1)));
        proof {
            assert forall|key: Seq<char>| #[trigger] stored(new_s, key) == if key == kv { Some(vv) } else { stored(old_s, key) } by {
                assert(keys_sorted(new_s)) by {
                    assert forall|i: int, j: int| 0 <= i < j < new_s.len() implies seq_lt(new_s[i].0@, new_s[j].0@) by {
                        assert(new_s[i].0@ == old_s[i].0@ && new_s[j].0@ == old_s[j].0@);
                    }
                }
                lemma_stored_at(new_s, p as int);
                if key != kv {
                    if exists|i: int| 0 <= i < new_s.len() && new_s[i].0@ == key {
                        let i = choose|i: int| 0 <= i < new_s.len() && new_s[i].0@ == key;
                        lemma_stored_at(new_s, i);
                        lemma_stored_at(old_s, i);
                    } else {
                        assert forall|i: int| 0 <= i < old_s.len() implies old_s[i].0@ != key by {
                            assert(new_s[i].0@ == old_s[i].0@);
                        }
                        lemma_stored_none(old_s, key);
                        lemma_stored_absent(new_s, key);
                    }
                }
            }
        }
    } else {
        proof {
            if p < old_s.len() {
                assert(!seq_lt(old_s[p as int].0@, kv));
                assert(old_s[p as int].0@ != kv);
                lemma_seq_lt_total(old_s[p as int].0@, kv);
            }
        }
        s.insert(p, (k, v));
        let ghost new_s = s@;
        assert(new_s[p as int].0@ == kv);
        assert forall|i: int, j: int| 0 <= i < j < new_s.len() implies seq_lt(new_s[i].0@, new_s[j].0@) by {
            if j < p {
                assert(new_s[i] == old_s[i] && new_s[j] == old_s[j]);
            } else if j == p {
                assert(new_s[i] == old_s[i]);
            } else if i < p {
                assert(new_s[i] == old_s[i] && new_s[j] == old_s[j - 1]);
                assert(seq_lt(old_s[i].0@, kv));
                if j - 1 > p {
                    lemma_seq_lt_transitive(kv, old_s[p as int].0@, old_s[j - 1].0@);
                }
                lemma_seq_lt_transitive(old_s[i].0@, kv, old_s[j - 1].0@);
            } else if i == p {
                assert(new_s[j] == old_s[j - 1]);
                if j - 1 > p {
                    lemma_seq_lt_transitive(kv, old_s[p as int].0@, old_s[j - 1].0@);
                }
            } else {
                assert(new_s[i] == old_s[i - 1] && new_s[j] == old_s[j - 1]);
            }
        }
        assert forall|key: Seq<char>| #[trigger] stored(new_s, key) == if key == kv { Some(vv) } else { stored(old_s, key) } by {
            lemma_stored_at(new_s, p as int);
            if key != kv {
                if exists|i: int| 0 <= i < new_s.len() && new_s[i].0@ == key {
                    let i = choose|i: int| 0 <= i < new_s.len() && new_s[i].0@ == key;
                    lemma_stored_at(new_s, i);
                    if i < p {
                        assert(new_s[i] == old_s[i]);
                        lemma_stored_at(old_s, i);
                    } else {
                        assert(new_s[i] == old_s[i - 1]);
                        lemma_stored_at(old_s, i - 1);
                    }
                } else {
                    assert forall|i: int| 0 <= i < old_s.len() implies old_s[i].0@ != key by {
                        if i < p {
                            assert(new_s[i] == old_s[i]);
                        } else {
                            assert(new_s[i + 1] == old_s[i]);
                        }
                    }
                    lemma_stored_none(old_s, key);
                    lemma_stored_absent(new_s, key);
                }
            }
        }
    }
}

impl MemoryStore {
    /// A store holding `entries`, each id qualified; a later entry for the
    /// same id replaces an earlier one.
    pub fn with(entries: &[(&str, &[u8])]) -> (r: Self)
        ensures
            keys_sorted(r.0@),
            forall|key: Seq<char>| #[trigger] stored(r.0@, key) == last_with(entries@, key),
    {
        let mut out: Vec<(String, Vec<u8>)> = Vec::new();
        let mut i: usize = 0;
        while i < entries.len()
            invariant
                i <= entries@.len(),
                keys_sorted(out@),
                forall|key: Seq<char>| #[trigger] stored(out@, key) == last_with(entries@.subrange(0, i as int), key),
            decreases entries@.len() - i,
        {
            let (name, bytes) = entries[i];
            let k = qualify(name);
            put_entry(&mut out, k, copy_bytes(bytes));
            proof {
                let pre = entries@.subrange(0, i + 1);
                assert(pre.drop_last() =~= entries@.subrange(0, i as int));
                assert(pre.last() == entries@[i as int]);
            }
            i += 1;
        }
        assert(entries@.subrange(0, entries@.len() as int) =~= entries@);
        MemoryStore(out)
    }

    /// The stored bytes under `key` exactly.
    fn lookup(&self, key: &str) -> (r: Option<Vec<u8>>)
        ensures
            match r {
                Some(b) => stored(self.0@, key@) == Some(b@),
                None => stored(self.0@, key@) is None,
            },
    {
        let mut i: usize = 0;
        while i < self.0.len()
            invariant
                i <= self.0@.len(),
                forall|j: int| 0 <= j < i ==> self.0@[j].0@ != key@,
            decreases self.0@.len() - i,
        {
            if crate::text::str_eq(self.0[i].0.as_str(), key) {
                proof {
                    lemma_stored_first(self.0@, key@, i as int);
                }
                return Some(copy_bytes(self.0[i].1.as_slice()));
            }
            i += 1;
        }
        proof {
            lemma_stored_none(self.0@, key@);
        }
        None
    }
}

impl StructureStore for MemoryStore {
    open spec fn id_list(&self) -> Seq<Seq<char>> {
        Seq::new(self.0@.len(), |i: int| self.0@[i].0@)
    }

    open spec fn lists(&self) -> bool {
        true
    }

    open spec fn reads(&self, id: Seq<char>) -> bool {
        true
    }

    open spec fn value_of(&self, id: Seq<char>) -> Option<Seq<u8>> {
        if stored(self.0@, qualify_spec(id)) is Some {
            stored(self.0@, qualify_spec(id))
        } else {
            stored(self.0@, id)
        }
    }

    fn ids(&self) -> (r: Result<Vec<String>, CoreError>)
        ensures
            r matches Ok(v) && strings_view(v@) == Seq::new(self.0@.len(), |i: int| self.0@[i].0@),
    {
        let mut out: Vec<String> = Vec::new();
        let mut i: usize = 0;
        while i < self.0.len()
            invariant
                i <= self.0@.len(),
                strings_view(out@) == Seq::new(i as nat, |j: int| self.0@[j].0@),
            decreases self.0@.len() - i,
        {
            let ghost before = out@;
            let c = self.0[i].0.clone();
            out.push(c);
            assert(strings_view(out@) =~= strings_view(before).push(self.0@[i as int].0@));
            i += 1;
            assert(strings_view(out@) =~= Seq::new(i as nat, |j: int| self.0@[j].0@));
        }
        Ok(out)
    }

    fn get(&self, id: &str) -> (r: Result<Option<Vec<u8>>, CoreError>)
        ensures
            r matches Ok(found) && match found {
                Some(b) => Some(b@) == if stored(self.0@, qualify_spec(id@)) is Some {
                    stored(self.0@, qualify_spec(id@))
                } else {
                    stored(self.0@, id@)
                },
                None => stored(self.0@, qualify_spec(id@)) is None && stored(self.0@, id@) is None,
            },
    {
        let q = qualify(id);
        match self.lookup(q.as_str()) {
            Some(b) => Ok(Some(b)),
            None => Ok(self.lookup(id)),
        }
    }
}

} // verus!
