//! One structure namespace over every place a structure can live.
//!
//! Construct presents world and pack structures as a single in-game list, so
//! the CLI does too. [`Source`] is the one axis saying which place a row came
//! from: the world's database, a pack serving that world alone, or the shared
//! copy serving every world using it.
use crate::error::CoreError;
use crate::pack::structures::{PackStructure, PackStructureV};
use crate::store::key::{display_name, display_name_spec, qualify, qualify_spec};
use crate::store::{reads_all, value_size, StructureStore};
use crate::text::{
    contains_str, has_infix, lemma_seq_lt_asymmetric, lemma_seq_lt_irreflexive, lemma_seq_lt_total,
    lemma_seq_lt_transitive, lowercase, seq_lt, str_lt, strings_view, to_lower,
};
use vstd::prelude::*;

verus! {

broadcast use vstd::std_specs::vec::group_vec_axioms;

/// Where a structure lives: the single axis `--source` selects on.
///
/// Ordered as declared: database, world's own pack, shared copy.
#[derive(Debug, Clone, Copy, PartialEq, Eq, Structural, PartialOrd, Ord)]
pub enum Source {
    /// The world's own leveldb database.
    WorldDb,
    /// A pack serving this world alone.
    WorldPack,
    /// The shared copy of Construct serving every world using it.
    SharedPack,
}

/// The `--source` spelling of each source.
pub open spec fn source_name(s: Source) -> Seq<char> {
    match s {
        Source::WorldDb => "world-db"@,
        Source::WorldPack => "world-pack"@,
        Source::SharedPack => "shared-pack"@,
    }
}

impl Source {
    /// The position of a source in the declared order.
    pub open spec fn rank(self) -> int {
        match self {
            Source::WorldDb => 0,
            Source::WorldPack => 1,
            Source::SharedPack => 2,
        }
    }

    /// The JSON `source` value, spelled like the `--source` value selecting it.
    pub fn as_str(&self) -> (r: &'static str)
        ensures
            r@ == source_name(*self),
    {
        match self {
            Source::WorldDb => "world-db",
            Source::WorldPack => "world-pack",
            Source::SharedPack => "shared-pack",
        }
    }

    /// Whether the bytes are a file in a pack rather than a database value.
    pub fn is_pack(&self) -> (r: bool)
        ensures
            r == (*self != Source::WorldDb),
    {
        match self {
            Source::WorldDb => false,
            Source::WorldPack => true,
            Source::SharedPack => true,
        }
    }

    fn rank_of(&self) -> (r: u8)
        ensures
            r == self.rank(),
    {
        match self {
            Source::WorldDb => 0,
            Source::WorldPack => 1,
            Source::SharedPack => 2,
        }
    }
}

/// One structure, from one source.
#[derive(Debug, PartialEq, Eq)]
pub struct Entry {
    /// What the user types and sees: bare for `mystructure`, qualified otherwise.
    pub name: String,
    /// The fully qualified id, always carrying a namespace.
    pub id: String,
    pub source: Source,
    pub size_bytes: u64,
    /// Where the bytes live, for a pack source; `None` for the database.
    pub path: Option<String>,
}

pub struct EntryV {
    pub name: Seq<char>,
    pub id: Seq<char>,
    pub source: Source,
    pub size_bytes: u64,
    pub path: Option<Seq<char>>,
}

pub open spec fn opt_view(p: Option<String>) -> Option<Seq<char>> {
    match p {
        Some(s) => Some(s@),
        None => None,
    }
}

impl View for Entry {
    type V = EntryV;

    open spec fn view(&self) -> EntryV {
        EntryV {
            name: self.name@,
            id: self.id@,
            source: self.source,
            size_bytes: self.size_bytes,
            path: opt_view(self.path),
        }
    }
}

fn copy_opt(p: &Option<String>) -> (r: Option<String>)
    ensures
        opt_view(r) == opt_view(*p),
{
    match p {
        Some(s) => Some(s.clone()),
        None => None,
    }
}

impl Clone for Entry {
    fn clone(&self) -> (r: Self)
        ensures
            r@ == self@,
    {
        Entry {
            name: self.name.clone(),
            id: self.id.clone(),
            source: self.source,
            size_bytes: self.size_bytes,
            path: copy_opt(&self.path),
        }
    }
}

pub open spec fn entries_view(s: Seq<Entry>) -> Seq<EntryV> {
    Seq::new(s.len(), |i: int| s[i]@)
}

/// `a` comes before `b`: by name, then by source.
pub open spec fn entry_before(a: EntryV, b: EntryV) -> bool {
    seq_lt(a.name, b.name) || (a.name == b.name && a.source.rank() < b.source.rank())
}

/// Where `x` goes in the ordered `s`: before the first entry it precedes.
pub open spec fn insert_pos(s: Seq<EntryV>, x: EntryV) -> int
    decreases s.len(),
{
    if s.len() == 0 {
        0
    } else if entry_before(x, s[0]) {
        0
    } else {
        1 + insert_pos(s.drop_first(), x)
    }
}

/// `s` ordered by name then source, entries that tie keeping their order.
pub open spec fn sorted_entries(s: Seq<EntryV>) -> Seq<EntryV>
    decreases s.len(),
{
    if s.len() == 0 {
        Seq::empty()
    } else {
        let t = sorted_entries(s.drop_last());
        t.insert(insert_pos(t, s.last()), s.last())
    }
}

fn before(a: &Entry, b: &Entry) -> (r: bool)
    ensures
        r == entry_before(a@, b@),
{
    str_lt(a.name.as_str(), b.name.as_str()) || (a.name == b.name && a.source.rank_of() < b.source.rank_of())
}

proof fn lemma_insert_pos_bound(s: Seq<EntryV>, x: EntryV)
    ensures
        0 <= insert_pos(s, x) <= s.len(),
    decreases s.len(),
{
    if s.len() > 0 && !entry_before(x, s[0]) {
        lemma_insert_pos_bound(s.drop_first(), x);
    }
}

fn find_insert_pos(out: &Vec<Entry>, x: &Entry) -> (r: usize)
    ensures
        r == insert_pos(entries_view(out@), x@),
{
    let ghost s = entries_view(out@);
    assert(s.subrange(0, s.len() as int) =~= s);
    let mut j: usize = 0;
    while j < out.len()
        invariant
            j <= out@.len(),
            s == entries_view(out@),
            insert_pos(s, x@) == j + insert_pos(s.subrange(j as int, s.len() as int), x@),
        decreases out@.len() - j,
    {
        let ghost rest = s.subrange(j as int, s.len() as int);
        assert(rest[0] == out@[j as int]@);
        if before(x, &out[j]) {
            return j;
        }
        assert(rest.drop_first() =~= s.subrange(j + 1, s.len() as int));
        j += 1;
    }
    assert(s.subrange(j as int, s.len() as int) =~= Seq::<EntryV>::empty());
    j
}

/// Orders entries by name, then source, so entries sharing a display name
/// across sources have a stated order.
pub fn sort(entries: &mut Vec<Entry>)
    ensures
        entries_view(final(entries)@) == sorted_entries(entries_view(old(entries)@)),
{
    let ghost src = entries_view(entries@);
    let mut out: Vec<Entry> = Vec::new();
    let mut i: usize = 0;
    while i < entries.len()
        invariant
            i <= entries@.len(),
            src == entries_view(entries@),
            entries_view(out@) == sorted_entries(src.subrange(0, i as int)),
        decreases entries@.len() - i,
    {
        let e = entries[i].clone();
        let pos = find_insert_pos(&out, &e);
        let ghost before_out = entries_view(out@);
        proof {
            lemma_insert_pos_bound(before_out, e@);
        }
        out.insert(pos, e);
        assert(src.subrange(0, i + 1).drop_last() =~= src.subrange(0, i as int));
        assert(src.subrange(0, i + 1).last() == src[i as int]);
        assert(entries_view(out@) =~= before_out.insert(pos as int, src[i as int]));
        i += 1;
    }
    assert(src.subrange(0, src.len() as int) =~= src);
    *entries = out;
}


/// No later entry comes before an earlier one.
pub open spec fn entries_ordered(s: Seq<EntryV>) -> bool {
    forall|i: int, j: int| 0 <= i < j < s.len() ==> !entry_before(s[j], s[i])
}

proof fn lemma_before_order(a: EntryV, b: EntryV, c: EntryV)
    ensures
        !entry_before(a, a),
        entry_before(a, b) ==> !entry_before(b, a),
        entry_before(a, b) && !entry_before(c, b) ==> entry_before(a, c),
        !entry_before(a, b) && !entry_before(b, c) ==> !entry_before(a, c),
{
    lemma_seq_lt_irreflexive(a.name);
    lemma_seq_lt_asymmetric(a.name, b.name);
    if a.name != b.name {
        lemma_seq_lt_total(a.name, b.name);
    }
    if b.name != c.name {
        lemma_seq_lt_total(b.name, c.name);
    }
    if a.name != c.name {
        lemma_seq_lt_total(a.name, c.name);
    }
    if seq_lt(a.name, b.name) && seq_lt(b.name, c.name) {
        lemma_seq_lt_transitive(a.name, b.name, c.name);
    }
    if seq_lt(c.name, b.name) && seq_lt(b.name, a.name) {
        lemma_seq_lt_transitive(c.name, b.name, a.name);
    }
    if seq_lt(a.name, c.name) && seq_lt(c.name, b.name) {
        lemma_seq_lt_transitive(a.name, c.name, b.name);
    }
    if seq_lt(b.name, a.name) && seq_lt(a.name, c.name) {
        lemma_seq_lt_transitive(b.name, a.name, c.name);
    }
    if seq_lt(c.name, a.name) && seq_lt(b.name, c.name) {
        lemma_seq_lt_transitive(b.name, c.name, a.name);
    }
    lemma_seq_lt_asymmetric(b.name, c.name);
    lemma_seq_lt_asymmetric(a.name, c.name);
}

proof fn lemma_insert_pos_facts(s: Seq<EntryV>, x: EntryV)
    ensures
        forall|k: int| 0 <= k < insert_pos(s, x) ==> !entry_before(x, #[trigger] s[k]),
        insert_pos(s, x) < s.len() ==> entry_before(x, s[insert_pos(s, x)]),
    decreases s.len(),
{
    if s.len() > 0 && !entry_before(x, s[0]) {
        let d = s.drop_first();
        lemma_insert_pos_facts(d, x);
        lemma_insert_pos_bound(d, x);
        assert forall|k: int| 0 <= k < insert_pos(s, x) implies !entry_before(x, #[trigger] s[k]) by {
            if k > 0 {
                assert(s[k] == d[k - 1]);
            }
        }
        if insert_pos(s, x) < s.len() {
            assert(s[insert_pos(s, x)] == d[insert_pos(d, x)]);
        }
    }
}

/// Sorting entries orders them by name, then source, and keeps every entry:
/// the result is a rearrangement of the input.
pub proof fn lemma_sorted_entries(s: Seq<EntryV>)
    ensures
        entries_ordered(sorted_entries(s)),
        sorted_entries(s).to_multiset() == s.to_multiset(),
        sorted_entries(s).len() == s.len(),
    decreases s.len(),
{
    broadcast use vstd::seq_lib::to_multiset_build;
    broadcast use vstd::seq_lib::to_multiset_insert;
    if s.len() > 0 {
        let pre = s.drop_last();
        lemma_sorted_entries(pre);
        let t = sorted_entries(pre);
        let x = s.last();
        let p = insert_pos(t, x);
        lemma_insert_pos_bound(t, x);
        lemma_insert_pos_facts(t, x);
        let u = t.insert(p, x);
        assert forall|i: int, j: int| 0 <= i < j < u.len() implies !entry_before(u[j], u[i]) by {
            if j < p {
                assert(u[i] == t[i] && u[j] == t[j]);
            } else if j == p {
                assert(u[i] == t[i]);
                lemma_before_order(x, t[i], t[i]);
            } else if i < p {
                assert(u[i] == t[i] && u[j] == t[j - 1]);
            } else if i == p {
                assert(u[j] == t[j - 1]);
                if j - 1 > p {
                    assert(!entry_before(t[j - 1], t[p]));
                    lemma_before_order(x, t[p], t[j - 1]);
                    lemma_before_order(x, t[j - 1], x);
                } else {
                    lemma_before_order(x, t[p], x);
                }
            } else {
                assert(u[i] == t[i - 1] && u[j] == t[j - 1]);
            }
        }
        assert(s =~= pre.push(x));
        assert(u.to_multiset() == t.to_multiset().insert(x));
        assert(pre.push(x).to_multiset() == pre.to_multiset().insert(x));
    } else {
        assert(s =~= Seq::<EntryV>::empty());
        assert(sorted_entries(s) =~= Seq::<EntryV>::empty());
    }
}


/// `e` answers to `name`: by its display name, or by its id once `name` is
/// qualified.
pub open spec fn answers_to(e: EntryV, name: Seq<char>) -> bool {
    e.name == name || e.id == qualify_spec(name)
}

pub open spec fn in_source(e: EntryV, source: Option<Source>) -> bool {
    match source {
        Some(s) => e.source == s,
        None => true,
    }
}

/// The entries answering to `name` within `source`, in order.
pub open spec fn matching(s: Seq<EntryV>, name: Seq<char>, source: Option<Source>) -> Seq<EntryV>
    decreases s.len(),
{
    if s.len() == 0 {
        Seq::empty()
    } else {
        matching(s.drop_last(), name, source) + if answers_to(s.last(), name) && in_source(s.last(), source) {
            seq![s.last()]
        } else {
            Seq::empty()
        }
    }
}

/// Names within `source` containing `needle`, ignoring case, in order.
pub open spec fn near_all(s: Seq<EntryV>, needle: Seq<char>, source: Option<Source>) -> Seq<Seq<char>>
    decreases s.len(),
{
    if s.len() == 0 {
        Seq::empty()
    } else {
        near_all(s.drop_last(), needle, source) + if in_source(s.last(), source) && has_infix(
            lowercase(s.last().name),
            lowercase(needle),
        ) {
            seq![s.last().name]
        } else {
            Seq::empty()
        }
    }
}

/// At most five near matches, for "did you mean".
pub open spec fn near_spec(s: Seq<EntryV>, needle: Seq<char>, source: Option<Source>) -> Seq<Seq<char>> {
    let all = near_all(s, needle, source);
    if all.len() > 5 {
        all.subrange(0, 5)
    } else {
        all
    }
}

fn answers(e: &Entry, name: &str, qualified: &String) -> (r: bool)
    requires
        qualified@ == qualify_spec(name@),
    ensures
        r == answers_to(e@, name@),
{
    crate::text::str_eq(e.name.as_str(), name) || e.id == *qualified
}

fn within(e: &Entry, source: Option<Source>) -> (r: bool)
    ensures
        r == in_source(e@, source),
{
    match source {
        Some(s) => e.source == s,
        None => true,
    }
}

fn near_matches(needle: &str, entries: &Vec<Entry>, source: Option<Source>) -> (r: Vec<String>)
    ensures
        strings_view(r@) == near_spec(entries_view(entries@), needle@, source),
{
    let ghost ev = entries_view(entries@);
    let low = to_lower(needle);
    let mut out: Vec<String> = Vec::new();
    let mut i: usize = 0;
    while i < entries.len()
        invariant
            i <= entries@.len(),
            ev == entries_view(entries@),
            low@ == lowercase(needle@),
            strings_view(out@) == near_all(ev.subrange(0, i as int), needle@, source),
        decreases entries@.len() - i,
    {
        assert(ev.subrange(0, i + 1).drop_last() =~= ev.subrange(0, i as int));
        assert(ev.subrange(0, i + 1).last() == entries@[i as int]@);
        let e = &entries[i];
        if within(e, source) {
            let name_low = to_lower(e.name.as_str());
            if contains_str(name_low.as_str(), low.as_str()) {
                out.push(e.name.clone());
            }
        }
        i += 1;
        assert(strings_view(out@) =~= near_all(ev.subrange(0, i as int), needle@, source));
    }
    assert(ev.subrange(0, ev.len() as int) =~= ev);
    if out.len() > 5 {
        out.truncate(5);
        assert(strings_view(out@) =~= near_all(ev, needle@, source).subrange(0, 5));
    }
    out
}

/// The entries answering to `name` within `source`, copied.
fn collect_matches(name: &str, entries: &Vec<Entry>, source: Option<Source>) -> (r: Vec<Entry>)
    ensures
        entries_view(r@) == matching(entries_view(entries@), name@, source),
{
    let ghost ev = entries_view(entries@);
    let qualified = qualify(name);
    let mut out: Vec<Entry> = Vec::new();
    let mut i: usize = 0;
    while i < entries.len()
        invariant
            i <= entries@.len(),
            ev == entries_view(entries@),
            qualified@ == qualify_spec(name@),
            entries_view(out@) == matching(ev.subrange(0, i as int), name@, source),
        decreases entries@.len() - i,
    {
        assert(ev.subrange(0, i + 1).drop_last() =~= ev.subrange(0, i as int));
        assert(ev.subrange(0, i + 1).last() == entries@[i as int]@);
        let e = &entries[i];
        if answers(e, name, &qualified) && within(e, source) {
            out.push(e.clone());
        }
        i += 1;
        assert(entries_view(out@) =~= matching(ev.subrange(0, i as int), name@, source));
    }
    assert(ev.subrange(0, ev.len() as int) =~= ev);
    out
}

pub open spec fn sources_of(m: Seq<EntryV>) -> Seq<Seq<char>> {
    Seq::new(m.len(), |i: int| source_name(m[i].source))
}

/// Finds exactly one structure by name, never guessing between sources.
///
/// `source` is the only narrowing there is: it separates the database from a
/// pack and one pack from the other. A name with several answers is refused.
pub fn resolve(name: &str, entries: &Vec<Entry>, source: Option<Source>) -> (r: Result<Entry, CoreError>)
    ensures
        ({
            let m = matching(entries_view(entries@), name@, source);
            &&& r is Ok <==> m.len() == 1
            &&& r matches Ok(e) ==> e@ == m[0]
            &&& m.len() == 0 ==> (r matches Err(CoreError::StructureNotFound { name: n, near }) && n@ == name@
                && strings_view(near@) == near_spec(entries_view(entries@), name@, source))
            &&& m.len() > 1 ==> (r matches Err(CoreError::AmbiguousStructure { name: n, sources }) && n@ == name@
                && strings_view(sources@) == sources_of(m))
        }),
{
    let matches = collect_matches(name, entries, source);
    if matches.len() == 1 {
        return Ok(matches[0].clone());
    }
    if matches.len() == 0 {
        return Err(CoreError::StructureNotFound { name: name.to_owned(), near: near_matches(name, entries, source) });
    }
    let mut sources: Vec<String> = Vec::new();
    let mut i: usize = 0;
    while i < matches.len()
        invariant
            i <= matches@.len(),
            strings_view(sources@) == sources_of(entries_view(matches@)).subrange(0, i as int),
        decreases matches@.len() - i,
    {
        let ghost before = sources@;
        let sname = String::from_str(matches[i].source.as_str());
        sources.push(sname);
        assert(strings_view(sources@) =~= strings_view(before).push(source_name(matches@[i as int].source)));
        i += 1;
        assert(strings_view(sources@) =~= sources_of(entries_view(matches@)).subrange(0, i as int));
    }
    assert(sources_of(entries_view(matches@)).subrange(0, matches@.len() as int) =~= sources_of(entries_view(matches@)));
    Err(CoreError::AmbiguousStructure { name: name.to_owned(), sources })
}

/// Every structure answering to a name, for `delete`: where [`resolve`]
/// refuses an ambiguous name, this returns every entry. None at all is still
/// an error, with the same near matches.
pub fn resolve_all(name: &str, entries: &Vec<Entry>, source: Option<Source>) -> (r: Result<Vec<Entry>, CoreError>)
    ensures
        ({
            let m = matching(entries_view(entries@), name@, source);
            &&& r is Ok <==> m.len() > 0
            &&& r matches Ok(v) ==> entries_view(v@) == m
            &&& m.len() == 0 ==> (r matches Err(CoreError::StructureNotFound { name: n, near }) && n@ == name@
                && strings_view(near@) == near_spec(entries_view(entries@), name@, source))
        }),
{
    let matches = collect_matches(name, entries, source);
    if matches.len() == 0 {
        return Err(CoreError::StructureNotFound { name: name.to_owned(), near: near_matches(name, entries, source) });
    }
    Ok(matches)
}

/// The single list Construct presents in-game, over every source. A name in
/// both keeps both entries; [`resolve`] reports the collision.
pub fn unify(world: Vec<Entry>, pack: Vec<Entry>) -> (r: Vec<Entry>)
    ensures
        entries_view(r@) == sorted_entries(entries_view(world@) + entries_view(pack@)),
{
    let mut all = world;
    let ghost w = entries_view(all@);
    let mut i: usize = 0;
    while i < pack.len()
        invariant
            i <= pack@.len(),
            entries_view(all@) == w + entries_view(pack@).subrange(0, i as int),
        decreases pack@.len() - i,
    {
        let ghost before = all@;
        let c = pack[i].clone();
        all.push(c);
        assert(entries_view(all@) =~= entries_view(before).push(pack@[i as int]@));
        i += 1;
        assert(entries_view(all@) =~= w + entries_view(pack@).subrange(0, i as int));
    }
    assert(entries_view(pack@).subrange(0, pack@.len() as int) =~= entries_view(pack@));
    sort(&mut all);
    all
}


/// The entry a pack structure makes.
pub open spec fn pack_entry(s: PackStructureV, source: Source) -> EntryV {
    EntryV { name: s.name, id: s.id, source, size_bytes: s.size_bytes, path: Some(s.path) }
}

/// The entries for a pack's structures, as listed, each carrying its file.
pub fn from_pack(structures: Vec<PackStructure>, source: Source) -> (r: Vec<Entry>)
    ensures
        entries_view(r@) == Seq::new(
            structures@.len(),
            |i: int| pack_entry(structures@[i]@, source),
        ),
{
    let ghost want = Seq::new(structures@.len(), |i: int| pack_entry(structures@[i]@, source));
    let mut out: Vec<Entry> = Vec::new();
    let mut i: usize = 0;
    while i < structures.len()
        invariant
            i <= structures@.len(),
            want == Seq::new(structures@.len(), |i: int| pack_entry(structures@[i]@, source)),
            entries_view(out@) == want.subrange(0, i as int),
        decreases structures@.len() - i,
    {
        let st = &structures[i];
        let e = Entry {
            name: st.name.clone(),
            id: st.id.clone(),
            source,
            size_bytes: st.size_bytes,
            path: Some(st.path.clone()),
        };
        assert(e@ == want[i as int]);
        let ghost before = entries_view(out@);
        out.push(e);
        assert(entries_view(out@) =~= before.push(want[i as int]));
        i += 1;
        assert(entries_view(out@) =~= want.subrange(0, i as int));
    }
    assert(want.subrange(0, want.len() as int) =~= want);
    out
}

/// The database entry for a structure id of the given size.
pub open spec fn world_entry(id: Seq<char>, size: u64) -> EntryV {
    EntryV { name: display_name_spec(id), id, source: Source::WorldDb, size_bytes: size, path: None }
}

pub open spec fn world_entries(sizes: Seq<(String, u64)>) -> Seq<EntryV> {
    Seq::new(sizes.len(), |i: int| world_entry(sizes[i].0@, sizes[i].1))
}

/// The database entries for every `(id, size)` pair, ordered.
pub fn entries_from_sizes(sizes: Vec<(String, u64)>) -> (r: Vec<Entry>)
    ensures
        entries_view(r@) == sorted_entries(world_entries(sizes@)),
{
    let mut out: Vec<Entry> = Vec::new();
    let mut i: usize = 0;
    while i < sizes.len()
        invariant
            i <= sizes@.len(),
            entries_view(out@) == world_entries(sizes@).subrange(0, i as int),
        decreases sizes@.len() - i,
    {
        let id = &sizes[i].0;
        let ghost before = out@;
        let e = Entry { name: display_name(id.as_str()), id: id.clone(), source: Source::WorldDb, size_bytes: sizes[i].1, path: None };
        assert(e@ == world_entry(sizes@[i as int].0@, sizes@[i as int].1));
        out.push(e);
        assert(entries_view(out@) =~= entries_view(before).push(world_entry(sizes@[i as int].0@, sizes@[i as int].1)));
        i += 1;
        assert(entries_view(out@) =~= world_entries(sizes@).subrange(0, i as int));
    }
    assert(world_entries(sizes@).subrange(0, sizes@.len() as int) =~= world_entries(sizes@));
    sort(&mut out);
    out
}


/// The database entries for each id a store lists, with its value's size.
pub open spec fn store_entries<S: StructureStore>(store: &S) -> Seq<EntryV> {
    Seq::new(
        store.id_list().len(),
        |i: int| world_entry(store.id_list()[i], value_size(store.value_of(store.id_list()[i]))),
    )
}

/// The database entries of a world's store, ordered.
pub fn from_world<S: StructureStore>(store: &S) -> (r: Result<Vec<Entry>, CoreError>)
    ensures
        r matches Ok(v) ==> entries_view(v@) == sorted_entries(store_entries(store)),
        reads_all(store) ==> r is Ok,
{
    let sizes = match store.sizes() {
        Ok(s) => s,
        Err(e) => {
            return Err(e);
        },
    };
    let ghost sv = sizes@;
    assert(world_entries(sv) =~= store_entries(store));
    let out = entries_from_sizes(sizes);
    Ok(out)
}

} // verus!
