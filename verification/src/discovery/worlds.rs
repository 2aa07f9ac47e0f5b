//! The flat list of worlds the CLI shows.
use crate::text::{
    join_path, join_spec, lemma_seq_lt_asymmetric, lemma_seq_lt_irreflexive, lemma_seq_lt_transitive, seq_lt, str_lt,
    string_from, trim_chars, trim_spec,
};
use vstd::prelude::*;

verus! {

broadcast use vstd::std_specs::vec::group_vec_axioms;

/// Where a world's last-played time came from.
#[derive(Debug, Clone, Copy, PartialEq, Eq, Structural)]
pub enum LastPlayedSource {
    LevelDat,
    DirMtime,
}

/// One world, found under an installation or named by path.
#[derive(Debug)]
pub struct World {
    pub installation: String,
    pub account: Option<String>,
    /// The directory name, e.g. `Ssu8ww1SFbM=`.
    pub folder: String,
    /// From `levelname.txt`, falling back to the folder name.
    pub display_name: String,
    pub path: String,
    /// Unix seconds.
    pub last_played: Option<i64>,
    pub last_played_source: LastPlayedSource,
    /// Size of `db/`, which is what dominates a world.
    pub size_bytes: u64,
}

/// The reserved installation name worn by a world named as a filesystem path.
pub const PATH_INSTALLATION: &'static str = "path";

pub struct WorldV {
    pub installation: Seq<char>,
    pub account: Option<Seq<char>>,
    pub folder: Seq<char>,
    pub display_name: Seq<char>,
    pub path: Seq<char>,
    pub last_played: Option<i64>,
    pub last_played_source: LastPlayedSource,
    pub size_bytes: u64,
}

pub open spec fn opt_chars(o: Option<String>) -> Option<Seq<char>> {
    match o {
        Some(s) => Some(s@),
        None => None,
    }
}

impl View for World {
    type V = WorldV;

    open spec fn view(&self) -> WorldV {
        WorldV {
            installation: self.installation@,
            account: opt_chars(self.account),
            folder: self.folder@,
            display_name: self.display_name@,
            path: self.path@,
            last_played: self.last_played,
            last_played_source: self.last_played_source,
            size_bytes: self.size_bytes,
        }
    }
}

/// `<installation>/<account>/<folder>`, without the account segment when
/// there is none.
pub open spec fn qualified_spec(w: WorldV) -> Seq<char> {
    match w.account {
        Some(a) => w.installation + seq!['/'] + a + seq!['/'] + w.folder,
        None => w.installation + seq!['/'] + w.folder,
    }
}

fn copy_opt(o: &Option<String>) -> (r: Option<String>)
    ensures
        opt_chars(r) == opt_chars(*o),
{
    match o {
        Some(s) => Some(s.clone()),
        None => None,
    }
}

impl Clone for World {
    fn clone(&self) -> (r: Self)
        ensures
            r@ == self@,
    {
        World {
            installation: self.installation.clone(),
            account: copy_opt(&self.account),
            folder: self.folder.clone(),
            display_name: self.display_name.clone(),
            path: self.path.clone(),
            last_played: self.last_played,
            last_played_source: self.last_played_source,
            size_bytes: self.size_bytes,
        }
    }
}

impl World {
    /// `<installation>/<account>/<folder>`, with the account segment omitted
    /// when the installation has only one world root.
    pub fn qualified(&self) -> (r: String)
        ensures
            r@ == qualified_spec(self@),
    {
        let mut r = self.installation.clone();
        r.append("/");
        match &self.account {
            Some(a) => {
                r.append(a.as_str());
                r.append("/");
            },
            None => {},
        }
        r.append(self.folder.as_str());
        proof {
            reveal_strlit("/");
        }
        r
    }

    /// The world's database directory.
    pub fn db_path(&self) -> (r: String)
        ensures
            r@ == join_spec(self.path@, "db"@),
    {
        join_path(self.path.as_str(), "db")
    }
}

pub open spec fn worlds_view(s: Seq<World>) -> Seq<WorldV> {
    Seq::new(s.len(), |i: int| s[i]@)
}

/// `a` is listed before `b`: most recently played first (a world with no
/// time last), then by folder.
pub open spec fn world_before(a: WorldV, b: WorldV) -> bool {
    played_after(a.last_played, b.last_played) || (a.last_played == b.last_played && seq_lt(a.folder, b.folder))
}

/// `a` is a later time than `b`, where no time is earliest.
pub open spec fn played_after(a: Option<i64>, b: Option<i64>) -> bool {
    match (a, b) {
        (Some(x), Some(y)) => x > y,
        (Some(_), None) => true,
        _ => false,
    }
}

pub open spec fn world_pos(s: Seq<WorldV>, x: WorldV) -> int
    decreases s.len(),
{
    if s.len() == 0 {
        0
    } else if world_before(x, s[0]) {
        0
    } else {
        1 + world_pos(s.drop_first(), x)
    }
}

/// `s` in listing order, worlds that tie keeping their order.
pub open spec fn sorted_worlds(s: Seq<WorldV>) -> Seq<WorldV>
    decreases s.len(),
{
    if s.len() == 0 {
        Seq::empty()
    } else {
        let t = sorted_worlds(s.drop_last());
        t.insert(world_pos(t, s.last()), s.last())
    }
}

proof fn lemma_world_pos_bound(s: Seq<WorldV>, x: WorldV)
    ensures
        0 <= world_pos(s, x) <= s.len(),
    decreases s.len(),
{
    if s.len() > 0 && !world_before(x, s[0]) {
        lemma_world_pos_bound(s.drop_first(), x);
    }
}

/// `s` lists its worlds in order: no world is listed after one it goes
/// before.
pub open spec fn worlds_in_order(s: Seq<WorldV>) -> bool {
    forall|i: int, j: int| 0 <= i < j < s.len() ==> !world_before(#[trigger] s[j], #[trigger] s[i])
}

proof fn lemma_world_before_asymmetric(a: WorldV, b: WorldV)
    ensures
        !(world_before(a, b) && world_before(b, a)),
{
    lemma_seq_lt_asymmetric(a.folder, b.folder);
}

proof fn lemma_world_before_transitive(a: WorldV, b: WorldV, c: WorldV)
    requires
        world_before(a, b),
        world_before(b, c),
    ensures
        world_before(a, c),
{
    if seq_lt(a.folder, b.folder) && seq_lt(b.folder, c.folder) {
        lemma_seq_lt_transitive(a.folder, b.folder, c.folder);
    }
}

proof fn lemma_world_pos_before(s: Seq<WorldV>, x: WorldV)
    ensures
        forall|i: int| 0 <= i < world_pos(s, x) ==> !world_before(x, #[trigger] s[i]),
        world_pos(s, x) < s.len() ==> world_before(x, s[world_pos(s, x)]),
    decreases s.len(),
{
    lemma_world_pos_bound(s, x);
    if s.len() > 0 && !world_before(x, s[0]) {
        lemma_world_pos_before(s.drop_first(), x);
        assert forall|i: int| 0 <= i < world_pos(s, x) implies !world_before(x, #[trigger] s[i]) by {
            if i > 0 {
                assert(s[i] == s.drop_first()[i - 1]);
            }
        }
        let q = world_pos(s.drop_first(), x);
        lemma_world_pos_bound(s.drop_first(), x);
        if q < s.len() - 1 {
            assert(s[q + 1] == s.drop_first()[q]);
        }
    }
}

proof fn lemma_insert_in_order(t: Seq<WorldV>, x: WorldV)
    requires
        worlds_in_order(t),
    ensures
        worlds_in_order(t.insert(world_pos(t, x), x)),
{
    let p = world_pos(t, x);
    lemma_world_pos_bound(t, x);
    lemma_world_pos_before(t, x);
    let r = t.insert(p, x);
    assert forall|i: int, j: int| 0 <= i < j < r.len() implies !world_before(#[trigger] r[j], #[trigger] r[i]) by {
        if j < p {
            assert(r[i] == t[i] && r[j] == t[j]);
        } else if j == p {
            assert(r[i] == t[i] && r[j] == x);
        } else if i < p {
            assert(r[i] == t[i] && r[j] == t[j - 1]);
            if world_before(r[j], r[i]) {
                // t[i] is not after x, and x goes before t[p], which is not after t[j - 1]
                lemma_world_before_asymmetric(x, t[p]);
                if world_before(t[j - 1], x) {
                    lemma_world_before_transitive(t[j - 1], x, t[p]);
                    if j - 1 > p {
                        assert(!world_before(t[j - 1], t[p]));
                    } else {
                        lemma_world_before_asymmetric(t[p], t[p]);
                    }
                }
                lemma_world_before_transitive(t[j - 1], t[i], x);
            }
        } else if i == p {
            assert(r[i] == x && r[j] == t[j - 1]);
            lemma_world_before_asymmetric(x, t[p]);
            if world_before(t[j - 1], x) && j - 1 > p {
                lemma_world_before_transitive(t[j - 1], x, t[p]);
            }
        } else {
            assert(r[i] == t[i - 1] && r[j] == t[j - 1]);
        }
    }
}

/// Sorting worlds puts them in listing order, most recently played first
/// (no time last, ties by folder), and keeps every world exactly once.
pub proof fn lemma_sorted_worlds_ordered(s: Seq<WorldV>)
    ensures
        worlds_in_order(sorted_worlds(s)),
        sorted_worlds(s).to_multiset() == s.to_multiset(),
    decreases s.len(),
{
    if s.len() == 0 {
        assert(sorted_worlds(s) =~= s);
    } else {
        let t = sorted_worlds(s.drop_last());
        lemma_sorted_worlds_ordered(s.drop_last());
        lemma_insert_in_order(t, s.last());
        lemma_world_pos_bound(t, s.last());
        vstd::seq_lib::to_multiset_insert(t, world_pos(t, s.last()), s.last());
        vstd::seq_lib::to_multiset_build(s.drop_last(), s.last());
        assert(s.drop_last().push(s.last()) =~= s);
    }
}

fn world_first(a: &World, b: &World) -> (r: bool)
    ensures
        r == world_before(a@, b@),
{
    let after = match (a.last_played, b.last_played) {
        (Some(x), Some(y)) => x > y,
        (Some(_), None) => true,
        _ => false,
    };
    after || (a.last_played == b.last_played && str_lt(a.folder.as_str(), b.folder.as_str()))
}

/// Orders worlds most recently played first, then by folder.
pub fn sort_worlds(worlds: &mut Vec<World>)
    ensures
        worlds_view(final(worlds)@) == sorted_worlds(worlds_view(old(worlds)@)),
        worlds_in_order(worlds_view(final(worlds)@)),
        worlds_view(final(worlds)@).to_multiset() == worlds_view(old(worlds)@).to_multiset(),
{
    let ghost src = worlds_view(worlds@);
    let mut out: Vec<World> = Vec::new();
    let mut i: usize = 0;
    while i < worlds.len()
        invariant
            i <= worlds@.len(),
            src == worlds_view(worlds@),
            worlds_view(out@) == sorted_worlds(src.subrange(0, i as int)),
        decreases worlds@.len() - i,
    {
        let w = worlds[i].clone();
        let ghost s = worlds_view(out@);
        assert(s.subrange(0, s.len() as int) =~= s);
        let mut j: usize = 0;
        while j < out.len() && !world_first(&w, &out[j])
            invariant
                j <= out@.len(),
                s == worlds_view(out@),
                world_pos(s, w@) == j + world_pos(s.subrange(j as int, s.len() as int), w@),
            decreases out@.len() - j,
        {
            let ghost rest = s.subrange(j as int, s.len() as int);
            assert(rest.drop_first() =~= s.subrange(j + 1, s.len() as int));
            j += 1;
        }
        proof {
            if j < out@.len() {
                assert(s.subrange(j as int, s.len() as int)[0] == s[j as int]);
            } else {
                assert(s.subrange(j as int, s.len() as int) =~= Seq::<WorldV>::empty());
            }
            lemma_world_pos_bound(s, w@);
        }
        out.insert(j, w);
        assert(src.subrange(0, i + 1).drop_last() =~= src.subrange(0, i as int));
        assert(src.subrange(0, i + 1).last() == src[i as int]);
        assert(worlds_view(out@) =~= s.insert(j as int, src[i as int]));
        i += 1;
    }
    assert(src.subrange(0, src.len() as int) =~= src);
    proof {
        lemma_sorted_worlds_ordered(src);
    }
    *worlds = out;
}


/// The name a world is shown under: its `levelname.txt` trimmed, unless that
/// is unreadable or blank, then its folder name.
pub open spec fn display_name_of(levelname: Option<Seq<char>>, folder: Seq<char>) -> Seq<char> {
    match levelname {
        Some(t) => if trim_spec(t).len() > 0 {
            trim_spec(t)
        } else {
            folder
        },
        None => folder,
    }
}

/// A world from what was read in its folder: the contents of
/// `levelname.txt` when readable, `LastPlayed` from `level.dat` when it has
/// one, else the folder's modification time, and the size of `db/`.
pub fn world_from(
    installation: &str,
    account: Option<String>,
    folder: String,
    path: String,
    levelname: Option<String>,
    level_dat_last_played: Option<i64>,
    dir_mtime: Option<i64>,
    size_bytes: u64,
) -> (r: World)
    ensures
        r@.installation == installation@,
        r@.account == opt_chars(account),
        r@.folder == folder@,
        r@.path == path@,
        r@.display_name == display_name_of(opt_chars(levelname), folder@),
        r@.last_played == if level_dat_last_played is Some {
            level_dat_last_played
        } else {
            dir_mtime
        },
        r@.last_played_source == if level_dat_last_played is Some {
            LastPlayedSource::LevelDat
        } else {
            LastPlayedSource::DirMtime
        },
        r@.size_bytes == size_bytes,
{
    let display_name = match &levelname {
        Some(t) => {
            let v = trim_chars(t.as_str());
            if v.len() > 0 {
                string_from(&v)
            } else {
                folder.clone()
            }
        },
        None => folder.clone(),
    };
    let (last_played, last_played_source) = match level_dat_last_played {
        Some(v) => (Some(v), LastPlayedSource::LevelDat),
        None => (dir_mtime, LastPlayedSource::DirMtime),
    };
    World {
        installation: String::from_str(installation),
        account,
        folder,
        display_name,
        path,
        last_played,
        last_played_source,
        size_bytes,
    }
}

} // verus!
