//! Where Minecraft keeps worlds and development packs, per platform.
//!
//! Windows moved from UWP to GDK in Minecraft 1.21.120. Under GDK, worlds live
//! per Xbox account while development packs live in `Users\Shared`, so worlds
//! and dev packs sit in different roots and there may be several world roots
//! on one machine. Legacy UWP is still probed for worlds.
//!
//! Which directories exist is for the caller to find out; everything here
//! works on the paths and on what was found.
use crate::text::{decimal, join_path, join_spec, nat_text, sort_strings, sorted_strs, split_spec, split_str, strings_view};
use vstd::prelude::*;

verus! {

broadcast use vstd::std_specs::vec::group_vec_axioms;

/// A place worth probing, before existence is checked.
#[derive(Debug)]
pub struct Candidate {
    pub name: String,
    pub dev_pack_root: String,
    /// Directories that may each contain a `minecraftWorlds`.
    pub world_root_parents: Vec<String>,
    /// True when the parents were produced by expanding accounts, so a single
    /// surviving root still deserves an account label.
    pub per_account: bool,
}

/// One world root: a `minecraftWorlds` directory, optionally owned by an account.
#[derive(Debug, PartialEq, Eq)]
pub struct WorldRoot {
    pub account: Option<String>,
    pub path: String,
}

/// A resolved Minecraft installation that exists on disk.
#[derive(Debug)]
pub struct Installation {
    pub name: String,
    pub dev_pack_root: String,
    pub world_roots: Vec<WorldRoot>,
}

pub struct CandidateV {
    pub name: Seq<char>,
    pub dev_pack_root: Seq<char>,
    pub world_root_parents: Seq<Seq<char>>,
    pub per_account: bool,
}

impl View for Candidate {
    type V = CandidateV;

    open spec fn view(&self) -> CandidateV {
        CandidateV {
            name: self.name@,
            dev_pack_root: self.dev_pack_root@,
            world_root_parents: strings_view(self.world_root_parents@),
            per_account: self.per_account,
        }
    }
}

pub struct WorldRootV {
    pub account: Option<Seq<char>>,
    pub path: Seq<char>,
}

pub open spec fn opt_chars(o: Option<String>) -> Option<Seq<char>> {
    match o {
        Some(s) => Some(s@),
        None => None,
    }
}

impl View for WorldRoot {
    type V = WorldRootV;

    open spec fn view(&self) -> WorldRootV {
        WorldRootV { account: opt_chars(self.account), path: self.path@ }
    }
}

pub struct InstallationV {
    pub name: Seq<char>,
    pub dev_pack_root: Seq<char>,
    pub world_roots: Seq<WorldRootV>,
}

impl View for Installation {
    type V = InstallationV;

    open spec fn view(&self) -> InstallationV {
        InstallationV {
            name: self.name@,
            dev_pack_root: self.dev_pack_root@,
            world_roots: Seq::new(self.world_roots@.len(), |i: int| self.world_roots@[i]@),
        }
    }
}

pub open spec fn candidates_view(s: Seq<Candidate>) -> Seq<CandidateV> {
    Seq::new(s.len(), |i: int| s[i]@)
}

pub open spec fn installations_view(s: Seq<Installation>) -> Seq<InstallationV> {
    Seq::new(s.len(), |i: int| s[i]@)
}

/// The GDK candidate for one product: dev packs under `Users/Shared`, one
/// world root parent per account directory, in order.
pub open spec fn gdk_candidate(appdata: Seq<char>, name: Seq<char>, product: Seq<char>, accounts: Seq<Seq<char>>) -> CandidateV {
    let users = join_spec(join_spec(appdata, product), "Users"@);
    let sorted = sorted_strs(accounts);
    CandidateV {
        name,
        dev_pack_root: join_spec(users, "Shared/games/com.mojang"@),
        world_root_parents: Seq::new(
            sorted.len(),
            |i: int| join_spec(join_spec(users, sorted[i]), "games/com.mojang"@),
        ),
        per_account: true,
    }
}

/// A candidate whose one world root parent is its dev pack root.
pub open spec fn single_candidate(name: Seq<char>, base: Seq<char>) -> CandidateV {
    CandidateV { name, dev_pack_root: base, world_root_parents: seq![base], per_account: false }
}

/// Every location worth probing, in order: GDK release and preview when
/// `appdata` is known, legacy UWP when `localappdata` is, then the macOS and
/// Linux mcpelauncher homes.
pub open spec fn candidates_spec(
    home: Seq<char>,
    appdata: Option<Seq<char>>,
    localappdata: Option<Seq<char>>,
    release_accounts: Seq<Seq<char>>,
    preview_accounts: Seq<Seq<char>>,
) -> Seq<CandidateV> {
    (match appdata {
        Some(a) => seq![
            gdk_candidate(a, "release"@, "Minecraft Bedrock"@, release_accounts),
            gdk_candidate(a, "preview"@, "Minecraft Bedrock Preview"@, preview_accounts),
        ],
        None => Seq::empty(),
    }) + (match localappdata {
        Some(l) => seq![
            single_candidate(
                "legacy"@,
                join_spec(l, "Packages/Microsoft.MinecraftUWP_8wekyb3d8bbwe/LocalState/games/com.mojang"@),
            ),
        ],
        None => Seq::empty(),
    }) + seq![
        single_candidate("mcpelauncher"@, join_spec(home, "Library/Application Support/mcpelauncher/games/com.mojang"@)),
        single_candidate("mcpelauncher"@, join_spec(home, ".local/share/mcpelauncher/games/com.mojang"@)),
    ]
}

fn str_opt_view(o: Option<&str>) -> (r: Option<String>)
    ensures
        opt_chars(r) == match o {
            Some(s) => Some(s@),
            None => None,
        },
{
    match o {
        Some(s) => Some(s.to_owned()),
        None => None,
    }
}

fn gdk(appdata: &str, name: &str, product: &str, accounts: Vec<String>) -> (c: Candidate)
    ensures
        c@ == gdk_candidate(appdata@, name@, product@, strings_view(accounts@)),
{
    let users = join_path(join_path(appdata, product).as_str(), "Users");
    let sorted = sort_strings(accounts);
    let ghost sv = strings_view(sorted@);
    let mut parents: Vec<String> = Vec::new();
    let mut i: usize = 0;
    while i < sorted.len()
        invariant
            i <= sorted@.len(),
            sv == strings_view(sorted@),
            strings_view(parents@) == Seq::new(i as nat, |k: int| join_spec(join_spec(users@, sv[k]), "games/com.mojang"@)),
        decreases sorted@.len() - i,
    {
        let ghost before = parents@;
        let p = join_path(join_path(users.as_str(), sorted[i].as_str()).as_str(), "games/com.mojang");
        parents.push(p);
        assert(strings_view(parents@) =~= strings_view(before).push(join_spec(join_spec(users@, sv[i as int]), "games/com.mojang"@)));
        i += 1;
        assert(strings_view(parents@) =~= Seq::new(i as nat, |k: int| join_spec(join_spec(users@, sv[k]), "games/com.mojang"@)));
    }
    Candidate {
        name: name.to_owned(),
        dev_pack_root: join_path(users.as_str(), "Shared/games/com.mojang"),
        world_root_parents: parents,
        per_account: true,
    }
}

fn single(name: &str, base: String) -> (c: Candidate)
    ensures
        c@ == single_candidate(name@, base@),
{
    let mut parents: Vec<String> = Vec::new();
    parents.push(base.clone());
    assert(strings_view(parents@) =~= seq![base@]);
    Candidate { name: name.to_owned(), dev_pack_root: base, world_root_parents: parents, per_account: false }
}

/// Every location worth probing on this platform.
///
/// Base directories are parameters rather than environment reads, and the
/// account directories found under each GDK `Users` directory are handed in
/// by whoever listed them.
pub fn candidates(
    home: &str,
    appdata: Option<&str>,
    localappdata: Option<&str>,
    release_accounts: Vec<String>,
    preview_accounts: Vec<String>,
) -> (r: Vec<Candidate>)
    ensures
        candidates_view(r@) == candidates_spec(
            home@,
            match appdata {
                Some(a) => Some(a@),
                None => None,
            },
            match localappdata {
                Some(l) => Some(l@),
                None => None,
            },
            strings_view(release_accounts@),
            strings_view(preview_accounts@),
        ),
{
    let mut out: Vec<Candidate> = Vec::new();
    let ghost ra = strings_view(release_accounts@);
    let ghost pa = strings_view(preview_accounts@);
    match appdata {
        Some(a) => {
            out.push(gdk(a, "release", "Minecraft Bedrock", release_accounts));
            out.push(gdk(a, "preview", "Minecraft Bedrock Preview", preview_accounts));
        },
        None => {},
    }
    let ghost after_gdk = candidates_view(out@);
    match localappdata {
        Some(l) => {
            let base = join_path(l, "Packages/Microsoft.MinecraftUWP_8wekyb3d8bbwe/LocalState/games/com.mojang");
            out.push(single("legacy", base));
        },
        None => {},
    }
    out.push(single("mcpelauncher", join_path(home, "Library/Application Support/mcpelauncher/games/com.mojang")));
    out.push(single("mcpelauncher", join_path(home, ".local/share/mcpelauncher/games/com.mojang")));
    assert(candidates_view(out@) =~= candidates_spec(
        home@,
        match appdata {
            Some(a) => Some(a@),
            None => None,
        },
        match localappdata {
            Some(l) => Some(l@),
            None => None,
        },
        ra,
        pa,
    ));
    out
}

/// How many of the first `n` names equal `x`.
pub open spec fn occurrences(names: Seq<Seq<char>>, n: int, x: Seq<char>) -> nat
    decreases n,
{
    if n <= 0 {
        0
    } else {
        occurrences(names, n - 1, x) + if names[n - 1] == x {
            1nat
        } else {
            0nat
        }
    }
}

/// The `i`-th name made unique: a later occurrence of a name already seen
/// gains `-2`, `-3`, ..., counting every earlier occurrence.
pub open spec fn unique_name(names: Seq<Seq<char>>, i: int) -> Seq<char> {
    let c = occurrences(names, i + 1, names[i]);
    if c > 1 {
        names[i] + "-"@ + decimal(c as int)
    } else {
        names[i]
    }
}

proof fn lemma_occurrences_bound(names: Seq<Seq<char>>, n: int, x: Seq<char>)
    ensures
        occurrences(names, n, x) <= if n < 0 { 0 } else { n },
    decreases n,
{
    if n > 0 {
        lemma_occurrences_bound(names, n - 1, x);
    }
}

/// Makes installation names unique by appending `-2`, `-3`, … to later
/// occurrences of a name already seen, in order. Both installations are kept.
pub fn dedupe_names(installations: Vec<Installation>) -> (r: Vec<Installation>)
    ensures
        r@.len() == installations@.len(),
        forall|i: int|
            0 <= i < r@.len() ==> {
                &&& (#[trigger] r@[i])@.name == unique_name(
                    Seq::new(installations@.len(), |k: int| installations@[k].name@),
                    i,
                )
                &&& r@[i]@.dev_pack_root == installations@[i]@.dev_pack_root
                &&& r@[i]@.world_roots == installations@[i]@.world_roots
            },
{
    let ghost names = Seq::new(installations@.len(), |k: int| installations@[k].name@);
    let ghost orig = installations@;
    let mut originals: Vec<String> = Vec::new();
    let mut out: Vec<Installation> = Vec::new();
    let mut rest = installations;
    let mut rev: Vec<Installation> = Vec::new();
    while rest.len() > 0
        invariant
            rest@.len() + rev@.len() == orig.len(),
            forall|k: int| 0 <= k < rest@.len() ==> rest@[k] == orig[k],
            forall|k: int| 0 <= k < rev@.len() ==> rev@[k] == orig[orig.len() - 1 - k],
        decreases rest@.len(),
    {
        let x = rest.pop().unwrap();
        rev.push(x);
    }
    let mut i: usize = 0;
    while rev.len() > 0
        invariant
            rev@.len() + i == orig.len(),
            names == Seq::new(orig.len(), |k: int| orig[k].name@),
            forall|k: int| 0 <= k < rev@.len() ==> rev@[k] == orig[orig.len() - 1 - k],
            out@.len() == i,
            strings_view(originals@) == names.subrange(0, i as int),
            forall|k: int|
                0 <= k < i ==> {
                    &&& (#[trigger] out@[k])@.name == unique_name(names, k)
                    &&& out@[k]@.dev_pack_root == orig[k]@.dev_pack_root
                    &&& out@[k]@.world_roots == orig[k]@.world_roots
                },
        decreases rev@.len(),
    {
        let mut inst = rev.pop().unwrap();
        assert(inst == orig[i as int]);
        let ghost before = originals@;
        let nm = inst.name.clone();
        originals.push(nm);
        assert(strings_view(originals@) =~= strings_view(before).push(inst.name@));
        assert(names[i as int] == orig[i as int].name@);
        assert(names.subrange(0, i + 1) =~= names.subrange(0, i as int).push(names[i as int]));
        assert(strings_view(originals@) =~= names.subrange(0, i + 1));
        let mut count: usize = 0;
        let mut j: usize = 0;
        while j < originals.len()
            invariant
                j <= originals@.len(),
                originals@.len() == i + 1,
                i < orig.len(),
                names.len() == orig.len(),
                strings_view(originals@) == names.subrange(0, i + 1),
                names[i as int] == inst.name@,
                count == occurrences(names, j as int, names[i as int]),
                count <= j,
            decreases originals@.len() - j,
        {
            assert(strings_view(originals@)[j as int] == names.subrange(0, i + 1)[j as int]);
            assert(names.subrange(0, i + 1)[j as int] == names[j as int]);
            assert(strings_view(originals@)[j as int] == originals@[j as int]@);
            if originals[j] == inst.name {
                count += 1;
            }
            j += 1;
        }
        if count > 1 {
            let mut renamed = inst.name.clone();
            renamed.append("-");
            renamed.append(nat_text(count as u64).as_str());
            inst.name = renamed;
        }
        out.push(inst);
        i += 1;
    }
    out
}

/// The account directory name in `<...>/<account>/games/com.mojang/minecraftWorlds`:
/// the fourth `/`-separated component from the end.
pub open spec fn account_label_spec(path: Seq<char>) -> Option<Seq<char>> {
    let parts = split_spec(path, '/');
    if parts.len() >= 4 && parts[parts.len() - 4].len() > 0 && parts[parts.len() - 4] != ".."@ {
        Some(parts[parts.len() - 4])
    } else {
        None
    }
}

fn account_label(path: &str) -> (r: Option<String>)
    ensures
        opt_chars(r) == account_label_spec(path@),
{
    let parts = split_str(path, '/');
    if parts.len() >= 4 {
        let label = &parts[parts.len() - 4];
        if label.as_str().unicode_len() > 0 && !crate::text::str_eq(label.as_str(), "..") {
            return Some(label.clone());
        }
    }
    None
}

/// The world roots of a candidate that exist: `minecraftWorlds` under each
/// parent found, labelled with its account when the candidate is per-account.
pub open spec fn found_roots(c: CandidateV, exists: Seq<bool>) -> Seq<WorldRootV>
    decreases c.world_root_parents.len(),
{
    let n = c.world_root_parents.len();
    if n == 0 {
        Seq::empty()
    } else {
        let shorter = CandidateV { world_root_parents: c.world_root_parents.drop_last(), ..c };
        let path = join_spec(c.world_root_parents.last(), "minecraftWorlds"@);
        found_roots(shorter, exists) + if n - 1 < exists.len() && exists[n - 1] {
            seq![WorldRootV { account: if c.per_account { account_label_spec(path) } else { None }, path }]
        } else {
            Seq::empty()
        }
    }
}

/// The installations among `cands`, before names are made unique: those whose
/// dev pack root exists or that have some world root.
pub open spec fn kept(cands: Seq<CandidateV>, dev_exists: Seq<bool>, roots_exist: Seq<Seq<bool>>) -> Seq<InstallationV>
    decreases cands.len(),
{
    let n = cands.len();
    if n == 0 {
        Seq::empty()
    } else {
        let c = cands.last();
        let roots = found_roots(c, if n - 1 < roots_exist.len() { roots_exist[n - 1] } else { Seq::empty() });
        kept(cands.drop_last(), dev_exists, roots_exist) + if (n - 1 < dev_exists.len() && dev_exists[n - 1])
            || roots.len() > 0 {
            seq![InstallationV { name: c.name, dev_pack_root: c.dev_pack_root, world_roots: roots }]
        } else {
            Seq::empty()
        }
    }
}

fn roots_of(c: &Candidate, exists: &Vec<bool>) -> (r: Vec<WorldRoot>)
    ensures
        Seq::new(r@.len(), |i: int| r@[i]@) == found_roots(c@, exists@),
{
    let ghost cv = c@;
    let mut out: Vec<WorldRoot> = Vec::new();
    let mut i: usize = 0;
    while i < c.world_root_parents.len()
        invariant
            i <= c.world_root_parents@.len(),
            cv == c@,
            Seq::new(out@.len(), |k: int| out@[k]@) == found_roots(
                CandidateV { world_root_parents: cv.world_root_parents.subrange(0, i as int), ..cv },
                exists@,
            ),
        decreases c.world_root_parents@.len() - i,
    {
        let ghost pre = CandidateV { world_root_parents: cv.world_root_parents.subrange(0, i as int), ..cv };
        let ghost cur = CandidateV { world_root_parents: cv.world_root_parents.subrange(0, i + 1), ..cv };
        assert(cur.world_root_parents.drop_last() =~= pre.world_root_parents);
        assert(CandidateV { world_root_parents: cur.world_root_parents.drop_last(), ..cur } == pre);
        assert(cur.world_root_parents.last() == c.world_root_parents@[i as int]@);
        let ghost before = Seq::new(out@.len(), |k: int| out@[k]@);
        if i < exists.len() && exists[i] {
            let path = join_path(c.world_root_parents[i].as_str(), "minecraftWorlds");
            let account = if c.per_account { account_label(path.as_str()) } else { None };
            let root = WorldRoot { account, path };
            let ghost rv = root@;
            out.push(root);
            assert(Seq::new(out@.len(), |k: int| out@[k]@) =~= before.push(rv));
        }
        i += 1;
    }
    assert(cv.world_root_parents.subrange(0, cv.world_root_parents.len() as int) =~= cv.world_root_parents);
    assert(CandidateV { world_root_parents: cv.world_root_parents.subrange(0, cv.world_root_parents.len() as int), ..cv } == cv);
    out
}

/// Keeps the candidates found on disk, then makes their names unique.
/// `dev_exists[i]` says whether candidate `i`'s dev pack root is a
/// directory, `roots_exist[i][j]` whether its `j`-th parent holds a
/// `minecraftWorlds` directory. A missing root is absent, not an error; an
/// installation is real if either half of it exists.
pub fn resolve(candidates: Vec<Candidate>, dev_exists: Vec<bool>, roots_exist: Vec<Vec<bool>>) -> (r: Vec<Installation>)
    ensures
        ({
            let k = kept(candidates_view(candidates@), dev_exists@, Seq::new(roots_exist@.len(), |i: int| roots_exist@[i]@));
            &&& r@.len() == k.len()
            &&& forall|i: int|
                0 <= i < r@.len() ==> {
                    &&& (#[trigger] r@[i])@.name == unique_name(Seq::new(k.len(), |j: int| k[j].name), i)
                    &&& r@[i]@.dev_pack_root == k[i].dev_pack_root
                    &&& r@[i]@.world_roots == k[i].world_roots
                }
        }),
{
    let ghost cv = candidates_view(candidates@);
    let ghost re = Seq::new(roots_exist@.len(), |i: int| roots_exist@[i]@);
    let mut out: Vec<Installation> = Vec::new();
    let mut i: usize = 0;
    while i < candidates.len()
        invariant
            i <= candidates@.len(),
            cv == candidates_view(candidates@),
            re == Seq::new(roots_exist@.len(), |i: int| roots_exist@[i]@),
            installations_view(out@) == kept(cv.subrange(0, i as int), dev_exists@, re),
        decreases candidates@.len() - i,
    {
        let c = &candidates[i];
        let no_flags: Vec<bool> = Vec::new();
        let flags: &Vec<bool> = if i < roots_exist.len() { &roots_exist[i] } else { &no_flags };
        let roots = roots_of(c, flags);
        let ghost pre = cv.subrange(0, i as int);
        let ghost cur = cv.subrange(0, i + 1);
        assert(cur.drop_last() =~= pre);
        assert(cur.last() == c@);
        let ghost before = installations_view(out@);
        if (i < dev_exists.len() && dev_exists[i]) || roots.len() > 0 {
            let inst = Installation { name: c.name.clone(), dev_pack_root: c.dev_pack_root.clone(), world_roots: roots };
            let ghost iv = inst@;
            out.push(inst);
            assert(installations_view(out@) =~= before.push(iv));
        }
        i += 1;
    }
    assert(cv.subrange(0, cv.len() as int) =~= cv);
    let ghost k = installations_view(out@);
    let r = dedupe_names(out);
    assert(Seq::new(k.len(), |j: int| k[j].name) =~= Seq::new(out@.len(), |j: int| out@[j].name@));
    r
}

} // verus!
