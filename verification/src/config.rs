//! Configuration: the rules a config file's contents must follow.
//!
//! Precedence is CLI flag, then environment variable, then config file, then
//! auto-discovery. An absent file means all defaults, so there is no init
//! step. Unknown keys warn rather than fail. Reading the TOML is the caller's
//! part; this module checks what was read.
use crate::error::CoreError;
use crate::text::{decimal, digits, join_path, join_spec, lemma_digits_value, str_eq, strings_view, wide_text};
use vstd::relations::injective_on;
use vstd::set_lib::{lemma_int_range, lemma_len_subset, lemma_map_size, set_int_range};
use vstd::prelude::*;

verus! {

broadcast use vstd::std_specs::vec::group_vec_axioms;

/// Retention default: the last ten snapshots per world.
pub const DEFAULT_KEEP: usize = 10;

/// An extra `com.mojang` root to probe. Named, because an unnamed root cannot
/// appear in the `<installation>/<account>/<world>` grammar.
#[derive(Debug)]
pub struct ExtraRoot {
    pub name: String,
    pub path: String,
}

/// Where snapshots go, and how many to keep per world.
#[derive(Debug)]
pub struct Backups {
    pub dir: Option<String>,
    pub keep: usize,
}

impl Default for Backups {
    fn default() -> (r: Self)
        ensures
            r.dir is None,
            r.keep == DEFAULT_KEEP,
    {
        Backups { dir: None, keep: DEFAULT_KEEP }
    }
}

/// Installation names a config file may not give a root: the built-in
/// installations, `path` (worn by worlds named as a filesystem path) and
/// `env` (the root named by the `CONSTRUCT_COM_MOJANG` variable).
pub open spec fn reserved(name: Seq<char>) -> bool {
    name == "release"@ || name == "preview"@ || name == "legacy"@ || name == "mcpelauncher"@ || name
        == "path"@ || name == "env"@
}

fn is_reserved(name: &str) -> (r: bool)
    ensures
        r == reserved(name@),
{
    str_eq(name, "release") || str_eq(name, "preview") || str_eq(name, "legacy") || str_eq(name, "mcpelauncher")
        || str_eq(name, crate::discovery::worlds::PATH_INSTALLATION) || str_eq(name, "env")
}

/// The config error for the file at `path`.
pub open spec fn bad_config(e: CoreError, path: Seq<char>, reason: Seq<char>) -> bool {
    e matches CoreError::BadConfig { path: p, reason: r } && p@ == path && r@ == reason
}

/// The first of `roots` that is unnamed, reserved, or repeats an earlier
/// name, with the reason it is refused.
pub open spec fn root_problem(roots: Seq<(Option<Seq<char>>, Seq<char>)>) -> Option<Seq<char>>
    decreases roots.len(),
{
    if roots.len() == 0 {
        None
    } else {
        match root_problem(roots.drop_last()) {
            Some(p) => Some(p),
            None => match roots.last().0 {
                None => Some(
                    "every [[roots]] entry needs a `name`; an unnamed root cannot be addressed in a qualified reference"@,
                ),
                Some(name) => if reserved(name) {
                    Some("root name `"@ + name + "` is reserved and cannot be used in a config file"@)
                } else if exists|j: int| 0 <= j < roots.len() - 1 && roots[j].0 == Some(name) {
                    Some("duplicate root name `"@ + name + "`; each root must have a unique name"@)
                } else {
                    None
                },
            },
        }
    }
}

pub open spec fn wire_view(roots: Seq<(Option<String>, String)>) -> Seq<(Option<Seq<char>>, Seq<char>)> {
    Seq::new(
        roots.len(),
        |i: int| (
            match roots[i].0 {
                Some(n) => Some(n@),
                None => None,
            },
            roots[i].1@,
        ),
    )
}

/// The roots a config file lists, as `(name, path)` pairs read from it,
/// checked: every root named, no name reserved, no name twice.
pub fn named_roots(roots: Vec<(Option<String>, String)>, path: &str) -> (r: Result<Vec<ExtraRoot>, CoreError>)
    ensures
        match root_problem(wire_view(roots@)) {
            Some(reason) => r matches Err(e) && bad_config(e, path@, reason),
            None => r matches Ok(v) && v@.len() == roots@.len() && forall|i: int|
                0 <= i < v@.len() ==> Some((#[trigger] v@[i]).name@) == wire_view(roots@)[i].0 && v@[i].path@
                    == roots@[i].1@,
        },
{
    let ghost wv = wire_view(roots@);
    let mut out: Vec<ExtraRoot> = Vec::new();
    let mut i: usize = 0;
    while i < roots.len()
        invariant
            i <= roots@.len(),
            wv == wire_view(roots@),
            root_problem(wv.subrange(0, i as int)) is None,
            out@.len() == i,
            forall|k: int| 0 <= k < i ==> Some((#[trigger] out@[k]).name@) == wv[k].0 && out@[k].path@ == roots@[k].1@,
        decreases roots@.len() - i,
    {
        let ghost pre = wv.subrange(0, i + 1);
        assert(pre.drop_last() =~= wv.subrange(0, i as int));
        assert(pre.last() == wv[i as int]);
        let name = match &roots[i].0 {
            Some(n) => n,
            None => {
                proof {
                    lemma_problem_prefix(wv, i + 1);
                }
                return Err(CoreError::BadConfig {
                    path: path.to_owned(),
                    reason: String::from_str(
                        "every [[roots]] entry needs a `name`; an unnamed root cannot be addressed in a qualified reference",
                    ),
                });
            },
        };
        if is_reserved(name.as_str()) {
            proof {
                lemma_problem_prefix(wv, i + 1);
            }
            let mut reason = String::from_str("root name `");
            reason.append(name.as_str());
            reason.append("` is reserved and cannot be used in a config file");
            return Err(CoreError::BadConfig { path: path.to_owned(), reason });
        }
        let mut j: usize = 0;
        while j < out.len()
            invariant
                j <= out@.len(),
                out@.len() == i,
                i < roots@.len(),
                wv == wire_view(roots@),
                pre == wv.subrange(0, i + 1),
                pre.drop_last() == wv.subrange(0, i as int),
                pre.last() == wv[i as int],
                root_problem(wv.subrange(0, i as int)) is None,
                wv[i as int].0 == Some(name@),
                !reserved(name@),
                forall|k: int| 0 <= k < i ==> Some((#[trigger] out@[k]).name@) == wv[k].0,
                forall|k: int| 0 <= k < j ==> wv[k].0 != Some(name@),
            decreases out@.len() - j,
        {
            if out[j].name == *name {
                assert(pre[j as int].0 == Some(name@));
                proof {
                    lemma_problem_prefix(wv, i + 1);
                }
                let mut reason = String::from_str("duplicate root name `");
                reason.append(name.as_str());
                reason.append("`; each root must have a unique name");
                return Err(CoreError::BadConfig { path: path.to_owned(), reason });
            }
            j += 1;
        }
        assert(!exists|k: int| 0 <= k < pre.len() - 1 && pre[k].0 == Some(name@)) by {
            assert forall|k: int| 0 <= k < pre.len() - 1 implies pre[k].0 != Some(name@) by {
                assert(pre[k] == wv[k]);
            }
        }
        out.push(ExtraRoot { name: name.clone(), path: roots[i].1.clone() });
        i += 1;
    }
    assert(wv.subrange(0, roots@.len() as int) =~= wv);
    Ok(out)
}

/// A problem in a prefix is the problem of the whole.
proof fn lemma_problem_prefix(roots: Seq<(Option<Seq<char>>, Seq<char>)>, n: int)
    requires
        0 <= n <= roots.len(),
        root_problem(roots.subrange(0, n)) is Some,
    ensures
        root_problem(roots) == root_problem(roots.subrange(0, n)),
    decreases roots.len() - n,
{
    if n < roots.len() {
        assert(roots.subrange(0, n + 1).drop_last() =~= roots.subrange(0, n));
        lemma_problem_prefix(roots, n + 1);
    } else {
        assert(roots.subrange(0, n) =~= roots);
    }
}

/// Every root of a config file the checks accept is named, no name is
/// reserved, and no two roots share a name, so each can be addressed in a
/// qualified reference.
pub proof fn lemma_accepted_roots(roots: Seq<(Option<Seq<char>>, Seq<char>)>)
    requires
        root_problem(roots) is None,
    ensures
        forall|i: int| 0 <= i < roots.len() ==> (#[trigger] roots[i]).0 is Some && !reserved(roots[i].0->0),
        forall|i: int, j: int| 0 <= i < j < roots.len() ==> (#[trigger] roots[i]).0 != (#[trigger] roots[j]).0,
    decreases roots.len(),
{
    if roots.len() > 0 {
        let pre = roots.drop_last();
        assert(root_problem(pre) is None);
        lemma_accepted_roots(pre);
        let last = roots.len() - 1;
        assert(roots[last].0 is Some);
        let name = roots[last].0->0;
        assert(!reserved(name));
        assert(!exists|j: int| 0 <= j < roots.len() - 1 && roots[j].0 == Some(name));
        assert forall|i: int| 0 <= i < roots.len() implies (#[trigger] roots[i]).0 is Some && !reserved(
            roots[i].0->0,
        ) by {
            if i < last {
                assert(roots[i] == pre[i]);
            }
        }
        assert forall|i: int, j: int| 0 <= i < j < roots.len() implies (#[trigger] roots[i]).0 != (
        #[trigger] roots[j]).0 by {
            assert(roots[i] == pre[i]);
            if j < last {
                assert(roots[j] == pre[j]);
            } else {
                assert(roots[i].0 != Some(name));
            }
        }
    }
}

/// The `[backups]` table as read, `(dir, keep)`, with `keep` defaulting to
/// ten; no table at all is every default.
pub fn backups_from(wire: Option<(Option<String>, Option<usize>)>) -> (r: Backups)
    ensures
        match wire {
            Some((dir, keep)) => r.dir == dir && r.keep == match keep {
                Some(k) => k,
                None => DEFAULT_KEEP,
            },
            None => r.dir is None && r.keep == DEFAULT_KEEP,
        },
{
    match wire {
        Some((dir, keep)) => Backups {
            dir,
            keep: match keep {
                Some(k) => k,
                None => DEFAULT_KEEP,
            },
        },
        None => Backups::default(),
    }
}

/// One warning per key the config format does not know.
pub open spec fn key_warning(key: Seq<char>, path: Seq<char>) -> Seq<char> {
    "unknown config key `"@ + key + "` in "@ + path
}

/// One warning per unknown key, in order.
pub fn unknown_key_warnings(keys: &Vec<String>, path: &str) -> (r: Vec<String>)
    ensures
        strings_view(r@) == Seq::new(keys@.len(), |i: int| key_warning(keys@[i]@, path@)),
{
    let mut out: Vec<String> = Vec::new();
    let mut i: usize = 0;
    while i < keys.len()
        invariant
            i <= keys@.len(),
            strings_view(out@) == Seq::new(i as nat, |k: int| key_warning(keys@[k]@, path@)),
        decreases keys@.len() - i,
    {
        let ghost before = out@;
        let mut w = String::from_str("unknown config key `");
        w.append(keys[i].as_str());
        w.append("` in ");
        w.append(path);
        out.push(w);
        assert(strings_view(out@) =~= strings_view(before).push(key_warning(keys@[i as int]@, path@)));
        i += 1;
        assert(strings_view(out@) =~= Seq::new(i as nat, |k: int| key_warning(keys@[k]@, path@)));
    }
    out
}

/// Which list a directory was added to.
#[derive(Debug, Clone, Copy, PartialEq, Eq, Structural)]
pub enum AddedPath {
    Root,
    OtherWorld,
}


// ---------------------------------------------------------------------------
// Locations
// ---------------------------------------------------------------------------

/// `directories::ProjectDirs::from("", "", "constructcli")` and its config
/// directory: `~/.config/constructcli` and platform equivalents. It reads the
/// environment, so nothing is claimed of what comes back.
#[verifier::external_body]
pub(crate) fn platform_config_dir() -> (r: Option<String>) {
    directories::ProjectDirs::from("", "", "constructcli").map(
        |d| d.config_dir().to_string_lossy().into_owned(),
    )
}

/// The config file inside a config directory.
pub open spec fn config_file_spec(dir: Seq<char>) -> Seq<char> {
    join_spec(dir, "config.toml"@)
}

/// The config file inside the directory `dir`.
pub fn config_file_in(dir: &str) -> (r: String)
    ensures
        r@ == config_file_spec(dir@),
{
    join_path(dir, "config.toml")
}

/// The platform's config file: `config.toml` in the platform's config
/// directory for this tool, when the platform has one. Which directory that
/// is comes from the environment.
pub fn default_path() -> (r: Option<String>)
    ensures
        r matches Some(p) ==> exists|dir: Seq<char>| p@ == config_file_spec(dir),
{
    match platform_config_dir() {
        Some(d) => Some(config_file_in(d.as_str())),
        None => None,
    }
}

/// `directories::ProjectDirs::from("", "", "constructcli")` and its data
/// directory. It reads the environment, so nothing is claimed of what comes
/// back.
#[verifier::external_body]
pub(crate) fn platform_data_dir() -> (r: Option<String>) {
    directories::ProjectDirs::from("", "", "constructcli").map(
        |d| d.data_dir().to_string_lossy().into_owned(),
    )
}

/// The effective config location before any config contents are read:
/// `CONSTRUCT_CONFIG` when `env` sets it, else the platform default.
pub fn path<F: Fn(&str) -> Option<String>>(env: &F) -> (r: Option<String>)
    requires
        env.requires(("CONSTRUCT_CONFIG",)),
    ensures
        exists|v: Option<String>|
            env.ensures(("CONSTRUCT_CONFIG",), v) && (v matches Some(p) ==> r == Some(p)) && (v is None ==> (
                r matches Some(q) ==> exists|dir: Seq<char>| q@ == config_file_spec(dir)
            )),
{
    match env("CONSTRUCT_CONFIG") {
        Some(p) => Some(p),
        None => default_path(),
    }
}

/// Where this library keeps its own files: `CONSTRUCT_DATA_DIR` when `env`
/// sets it, else the platform's data directory.
pub fn data_dir<F: Fn(&str) -> Option<String>>(env: &F) -> (r: Option<String>)
    requires
        env.requires(("CONSTRUCT_DATA_DIR",)),
    ensures
        exists|v: Option<String>|
            env.ensures(("CONSTRUCT_DATA_DIR",), v) && (v matches Some(p) ==> r == Some(p)),
{
    match env("CONSTRUCT_DATA_DIR") {
        Some(p) => Some(p),
        None => platform_data_dir(),
    }
}


// ---------------------------------------------------------------------------
// The configuration
// ---------------------------------------------------------------------------

/// What a config file says, once read and checked. Keys this library does
/// not know are the reader's to keep.
#[derive(Debug)]
pub struct Config {
    pub default_installation: Option<String>,
    pub roots: Vec<ExtraRoot>,
    pub other_worlds: Vec<String>,
    pub backups: Backups,
}

impl Default for Config {
    fn default() -> (r: Self)
        ensures
            r.default_installation is None,
            r.roots@.len() == 0,
            r.other_worlds@.len() == 0,
            r.backups.dir is None,
            r.backups.keep == DEFAULT_KEEP,
    {
        Config {
            default_installation: None,
            roots: Vec::new(),
            other_worlds: Vec::new(),
            backups: Backups::default(),
        }
    }
}

pub open spec fn root_names(roots: Seq<ExtraRoot>) -> Seq<Seq<char>> {
    Seq::new(roots.len(), |i: int| roots[i].name@)
}

pub open spec fn root_paths(roots: Seq<ExtraRoot>) -> Seq<Seq<char>> {
    Seq::new(roots.len(), |i: int| roots[i].path@)
}

/// Applies the environment on top of a loaded config: `CONSTRUCT_INSTALLATION`
/// names the default installation, and `CONSTRUCT_COM_MOJANG` adds a root
/// named `env`.
pub fn apply_env<F: Fn(&str) -> Option<String>>(config: &mut Config, env: &F)
    requires
        env.requires(("CONSTRUCT_INSTALLATION",)),
        env.requires(("CONSTRUCT_COM_MOJANG",)),
    ensures
        final(config).other_worlds@ == old(config).other_worlds@,
        final(config).backups == old(config).backups,
        exists|v: Option<String>|
            env.ensures(("CONSTRUCT_INSTALLATION",), v) && final(config).default_installation == if v is Some {
                v
            } else {
                old(config).default_installation
            },
        exists|v: Option<String>|
            env.ensures(("CONSTRUCT_COM_MOJANG",), v) && match v {
                Some(p) => root_names(final(config).roots@) == root_names(old(config).roots@).push("env"@)
                    && root_paths(final(config).roots@) == root_paths(old(config).roots@).push(p@),
                None => final(config).roots@ == old(config).roots@,
            },
{
    if let Some(v) = env("CONSTRUCT_INSTALLATION") {
        config.default_installation = Some(v);
    }
    match env("CONSTRUCT_COM_MOJANG") {
        Some(v) => {
            let ghost before = config.roots@;
            let ghost pv = v@;
            config.roots.push(ExtraRoot { name: String::from_str("env"), path: v });
            assert(root_names(config.roots@) =~= root_names(before).push("env"@));
            assert(root_paths(config.roots@) =~= root_paths(before).push(pv));
        },
        None => {},
    }
}

/// The name given to the `n`-th added root: `root<n>`.
pub open spec fn numbered_root(n: nat) -> Seq<char> {
    "root"@ + decimal(n as int)
}

/// The first `root<n>`, counting from 1, that no root wears yet.
pub open spec fn free_root_number(names: Seq<Seq<char>>, n: nat) -> bool {
    n >= 1 && !names.contains(numbered_root(n)) && forall|m: nat|
        1 <= m < n ==> names.contains(#[trigger] numbered_root(m))
}

proof fn lemma_numbered_root_injective(a: nat, b: nat)
    requires
        numbered_root(a) == numbered_root(b),
    ensures
        a == b,
{
    reveal_strlit("root");
    let da = decimal(a as int);
    let db = decimal(b as int);
    assert(da == digits(a) && db == digits(b));
    assert(da =~= numbered_root(a).subrange(4, numbered_root(a).len() as int));
    assert(db =~= numbered_root(b).subrange(4, numbered_root(b).len() as int));
    lemma_digits_value(a);
    lemma_digits_value(b);
}

/// Among `len + 1` numbers, one names no root: at most `len` roots can wear
/// a `root<n>` name.
proof fn lemma_some_root_number_free(names: Seq<Seq<char>>)
    ensures
        exists|n: nat| 1 <= n <= names.len() + 1 && !names.contains(#[trigger] numbered_root(n)),
{
    if forall|n: nat| 1 <= n <= names.len() + 1 ==> names.contains(#[trigger] numbered_root(n)) {
        let k = names.len() as int + 1;
        let idx = |n: int| choose|i: int| 0 <= i < names.len() && names[i] == numbered_root(n as nat);
        let dom = set_int_range(1, k + 1);
        let img = dom.map(idx);
        lemma_int_range(1, k + 1);
        lemma_int_range(0, names.len() as int);
        assert forall|n: int| dom.contains(n) implies 0 <= #[trigger] idx(n) < names.len() && names[idx(n)] == numbered_root(n as nat) by {
            assert(names.contains(numbered_root(n as nat)));
        }
        assert(injective_on(idx, dom)) by {
            assert forall|a: int, b: int| dom.contains(a) && dom.contains(b) && #[trigger] idx(a) == #[trigger] idx(b) implies a == b by {
                lemma_numbered_root_injective(a as nat, b as nat);
            }
        }
        lemma_map_size(dom, img, idx);
        assert(img.subset_of(set_int_range(0, names.len() as int))) by {
            assert forall|x: int| img.contains(x) implies set_int_range(0, names.len() as int).contains(x) by {
                let n = choose|n: int| dom.contains(n) && idx(n) == x;
            }
        }
        lemma_len_subset(img, set_int_range(0, names.len() as int));
        assert(false);
    }
}

/// The first `root<n>` name no root wears, counting from 1.
fn free_root_name(roots: &Vec<ExtraRoot>) -> (r: String)
    ensures
        exists|n: nat| free_root_number(root_names(roots@), n) && r@ == numbered_root(n),
{
    let ghost names = root_names(roots@);
    proof {
        lemma_some_root_number_free(names);
    }
    let mut number: u128 = 1;
    loop
        invariant
            1 <= number <= roots@.len() + 1,
            names == root_names(roots@),
            exists|n: nat| number <= n <= names.len() + 1 && !names.contains(#[trigger] numbered_root(n)),
            forall|m: nat| 1 <= m < number ==> names.contains(#[trigger] numbered_root(m)),
        decreases roots@.len() + 1 - number,
    {
        let mut name = String::from_str("root");
        name.append(wide_text(number).as_str());
        assert(name@ == numbered_root(number as nat));
        let mut taken = false;
        let mut i: usize = 0;
        while i < roots.len()
            invariant
                i <= roots@.len(),
                names == root_names(roots@),
                taken <==> exists|j: int| 0 <= j < i && names[j] == name@,
            decreases roots@.len() - i,
        {
            if str_eq(roots[i].name.as_str(), name.as_str()) {
                assert(names[i as int] == name@);
                taken = true;
            }
            i += 1;
        }
        if !taken {
            assert(!names.contains(name@)) by {
                if names.contains(name@) {
                    let j = choose|j: int| 0 <= j < names.len() && names[j] == name@;
                }
            }
            assert(free_root_number(names, number as nat));
            return name;
        }
        assert(names.contains(numbered_root(number as nat))) by {
            let j = choose|j: int| 0 <= j < i && names[j] == name@;
        }
        assert(number < roots@.len() + 1);
        number += 1;
    }
}

/// The refusal of a directory that cannot be added.
pub open spec fn is_invalid_path(e: CoreError, path: Seq<char>, reason: Seq<char>) -> bool {
    e matches CoreError::InvalidPath { path: p, reason: r } && p@ == path && r@ == reason
}

/// Adds a directory to the list it belongs in: a `com.mojang` directory
/// becomes a root under the first free `root<n>` name, a world directory
/// (one holding `level.dat`) an extra world. Reports which list, and
/// whether it was not there already.
///
/// `path` is the directory as given; `is_dir` says whether it is one,
/// `canonical` is its canonical form and `has_level_dat` whether that holds
/// a `level.dat`, the last two only consulted when it is a directory.
#[verifier::loop_isolation(false)]
pub fn add_path(config: &mut Config, path: &str, is_dir: bool, canonical: String, has_level_dat: bool) -> (r: Result<
    (AddedPath, bool),
    CoreError,
>)
    ensures
        !is_dir ==> (r matches Err(e) && is_invalid_path(e, path@, "expected a directory"@)
            && final(config).roots@ == old(config).roots@ && final(config).other_worlds@ == old(
            config,
        ).other_worlds@),
        is_dir && last_component(canonical@) == "com.mojang"@ ==> (r matches Ok((AddedPath::Root, added))
            && final(config).other_worlds@ == old(config).other_worlds@ && (added <==> !root_paths(
            old(config).roots@,
        ).contains(canonical@)) && if added {
            root_paths(final(config).roots@) == root_paths(old(config).roots@).push(canonical@)
                && exists|n: nat|
                free_root_number(root_names(old(config).roots@), n) && root_names(final(config).roots@)
                    == root_names(old(config).roots@).push(numbered_root(n))
        } else {
            final(config).roots@ == old(config).roots@
        }),
        is_dir && last_component(canonical@) != "com.mojang"@ && has_level_dat ==> (r matches Ok(
            (AddedPath::OtherWorld, added),
        ) && final(config).roots@ == old(config).roots@ && (added <==> !crate::text::strings_view(
            old(config).other_worlds@,
        ).contains(canonical@)) && crate::text::strings_view(final(config).other_worlds@) == if added {
            crate::text::strings_view(old(config).other_worlds@).push(canonical@)
        } else {
            crate::text::strings_view(old(config).other_worlds@)
        }),
        is_dir && last_component(canonical@) != "com.mojang"@ && !has_level_dat ==> (r matches Err(e)
            && is_invalid_path(
            e,
            canonical@,
            "expected a com.mojang directory or a world directory containing level.dat"@,
        ) && final(config).roots@ == old(config).roots@ && final(config).other_worlds@ == old(
            config,
        ).other_worlds@),
        final(config).default_installation == old(config).default_installation,
        final(config).backups == old(config).backups,
        !(r matches Ok((_, true))) ==> *final(config) == *old(config),
{
    if !is_dir {
        return Err(
            CoreError::InvalidPath {
                path: String::from_str(path),
                reason: String::from_str("expected a directory"),
            },
        );
    }
    let last = last_component_of(canonical.as_str());
    if str_eq(last.as_str(), "com.mojang") {
        let ghost paths = root_paths(config.roots@);
        let mut i: usize = 0;
        while i < config.roots.len()
            invariant
                i <= config.roots@.len(),
                paths == root_paths(config.roots@),
                forall|j: int| 0 <= j < i ==> paths[j] != canonical@,
            decreases config.roots@.len() - i,
        {
            if str_eq(config.roots[i].path.as_str(), canonical.as_str()) {
                assert(paths.contains(canonical@)) by {
                    assert(paths[i as int] == canonical@);
                }
                return Ok((AddedPath::Root, false));
            }
            i += 1;
        }
        assert(!paths.contains(canonical@));
        let name = free_root_name(&config.roots);
        let ghost before = config.roots@;
        let ghost nv = name@;
        let ghost cv = canonical@;
        config.roots.push(ExtraRoot { name, path: canonical });
        assert(root_names(config.roots@) =~= root_names(before).push(nv));
        assert(root_paths(config.roots@) =~= root_paths(before).push(cv));
        return Ok((AddedPath::Root, true));
    }
    if has_level_dat {
        let ghost worlds = crate::text::strings_view(config.other_worlds@);
        let mut i: usize = 0;
        while i < config.other_worlds.len()
            invariant
                i <= config.other_worlds@.len(),
                worlds == crate::text::strings_view(config.other_worlds@),
                forall|j: int| 0 <= j < i ==> worlds[j] != canonical@,
            decreases config.other_worlds@.len() - i,
        {
            if str_eq(config.other_worlds[i].as_str(), canonical.as_str()) {
                assert(worlds.contains(canonical@)) by {
                    assert(worlds[i as int] == canonical@);
                }
                return Ok((AddedPath::OtherWorld, false));
            }
            i += 1;
        }
        let ghost cv = canonical@;
        config.other_worlds.push(canonical);
        assert(crate::text::strings_view(config.other_worlds@) =~= worlds.push(cv));
        return Ok((AddedPath::OtherWorld, true));
    }
    Err(
        CoreError::InvalidPath {
            path: canonical,
            reason: String::from_str(
                "expected a com.mojang directory or a world directory containing level.dat",
            ),
        },
    )
}

/// The last `/`-separated component of a path.
pub open spec fn last_component(p: Seq<char>) -> Seq<char> {
    crate::install::last_segment(p)
}

fn last_component_of(p: &str) -> (r: String)
    ensures
        r@ == last_component(p@),
{
    crate::install::last_segment_of(p)
}

} // verus!
