//! Installing Construct: place the packs, keep the user's structures.
//!
//! A pack is staged fully beside its root before the old install is touched,
//! so a failure during any bulk copy leaves the user with their original pack
//! rather than neither copy. The copying is the caller's; the decisions, and
//! the names the staging directories carry, are here.
pub mod adopt;
pub mod carry;
pub mod mcaddon;
pub mod releases;

use crate::error::CoreError;
use crate::pack::manifest::Manifest;
use crate::pack::{opt_pack, Pack};
use crate::text::{chars_of, decimal, digits, first_index, index_of, join_path, join_spec, lemma_digits_value, lemma_first_index, nat_text, starts_with, string_from, sub_chars, wide_text};
use vstd::prelude::*;

verus! {

broadcast use vstd::std_specs::vec::group_vec_axioms;

pub const STAGING_PREFIX: &'static str = ".constructcli-staging-";

/// Written into a staging directory once it holds a complete pack.
pub const STAGING_SENTINEL: &'static str = ".constructcli-staging-complete";

#[derive(Debug, Clone, PartialEq, Eq)]
pub struct Placed {
    pub dir: String,
    pub from: Option<[u32; 3]>,
    pub to: [u32; 3],
    /// How many of the user's structures were carried across an upgrade.
    pub preserved: usize,
    pub changed: bool,
}

/// The staging directory's name: the prefix, the process id, the time in
/// nanoseconds, then the destination's own name, `-` between them.
pub open spec fn staging_spec(dest_name: Seq<char>, pid: u32, nanos: u128) -> Seq<char> {
    STAGING_PREFIX@ + decimal(pid as int) + seq!['-'] + decimal(nanos as int) + seq!['-'] + dest_name
}

/// The name to stage a pack under before it replaces `dest_name`. The
/// process id and the time keep two runs from colliding.
pub fn staging_name(dest_name: &str, pid: u32, nanos: u128) -> (r: String)
    ensures
        r@ == staging_spec(dest_name@, pid, nanos),
{
    let mut r = String::from_str(STAGING_PREFIX);
    r.append(nat_text(pid as u64).as_str());
    r.append("-");
    r.append(wide_text(nanos).as_str());
    r.append("-");
    r.append(dest_name);
    proof {
        reveal_strlit("-");
    }
    assert(r@ =~= staging_spec(dest_name@, pid, nanos));
    r
}

/// The destination a staging directory was made for: what follows the
/// prefix and two `-`-separated fields.
pub open spec fn staged_dest_spec(name: Seq<char>) -> Option<Seq<char>> {
    let p = STAGING_PREFIX@;
    if name.len() >= p.len() && name.subrange(0, p.len() as int) == p {
        let rest = name.subrange(p.len() as int, name.len() as int);
        let i = first_index(rest, '-');
        if i < rest.len() {
            let after = rest.subrange(i + 1, rest.len() as int);
            let j = first_index(after, '-');
            if j < after.len() {
                Some(after.subrange(j + 1, after.len() as int))
            } else {
                None
            }
        } else {
            None
        }
    } else {
        None
    }
}

/// The destination a staging directory was made for, when the name is one.
pub fn staged_dest_name(staging_dir_name: &str) -> (r: Option<String>)
    ensures
        crate::catalog::opt_view(r) == staged_dest_spec(staging_dir_name@),
{
    let name = chars_of(staging_dir_name);
    let p = chars_of(STAGING_PREFIX);
    if !starts_with(&name, &p) {
        return None;
    }
    let rest = sub_chars(&name, p.len(), name.len());
    let i = index_of(&rest, '-');
    if i >= rest.len() {
        return None;
    }
    let after = sub_chars(&rest, i + 1, rest.len());
    let j = index_of(&after, '-');
    if j >= after.len() {
        return None;
    }
    let dest = sub_chars(&after, j + 1, after.len());
    Some(string_from(&dest))
}

proof fn lemma_no_dash_in_decimal(n: nat)
    ensures
        forall|k: int| 0 <= k < decimal(n as int).len() ==> #[trigger] decimal(n as int)[k] != '-',
        decimal(n as int).len() >= 1,
{
    lemma_digits_value(n);
    assert(decimal(n as int) == digits(n));
}

/// The destination read back from a staging name is the one it was made for.
pub proof fn lemma_staging_round_trip(dest_name: Seq<char>, pid: u32, nanos: u128)
    ensures
        staged_dest_spec(staging_spec(dest_name, pid, nanos)) == Some(dest_name),
{
    let p = STAGING_PREFIX@;
    let a = decimal(pid as int);
    let b = decimal(nanos as int);
    let name = staging_spec(dest_name, pid, nanos);
    assert(name.subrange(0, p.len() as int) =~= p);
    let rest = name.subrange(p.len() as int, name.len() as int);
    assert(rest =~= a + seq!['-'] + b + seq!['-'] + dest_name);
    lemma_no_dash_in_decimal(pid as nat);
    lemma_no_dash_in_decimal(nanos as nat);
    assert forall|k: int| 0 <= k < a.len() implies #[trigger] rest[k] != '-' by {
        assert(rest[k] == a[k]);
    }
    assert(rest[a.len() as int] == '-');
    lemma_first_index(rest, '-', a.len() as int);
    let after = rest.subrange(a.len() as int + 1, rest.len() as int);
    assert(after =~= b + seq!['-'] + dest_name);
    assert forall|k: int| 0 <= k < b.len() implies #[trigger] after[k] != '-' by {
        assert(after[k] == b[k]);
    }
    assert(after[b.len() as int] == '-');
    lemma_first_index(after, '-', b.len() as int);
    assert(after.subrange(b.len() as int + 1, after.len() as int) =~= dest_name);
}

/// What placing a pack into a root comes to, decided before anything on
/// disk is touched.
#[derive(Debug)]
pub enum PlaceStep {
    /// The same version is already there; nothing is written.
    UpToDate(Placed),
    /// Stage into `staging` beside `dest`, then swap it in.
    Install {
        dest: String,
        dest_name: String,
        from: Option<[u32; 3]>,
    },
}

/// The last `/`-separated segment of a path.
pub open spec fn last_segment(s: Seq<char>) -> Seq<char>
    decreases s.len(),
{
    if s.len() == 0 {
        s
    } else if s.last() == '/' {
        Seq::empty()
    } else {
        last_segment(s.drop_last()).push(s.last())
    }
}

pub(crate) fn last_segment_of(s: &str) -> (r: String)
    ensures
        r@ == last_segment(s@),
{
    let v = chars_of(s);
    let mut k: usize = v.len();
    assert(v@.subrange(0, k as int) =~= v@);
    assert(v@.subrange(k as int, v@.len() as int) =~= Seq::<char>::empty());
    assert(last_segment(v@) + Seq::<char>::empty() =~= last_segment(v@));
    while k > 0 && v[k - 1] != '/'
        invariant
            k <= v@.len(),
            last_segment(v@) == last_segment(v@.subrange(0, k as int)) + v@.subrange(
                k as int,
                v@.len() as int,
            ),
        decreases k,
    {
        let ghost pre = v@.subrange(0, k as int);
        assert(pre.drop_last() =~= v@.subrange(0, k - 1));
        assert(pre.last() == v@[k - 1]);
        assert(v@.subrange(k - 1, v@.len() as int) =~= seq![v@[k - 1]] + v@.subrange(
            k as int,
            v@.len() as int,
        ));
        assert(last_segment(pre) == last_segment(pre.drop_last()).push(pre.last()));
        assert(last_segment(pre.drop_last()).push(pre.last()) + v@.subrange(k as int, v@.len() as int)
            =~= last_segment(pre.drop_last()) + v@.subrange(k - 1, v@.len() as int));
        k -= 1;
    }
    proof {
        assert(v@.subrange(0, v@.len() as int) =~= v@);
        let pre = v@.subrange(0, k as int);
        if k > 0 {
            assert(pre.last() == '/');
        }
        assert(last_segment(pre) =~= Seq::<char>::empty());
    }
    let tail = sub_chars(&v, k, v.len());
    string_from(&tail)
}

/// Whether the copy found is already the incoming version.
pub open spec fn same_version(existing: Option<crate::pack::PackV>, incoming: Seq<u32>) -> bool {
    existing matches Some(p) && p.manifest.version == incoming
}

/// Decides what placing an extracted pack into `root` does.
///
/// `existing` is what `root` holds under the incoming pack's header UUID
/// (see [`crate::pack::find_by_uuid`]); `src_dir` and `src_name` are where
/// the extracted pack sits and its folder name, if it has one. The same
/// version already in place is left alone unless `force`; otherwise the pack
/// replaces the copy found, or lands beside its siblings under its own name.
pub fn place(
    root: &str,
    src_dir: &str,
    src_name: Option<&str>,
    incoming: &Manifest,
    existing: Option<Pack>,
    force: bool,
) -> (r: Result<PlaceStep, CoreError>)
    ensures
        ({
            let ex = opt_pack(existing);
            &&& (same_version(ex, incoming@.version) && !force) ==> (r matches Ok(
                PlaceStep::UpToDate(p),
            ) && p.dir@ == ex->0.dir && p.from == Some(existing->0.manifest.version) && p.to
                == incoming.version && p.preserved == 0 && !p.changed)
            &&& !(same_version(ex, incoming@.version) && !force) ==> match ex {
                Some(e) => r matches Ok(PlaceStep::Install { dest, dest_name, from }) && dest@
                    == e.dir && dest_name@ == last_segment(e.dir) && from == Some(
                    existing->0.manifest.version,
                ),
                None => match src_name {
                    Some(n) => r matches Ok(PlaceStep::Install { dest, dest_name, from }) && dest@
                        == join_spec(root@, n@) && dest_name@ == last_segment(join_spec(root@, n@))
                        && from is None,
                    None => r matches Err(CoreError::BadPack { path, reason }) && path@ == src_dir@
                        && reason@ == "the extracted pack has no folder name"@,
                },
            }
        }),
{
    match existing {
        Some(e) => {
            let same = e.manifest.version[0] == incoming.version[0] && e.manifest.version[1]
                == incoming.version[1] && e.manifest.version[2] == incoming.version[2];
            assert(same == (e.manifest.version@ == incoming.version@)) by {
                if same {
                    assert(e.manifest.version@ =~= incoming.version@);
                }
            }
            if same && !force {
                return Ok(
                    PlaceStep::UpToDate(
                        Placed {
                            dir: e.dir,
                            from: Some(e.manifest.version),
                            to: incoming.version,
                            preserved: 0,
                            changed: false,
                        },
                    ),
                );
            }
            let dest_name = last_segment_of(e.dir.as_str());
            Ok(PlaceStep::Install { dest: e.dir, dest_name, from: Some(e.manifest.version) })
        },
        None => match src_name {
            Some(n) => {
                let dest = join_path(root, n);
                let dest_name = last_segment_of(dest.as_str());
                Ok(PlaceStep::Install { dest, dest_name, from: None })
            },
            None => Err(
                CoreError::BadPack {
                    path: String::from_str(src_dir),
                    reason: String::from_str("the extracted pack has no folder name"),
                },
            ),
        },
    }
}

} // verus!
