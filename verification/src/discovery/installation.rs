//! Which Minecraft, when no world names one.
//!
//! An explicit request, failing that the configured default, failing that the
//! sole installation, failing that an error listing the candidates. Never a
//! guess.
use crate::discovery::platform::Installation;
use crate::discovery::worlds::World;
use crate::error::CoreError;
use crate::text::strings_view;
use vstd::prelude::*;

verus! {

broadcast use vstd::std_specs::vec::group_vec_axioms;

pub open spec fn names_of(insts: Seq<Installation>) -> Seq<Seq<char>> {
    Seq::new(insts.len(), |i: int| insts[i].name@)
}

/// The first installation named `name`.
pub open spec fn first_named(insts: Seq<Installation>, name: Seq<char>) -> Option<int>
    decreases insts.len(),
{
    if insts.len() == 0 {
        None
    } else {
        match first_named(insts.drop_last(), name) {
            Some(i) => Some(i),
            None => if insts.last().name@ == name {
                Some(insts.len() - 1)
            } else {
                None
            },
        }
    }
}

pub open spec fn str_opt(o: Option<&str>) -> Option<Seq<char>> {
    match o {
        Some(s) => Some(s@),
        None => None,
    }
}

/// The installation named `name`, or the refusal listing what exists.
fn find<'a>(installations: &'a [Installation], name: &str) -> (r: Result<&'a Installation, CoreError>)
    ensures
        match first_named(installations@, name@) {
            Some(i) => r matches Ok(inst) && inst == &installations@[i],
            None => r matches Err(CoreError::InstallationNotFound { name: n, available }) && n@ == name@
                && strings_view(available@) == names_of(installations@),
        },
{
    let mut i: usize = 0;
    while i < installations.len()
        invariant
            i <= installations@.len(),
            first_named(installations@.subrange(0, i as int), name@) is None,
        decreases installations@.len() - i,
    {
        assert(installations@.subrange(0, i + 1).drop_last() =~= installations@.subrange(0, i as int));
        if crate::text::str_eq(installations[i].name.as_str(), name) {
            assert(first_named(installations@.subrange(0, i + 1), name@) == Some(i as int));
            proof {
                lemma_first_named_prefix(installations@, name@, i + 1);
            }
            return Ok(&installations[i]);
        }
        i += 1;
    }
    assert(installations@.subrange(0, installations@.len() as int) =~= installations@);
    Err(CoreError::InstallationNotFound { name: name.to_owned(), available: names(installations) })
}

proof fn lemma_first_named_prefix(insts: Seq<Installation>, name: Seq<char>, n: int)
    requires
        0 <= n <= insts.len(),
        first_named(insts.subrange(0, n), name) is Some,
    ensures
        first_named(insts, name) == first_named(insts.subrange(0, n), name),
    decreases insts.len() - n,
{
    if n < insts.len() {
        assert(insts.subrange(0, n + 1).drop_last() =~= insts.subrange(0, n));
        lemma_first_named_prefix(insts, name, n + 1);
    } else {
        assert(insts.subrange(0, n) =~= insts);
    }
}

fn names(installations: &[Installation]) -> (r: Vec<String>)
    ensures
        strings_view(r@) == names_of(installations@),
{
    let mut out: Vec<String> = Vec::new();
    let mut i: usize = 0;
    while i < installations.len()
        invariant
            i <= installations@.len(),
            strings_view(out@) == names_of(installations@).subrange(0, i as int),
        decreases installations@.len() - i,
    {
        let ghost before = out@;
        let n = installations[i].name.clone();
        out.push(n);
        assert(strings_view(out@) =~= strings_view(before).push(installations@[i as int].name@));
        i += 1;
        assert(strings_view(out@) =~= names_of(installations@).subrange(0, i as int));
    }
    assert(names_of(installations@).subrange(0, installations@.len() as int) =~= names_of(installations@));
    out
}

/// Picks the installation to use: the one requested, else the configured
/// default, else the only one there is.
///
/// A name that was asked for and does not exist is an error even when there
/// is only one installation: silently using it would ignore the request.
pub fn choose_installation<'a>(installations: &'a [Installation], requested: Option<&str>, default: Option<&str>) -> (r: Result<&'a Installation, CoreError>)
    ensures
        installations@.len() == 0 ==> (r matches Err(CoreError::NoInstallations { probed }) && probed@.len() == 0),
        installations@.len() > 0 ==> match (if requested is Some { str_opt(requested) } else { str_opt(default) }) {
            Some(name) => match first_named(installations@, name) {
                Some(i) => r matches Ok(inst) && inst == &installations@[i],
                None => r matches Err(CoreError::InstallationNotFound { name: n, available }) && n@ == name
                    && strings_view(available@) == names_of(installations@),
            },
            None => if installations@.len() == 1 {
                r matches Ok(inst) && inst == &installations@[0]
            } else {
                r matches Err(CoreError::AmbiguousInstallation { candidates }) && strings_view(candidates@)
                    == names_of(installations@)
            },
        },
{
    if installations.len() == 0 {
        return Err(CoreError::NoInstallations { probed: Vec::new() });
    }
    let wanted = match requested {
        Some(n) => Some(n),
        None => default,
    };
    match wanted {
        Some(name) => find(installations, name),
        None => {
            if installations.len() == 1 {
                Ok(&installations[0])
            } else {
                Err(CoreError::AmbiguousInstallation { candidates: names(installations) })
            }
        },
    }
}

/// The installation a world belongs to, so a pack is deployed into that
/// installation's own dev-pack root.
pub fn for_world<'a>(installations: &'a [Installation], world: &World) -> (r: Result<&'a Installation, CoreError>)
    ensures
        match first_named(installations@, world.installation@) {
            Some(i) => r matches Ok(inst) && inst == &installations@[i],
            None => r matches Err(CoreError::InstallationNotFound { name: n, available }) && n@ == world.installation@
                && strings_view(available@) == names_of(installations@),
        },
{
    find(installations, world.installation.as_str())
}

} // verus!
