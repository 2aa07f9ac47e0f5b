//! A `.mcaddon` is a zip holding one behaviour pack and one resource pack.
//!
//! Unpacking the archive is the caller's; which entry names may be written,
//! and which unpacked folders are the two packs, is decided here.
use crate::error::CoreError;
use crate::pack::manifest::PackKind;
use crate::text::{chars_of, contains_char, split_spec, split_str, str_eq, strings_view};
use vstd::prelude::*;

verus! {

broadcast use vstd::std_specs::vec::group_vec_axioms;

/// Whether a name starts with a drive prefix: an ASCII letter and a colon,
/// which Windows reads as another drive.
pub open spec fn drive_prefixed(name: Seq<char>) -> bool {
    name.len() >= 2 && ('a' <= name[0] <= 'z' || 'A' <= name[0] <= 'Z') && name[1] == ':'
}

/// Whether an archive entry name would leave the extraction directory: an
/// absolute name, one with a drive prefix, or one with a `..` segment.
pub open spec fn escapes(name: Seq<char>) -> bool {
    (name.len() > 0 && name[0] == '/') || drive_prefixed(name) || split_spec(name, '/').contains(".."@)
}

/// An archive entry name, validated for use below the extraction
/// directory: no backslash, nothing absolute, no drive prefix, no `..`.
pub fn safe_entry(name: &str) -> (r: Result<String, CoreError>)
    ensures
        r is Ok <==> (!name@.contains('\\') && !escapes(name@)),
        r matches Ok(p) ==> p@ == name@,
        r matches Err(e) ==> (e matches CoreError::BadPack { path, reason } && path@ == name@ && reason@
            == if name@.contains('\\') {
            "a backslash in an archive path"@
        } else {
            "a path that would escape the extraction directory"@
        }),
{
    let v = chars_of(name);
    if contains_char(&v, '\\') {
        return Err(
            CoreError::BadPack {
                path: String::from_str(name),
                reason: String::from_str("a backslash in an archive path"),
            },
        );
    }
    let drive = v.len() >= 2 && (('a' <= v[0] && v[0] <= 'z') || ('A' <= v[0] && v[0] <= 'Z')) && v[1] == ':';
    let mut bad = (v.len() > 0 && v[0] == '/') || drive;
    let parts = split_str(name, '/');
    let ghost pv = strings_view(parts@);
    let mut i: usize = 0;
    while i < parts.len()
        invariant
            i <= parts@.len(),
            pv == strings_view(parts@),
            pv == split_spec(name@, '/'),
            v@ == name@,
            bad == ((v@.len() > 0 && v@[0] == '/') || drive_prefixed(name@) || exists|j: int| 0 <= j < i && pv[j] == ".."@),
        decreases parts@.len() - i,
    {
        if str_eq(parts[i].as_str(), "..") {
            assert(pv[i as int] == ".."@);
            bad = true;
        }
        i += 1;
    }
    assert(bad == escapes(name@)) by {
        if split_spec(name@, '/').contains(".."@) {
            let j = choose|j: int| 0 <= j < pv.len() && pv[j] == ".."@;
            assert(pv[j] == ".."@);
        }
    }
    if bad {
        return Err(
            CoreError::BadPack {
                path: String::from_str(name),
                reason: String::from_str("a path that would escape the extraction directory"),
            },
        );
    }
    Ok(String::from_str(name))
}

/// The last folder in `found` whose manifest is of `kind`.
pub open spec fn last_of_kind(found: Seq<(String, PackKind)>, kind: PackKind) -> Option<Seq<char>>
    decreases found.len(),
{
    if found.len() == 0 {
        None
    } else if found.last().1 == kind {
        Some(found.last().0@)
    } else {
        last_of_kind(found.drop_last(), kind)
    }
}

/// The behaviour and resource packs among the unpacked folders whose
/// manifests could be read, each with its kind. A `.mcaddon` missing either
/// is refused, naming the archive.
pub fn packs_found(found: &Vec<(String, PackKind)>, archive: &str) -> (r: Result<(String, String), CoreError>)
    ensures
        r is Ok <==> (last_of_kind(found@, PackKind::Behavior) is Some && last_of_kind(
            found@,
            PackKind::Resource,
        ) is Some),
        r matches Ok((b, rp)) ==> (Some(b@) == last_of_kind(found@, PackKind::Behavior) && Some(rp@)
            == last_of_kind(found@, PackKind::Resource)),
        r matches Err(e) ==> (e matches CoreError::BadPack { path, reason } && path@ == archive@
            && reason@ == if last_of_kind(found@, PackKind::Behavior) is None {
            "no behaviour pack in this .mcaddon"@
        } else {
            "no resource pack in this .mcaddon"@
        }),
{
    let mut behavior: Option<String> = None;
    let mut resource: Option<String> = None;
    let mut i: usize = 0;
    while i < found.len()
        invariant
            i <= found@.len(),
            crate::catalog::opt_view(behavior) == last_of_kind(found@.subrange(0, i as int), PackKind::Behavior),
            crate::catalog::opt_view(resource) == last_of_kind(found@.subrange(0, i as int), PackKind::Resource),
        decreases found@.len() - i,
    {
        let ghost cur = found@.subrange(0, i + 1);
        assert(cur.drop_last() =~= found@.subrange(0, i as int));
        assert(cur.last() == found@[i as int]);
        match found[i].1 {
            PackKind::Behavior => behavior = Some(found[i].0.clone()),
            PackKind::Resource => resource = Some(found[i].0.clone()),
        }
        i += 1;
    }
    assert(found@.subrange(0, found@.len() as int) =~= found@);
    let b = match behavior {
        Some(b) => b,
        None => {
            return Err(
                CoreError::BadPack {
                    path: String::from_str(archive),
                    reason: String::from_str("no behaviour pack in this .mcaddon"),
                },
            )
        },
    };
    match resource {
        Some(rp) => Ok((b, rp)),
        None => Err(
            CoreError::BadPack {
                path: String::from_str(archive),
                reason: String::from_str("no resource pack in this .mcaddon"),
            },
        ),
    }
}

} // verus!
