//! Rescuing a Construct that was installed into the wrong folder.
//!
//! `behavior_packs` sits beside `development_behavior_packs`, and a by-hand
//! install readily lands in the first. That copy carries the same header UUID
//! as the one this library installs, so it shadows it unpredictably while
//! being invisible to every command here. It is folded into the development
//! root before an install places anything. The moving and copying are the
//! caller's; the decisions, and the names a collision is resolved under,
//! are here.
use crate::error::CoreError;
use crate::install::last_segment;
use crate::pack::{first_with_uuid, find_by_uuid, packs_view, Pack};
use crate::text::{
    chars_of, join_path, join_spec, last_index, last_index_of, nat_text, decimal, str_eq,
    string_from, sub_chars,
};
use vstd::prelude::*;

verus! {

/// How many numbered names are tried before a collision is given up on.
pub const MAX_SUFFIX: u64 = 1000;

#[derive(Debug, Clone, Copy, PartialEq, Eq, Structural)]
pub enum AdoptKind {
    /// The development root had no copy, so the misplaced one became it.
    Moved,
    /// The development root already had a copy, so the misplaced one's
    /// structures were folded into it and the misplaced copy removed.
    Merged,
}

/// A structure that existed in both copies under one name with different
/// contents, kept under a second name rather than dropped. Paths are
/// relative to the pack's `structures/`.
#[derive(Debug, Clone, PartialEq, Eq)]
pub struct Rescued {
    pub from: String,
    pub to: String,
}

#[derive(Debug, Clone)]
pub struct Adopted {
    pub from: String,
    pub to: String,
    pub kind: AdoptKind,
    /// Structure files written into the development copy, the rescued ones
    /// included. Always 0 for [`AdoptKind::Moved`], where the pack moved whole.
    pub merged: usize,
    pub rescued: Vec<Rescued>,
    /// Set when every structure arrived but the emptied misplaced directory
    /// could not be removed: not an error, but the duplicate remains.
    pub left_behind: Option<String>,
}

/// What adopting a misplaced pack comes to.
#[derive(Debug)]
pub enum AdoptPlan {
    /// No copy in the development root: the misplaced one moves there whole,
    /// under its folder name or a free numbered variant of it.
    MoveIn { stray: String, name: String },
    /// A copy is already installed and is authoritative: only the misplaced
    /// `structures/` is folded into it, then the misplaced copy is removed.
    MergeIn { stray: String, installed: String },
}

/// Decides how to fold a pack carrying `uuid` out of `stray_root` into
/// `dev_root`, given what the two roots hold.
///
/// `Ok(None)`, the common answer, means there is nothing to adopt: the two
/// roots are one, or the stray root holds no such pack.
pub fn adopt(
    dev_root: &str,
    stray_root: &str,
    uuid: &str,
    stray_packs: &Vec<Pack>,
    dev_packs: &Vec<Pack>,
) -> (r: Result<Option<AdoptPlan>, CoreError>)
    ensures
        ({
            let stray = first_with_uuid(packs_view(stray_packs@), uuid@);
            let installed = first_with_uuid(packs_view(dev_packs@), uuid@);
            &&& (dev_root@ == stray_root@ || stray is None) ==> (r matches Ok(None))
            &&& (dev_root@ != stray_root@ && stray is Some && installed is Some) ==> (r matches Ok(
                Some(AdoptPlan::MergeIn { stray: s, installed: i }),
            ) && s@ == stray->0.dir && i@ == installed->0.dir)
            &&& (dev_root@ != stray_root@ && stray is Some && installed is None) ==> if last_segment(
                stray->0.dir,
            ).len() > 0 {
                (r matches Ok(Some(AdoptPlan::MoveIn { stray: s, name })) && s@ == stray->0.dir
                    && name@ == last_segment(stray->0.dir))
            } else {
                (r matches Err(CoreError::BadPack { path, reason }) && path@ == stray->0.dir
                    && reason@ == "the misplaced pack has no folder name"@)
            }
        }),
{
    if str_eq(dev_root, stray_root) {
        return Ok(None);
    }
    let stray = match find_by_uuid(stray_packs, uuid) {
        Some(p) => p,
        None => return Ok(None),
    };
    match find_by_uuid(dev_packs, uuid) {
        Some(installed) => Ok(Some(AdoptPlan::MergeIn { stray: stray.dir, installed: installed.dir })),
        None => {
            let name = crate::install::last_segment_of(stray.dir.as_str());
            if name.unicode_len() == 0 {
                return Err(
                    CoreError::BadPack {
                        path: stray.dir,
                        reason: String::from_str("the misplaced pack has no folder name"),
                    },
                );
            }
            Ok(Some(AdoptPlan::MoveIn { stray: stray.dir, name }))
        },
    }
}

/// The `n`-th folder name tried when `name` is taken in `root`: `<name>-<n>`.
pub fn numbered_dir(root: &str, name: &str, n: u64) -> (r: String)
    ensures
        r@ == join_spec(root@, name@ + seq!['-'] + decimal(n as int)),
{
    let mut f = String::from_str(name);
    f.append("-");
    f.append(nat_text(n).as_str());
    proof {
        reveal_strlit("-");
    }
    assert(f@ =~= name@ + seq!['-'] + decimal(n as int));
    join_path(root, f.as_str())
}

/// A file path split into its folder, stem and extension the way a path's
/// parent, stem and extension are read: the extension follows the last `.`
/// of the name unless that `.` opens it or the name is `..`.
pub open spec fn file_parts(path: Seq<char>) -> (Seq<char>, Seq<char>, Seq<char>) {
    let s = last_index(path, '/');
    let parent = if s < 0 {
        Seq::empty()
    } else if s == 0 {
        seq!['/']
    } else {
        path.subrange(0, s)
    };
    let file = path.subrange(s + 1, path.len() as int);
    let d = last_index(file, '.');
    if file == seq!['.', '.'] || d <= 0 {
        (parent, file, Seq::empty())
    } else {
        (parent, file.subrange(0, d), seq!['.'] + file.subrange(d + 1, file.len() as int))
    }
}

/// The `n`-th name tried for a file whose name is taken: `<stem>-<n><ext>`
/// beside it.
pub open spec fn numbered_file_spec(taken: Seq<char>, n: int) -> Seq<char> {
    let (parent, stem, ext) = file_parts(taken);
    join_spec(parent, stem + seq!['-'] + decimal(n) + ext)
}

/// The `n`-th name tried for a file whose name is taken.
pub fn numbered_file(taken: &str, n: u64) -> (r: String)
    ensures
        r@ == numbered_file_spec(taken@, n as int),
{
    let v = chars_of(taken);
    let (parent, file) = match last_index_of(&v, '/') {
        None => (Vec::new(), sub_chars(&v, 0, v.len())),
        Some(s) => {
            let p = if s == 0 {
                let mut p: Vec<char> = Vec::new();
                p.push('/');
                p
            } else {
                sub_chars(&v, 0, s)
            };
            (p, sub_chars(&v, s + 1, v.len()))
        },
    };
    assert(parent@ == file_parts(taken@).0) by {
        if last_index(taken@, '/') < 0 {
            assert(parent@ =~= Seq::<char>::empty());
        } else if last_index(taken@, '/') == 0 {
            assert(parent@ =~= seq!['/']);
        }
    }
    assert(file@ =~= taken@.subrange(last_index(taken@, '/') + 1, taken@.len() as int));
    let is_dotdot = file.len() == 2 && file[0] == '.' && file[1] == '.';
    assert(is_dotdot == (file@ == seq!['.', '.'])) by {
        if file@ == seq!['.', '.'] {
            assert(file@[0] == '.' && file@[1] == '.');
        }
        if is_dotdot {
            assert(file@ =~= seq!['.', '.']);
        }
    }
    let (stem, ext) = match last_index_of(&file, '.') {
        Some(d) if d > 0 && !is_dotdot => {
            let mut e: Vec<char> = Vec::new();
            e.push('.');
            let rest = sub_chars(&file, d + 1, file.len());
            let e = crate::text::concat_chars(&e, &rest);
            (sub_chars(&file, 0, d), e)
        },
        _ => {
            let e: Vec<char> = Vec::new();
            assert(e@ =~= Seq::<char>::empty());
            (sub_chars(&file, 0, file.len()), e)
        },
    };
    assert(stem@ == file_parts(taken@).1 && ext@ == file_parts(taken@).2) by {
        assert(file@.subrange(0, file@.len() as int) =~= file@);
    }
    let mut name = string_from(&stem);
    name.append("-");
    name.append(nat_text(n).as_str());
    let ext_s = string_from(&ext);
    name.append(ext_s.as_str());
    proof {
        reveal_strlit("-");
    }
    let parent_s = string_from(&parent);
    assert(name@ =~= stem@ + seq!['-'] + decimal(n as int) + ext@);
    join_path(parent_s.as_str(), name.as_str())
}

/// The refusal when every numbered name up to [`MAX_SUFFIX`] was taken:
/// for a folder, or for a file.
pub fn no_free_name(path: &str, folder: bool) -> (e: CoreError)
    ensures
        e matches CoreError::BadPack { path: p, reason } && p@ == path@ && reason@ == if folder {
            "no free folder name for it after 1000 tries"@
        } else {
            "no free name for it after 1000 tries"@
        },
{
    let reason = if folder {
        String::from_str("no free folder name for it after 1000 tries")
    } else {
        String::from_str("no free name for it after 1000 tries")
    };
    CoreError::BadPack { path: String::from_str(path), reason }
}

} // verus!
