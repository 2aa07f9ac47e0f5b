//! A pack's manifest file: only the header UUID, the version, and whether a
//! module is `resources` matter here.
//!
//! Reading the JSON is the caller's; this module turns the header it found
//! into a [`Manifest`], refusing a version that is not three numbers.
use crate::error::CoreError;
use crate::text::{decimal, nat_text, str_eq, strings_view};
use vstd::prelude::*;

verus! {

broadcast use vstd::std_specs::vec::group_vec_axioms;

#[derive(Debug, Clone, Copy, PartialEq, Eq, Structural)]
pub enum PackKind {
    Behavior,
    Resource,
}

#[derive(Debug, PartialEq, Eq)]
pub struct Manifest {
    pub name: String,
    pub uuid: String,
    pub version: [u32; 3],
    pub kind: PackKind,
}

pub struct ManifestV {
    pub name: Seq<char>,
    pub uuid: Seq<char>,
    pub version: Seq<u32>,
    pub kind: PackKind,
}

impl View for Manifest {
    type V = ManifestV;

    open spec fn view(&self) -> ManifestV {
        ManifestV { name: self.name@, uuid: self.uuid@, version: self.version@, kind: self.kind }
    }
}

impl Clone for Manifest {
    fn clone(&self) -> (r: Self)
        ensures
            r@ == self@,
    {
        Manifest {
            name: self.name.clone(),
            uuid: self.uuid.clone(),
            version: self.version,
            kind: self.kind,
        }
    }
}

/// `[1, 2, 0]` as `"1.2.0"`.
pub open spec fn version_text(v: Seq<u32>) -> Seq<char> {
    decimal(v[0] as int) + "."@ + decimal(v[1] as int) + "."@ + decimal(v[2] as int)
}

/// `[1, 2, 0]` as `"1.2.0"`.
pub fn version_string(v: [u32; 3]) -> (r: String)
    ensures
        r@ == version_text(v@),
{
    let mut r = nat_text(v[0] as u64);
    r.append(".");
    let b = nat_text(v[1] as u64);
    r.append(b.as_str());
    r.append(".");
    let c = nat_text(v[2] as u64);
    r.append(c.as_str());
    r
}

/// The numbers of a list, as `Debug` prints a `Vec<u32>`: `[1, 2]`.
pub open spec fn list_text(v: Seq<u32>) -> Seq<char>
    decreases v.len(),
{
    if v.len() == 0 {
        "[]"@
    } else {
        list_items(v) + "]"@
    }
}

/// `[` and the numbers, separated by `, `.
pub open spec fn list_items(v: Seq<u32>) -> Seq<char>
    decreases v.len(),
{
    if v.len() == 0 {
        "["@
    } else if v.len() == 1 {
        "["@ + decimal(v[0] as int)
    } else {
        list_items(v.drop_last()) + ", "@ + decimal(v.last() as int)
    }
}

fn list_string(v: &Vec<u32>) -> (r: String)
    ensures
        r@ == list_text(v@),
{
    if v.len() == 0 {
        return String::from_str("[]");
    }
    let mut r = String::from_str("[");
    let mut i: usize = 0;
    while i < v.len()
        invariant
            i <= v@.len(),
            v@.len() > 0,
            r@ == list_items(v@.subrange(0, i as int)),
        decreases v@.len() - i,
    {
        let ghost cur = v@.subrange(0, i + 1);
        assert(cur.drop_last() =~= v@.subrange(0, i as int));
        assert(cur.last() == v@[i as int]);
        if i > 0 {
            r.append(", ");
        }
        let d = nat_text(v[i] as u64);
        r.append(d.as_str());
        i += 1;
    }
    assert(v@.subrange(0, v@.len() as int) =~= v@);
    r.append("]");
    r
}

/// The reason a header's version is refused.
pub open spec fn bad_version_reason(version: Seq<u32>) -> Seq<char> {
    "header version is not three numbers: "@ + list_text(version)
}

/// Whether any module is of type `resources`.
pub open spec fn has_resources(module_types: Seq<Seq<char>>) -> bool {
    exists|i: int| 0 <= i < module_types.len() && module_types[i] == "resources"@
}

/// A manifest from what its JSON holds: the header's name, UUID and version,
/// and the `type` of each module. A module of type `resources` makes it a
/// resource pack. A version that is not exactly three numbers is refused
/// rather than padded, naming the file.
pub fn from_header(
    name: String,
    uuid: String,
    version: Vec<u32>,
    module_types: &Vec<String>,
    path: &str,
) -> (r: Result<Manifest, CoreError>)
    ensures
        r is Ok <==> version@.len() == 3,
        r matches Ok(m) ==> (m@.name == name@ && m@.uuid == uuid@ && m@.version == version@ && (
        m.kind == PackKind::Resource <==> has_resources(strings_view(module_types@)))),
        r matches Err(e) ==> (e matches CoreError::BadPack { path: p, reason } && p@ == path@
            && reason@ == bad_version_reason(version@)),
{
    if version.len() != 3 {
        let mut reason = String::from_str("header version is not three numbers: ");
        let l = list_string(&version);
        reason.append(l.as_str());
        return Err(CoreError::BadPack { path: String::from_str(path), reason });
    }
    let v: [u32; 3] = [version[0], version[1], version[2]];
    assert(v@ =~= version@);
    let ghost types = strings_view(module_types@);
    let mut resource = false;
    let mut i: usize = 0;
    while i < module_types.len()
        invariant
            i <= module_types@.len(),
            types == strings_view(module_types@),
            resource <==> exists|j: int| 0 <= j < i && types[j] == "resources"@,
        decreases module_types@.len() - i,
    {
        if str_eq(module_types[i].as_str(), "resources") {
            assert(types[i as int] == "resources"@);
            resource = true;
        }
        i += 1;
    }
    let kind = if resource {
        PackKind::Resource
    } else {
        PackKind::Behavior
    };
    Ok(Manifest { name, uuid, version: v, kind })
}

} // verus!
