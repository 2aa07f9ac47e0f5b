//! Every failure the library can produce.
//!
//! Variants carry the data a caller needs to render a good message — the
//! candidates for an ambiguity, the paths probed for a missing root — rather
//! than a pre-formatted string. Paths are carried as text.
use crate::inuse::AtRisk;
use crate::text::{debug_str, decimal, nat_text, str_debug};
use vstd::prelude::*;

verus! {

#[derive(Debug, Clone)]
pub enum CoreError {
    NoInstallations { probed: Vec<String> },
    WorldNotFound { reference: String, near: Vec<String> },
    /// `looks_like_path` is true when the input looks like a filesystem path
    /// that was not found on disk.
    MalformedReference { reference: String, looks_like_path: bool },
    AmbiguousWorld { reference: String, candidates: Vec<String> },
    StructureNotFound { name: String, near: Vec<String> },
    AmbiguousStructure { name: String, sources: Vec<String> },
    AmbiguousInstallation { candidates: Vec<String> },
    InstallationNotFound { name: String, available: Vec<String> },
    /// What the refused write would have put at risk.
    WorldInUse { world: String, at_risk: AtRisk },
    InsufficientSpace { world: String, need: u64, available: u64 },
    TargetExists { path: String },
    Db(String),
    BadLevelDat { path: String, reason: String },
    /// `written` says whether a write already landed on disk.
    UnwritableLevelDat { path: String, reason: String, written: bool },
    UnreadableWorld { path: String, reason: String },
    BadConfig { path: String, reason: String },
    InvalidPath { path: String, reason: String },
    BadPack { path: String, reason: String },
    BadStructureFile { what: String, reason: String },
    MergeRefused { reason: String },
    ConstructNotInstalled { searched: Vec<String> },
    IncompleteInstall { dest: String, staging: String, reason: String },
    BadStructureName { name: String, reason: String },
    Internal { what: String },
    NoBackupDir,
    Network { reason: String },
    RateLimited,
    AssetNotFound { version: String, available: Vec<String> },
    /// An operating-system failure, by its message.
    Io(String),
}

/// The machine-readable name of each failure: the variant name in kebab-case.
pub open spec fn kind_spec(e: CoreError) -> Seq<char> {
    match e {
        CoreError::NoInstallations { .. } => "no-installations"@,
        CoreError::WorldNotFound { .. } => "world-not-found"@,
        CoreError::MalformedReference { .. } => "malformed-reference"@,
        CoreError::AmbiguousWorld { .. } => "ambiguous-world"@,
        CoreError::StructureNotFound { .. } => "structure-not-found"@,
        CoreError::AmbiguousStructure { .. } => "ambiguous-structure"@,
        CoreError::AmbiguousInstallation { .. } => "ambiguous-installation"@,
        CoreError::InstallationNotFound { .. } => "installation-not-found"@,
        CoreError::WorldInUse { .. } => "world-in-use"@,
        CoreError::InsufficientSpace { .. } => "insufficient-space"@,
        CoreError::TargetExists { .. } => "target-exists"@,
        CoreError::Db(..) => "db"@,
        CoreError::BadLevelDat { .. } => "bad-level-dat"@,
        CoreError::UnwritableLevelDat { .. } => "unwritable-level-dat"@,
        CoreError::UnreadableWorld { .. } => "unreadable-world"@,
        CoreError::BadConfig { .. } => "bad-config"@,
        CoreError::InvalidPath { .. } => "invalid-path"@,
        CoreError::BadPack { .. } => "bad-pack"@,
        CoreError::BadStructureFile { .. } => "bad-structure-file"@,
        CoreError::MergeRefused { .. } => "merge-refused"@,
        CoreError::ConstructNotInstalled { .. } => "construct-not-installed"@,
        CoreError::IncompleteInstall { .. } => "incomplete-install"@,
        CoreError::BadStructureName { .. } => "bad-structure-name"@,
        CoreError::Internal { .. } => "internal"@,
        CoreError::NoBackupDir => "no-backup-dir"@,
        CoreError::Network { .. } => "network"@,
        CoreError::RateLimited => "rate-limited"@,
        CoreError::AssetNotFound { .. } => "asset-not-found"@,
        CoreError::Io(..) => "io"@,
    }
}

/// The position of a failure's variant in the declaration.
pub open spec fn variant_index(e: CoreError) -> int {
    match e {
        CoreError::NoInstallations { .. } => 0,
        CoreError::WorldNotFound { .. } => 1,
        CoreError::MalformedReference { .. } => 2,
        CoreError::AmbiguousWorld { .. } => 3,
        CoreError::StructureNotFound { .. } => 4,
        CoreError::AmbiguousStructure { .. } => 5,
        CoreError::AmbiguousInstallation { .. } => 6,
        CoreError::InstallationNotFound { .. } => 7,
        CoreError::WorldInUse { .. } => 8,
        CoreError::InsufficientSpace { .. } => 9,
        CoreError::TargetExists { .. } => 10,
        CoreError::Db(..) => 11,
        CoreError::BadLevelDat { .. } => 12,
        CoreError::UnwritableLevelDat { .. } => 13,
        CoreError::UnreadableWorld { .. } => 14,
        CoreError::BadConfig { .. } => 15,
        CoreError::InvalidPath { .. } => 16,
        CoreError::BadPack { .. } => 17,
        CoreError::BadStructureFile { .. } => 18,
        CoreError::MergeRefused { .. } => 19,
        CoreError::ConstructNotInstalled { .. } => 20,
        CoreError::IncompleteInstall { .. } => 21,
        CoreError::BadStructureName { .. } => 22,
        CoreError::Internal { .. } => 23,
        CoreError::NoBackupDir => 24,
        CoreError::Network { .. } => 25,
        CoreError::RateLimited => 26,
        CoreError::AssetNotFound { .. } => 27,
        CoreError::Io(..) => 28,
    }
}

/// A few features that tell the kind names apart: the length and the
/// characters at positions 0, 1, 2 and 14 (a space where the name is
/// shorter).
pub open spec fn kind_features(k: Seq<char>) -> (nat, char, char, char, char) {
    (
        k.len(),
        if k.len() > 0 { k[0] } else { ' ' },
        if k.len() > 1 { k[1] } else { ' ' },
        if k.len() > 2 { k[2] } else { ' ' },
        if k.len() > 14 { k[14] } else { ' ' },
    )
}

/// The features of the kind of the variant at position `i`.
pub open spec fn variant_features(i: int) -> (nat, char, char, char, char) {
    if i == 0 {
        (16, 'n', 'o', '-', 'n')
    } else if i == 1 {
        (15, 'w', 'o', 'r', 'd')
    } else if i == 2 {
        (19, 'm', 'a', 'l', 'r')
    } else if i == 3 {
        (15, 'a', 'm', 'b', 'd')
    } else if i == 4 {
        (19, 's', 't', 'r', 'f')
    } else if i == 5 {
        (19, 'a', 'm', 'b', 'c')
    } else if i == 6 {
        (22, 'a', 'm', 'b', 'a')
    } else if i == 7 {
        (22, 'i', 'n', 's', 'o')
    } else if i == 8 {
        (12, 'w', 'o', 'r', ' ')
    } else if i == 9 {
        (18, 'i', 'n', 's', 'p')
    } else if i == 10 {
        (13, 't', 'a', 'r', ' ')
    } else if i == 11 {
        (2, 'd', 'b', ' ', ' ')
    } else if i == 12 {
        (13, 'b', 'a', 'd', ' ')
    } else if i == 13 {
        (20, 'u', 'n', 'w', 'e')
    } else if i == 14 {
        (16, 'u', 'n', 'r', 'l')
    } else if i == 15 {
        (10, 'b', 'a', 'd', ' ')
    } else if i == 16 {
        (12, 'i', 'n', 'v', ' ')
    } else if i == 17 {
        (8, 'b', 'a', 'd', ' ')
    } else if i == 18 {
        (18, 'b', 'a', 'd', 'f')
    } else if i == 19 {
        (13, 'm', 'e', 'r', ' ')
    } else if i == 20 {
        (23, 'c', 'o', 'n', 'i')
    } else if i == 21 {
        (18, 'i', 'n', 'c', 't')
    } else if i == 22 {
        (18, 'b', 'a', 'd', 'n')
    } else if i == 23 {
        (8, 'i', 'n', 't', ' ')
    } else if i == 24 {
        (13, 'n', 'o', '-', ' ')
    } else if i == 25 {
        (7, 'n', 'e', 't', ' ')
    } else if i == 26 {
        (12, 'r', 'a', 't', ' ')
    } else if i == 27 {
        (15, 'a', 's', 's', 'd')
    } else if i == 28 {
        (2, 'i', 'o', ' ', ' ')
    } else {
        (0, ' ', ' ', ' ', ' ')
    }
}

proof fn lemma_kind_features(e: CoreError)
    ensures
        kind_features(kind_spec(e)) == variant_features(variant_index(e)),
        0 <= variant_index(e) < 29,
{
    match e {
        CoreError::NoInstallations { .. } => {
            reveal_strlit("no-installations");
        },
        CoreError::WorldNotFound { .. } => {
            reveal_strlit("world-not-found");
        },
        CoreError::MalformedReference { .. } => {
            reveal_strlit("malformed-reference");
        },
        CoreError::AmbiguousWorld { .. } => {
            reveal_strlit("ambiguous-world");
        },
        CoreError::StructureNotFound { .. } => {
            reveal_strlit("structure-not-found");
        },
        CoreError::AmbiguousStructure { .. } => {
            reveal_strlit("ambiguous-structure");
        },
        CoreError::AmbiguousInstallation { .. } => {
            reveal_strlit("ambiguous-installation");
        },
        CoreError::InstallationNotFound { .. } => {
            reveal_strlit("installation-not-found");
        },
        CoreError::WorldInUse { .. } => {
            reveal_strlit("world-in-use");
        },
        CoreError::InsufficientSpace { .. } => {
            reveal_strlit("insufficient-space");
        },
        CoreError::TargetExists { .. } => {
            reveal_strlit("target-exists");
        },
        CoreError::Db(..) => {
            reveal_strlit("db");
        },
        CoreError::BadLevelDat { .. } => {
            reveal_strlit("bad-level-dat");
        },
        CoreError::UnwritableLevelDat { .. } => {
            reveal_strlit("unwritable-level-dat");
        },
        CoreError::UnreadableWorld { .. } => {
            reveal_strlit("unreadable-world");
        },
        CoreError::BadConfig { .. } => {
            reveal_strlit("bad-config");
        },
        CoreError::InvalidPath { .. } => {
            reveal_strlit("invalid-path");
        },
        CoreError::BadPack { .. } => {
            reveal_strlit("bad-pack");
        },
        CoreError::BadStructureFile { .. } => {
            reveal_strlit("bad-structure-file");
        },
        CoreError::MergeRefused { .. } => {
            reveal_strlit("merge-refused");
        },
        CoreError::ConstructNotInstalled { .. } => {
            reveal_strlit("construct-not-installed");
        },
        CoreError::IncompleteInstall { .. } => {
            reveal_strlit("incomplete-install");
        },
        CoreError::BadStructureName { .. } => {
            reveal_strlit("bad-structure-name");
        },
        CoreError::Internal { .. } => {
            reveal_strlit("internal");
        },
        CoreError::NoBackupDir => {
            reveal_strlit("no-backup-dir");
        },
        CoreError::Network { .. } => {
            reveal_strlit("network");
        },
        CoreError::RateLimited => {
            reveal_strlit("rate-limited");
        },
        CoreError::AssetNotFound { .. } => {
            reveal_strlit("asset-not-found");
        },
        CoreError::Io(..) => {
            reveal_strlit("io");
        },
    }
}

/// The kind names the variant: two failures share a kind only when they are
/// of the same variant.
pub proof fn lemma_kind_names_the_variant(a: CoreError, b: CoreError)
    requires
        kind_spec(a) == kind_spec(b),
    ensures
        variant_index(a) == variant_index(b),
{
    lemma_kind_features(a);
    lemma_kind_features(b);
}

impl CoreError {
    /// The stable machine-readable name for this failure. Callers branch on
    /// it, so these strings are part of the public contract.
    pub fn kind(&self) -> (r: &'static str)
        ensures
            r@ == kind_spec(*self),
    {
        match self {
            CoreError::NoInstallations { .. } => "no-installations",
            CoreError::WorldNotFound { .. } => "world-not-found",
            CoreError::MalformedReference { .. } => "malformed-reference",
            CoreError::AmbiguousWorld { .. } => "ambiguous-world",
            CoreError::StructureNotFound { .. } => "structure-not-found",
            CoreError::AmbiguousStructure { .. } => "ambiguous-structure",
            CoreError::AmbiguousInstallation { .. } => "ambiguous-installation",
            CoreError::InstallationNotFound { .. } => "installation-not-found",
            CoreError::WorldInUse { .. } => "world-in-use",
            CoreError::InsufficientSpace { .. } => "insufficient-space",
            CoreError::TargetExists { .. } => "target-exists",
            CoreError::Db(..) => "db",
            CoreError::BadLevelDat { .. } => "bad-level-dat",
            CoreError::UnwritableLevelDat { .. } => "unwritable-level-dat",
            CoreError::UnreadableWorld { .. } => "unreadable-world",
            CoreError::BadConfig { .. } => "bad-config",
            CoreError::InvalidPath { .. } => "invalid-path",
            CoreError::BadPack { .. } => "bad-pack",
            CoreError::BadStructureFile { .. } => "bad-structure-file",
            CoreError::MergeRefused { .. } => "merge-refused",
            CoreError::ConstructNotInstalled { .. } => "construct-not-installed",
            CoreError::IncompleteInstall { .. } => "incomplete-install",
            CoreError::BadStructureName { .. } => "bad-structure-name",
            CoreError::Internal { .. } => "internal",
            CoreError::NoBackupDir => "no-backup-dir",
            CoreError::Network { .. } => "network",
            CoreError::RateLimited => "rate-limited",
            CoreError::AssetNotFound { .. } => "asset-not-found",
            CoreError::Io(..) => "io",
        }
    }
}


/// The sentence a failure is reported with.
pub open spec fn message_spec(e: CoreError) -> Seq<char> {
    match e {
        CoreError::NoInstallations { .. } => "no Minecraft installation found"@,
        CoreError::WorldNotFound { reference, .. } => "world not found: "@ + reference@,
        CoreError::MalformedReference { reference, .. } => "malformed world reference: "@ + reference@,
        CoreError::AmbiguousWorld { reference, candidates } => reference@ + " matches "@ + decimal(
            candidates@.len() as int,
        ) + " worlds"@,
        CoreError::StructureNotFound { name, .. } => "structure not found: "@ + name@,
        CoreError::AmbiguousStructure { name, sources } => "structure "@ + name@ + " matches "@
            + decimal(sources@.len() as int) + " sources"@,
        CoreError::AmbiguousInstallation { .. } => "more than one installation; no default configured"@,
        CoreError::InstallationNotFound { name, .. } => "no installation named "@ + name@,
        CoreError::WorldInUse { world, .. } => "world is in use: "@ + world@,
        CoreError::InsufficientSpace { world, need, available } => "not enough space to snapshot "@
            + world@ + ": need "@ + decimal(need as int) + " bytes, "@ + decimal(available as int)
            + " available"@,
        CoreError::TargetExists { path } => path@ + " already exists"@,
        CoreError::Db(m) => "database error: "@ + m@,
        CoreError::BadLevelDat { path, reason } => "malformed level.dat at "@ + path@ + ": "@ + reason@,
        CoreError::UnwritableLevelDat { path, reason, .. } => "cannot rewrite "@ + path@ + ": "@ + reason@,
        CoreError::UnreadableWorld { path, reason } => "cannot read "@ + path@ + ": "@ + reason@,
        CoreError::BadConfig { path, reason } => "config error in "@ + path@ + ": "@ + reason@,
        CoreError::InvalidPath { path, reason } => "invalid path "@ + path@ + ": "@ + reason@,
        CoreError::BadPack { path, reason } => "not a usable pack at "@ + path@ + ": "@ + reason@,
        CoreError::BadStructureFile { what, reason } => "malformed structure "@ + what@ + ": "@ + reason@,
        CoreError::MergeRefused { reason } => "cannot merge: "@ + reason@,
        CoreError::ConstructNotInstalled { .. } => "Construct is not installed"@,
        CoreError::IncompleteInstall { dest, staging, reason } => "install of "@ + dest@
            + " did not finish: "@ + reason@ + "; the new pack is staged at "@ + staging@
            + " for manual recovery"@,
        CoreError::BadStructureName { name, reason } => "unusable structure name "@ + str_debug(name@)
            + ": "@ + reason@,
        CoreError::Internal { what } => "internal invariant violated: "@ + what@,
        CoreError::NoBackupDir => "no platform data directory for backups; set [backups] dir in config.toml"@,
        CoreError::Network { reason } => "could not reach GitHub: "@ + reason@,
        CoreError::RateLimited => "GitHub rate limit reached"@,
        CoreError::AssetNotFound { version, .. } => "no Construct .mcaddon for "@ + version@,
        CoreError::Io(m) => m@,
    }
}

fn glue(parts: &[&str]) -> (r: String)
    ensures
        r@ == Seq::new(parts@.len(), |i: int| parts@[i]@).fold_left(Seq::<char>::empty(), |acc: Seq<char>, p: Seq<char>| acc + p),
{
    let mut r = String::new();
    let ghost v = Seq::new(parts@.len(), |i: int| parts@[i]@);
    let mut i: usize = 0;
    while i < parts.len()
        invariant
            i <= parts@.len(),
            v == Seq::new(parts@.len(), |i: int| parts@[i]@),
            r@ == v.subrange(0, i as int).fold_left(Seq::<char>::empty(), |acc: Seq<char>, p: Seq<char>| acc + p),
        decreases parts@.len() - i,
    {
        r.append(parts[i]);
        proof {
            let f = |acc: Seq<char>, p: Seq<char>| acc + p;
            let w = v.subrange(0, i + 1);
            assert(w.drop_last() =~= v.subrange(0, i as int));
            assert(w.last() == parts@[i as int]@);
        }
        i += 1;
    }
    assert(v.subrange(0, i as int) =~= v);
    r
}

impl CoreError {
    /// The sentence this failure is reported with.
    #[verifier::rlimit(40)]
    pub fn message(&self) -> (r: String)
        ensures
            r@ == message_spec(*self),
    {
        let r = match self {
            CoreError::NoInstallations { .. } => String::from_str("no Minecraft installation found"),
            CoreError::WorldNotFound { reference, .. } => glue(&["world not found: ", reference.as_str()]),
            CoreError::MalformedReference { reference, .. } => glue(&["malformed world reference: ", reference.as_str()]),
            CoreError::AmbiguousWorld { reference, candidates } => {
                let n = nat_text(candidates.len() as u64);
                glue(&[reference.as_str(), " matches ", n.as_str(), " worlds"])
            },
            CoreError::StructureNotFound { name, .. } => glue(&["structure not found: ", name.as_str()]),
            CoreError::AmbiguousStructure { name, sources } => {
                let n = nat_text(sources.len() as u64);
                glue(&["structure ", name.as_str(), " matches ", n.as_str(), " sources"])
            },
            CoreError::AmbiguousInstallation { .. } => String::from_str("more than one installation; no default configured"),
            CoreError::InstallationNotFound { name, .. } => glue(&["no installation named ", name.as_str()]),
            CoreError::WorldInUse { world, .. } => glue(&["world is in use: ", world.as_str()]),
            CoreError::InsufficientSpace { world, need, available } => {
                let a = nat_text(*need);
                let b = nat_text(*available);
                glue(&["not enough space to snapshot ", world.as_str(), ": need ", a.as_str(), " bytes, ", b.as_str(), " available"])
            },
            CoreError::TargetExists { path } => glue(&[path.as_str(), " already exists"]),
            CoreError::Db(m) => glue(&["database error: ", m.as_str()]),
            CoreError::BadLevelDat { path, reason } => glue(&["malformed level.dat at ", path.as_str(), ": ", reason.as_str()]),
            CoreError::UnwritableLevelDat { path, reason, .. } => glue(&["cannot rewrite ", path.as_str(), ": ", reason.as_str()]),
            CoreError::UnreadableWorld { path, reason } => glue(&["cannot read ", path.as_str(), ": ", reason.as_str()]),
            CoreError::BadConfig { path, reason } => glue(&["config error in ", path.as_str(), ": ", reason.as_str()]),
            CoreError::InvalidPath { path, reason } => glue(&["invalid path ", path.as_str(), ": ", reason.as_str()]),
            CoreError::BadPack { path, reason } => glue(&["not a usable pack at ", path.as_str(), ": ", reason.as_str()]),
            CoreError::BadStructureFile { what, reason } => glue(&["malformed structure ", what.as_str(), ": ", reason.as_str()]),
            CoreError::MergeRefused { reason } => glue(&["cannot merge: ", reason.as_str()]),
            CoreError::ConstructNotInstalled { .. } => String::from_str("Construct is not installed"),
            CoreError::IncompleteInstall { dest, staging, reason } => glue(
                &["install of ", dest.as_str(), " did not finish: ", reason.as_str(), "; the new pack is staged at ", staging.as_str(), " for manual recovery"],
            ),
            CoreError::BadStructureName { name, reason } => {
                let d = debug_str(name.as_str());
                glue(&["unusable structure name ", d.as_str(), ": ", reason.as_str()])
            },
            CoreError::Internal { what } => glue(&["internal invariant violated: ", what.as_str()]),
            CoreError::NoBackupDir => String::from_str("no platform data directory for backups; set [backups] dir in config.toml"),
            CoreError::Network { reason } => glue(&["could not reach GitHub: ", reason.as_str()]),
            CoreError::RateLimited => String::from_str("GitHub rate limit reached"),
            CoreError::AssetNotFound { version, .. } => glue(&["no Construct .mcaddon for ", version.as_str()]),
            CoreError::Io(m) => m.clone(),
        };
        proof {
            reveal_with_fuel(Seq::fold_left, 8);
        }
        r
    }
}

} // verus!
