//! Finding installations and worlds, and naming a world on the command line.
pub mod installation;
pub mod platform;
pub mod reference;
pub mod worlds;


pub use platform::{Candidate, Installation, WorldRoot};
pub use worlds::{LastPlayedSource, World, PATH_INSTALLATION};

use crate::text::{join_path, join_spec};
use vstd::prelude::*;

verus! {

/// What a directory named on the command line turned out to be.
#[derive(Debug, Clone, Copy, PartialEq, Eq, Structural)]
pub enum PathKind {
    /// A `com.mojang` directory: probe it for `minecraftWorlds` and dev packs.
    Root,
    /// A world directory, sitting anywhere at all.
    World,
}

/// Sorts a `--path` value into the two things it may be. `is_file` answers
/// whether a path names a file.
///
/// A `level.dat` is what makes a directory a world. Everything else is
/// treated as a `com.mojang` root without insisting on the name or on the
/// directory existing: a root that turns out to hold nothing is simply
/// absent from discovery, as an unplugged external drive always was.
pub fn classify<F: Fn(&str) -> bool>(path: &str, is_file: &F) -> (r: PathKind)
    requires
        forall|p: &str| is_file.requires((p,)),
    ensures
        exists|p: &str, b: bool|
            p@ == join_spec(path@, "level.dat"@) && is_file.ensures((p,), b) && r == if b {
                PathKind::World
            } else {
                PathKind::Root
            },
{
    let dat = join_path(path, "level.dat");
    let b = is_file(dat.as_str());
    if b {
        PathKind::World
    } else {
        PathKind::Root
    }
}

} // verus!
