//! The per-world structures pack: a behaviour pack holding structures and
//! nothing else.
//!
//! A structure in the shared copy of Construct is seen by every world using
//! it, which makes "which worlds have which structures" unanswerable. Each
//! world gets one of these instead. It needs no code, so a manifest, an icon
//! and a folder are the whole pack.
use crate::discovery::World;
use crate::pack::{world_behavior_root, world_behavior_root_spec};
use crate::text::{join_path, join_spec};
use vstd::prelude::*;

verus! {

/// The shell pack's header UUID, fixed so the pack is found by UUID the way
/// Construct is, never by folder name. One UUID serves every world.
pub const UUID: &'static str = "9f7d83af-309e-4997-840e-e9c350435e83";

pub const MODULE_UUID: &'static str = "bb8e1f57-5e69-42f6-b1e1-cd4a2a717c49";

pub const DIR_NAME: &'static str = "ConstructStructures";

pub const NAME: &'static str = "Construct Structures";

/// The text of the shell pack's manifest file.
pub open spec fn manifest_text() -> Seq<char> {
    "{\n  \"format_version\": 2,\n  \"header\": {\n    \"name\": \""@ + NAME@
        + "\",\n    \"description\": \"Structures for this world, managed by ConstructCLI.\",\n    \"uuid\": \""@
        + UUID@
        + "\",\n    \"min_engine_version\": [1, 21, 0],\n    \"version\": [1, 0, 0]\n  },\n  \"modules\": [\n    {\n      \"description\": \"Structures\",\n      \"type\": \"data\",\n      \"uuid\": \""@
        + MODULE_UUID@ + "\",\n      \"version\": [1, 0, 0]\n    }\n  ]\n}\n"@
}

/// The shell pack's manifest file, written from the constants above.
pub fn manifest_json() -> (r: String)
    ensures
        r@ == manifest_text(),
{
    let mut r = String::from_str("{\n  \"format_version\": 2,\n  \"header\": {\n    \"name\": \"");
    r.append(NAME);
    r.append(
        "\",\n    \"description\": \"Structures for this world, managed by ConstructCLI.\",\n    \"uuid\": \"",
    );
    r.append(UUID);
    r.append(
        "\",\n    \"min_engine_version\": [1, 21, 0],\n    \"version\": [1, 0, 0]\n  },\n  \"modules\": [\n    {\n      \"description\": \"Structures\",\n      \"type\": \"data\",\n      \"uuid\": \"",
    );
    r.append(MODULE_UUID);
    r.append("\",\n      \"version\": [1, 0, 0]\n    }\n  ]\n}\n");
    r
}

/// Where the shell pack lives for `world`, whether or not it exists.
pub fn dir(world: &World) -> (r: String)
    ensures
        r@ == join_spec(world_behavior_root_spec(world.path@), DIR_NAME@),
{
    let root = world_behavior_root(world);
    join_path(root.as_str(), DIR_NAME)
}

} // verus!
