//! Construct on disk: where its packs live and what is inside their `structures/`.
//!
//! Packs are matched on their header UUID, never on folder name. Reading a
//! root's packs off disk is the caller's; the decisions over what was found
//! are here.
pub mod manifest;
pub mod shell;
pub mod structures;

use crate::catalog::Source;
use crate::discovery::{Installation, World};
use crate::error::CoreError;
use crate::text::{join_path, join_spec, seq_lt, str_eq, str_lt, strings_view};
use manifest::Manifest;
use vstd::prelude::*;

verus! {

broadcast use vstd::std_specs::vec::group_vec_axioms;

/// Construct's behaviour-pack header UUID. A renamed folder is still the same
/// pack, and two folders carrying this UUID are two copies of one pack.
pub const CONSTRUCT_BP_UUID: &'static str = "8c0c0153-d8b9-482a-889f-aef922b8fe58";

pub const CONSTRUCT_RP_UUID: &'static str = "375ec465-3dc1-429f-8b4c-a337889e1ed4";

#[derive(Debug)]
pub struct Pack {
    pub dir: String,
    pub manifest: Manifest,
}

pub struct PackV {
    pub dir: Seq<char>,
    pub manifest: manifest::ManifestV,
}

impl View for Pack {
    type V = PackV;

    open spec fn view(&self) -> PackV {
        PackV { dir: self.dir@, manifest: self.manifest@ }
    }
}

impl Clone for Pack {
    fn clone(&self) -> (r: Self)
        ensures
            r@ == self@,
    {
        Pack { dir: self.dir.clone(), manifest: self.manifest.clone() }
    }
}

pub open spec fn packs_view(s: Seq<Pack>) -> Seq<PackV> {
    Seq::new(s.len(), |i: int| s[i]@)
}

pub open spec fn shared_behavior_root_spec(dev_pack_root: Seq<char>) -> Seq<char> {
    join_spec(dev_pack_root, "development_behavior_packs"@)
}

pub open spec fn world_behavior_root_spec(world_path: Seq<char>) -> Seq<char> {
    join_spec(world_path, "behavior_packs"@)
}

pub fn shared_behavior_root(dev_pack_root: &str) -> (r: String)
    ensures
        r@ == shared_behavior_root_spec(dev_pack_root@),
{
    join_path(dev_pack_root, "development_behavior_packs")
}

pub fn shared_resource_root(dev_pack_root: &str) -> (r: String)
    ensures
        r@ == join_spec(dev_pack_root@, "development_resource_packs"@),
{
    join_path(dev_pack_root, "development_resource_packs")
}

/// The non-development sibling of [`shared_behavior_root`], where a
/// hand-installed Construct ends up when it is dropped into the wrong folder.
/// Nothing this library writes belongs here.
pub fn stray_behavior_root(dev_pack_root: &str) -> (r: String)
    ensures
        r@ == join_spec(dev_pack_root@, "behavior_packs"@),
{
    join_path(dev_pack_root, "behavior_packs")
}

/// The non-development sibling of [`shared_resource_root`].
pub fn stray_resource_root(dev_pack_root: &str) -> (r: String)
    ensures
        r@ == join_spec(dev_pack_root@, "resource_packs"@),
{
    join_path(dev_pack_root, "resource_packs")
}

/// A world's own copy of its packs, which takes precedence over the shared root.
pub fn world_behavior_root(world: &World) -> (r: String)
    ensures
        r@ == world_behavior_root_spec(world.path@),
{
    join_path(world.path.as_str(), "behavior_packs")
}

/// A directory name that is never read as a pack: one starting with `.`.
///
/// No Minecraft pack is named that way, but an install stages under such a
/// name, and mid-swap that staging directory carries a valid manifest with the
/// same header UUID as the pack it is replacing.
pub fn is_hidden_dir(name: &str) -> (r: bool)
    ensures
        r == (name@.len() > 0 && name@[0] == '.'),
{
    name.unicode_len() > 0 && name.get_char(0) == '.'
}

/// `s` ordered by directory.
pub open spec fn packs_by_dir(s: Seq<PackV>) -> Seq<PackV>
    decreases s.len(),
{
    if s.len() == 0 {
        Seq::empty()
    } else {
        let t = packs_by_dir(s.drop_last());
        t.insert(dir_pos(t, s.last()), s.last())
    }
}

/// Where `x` goes among packs ordered by directory.
pub open spec fn dir_pos(s: Seq<PackV>, x: PackV) -> int
    decreases s.len(),
{
    if s.len() == 0 {
        0
    } else if seq_lt(x.dir, s[0].dir) {
        0
    } else {
        1 + dir_pos(s.drop_first(), x)
    }
}

proof fn lemma_dir_pos_bound(s: Seq<PackV>, x: PackV)
    ensures
        0 <= dir_pos(s, x) <= s.len(),
    decreases s.len(),
{
    if s.len() > 0 && !seq_lt(x.dir, s[0].dir) {
        lemma_dir_pos_bound(s.drop_first(), x);
    }
}

/// The packs read from one root, ordered by directory, which is the order
/// [`find_by_uuid`] searches them in.
pub fn sort_packs(v: Vec<Pack>) -> (r: Vec<Pack>)
    ensures
        packs_view(r@) == packs_by_dir(packs_view(v@)),
{
    let ghost src = packs_view(v@);
    let mut out: Vec<Pack> = Vec::new();
    let mut i: usize = 0;
    while i < v.len()
        invariant
            i <= v@.len(),
            src == packs_view(v@),
            packs_view(out@) == packs_by_dir(src.subrange(0, i as int)),
        decreases v@.len() - i,
    {
        let x = v[i].clone();
        let ghost s = packs_view(out@);
        assert(s.subrange(0, s.len() as int) =~= s);
        let mut j: usize = 0;
        while j < out.len() && !str_lt(x.dir.as_str(), out[j].dir.as_str())
            invariant
                j <= out@.len(),
                s == packs_view(out@),
                dir_pos(s, x@) == j + dir_pos(s.subrange(j as int, s.len() as int), x@),
            decreases out@.len() - j,
        {
            let ghost rest = s.subrange(j as int, s.len() as int);
            assert(rest[0] == s[j as int]);
            assert(rest.drop_first() =~= s.subrange(j + 1, s.len() as int));
            j += 1;
        }
        proof {
            if j < out@.len() {
                assert(s.subrange(j as int, s.len() as int)[0] == s[j as int]);
            } else {
                assert(s.subrange(j as int, s.len() as int) =~= Seq::<PackV>::empty());
            }
            lemma_dir_pos_bound(s, x@);
        }
        out.insert(j, x);
        assert(src.subrange(0, i + 1).drop_last() =~= src.subrange(0, i as int));
        assert(src.subrange(0, i + 1).last() == src[i as int]);
        assert(packs_view(out@) =~= s.insert(j as int, src[i as int]));
        i += 1;
    }
    assert(src.subrange(0, src.len() as int) =~= src);
    out
}

/// The first pack in `packs` whose header UUID is `uuid`.
pub open spec fn first_with_uuid(packs: Seq<PackV>, uuid: Seq<char>) -> Option<PackV>
    decreases packs.len(),
{
    if packs.len() == 0 {
        None
    } else if packs[0].manifest.uuid == uuid {
        Some(packs[0])
    } else {
        first_with_uuid(packs.drop_first(), uuid)
    }
}

pub open spec fn opt_pack(p: Option<Pack>) -> Option<PackV> {
    match p {
        Some(x) => Some(x@),
        None => None,
    }
}

/// The first of the packs read from a root whose header UUID is `uuid`.
pub fn find_by_uuid(packs: &Vec<Pack>, uuid: &str) -> (r: Option<Pack>)
    ensures
        opt_pack(r) == first_with_uuid(packs_view(packs@), uuid@),
{
    let ghost all = packs_view(packs@);
    let mut i: usize = 0;
    assert(all.subrange(0, all.len() as int) =~= all);
    while i < packs.len()
        invariant
            i <= packs@.len(),
            all == packs_view(packs@),
            first_with_uuid(all, uuid@) == first_with_uuid(
                all.subrange(i as int, all.len() as int),
                uuid@,
            ),
        decreases packs@.len() - i,
    {
        let ghost rest = all.subrange(i as int, all.len() as int);
        assert(rest[0] == packs@[i as int]@);
        if str_eq(packs[i].manifest.uuid.as_str(), uuid) {
            return Some(packs[i].clone());
        }
        assert(rest.drop_first() =~= all.subrange(i + 1, all.len() as int));
        i += 1;
    }
    assert(all.subrange(i as int, all.len() as int) =~= Seq::<PackV>::empty());
    None
}

#[derive(Debug, Clone, Copy, PartialEq, Eq, Structural)]
pub enum Scope {
    /// The world's own `behavior_packs/` copy: that world only.
    World,
    /// The shared `development_behavior_packs` copy: every world using it.
    Shared,
}

#[derive(Debug, Clone)]
pub struct Target {
    pub pack: Pack,
    pub scope: Scope,
    /// The copy that was found and not used, if there was one, so a command
    /// can say which of two copies it chose.
    pub also_at: Option<String>,
}

pub open spec fn opt_dir(p: Option<PackV>) -> Option<Seq<char>> {
    match p {
        Some(x) => Some(x.dir),
        None => None,
    }
}

pub open spec fn opt_text(p: Option<String>) -> Option<Seq<char>> {
    match p {
        Some(x) => Some(x@),
        None => None,
    }
}

/// The refusal when no copy of Construct was found, naming where it looked.
pub open spec fn not_installed(e: CoreError, searched: Seq<Seq<char>>) -> bool {
    match e {
        CoreError::ConstructNotInstalled { searched: s } => strings_view(s@) == searched,
        _ => false,
    }
}

/// The Construct copy that governs a world: its own, else the
/// installation's. `world_packs` and `shared_packs` are what the world's
/// `behavior_packs/` and the installation's shared root hold.
pub fn for_world(
    world: &World,
    installation: &Installation,
    world_packs: &Vec<Pack>,
    shared_packs: &Vec<Pack>,
) -> (r: Result<Target, CoreError>)
    ensures
        ({
            let own = first_with_uuid(packs_view(world_packs@), CONSTRUCT_BP_UUID@);
            let shared = first_with_uuid(packs_view(shared_packs@), CONSTRUCT_BP_UUID@);
            &&& r is Ok <==> (own is Some || shared is Some)
            &&& r matches Ok(t) ==> (if own is Some {
                Some(t.pack@) == own && t.scope == Scope::World && opt_text(t.also_at) == opt_dir(
                    shared,
                )
            } else {
                Some(t.pack@) == shared && t.scope == Scope::Shared && t.also_at is None
            })
            &&& r matches Err(e) ==> not_installed(
                e,
                seq![
                    world_behavior_root_spec(world.path@),
                    shared_behavior_root_spec(installation.dev_pack_root@),
                ],
            )
        }),
{
    let world_copy = find_by_uuid(world_packs, CONSTRUCT_BP_UUID);
    let shared_copy = find_by_uuid(shared_packs, CONSTRUCT_BP_UUID);
    match (world_copy, shared_copy) {
        (Some(pack), other) => {
            let also_at = match other {
                Some(p) => Some(p.dir),
                None => None,
            };
            Ok(Target { pack, scope: Scope::World, also_at })
        },
        (None, Some(pack)) => Ok(Target { pack, scope: Scope::Shared, also_at: None }),
        (None, None) => {
            let mut searched: Vec<String> = Vec::new();
            searched.push(world_behavior_root(world));
            searched.push(shared_behavior_root(installation.dev_pack_root.as_str()));
            assert(strings_view(searched@) =~= seq![
                world_behavior_root_spec(world.path@),
                shared_behavior_root_spec(installation.dev_pack_root@),
            ]);
            Err(CoreError::ConstructNotInstalled { searched })
        },
    }
}

#[derive(Debug, Clone)]
pub struct Home {
    pub dir: String,
    pub kind: HomeKind,
}

/// Which of the three places a world's structures can sit in.
#[derive(Debug, Clone, Copy, PartialEq, Eq, Structural)]
pub enum HomeKind {
    /// The world's own copy of Construct.
    WorldConstruct,
    /// The world's structures shell pack.
    WorldStructuresPack,
    /// The shared copy of Construct, which serves every world that has no
    /// copy of its own.
    SharedConstruct,
}

impl HomeKind {
    /// Which `--source` this home's structures answer to: a pack serving one
    /// world, or the shared copy serving every world using it.
    pub fn source(self) -> (r: Source)
        ensures
            r == (if self == HomeKind::SharedConstruct {
                Source::SharedPack
            } else {
                Source::WorldPack
            }),
    {
        match self {
            HomeKind::WorldConstruct | HomeKind::WorldStructuresPack => Source::WorldPack,
            HomeKind::SharedConstruct => Source::SharedPack,
        }
    }
}

pub struct HomeV {
    pub dir: Seq<char>,
    pub kind: HomeKind,
}

impl View for Home {
    type V = HomeV;

    open spec fn view(&self) -> HomeV {
        HomeV { dir: self.dir@, kind: self.kind }
    }
}

pub open spec fn homes_view(s: Seq<Home>) -> Seq<HomeV> {
    Seq::new(s.len(), |i: int| s[i]@)
}

pub open spec fn home_in(p: Option<PackV>, kind: HomeKind) -> Option<HomeV> {
    match p {
        Some(x) => Some(HomeV { dir: x.dir, kind }),
        None => None,
    }
}

pub open spec fn opt_home(h: Option<Home>) -> Option<HomeV> {
    match h {
        Some(x) => Some(x@),
        None => None,
    }
}

/// Where structures are written for a world, or `None` when the world has
/// nowhere yet and a shell pack must be created first.
///
/// A world's own copy of Construct already has a per-world `structures/`, so
/// it is the home when present; else the world's shell pack. The shared copy
/// is never a home: writing there would put the structure in every world.
pub fn home(world_packs: &Vec<Pack>) -> (r: Option<Home>)
    ensures
        opt_home(r) == home_spec(packs_view(world_packs@)),
{
    if let Some(pack) = find_by_uuid(world_packs, CONSTRUCT_BP_UUID) {
        return Some(Home { dir: pack.dir, kind: HomeKind::WorldConstruct });
    }
    match find_by_uuid(world_packs, shell::UUID) {
        Some(pack) => Some(Home { dir: pack.dir, kind: HomeKind::WorldStructuresPack }),
        None => None,
    }
}

/// The homes [`serving`] lists, given what the two roots hold.
pub open spec fn serving_spec(world_packs: Seq<PackV>, shared_packs: Seq<PackV>) -> Seq<HomeV> {
    let own = first_with_uuid(world_packs, CONSTRUCT_BP_UUID@);
    let shared = first_with_uuid(shared_packs, CONSTRUCT_BP_UUID@);
    let shell = first_with_uuid(world_packs, shell::UUID@);
    let first: Seq<HomeV> = if own is Some {
        seq![HomeV { dir: own->0.dir, kind: HomeKind::WorldConstruct }]
    } else if shared is Some {
        seq![HomeV { dir: shared->0.dir, kind: HomeKind::SharedConstruct }]
    } else {
        Seq::empty()
    };
    if shell is Some {
        first.push(HomeV { dir: shell->0.dir, kind: HomeKind::WorldStructuresPack })
    } else {
        first
    }
}

/// Every pack whose `structures/` the game loads for a world, home first.
///
/// The two Construct copies never both appear: same header UUID, so a world
/// with its own loads that one. The shell pack has its own UUID and is always
/// additive. Empty only when Construct is installed nowhere this world can
/// reach.
pub fn serving(world_packs: &Vec<Pack>, shared_packs: &Vec<Pack>) -> (r: Vec<Home>)
    ensures
        homes_view(r@) == serving_spec(packs_view(world_packs@), packs_view(shared_packs@)),
{
    let mut out: Vec<Home> = Vec::new();
    match find_by_uuid(world_packs, CONSTRUCT_BP_UUID) {
        Some(pack) => out.push(Home { dir: pack.dir, kind: HomeKind::WorldConstruct }),
        None => {
            if let Some(pack) = find_by_uuid(shared_packs, CONSTRUCT_BP_UUID) {
                out.push(Home { dir: pack.dir, kind: HomeKind::SharedConstruct });
            }
        },
    }
    let ghost first = homes_view(out@);
    if let Some(pack) = find_by_uuid(world_packs, shell::UUID) {
        out.push(Home { dir: pack.dir, kind: HomeKind::WorldStructuresPack });
        assert(homes_view(out@) =~= first.push(
            HomeV { dir: pack.dir@, kind: HomeKind::WorldStructuresPack },
        ));
    }
    assert(homes_view(out@) =~= serving_spec(packs_view(world_packs@), packs_view(shared_packs@)));
    out
}

/// The roots [`serving`] looks in, for the error when it found nothing.
pub fn searched_roots(world: &World, installation: &Installation) -> (r: Vec<String>)
    ensures
        strings_view(r@) == seq![
            world_behavior_root_spec(world.path@),
            shared_behavior_root_spec(installation.dev_pack_root@),
        ],
{
    let mut v: Vec<String> = Vec::new();
    v.push(world_behavior_root(world));
    v.push(shared_behavior_root(installation.dev_pack_root.as_str()));
    assert(strings_view(v@) =~= seq![
        world_behavior_root_spec(world.path@),
        shared_behavior_root_spec(installation.dev_pack_root@),
    ]);
    v
}

/// The shared copy of Construct, in the installation's
/// `development_behavior_packs`, given what that root holds.
pub fn for_installation(installation: &Installation, shared_packs: &Vec<Pack>) -> (r: Result<
    Target,
    CoreError,
>)
    ensures
        ({
            let shared = first_with_uuid(packs_view(shared_packs@), CONSTRUCT_BP_UUID@);
            &&& r is Ok <==> shared is Some
            &&& r matches Ok(t) ==> (Some(t.pack@) == shared && t.scope == Scope::Shared
                && t.also_at is None)
            &&& r matches Err(e) ==> not_installed(
                e,
                seq![shared_behavior_root_spec(installation.dev_pack_root@)],
            )
        }),
{
    match find_by_uuid(shared_packs, CONSTRUCT_BP_UUID) {
        Some(pack) => Ok(Target { pack, scope: Scope::Shared, also_at: None }),
        None => {
            let mut searched: Vec<String> = Vec::new();
            searched.push(shared_behavior_root(installation.dev_pack_root.as_str()));
            assert(strings_view(searched@) =~= seq![
                shared_behavior_root_spec(installation.dev_pack_root@),
            ]);
            Err(CoreError::ConstructNotInstalled { searched })
        },
    }
}


/// What [`home`] picks, given what the world's `behavior_packs/` holds.
pub open spec fn home_spec(world_packs: Seq<PackV>) -> Option<HomeV> {
    if first_with_uuid(world_packs, CONSTRUCT_BP_UUID@) is Some {
        home_in(first_with_uuid(world_packs, CONSTRUCT_BP_UUID@), HomeKind::WorldConstruct)
    } else {
        home_in(first_with_uuid(world_packs, shell::UUID@), HomeKind::WorldStructuresPack)
    }
}

/// The two copies of Construct never both serve a world, and a world is
/// served by nothing only when neither its own copy nor the shared one exists.
pub proof fn lemma_serving_one_construct(world_packs: Seq<PackV>, shared_packs: Seq<PackV>)
    ensures
        !(exists|i: int, j: int|
            0 <= i < serving_spec(world_packs, shared_packs).len() && 0 <= j < serving_spec(
                world_packs,
                shared_packs,
            ).len() && #[trigger] serving_spec(world_packs, shared_packs)[i].kind
                == HomeKind::WorldConstruct && #[trigger] serving_spec(world_packs, shared_packs)[j].kind
                == HomeKind::SharedConstruct),
        serving_spec(world_packs, shared_packs).len() == 0 ==> (first_with_uuid(
            world_packs,
            CONSTRUCT_BP_UUID@,
        ) is None && first_with_uuid(shared_packs, CONSTRUCT_BP_UUID@) is None),
{
}

/// Where structures are written for a world is always among the packs that
/// serve it.
pub proof fn lemma_home_serves(world_packs: Seq<PackV>, shared_packs: Seq<PackV>)
    requires
        home_spec(world_packs) is Some,
    ensures
        serving_spec(world_packs, shared_packs).contains(home_spec(world_packs)->0),
{
    let s = serving_spec(world_packs, shared_packs);
    let h = home_spec(world_packs)->0;
    if first_with_uuid(world_packs, CONSTRUCT_BP_UUID@) is Some {
        assert(s[0] == h);
    } else {
        assert(s[s.len() - 1] == h);
    }
}

} // verus!
