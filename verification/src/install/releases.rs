//! The GitHub releases lookup behind a trait, so install is fully mockable.
//!
//! The network calls belong to whoever implements [`Releases`]; the choices
//! around them (which URL, what a status means, whether a download is whole)
//! are here.
use crate::error::CoreError;
use crate::text::{chars_of, concat_chars, nat_text, decimal, starts_with, string_from, strings_view};
use vstd::prelude::*;

verus! {

broadcast use vstd::std_specs::vec::group_vec_axioms;

pub const REPO: &'static str = "ForestOfLight/Construct";

/// GitHub's unauthenticated limit, named in the rate-limit error.
pub const UNAUTHENTICATED_LIMIT: u32 = 60;

#[derive(Debug, PartialEq, Eq)]
pub struct Asset {
    pub name: String,
    pub url: String,
    pub size: u64,
}

impl Clone for Asset {
    fn clone(&self) -> (r: Self)
        ensures
            r.name@ == self.name@,
            r.url@ == self.url@,
            r.size == self.size,
    {
        Asset { name: self.name.clone(), url: self.url.clone(), size: self.size }
    }
}

#[derive(Debug, Clone, PartialEq, Eq)]
pub struct Release {
    pub tag: String,
    pub assets: Vec<Asset>,
}

/// Where releases come from.
pub trait Releases {
    /// The release for a version, `None` meaning the latest.
    fn release(&self, version: Option<&str>) -> Result<Release, CoreError>;

    /// Downloads an asset to a file, returning the bytes written.
    fn download(&self, asset: &Asset, to: &str) -> Result<u64, CoreError>;
}

/// The tag a version names: `1.2.0` and `v1.2.0` both name `v1.2.0`.
pub open spec fn tag_spec(version: Seq<char>) -> Seq<char> {
    if version.len() > 0 && version[0] == 'v' {
        version
    } else {
        seq!['v'] + version
    }
}

/// `1.2.0` and `v1.2.0` both name the same tag.
pub fn tag_for(version: &str) -> (r: String)
    ensures
        r@ == tag_spec(version@),
{
    let v = chars_of(version);
    if v.len() > 0 && v[0] == 'v' {
        string_from(&v)
    } else {
        let mut p: Vec<char> = Vec::new();
        p.push('v');
        let all = concat_chars(&p, &v);
        assert(all@ =~= seq!['v'] + version@);
        string_from(&all)
    }
}

/// Whether an asset name is the `.mcaddon`: `Construct-v…`, ending `.mcaddon`.
pub open spec fn is_mcaddon(name: Seq<char>) -> bool {
    name.len() >= 11 && name.subrange(0, 11) == "Construct-v"@ && name.len() >= 8 && name.subrange(
        name.len() - 8,
        name.len() as int,
    ) == ".mcaddon"@
}

/// The index of the first asset that is the `.mcaddon`, or the count.
pub open spec fn mcaddon_pos(assets: Seq<Asset>) -> int
    decreases assets.len(),
{
    if assets.len() == 0 {
        0
    } else if is_mcaddon(assets[0].name@) {
        0
    } else {
        1 + mcaddon_pos(assets.drop_first())
    }
}

proof fn lemma_mcaddon_pos(assets: Seq<Asset>, i: int)
    requires
        0 <= i <= assets.len(),
        forall|l: int| 0 <= l < i ==> !is_mcaddon(#[trigger] assets[l].name@),
        i < assets.len() ==> is_mcaddon(assets[i].name@),
    ensures
        mcaddon_pos(assets) == i,
    decreases i,
{
    if i > 0 {
        let t = assets.drop_first();
        assert forall|l: int| 0 <= l < i - 1 implies !is_mcaddon(#[trigger] t[l].name@) by {
            assert(t[l] == assets[l + 1]);
        }
        if i < assets.len() {
            assert(t[i - 1] == assets[i]);
        }
        assert(!is_mcaddon(assets[0].name@));
        lemma_mcaddon_pos(t, i - 1);
    }
}

fn ends_with(s: &[char], suffix: &[char]) -> (r: bool)
    ensures
        r == (s@.len() >= suffix@.len() && s@.subrange(s@.len() - suffix@.len(), s@.len() as int)
            == suffix@),
{
    if s.len() < suffix.len() {
        return false;
    }
    let tail = crate::text::sub_chars(s, s.len() - suffix.len(), s.len());
    crate::text::chars_eq(&tail, suffix)
}

/// Whether an asset name is the `.mcaddon`.
pub fn is_mcaddon_name(name: &str) -> (r: bool)
    ensures
        r == is_mcaddon(name@),
{
    let n = chars_of(name);
    let p = chars_of("Construct-v");
    let s = chars_of(".mcaddon");
    proof {
        reveal_strlit("Construct-v");
        reveal_strlit(".mcaddon");
    }
    let a = starts_with(&n, &p);
    let b = ends_with(&n, &s);
    assert(a == (n@.len() >= 11 && n@.subrange(0, 11) == "Construct-v"@));
    a && b
}

/// The names of every asset, in order.
pub open spec fn asset_names(assets: Seq<Asset>) -> Seq<Seq<char>> {
    Seq::new(assets.len(), |i: int| assets[i].name@)
}

/// The `.mcaddon`, matched by pattern rather than position: the first asset
/// named `Construct-v….mcaddon`. A release without one is refused, listing
/// what it did have.
pub fn asset_for(release: &Release) -> (r: Result<&Asset, CoreError>)
    ensures
        r is Ok <==> mcaddon_pos(release.assets@) < release.assets@.len(),
        r matches Ok(a) ==> *a == release.assets@[mcaddon_pos(release.assets@)],
        r matches Err(e) ==> (e matches CoreError::AssetNotFound { version, available }
            && version@ == release.tag@ && strings_view(available@) == asset_names(
            release.assets@,
        )),
{
    let mut i: usize = 0;
    while i < release.assets.len()
        invariant
            i <= release.assets@.len(),
            forall|l: int| 0 <= l < i ==> !is_mcaddon(#[trigger] release.assets@[l].name@),
        decreases release.assets@.len() - i,
    {
        if is_mcaddon_name(release.assets[i].name.as_str()) {
            proof {
                lemma_mcaddon_pos(release.assets@, i as int);
            }
            return Ok(&release.assets[i]);
        }
        i += 1;
    }
    proof {
        lemma_mcaddon_pos(release.assets@, i as int);
    }
    let mut available: Vec<String> = Vec::new();
    let mut j: usize = 0;
    while j < release.assets.len()
        invariant
            j <= release.assets@.len(),
            strings_view(available@) == asset_names(release.assets@).subrange(0, j as int),
        decreases release.assets@.len() - j,
    {
        let ghost before = strings_view(available@);
        available.push(release.assets[j].name.clone());
        assert(strings_view(available@) =~= before.push(release.assets@[j as int].name@));
        j += 1;
        assert(strings_view(available@) =~= asset_names(release.assets@).subrange(0, j as int));
    }
    assert(asset_names(release.assets@).subrange(0, j as int) =~= asset_names(release.assets@));
    Err(CoreError::AssetNotFound { version: release.tag.clone(), available })
}


/// The GitHub API client's settings: where the API lives and the token, if
/// any. The requests themselves are made by whoever implements [`Releases`]
/// over it.
pub struct GitHub {
    base: String,
    token: Option<String>,
}

pub struct GitHubV {
    pub base: Seq<char>,
    pub token: Option<Seq<char>>,
}

impl View for GitHub {
    type V = GitHubV;

    closed spec fn view(&self) -> GitHubV {
        GitHubV { base: self.base@, token: crate::catalog::opt_view(self.token) }
    }
}

/// The release URL for a version under an API base.
pub open spec fn release_url_spec(base: Seq<char>, version: Option<Seq<char>>) -> Seq<char> {
    match version {
        Some(v) => base + "/repos/"@ + REPO@ + "/releases/tags/"@ + tag_spec(v),
        None => base + "/repos/"@ + REPO@ + "/releases/latest"@,
    }
}

pub open spec fn opt_str(v: Option<&str>) -> Option<Seq<char>> {
    match v {
        Some(s) => Some(s@),
        None => None,
    }
}

impl GitHub {
    pub fn new(token: Option<String>) -> (r: Self)
        ensures
            r@.base == "https://api.github.com"@,
            r@.token == crate::catalog::opt_view(token),
    {
        GitHub { base: String::from_str("https://api.github.com"), token }
    }

    /// Points the client somewhere else, so a test can serve canned
    /// responses without reaching the network.
    pub fn with_base(base: String, token: Option<String>) -> (r: Self)
        ensures
            r@.base == base@,
            r@.token == crate::catalog::opt_view(token),
    {
        GitHub { base, token }
    }

    /// The URL asked for a version's release, `None` meaning the latest.
    pub fn release_url(&self, version: Option<&str>) -> (r: String)
        ensures
            r@ == release_url_spec(self@.base, opt_str(version)),
    {
        let mut r = self.base.clone();
        r.append("/repos/");
        r.append(REPO);
        match version {
            Some(v) => {
                r.append("/releases/tags/");
                let t = tag_for(v);
                r.append(t.as_str());
            },
            None => {
                r.append("/releases/latest");
            },
        }
        r
    }

    /// The `Authorization` header value, when there is a token.
    pub fn authorization(&self) -> (r: Option<String>)
        ensures
            crate::catalog::opt_view(r) == match self@.token {
                Some(t) => Some("Bearer "@ + t),
                None => None::<Seq<char>>,
            },
    {
        match &self.token {
            Some(t) => {
                let mut h = String::from_str("Bearer ");
                h.append(t.as_str());
                Some(h)
            },
            None => None,
        }
    }
}

/// What a release response's status says, when it says something is wrong:
/// out of requests (403 or 429 with no requests remaining), no such release
/// (404), or any other failure.
pub open spec fn status_problem(status: u16, remaining: Option<Seq<char>>, version: Option<Seq<char>>, e: CoreError) -> bool {
    if (status == 403 || status == 429) && remaining == Some("0"@) {
        e == CoreError::RateLimited
    } else if status == 404 {
        e matches CoreError::AssetNotFound { version: v, available } && v@ == (match version {
            Some(x) => x,
            None => "latest"@,
        }) && available@.len() == 0
    } else {
        e matches CoreError::Network { reason } && reason@ == "GitHub returned HTTP "@ + decimal(
            status as int,
        )
    }
}

/// Whether a status is a success.
pub open spec fn status_ok(status: u16, remaining: Option<Seq<char>>) -> bool {
    !((status == 403 || status == 429) && remaining == Some("0"@)) && status != 404 && 200 <= status
        < 300
}

/// Checks a release response's status and its `x-ratelimit-remaining`
/// header. 403 and 429 both carry the rate limit; the header is what
/// separates "you are out of requests" from "you may not have this".
pub fn check_status(status: u16, remaining: Option<&str>, version: Option<&str>) -> (r: Result<
    (),
    CoreError,
>)
    ensures
        r is Ok <==> status_ok(status, opt_str(remaining)),
        r matches Err(e) ==> status_problem(status, opt_str(remaining), opt_str(version), e),
{
    let out = match remaining {
        Some(x) => crate::text::str_eq(x, "0"),
        None => false,
    };
    if (status == 403 || status == 429) && out {
        return Err(CoreError::RateLimited);
    }
    if status == 404 {
        let v = match version {
            Some(x) => String::from_str(x),
            None => String::from_str("latest"),
        };
        return Err(CoreError::AssetNotFound { version: v, available: Vec::new() });
    }
    if !(200 <= status && status < 300) {
        let mut reason = String::from_str("GitHub returned HTTP ");
        let n = nat_text(status as u64);
        reason.append(n.as_str());
        return Err(CoreError::Network { reason });
    }
    Ok(())
}

/// Checks that a download is whole. A connection dropped mid-download would
/// otherwise surface much later as a confusing archive error.
pub fn check_download(written: u64, expected: u64) -> (r: Result<u64, CoreError>)
    ensures
        r is Ok <==> written == expected,
        r matches Ok(n) ==> n == written,
        r matches Err(e) ==> (e matches CoreError::Network { reason } && reason@
            == "download truncated: expected "@ + decimal(expected as int) + " bytes, got "@
            + decimal(written as int)),
{
    if written != expected {
        let mut reason = String::from_str("download truncated: expected ");
        reason.append(nat_text(expected).as_str());
        reason.append(" bytes, got ");
        reason.append(nat_text(written).as_str());
        return Err(CoreError::Network { reason });
    }
    Ok(written)
}

} // verus!
