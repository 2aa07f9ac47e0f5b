//! The grammar for naming a world on the command line.
//!
//! A reference is a display name, a folder name, a qualified
//! `<installation>/<account>/<world>` with each segment optional from the left,
//! or a filesystem path. Because a name may contain slashes itself, the whole
//! input is tried as a name as well as split into segments; a qualified reading
//! wins only where it is the one that matches. Ambiguity is always an error,
//! never a silent pick.
use crate::discovery::worlds::{qualified_spec, World, WorldV, worlds_view};
use crate::error::CoreError;
use crate::text::{
    chars_of, contains_str, has_infix, lemma_split_nonempty, lowercase, seq_lt, split_spec, split_str,
    starts_with, str_eq, str_lt, strings_view, to_lower,
};
use vstd::prelude::*;
use vstd::utf8::encode_utf8;

verus! {

broadcast use vstd::std_specs::vec::group_vec_axioms;

/// A reference split into its segments.
#[derive(Debug, PartialEq, Eq)]
pub struct WorldRef {
    pub installation: Option<String>,
    pub account: Option<String>,
    pub world: String,
    /// More than three segments: only a whole-name match can succeed.
    pub extra_segments: bool,
}

pub struct WorldRefV {
    pub installation: Option<Seq<char>>,
    pub account: Option<Seq<char>>,
    pub world: Seq<char>,
    pub extra_segments: bool,
}

pub open spec fn opt_chars(o: Option<String>) -> Option<Seq<char>> {
    match o {
        Some(s) => Some(s@),
        None => None,
    }
}

impl View for WorldRef {
    type V = WorldRefV;

    open spec fn view(&self) -> WorldRefV {
        WorldRefV {
            installation: opt_chars(self.installation),
            account: opt_chars(self.account),
            world: self.world@,
            extra_segments: self.extra_segments,
        }
    }
}

pub open spec fn is_ascii_alpha(c: char) -> bool {
    ('a' <= c <= 'z') || ('A' <= c <= 'Z')
}

/// Whether an input reads as a filesystem path rather than a world reference:
/// rooted by `/` or `\`, or a drive letter, a colon, and then nothing or a
/// separator. A bare colon is not enough: Minecraft's default level name
/// embeds a time, as in "Advanced Automation 10/13/21 23:33:18".
pub open spec fn looks_like_path_spec(s: Seq<char>) -> bool {
    ||| s.len() > 0 && (s[0] == '/' || s[0] == '\\')
    ||| s.len() >= 2 && is_ascii_alpha(s[0]) && s[1] == ':' && (s.len() == 2 || s[2] == '/' || s[2]
        == '\\')
}

/// Whether an input reads as a filesystem path rather than a world reference.
pub fn looks_like_path(input: &str) -> (r: bool)
    ensures
        r == looks_like_path_spec(input@),
{
    let v = chars_of(input);
    if v.len() > 0 && (v[0] == '/' || v[0] == '\\') {
        return true;
    }
    if v.len() >= 2 {
        let d = v[0];
        let alpha = ('a' <= d && d <= 'z') || ('A' <= d && d <= 'Z');
        return alpha && v[1] == ':' && (v.len() == 2 || v[2] == '/' || v[2] == '\\');
    }
    false
}

/// The segments of a reference: one segment is a world, two an installation
/// and a world, three or more an installation, an account and a world.
pub open spec fn parse_spec(input: Seq<char>) -> WorldRefV {
    let parts = split_spec(input, '/');
    if parts.len() == 1 {
        WorldRefV { installation: None, account: None, world: parts[0], extra_segments: false }
    } else if parts.len() == 2 {
        WorldRefV { installation: Some(parts[0]), account: None, world: parts[1], extra_segments: false }
    } else if parts.len() >= 3 {
        WorldRefV {
            installation: Some(parts[0]),
            account: Some(parts[1]),
            world: parts[2],
            extra_segments: parts.len() > 3,
        }
    } else {
        WorldRefV { installation: None, account: None, world: Seq::empty(), extra_segments: false }
    }
}

/// Splits a reference into its segments. Never fails: an unparseable
/// reference is simply a world name that will not match.
pub fn parse(input: &str) -> (r: WorldRef)
    ensures
        r@ == parse_spec(input@),
{
    let parts = split_str(input, '/');
    proof {
        crate::text::lemma_split_nonempty(input@, '/');
    }
    if parts.len() == 1 {
        WorldRef { installation: None, account: None, world: parts[0].clone(), extra_segments: false }
    } else if parts.len() == 2 {
        WorldRef { installation: Some(parts[0].clone()), account: None, world: parts[1].clone(), extra_segments: false }
    } else {
        WorldRef {
            installation: Some(parts[0].clone()),
            account: Some(parts[1].clone()),
            world: parts[2].clone(),
            extra_segments: parts.len() > 3,
        }
    }
}

/// The segments of `r` agree with world `w`.
pub open spec fn segments_match(r: WorldRefV, w: WorldV) -> bool {
    &&& !r.extra_segments
    &&& match r.installation {
        Some(i) => w.installation == i,
        None => true,
    }
    &&& match r.account {
        Some(a) => w.account == Some(a),
        None => true,
    }
}

/// A world field answers to the input: as the whole input, or as the world
/// segment with the other segments agreeing.
pub open spec fn hit(field: Seq<char>, input: Seq<char>, r: WorldRefV, w: WorldV) -> bool {
    field == input || (field == r.world && segments_match(r, w))
}

/// The worlds whose folder (`by_folder`) or display name answers to `input`.
pub open spec fn tier(ws: Seq<WorldV>, input: Seq<char>, by_folder: bool) -> Seq<WorldV>
    decreases ws.len(),
{
    if ws.len() == 0 {
        Seq::empty()
    } else {
        let w = ws.last();
        let field = if by_folder { w.folder } else { w.display_name };
        tier(ws.drop_last(), input, by_folder) + if hit(field, input, parse_spec(input), w) {
            seq![w]
        } else {
            Seq::empty()
        }
    }
}

/// A reference `inst/acct/name` matches a world through its folder or its
/// display name only when that field is the whole reference, or is `name`
/// and the world belongs to installation `inst` under account `acct`: the
/// account constrains a display-name match exactly as it does a folder
/// match. Every world matched is one of those searched.
pub proof fn lemma_tier_respects_segments(ws: Seq<WorldV>, input: Seq<char>, by_folder: bool, k: int)
    requires
        split_spec(input, '/').len() == 3,
        0 <= k < tier(ws, input, by_folder).len(),
    ensures
        ws.contains(tier(ws, input, by_folder)[k]),
        ({
            let w = tier(ws, input, by_folder)[k];
            let parts = split_spec(input, '/');
            let field = if by_folder { w.folder } else { w.display_name };
            field == input || (field == parts[2] && w.installation == parts[0] && w.account == Some(parts[1]))
        }),
    decreases ws.len(),
{
    let init = ws.drop_last();
    let rest = tier(init, input, by_folder);
    if k < rest.len() {
        lemma_tier_respects_segments(init, input, by_folder, k);
        let w = rest[k];
        let j = choose|j: int| 0 <= j < init.len() && init[j] == w;
        assert(ws[j] == w);
    } else {
        assert(tier(ws, input, by_folder)[k] == ws.last());
        assert(ws[ws.len() - 1] == ws.last());
    }
}

/// The worlds a reference `inst/acct/name` resolves among are all searched
/// worlds, each named by the whole reference or by `name` within
/// installation `inst` and account `acct`: by folder when any folder
/// answers, else by display name.
pub proof fn lemma_named_by_respects_segments(ws: Seq<WorldV>, input: Seq<char>, k: int)
    requires
        split_spec(input, '/').len() == 3,
        0 <= k < named_by(ws, input).len(),
    ensures
        ws.contains(named_by(ws, input)[k]),
        ({
            let w = named_by(ws, input)[k];
            let parts = split_spec(input, '/');
            ||| w.folder == input || (w.folder == parts[2] && w.installation == parts[0] && w.account == Some(parts[1]))
            ||| w.display_name == input || (w.display_name == parts[2] && w.installation == parts[0] && w.account
                == Some(parts[1]))
        }),
{
    if tier(ws, input, true).len() > 0 {
        lemma_tier_respects_segments(ws, input, true, k);
    } else {
        lemma_tier_respects_segments(ws, input, false, k);
    }
}

/// The worlds a reference names: by folder name, and only when none does,
/// by display name.
pub open spec fn named_by(ws: Seq<WorldV>, input: Seq<char>) -> Seq<WorldV> {
    if tier(ws, input, true).len() > 0 {
        tier(ws, input, true)
    } else {
        tier(ws, input, false)
    }
}

fn segments_agree(r: &WorldRef, w: &World) -> (b: bool)
    ensures
        b == segments_match(r@, w@),
{
    if r.extra_segments {
        return false;
    }
    let inst_ok = match &r.installation {
        Some(i) => w.installation == *i,
        None => true,
    };
    let acct_ok = match &r.account {
        Some(a) => match &w.account {
            Some(wa) => *wa == *a,
            None => false,
        },
        None => true,
    };
    inst_ok && acct_ok
}

fn tier_of(worlds: &[World], input: &str, r: &WorldRef, by_folder: bool) -> (out: Vec<World>)
    requires
        r@ == parse_spec(input@),
    ensures
        worlds_view(out@) == tier(worlds_view(worlds@), input@, by_folder),
{
    let ghost wv = worlds_view(worlds@);
    let mut out: Vec<World> = Vec::new();
    let mut i: usize = 0;
    while i < worlds.len()
        invariant
            i <= worlds@.len(),
            r@ == parse_spec(input@),
            wv == worlds_view(worlds@),
            worlds_view(out@) == tier(wv.subrange(0, i as int), input@, by_folder),
        decreases worlds@.len() - i,
    {
        assert(wv.subrange(0, i + 1).drop_last() =~= wv.subrange(0, i as int));
        assert(wv.subrange(0, i + 1).last() == worlds@[i as int]@);
        let w = &worlds[i];
        let field: &String = if by_folder { &w.folder } else { &w.display_name };
        let hits = str_eq(field.as_str(), input) || (*field == r.world && segments_agree(r, w));
        let ghost before = worlds_view(out@);
        if hits {
            let c = w.clone();
            out.push(c);
            assert(worlds_view(out@) =~= before.push(worlds@[i as int]@));
        }
        i += 1;
        assert(worlds_view(out@) =~= tier(wv.subrange(0, i as int), input@, by_folder));
    }
    assert(wv.subrange(0, wv.len() as int) =~= wv);
    out
}

/// A "did you mean" candidate: the world and what it is ordered by.
pub struct NearV {
    pub prefix: bool,
    pub len: nat,
    pub name: Seq<char>,
    pub label: Seq<char>,
}

/// What a world is ordered by among near matches for `needle` (already
/// lowercased), and how it is shown: `display name (qualified)`.
pub open spec fn near_item(w: WorldV, needle: Seq<char>) -> NearV {
    let name = lowercase(w.display_name);
    let folder = lowercase(w.folder);
    NearV {
        prefix: starts(name, needle) || starts(folder, needle),
        len: encode_utf8(name).len(),
        name,
        label: w.display_name + " ("@ + qualified_spec(w) + ")"@,
    }
}

pub open spec fn starts(s: Seq<char>, p: Seq<char>) -> bool {
    p.len() <= s.len() && s.subrange(0, p.len() as int) == p
}

/// Prefix matches first, then shorter names, then alphabetically.
pub open spec fn near_before(a: NearV, b: NearV) -> bool {
    (a.prefix && !b.prefix) || (a.prefix == b.prefix && (a.len < b.len || (a.len == b.len && seq_lt(
        a.name,
        b.name,
    ))))
}

/// The worlds whose folder or display name contains `needle`, ignoring case.
pub open spec fn near_found(ws: Seq<WorldV>, needle: Seq<char>) -> Seq<NearV>
    decreases ws.len(),
{
    if ws.len() == 0 {
        Seq::empty()
    } else {
        let w = ws.last();
        near_found(ws.drop_last(), needle) + if has_infix(lowercase(w.folder), needle) || has_infix(
            lowercase(w.display_name),
            needle,
        ) {
            seq![near_item(w, needle)]
        } else {
            Seq::empty()
        }
    }
}

pub open spec fn near_pos(s: Seq<NearV>, x: NearV) -> int
    decreases s.len(),
{
    if s.len() == 0 {
        0
    } else if near_before(x, s[0]) {
        0
    } else {
        1 + near_pos(s.drop_first(), x)
    }
}

/// `s` ordered, ties keeping their order.
pub open spec fn near_sorted(s: Seq<NearV>) -> Seq<NearV>
    decreases s.len(),
{
    if s.len() == 0 {
        Seq::empty()
    } else {
        let t = near_sorted(s.drop_last());
        t.insert(near_pos(t, s.last()), s.last())
    }
}

/// At most five near matches, best first, as `display name (qualified)`.
pub open spec fn near_spec(ws: Seq<WorldV>, needle: Seq<char>) -> Seq<Seq<char>> {
    let sorted = near_sorted(near_found(ws, lowercase(needle)));
    let top = if sorted.len() > 5 {
        sorted.subrange(0, 5)
    } else {
        sorted
    };
    Seq::new(top.len(), |i: int| top[i].label)
}

struct Near {
    prefix: bool,
    len: usize,
    name: String,
    label: String,
}

impl View for Near {
    type V = NearV;

    closed spec fn view(&self) -> NearV {
        NearV { prefix: self.prefix, len: self.len as nat, name: self.name@, label: self.label@ }
    }
}

spec fn nears_view(s: Seq<Near>) -> Seq<NearV> {
    Seq::new(s.len(), |i: int| s[i]@)
}

proof fn lemma_near_pos_bound(s: Seq<NearV>, x: NearV)
    ensures
        0 <= near_pos(s, x) <= s.len(),
    decreases s.len(),
{
    if s.len() > 0 && !near_before(x, s[0]) {
        lemma_near_pos_bound(s.drop_first(), x);
    }
}

fn near_first(a: &Near, b: &Near) -> (r: bool)
    ensures
        r == near_before(a@, b@),
{
    (a.prefix && !b.prefix) || (a.prefix == b.prefix && (a.len < b.len || (a.len == b.len && str_lt(
        a.name.as_str(),
        b.name.as_str(),
    ))))
}

fn begins(s: &str, p: &str) -> (r: bool)
    ensures
        r == starts(s@, p@),
{
    let a = chars_of(s);
    let b = chars_of(p);
    starts_with(&a, &b)
}

/// Case-insensitive substring matches, for "did you mean": prefix matches
/// first, then shorter names, then alphabetical; at most five.
pub fn near_matches(needle: &str, worlds: &[World]) -> (r: Vec<String>)
    ensures
        strings_view(r@) == near_spec(worlds_view(worlds@), needle@),
{
    let ghost wv = worlds_view(worlds@);
    let low = to_lower(needle);
    let mut found: Vec<Near> = Vec::new();
    let mut i: usize = 0;
    while i < worlds.len()
        invariant
            i <= worlds@.len(),
            wv == worlds_view(worlds@),
            low@ == lowercase(needle@),
            nears_view(found@) == near_found(wv.subrange(0, i as int), low@),
        decreases worlds@.len() - i,
    {
        assert(wv.subrange(0, i + 1).drop_last() =~= wv.subrange(0, i as int));
        assert(wv.subrange(0, i + 1).last() == worlds@[i as int]@);
        let w = &worlds[i];
        let folder = to_lower(w.folder.as_str());
        let name = to_lower(w.display_name.as_str());
        let ghost before = nears_view(found@);
        if contains_str(folder.as_str(), low.as_str()) || contains_str(name.as_str(), low.as_str()) {
            let prefix = begins(name.as_str(), low.as_str()) || begins(folder.as_str(), low.as_str());
            let len = name.as_str().as_bytes().len();
            let mut label = w.display_name.clone();
            label.append(" (");
            label.append(w.qualified().as_str());
            label.append(")");
            let item = Near { prefix, len, name, label };
            assert(item@ == near_item(worlds@[i as int]@, low@));
            found.push(item);
            assert(nears_view(found@) =~= before.push(near_item(worlds@[i as int]@, low@)));
        }
        i += 1;
        assert(nears_view(found@) =~= near_found(wv.subrange(0, i as int), low@));
    }
    assert(wv.subrange(0, wv.len() as int) =~= wv);
    let ghost all = nears_view(found@);
    let n_all: usize = found.len();
    let mut sorted: Vec<Near> = Vec::new();
    let mut k: usize = 0;
    let mut rest = found;
    let mut rev: Vec<Near> = Vec::new();
    while rest.len() > 0
        invariant
            rest@.len() + rev@.len() == all.len(),
            forall|m: int| 0 <= m < rest@.len() ==> rest@[m]@ == all[m],
            forall|m: int| 0 <= m < rev@.len() ==> rev@[m]@ == all[all.len() - 1 - m],
        decreases rest@.len(),
    {
        let x = rest.pop().unwrap();
        rev.push(x);
    }
    while rev.len() > 0
        invariant
            rev@.len() + k == all.len(),
            n_all == all.len(),
            forall|m: int| 0 <= m < rev@.len() ==> rev@[m]@ == all[all.len() - 1 - m],
            nears_view(sorted@) == near_sorted(all.subrange(0, k as int)),
        decreases rev@.len(),
    {
        let x = rev.pop().unwrap();
        assert(x@ == all[k as int]);
        let ghost s = nears_view(sorted@);
        assert(s.subrange(0, s.len() as int) =~= s);
        let mut j: usize = 0;
        while j < sorted.len() && !near_first(&x, &sorted[j])
            invariant
                j <= sorted@.len(),
                s == nears_view(sorted@),
                near_pos(s, x@) == j + near_pos(s.subrange(j as int, s.len() as int), x@),
            decreases sorted@.len() - j,
        {
            let ghost rest2 = s.subrange(j as int, s.len() as int);
            assert(rest2.drop_first() =~= s.subrange(j + 1, s.len() as int));
            j += 1;
        }
        proof {
            if j < sorted@.len() {
                assert(s.subrange(j as int, s.len() as int)[0] == s[j as int]);
            } else {
                assert(s.subrange(j as int, s.len() as int) =~= Seq::<NearV>::empty());
            }
            lemma_near_pos_bound(s, x@);
        }
        sorted.insert(j, x);
        assert(all.subrange(0, k + 1).drop_last() =~= all.subrange(0, k as int));
        assert(all.subrange(0, k + 1).last() == all[k as int]);
        assert(nears_view(sorted@) =~= s.insert(j as int, all[k as int]));
        k += 1;
    }
    assert(all.subrange(0, all.len() as int) =~= all);
    let ghost ordered = nears_view(sorted@);
    let ghost top = if ordered.len() > 5 { ordered.subrange(0, 5) } else { ordered };
    let mut out: Vec<String> = Vec::new();
    let mut m: usize = 0;
    while m < sorted.len() && m < 5
        invariant
            m <= sorted@.len(),
            m <= 5,
            ordered == nears_view(sorted@),
            top == (if ordered.len() > 5 { ordered.subrange(0, 5) } else { ordered }),
            strings_view(out@) == Seq::new(m as nat, |t: int| top[t].label),
        decreases sorted@.len() - m,
    {
        let ghost before = out@;
        let l = sorted[m].label.clone();
        out.push(l);
        assert(strings_view(out@) =~= strings_view(before).push(top[m as int].label));
        m += 1;
        assert(strings_view(out@) =~= Seq::new(m as nat, |t: int| top[t].label));
    }
    assert(strings_view(out@) =~= near_spec(wv, needle@));
    out
}

/// Resolves a reference to exactly one world, by name.
///
/// Folder names are matched before display names. Only once nothing matched
/// by name is an over-long reference, or one shaped like a path, reported as
/// malformed; otherwise a miss suggests near matches, for the whole input
/// when it finds any, else for the world segment.
pub fn resolve(input: &str, worlds: &[World]) -> (r: Result<World, CoreError>)
    ensures
        ({
            let cands = named_by(worlds_view(worlds@), input@);
            let pr = parse_spec(input@);
            &&& r is Ok <==> cands.len() == 1
            &&& r matches Ok(w) ==> w@ == cands[0]
            &&& cands.len() == 0 && (pr.extra_segments || looks_like_path_spec(input@)) ==> (r matches Err(
                CoreError::MalformedReference { reference, looks_like_path },
            ) && reference@ == input@ && looks_like_path == looks_like_path_spec(input@))
            &&& cands.len() == 0 && !(pr.extra_segments || looks_like_path_spec(input@)) ==> (r matches Err(
                CoreError::WorldNotFound { reference, near },
            ) && reference@ == input@ && strings_view(near@) == if near_spec(worlds_view(worlds@), input@).len() > 0 {
                near_spec(worlds_view(worlds@), input@)
            } else {
                near_spec(worlds_view(worlds@), pr.world)
            })
            &&& cands.len() > 1 ==> (r matches Err(CoreError::AmbiguousWorld { reference, candidates })
                && reference@ == input@ && strings_view(candidates@) == Seq::new(
                cands.len(),
                |i: int| qualified_spec(cands[i]),
            ))
        }),
{
    let r = parse(input);
    let by_folder = tier_of(worlds, input, &r, true);
    let candidates = if by_folder.len() > 0 {
        by_folder
    } else {
        tier_of(worlds, input, &r, false)
    };
    let path_shaped = looks_like_path(input);
    if candidates.len() == 1 {
        return Ok(candidates[0].clone());
    }
    if candidates.len() == 0 {
        if r.extra_segments || path_shaped {
            return Err(CoreError::MalformedReference { reference: input.to_owned(), looks_like_path: path_shaped });
        }
        let whole = near_matches(input, worlds);
        let near = if whole.len() > 0 {
            whole
        } else {
            near_matches(r.world.as_str(), worlds)
        };
        return Err(CoreError::WorldNotFound { reference: input.to_owned(), near });
    }
    let ghost cv = worlds_view(candidates@);
    let mut names: Vec<String> = Vec::new();
    let mut i: usize = 0;
    while i < candidates.len()
        invariant
            i <= candidates@.len(),
            cv == worlds_view(candidates@),
            strings_view(names@) == Seq::new(i as nat, |k: int| qualified_spec(cv[k])),
        decreases candidates@.len() - i,
    {
        let ghost before = names@;
        let q = candidates[i].qualified();
        names.push(q);
        assert(strings_view(names@) =~= strings_view(before).push(qualified_spec(cv[i as int])));
        i += 1;
        assert(strings_view(names@) =~= Seq::new(i as nat, |k: int| qualified_spec(cv[k])));
    }
    Err(CoreError::AmbiguousWorld { reference: input.to_owned(), candidates: names })
}

// ---------------------------------------------------------------------------
// Qualified references
// ---------------------------------------------------------------------------

/// Text with no `c` in it splits into itself alone.
proof fn lemma_split_whole(a: Seq<char>, c: char)
    requires
        !a.contains(c),
    ensures
        split_spec(a, c) == seq![a],
    decreases a.len(),
{
    if a.len() > 0 {
        let b = a.drop_last();
        assert(!b.contains(c)) by {
            if b.contains(c) {
                let k = choose|k: int| 0 <= k < b.len() && b[k] == c;
                assert(a[k] == c);
            }
        }
        lemma_split_whole(b, c);
        assert(a[a.len() - 1] != c);
        assert(b.push(a.last()) =~= a);
        assert(split_spec(a, c) == seq![b].update(0, b.push(a.last())));
        assert(seq![b].update(0, b.push(a.last())) =~= seq![a]);
    } else {
        assert(a =~= Seq::<char>::empty());
    }
}

/// A separator followed by text without one adds that text as the last piece.
proof fn lemma_split_then(p: Seq<char>, a: Seq<char>, c: char)
    requires
        !a.contains(c),
    ensures
        split_spec(p + seq![c] + a, c) == split_spec(p, c).push(a),
    decreases a.len(),
{
    let s = p + seq![c] + a;
    if a.len() == 0 {
        assert(s =~= p.push(c));
        assert(s.drop_last() =~= p);
        assert(a =~= Seq::<char>::empty());
        assert(split_spec(s, c) == split_spec(p, c).push(Seq::empty()));
    } else {
        let b = a.drop_last();
        assert(!b.contains(c)) by {
            if b.contains(c) {
                let k = choose|k: int| 0 <= k < b.len() && b[k] == c;
                assert(a[k] == c);
            }
        }
        lemma_split_then(p, b, c);
        assert(s.drop_last() =~= p + seq![c] + b);
        assert(s.last() == a.last());
        assert(a[a.len() - 1] != c);
        lemma_split_nonempty(p, c);
        let q = split_spec(p, c);
        assert(split_spec(s.drop_last(), c) == q.push(b));
        assert(split_spec(s, c) == q.push(b).update(q.len() as int, b.push(a.last())));
        assert(q.push(b).update(q.len() as int, b.push(a.last())) =~= q.push(a)) by {
            assert(b.push(a.last()) =~= a);
        }
    }
}

/// What a world's qualified reference splits into.
proof fn lemma_qualified_parts(w: WorldV)
    requires
        !w.installation.contains('/'),
        !w.folder.contains('/'),
        w.account matches Some(a) ==> !a.contains('/'),
    ensures
        split_spec(qualified_spec(w), '/') == match w.account {
            Some(a) => seq![w.installation, a, w.folder],
            None => seq![w.installation, w.folder],
        },
{
    lemma_split_whole(w.installation, '/');
    match w.account {
        Some(a) => {
            lemma_split_then(w.installation, a, '/');
            let p = w.installation + seq!['/'] + a;
            lemma_split_then(p, w.folder, '/');
            assert(qualified_spec(w) =~= p + seq!['/'] + w.folder);
        },
        None => {
            lemma_split_then(w.installation, w.folder, '/');
        },
    }
}

/// Whether another world shares a reference with `w`: the same folder in the
/// same installation, under the same account when `w` names one.
pub open spec fn shares_reference(other: WorldV, w: WorldV) -> bool {
    &&& other.folder == w.folder
    &&& other.installation == w.installation
    &&& (w.account is None || other.account == w.account)
}

/// A qualified reference names its world and nothing else: among worlds
/// whose folders, installation names and account names hold no `/`, where
/// no other world shares the reference, resolving a world's
/// `<installation>/<account>/<folder>` (or `<installation>/<folder>`) finds
/// exactly that world.
pub proof fn lemma_qualified_names_its_world(ws: Seq<WorldV>, i: int)
    requires
        0 <= i < ws.len(),
        forall|j: int| 0 <= j < ws.len() ==> !(#[trigger] ws[j].folder).contains('/'),
        !ws[i].installation.contains('/'),
        ws[i].account matches Some(a) ==> !a.contains('/'),
        forall|j: int| 0 <= j < ws.len() && j != i ==> !shares_reference(#[trigger] ws[j], ws[i]),
    ensures
        named_by(ws, qualified_spec(ws[i])) == seq![ws[i]],
{
    let w = ws[i];
    let q = qualified_spec(w);
    lemma_qualified_parts(w);
    let r = parse_spec(q);
    assert(r.world == w.folder && !r.extra_segments);
    assert(q[w.installation.len() as int] == '/');
    assert forall|n: int| 0 <= n <= ws.len() implies #[trigger] tier(ws.subrange(0, n), q, true) == if n > i {
        seq![w]
    } else {
        Seq::<WorldV>::empty()
    } by {
        lemma_tier_prefix(ws, i, n);
    }
    assert(ws.subrange(0, ws.len() as int) =~= ws);
    assert(tier(ws.subrange(0, ws.len() as int), q, true) == seq![w]);
}

proof fn lemma_tier_prefix(ws: Seq<WorldV>, i: int, n: int)
    requires
        0 <= i < ws.len(),
        0 <= n <= ws.len(),
        forall|j: int| 0 <= j < ws.len() ==> !(#[trigger] ws[j].folder).contains('/'),
        forall|j: int| 0 <= j < ws.len() && j != i ==> !shares_reference(#[trigger] ws[j], ws[i]),
        parse_spec(qualified_spec(ws[i])).world == ws[i].folder,
        !parse_spec(qualified_spec(ws[i])).extra_segments,
        parse_spec(qualified_spec(ws[i])).installation == Some(ws[i].installation),
        parse_spec(qualified_spec(ws[i])).account == ws[i].account,
        qualified_spec(ws[i]).contains('/'),
    ensures
        tier(ws.subrange(0, n), qualified_spec(ws[i]), true) == if n > i {
            seq![ws[i]]
        } else {
            Seq::<WorldV>::empty()
        },
    decreases n,
{
    let q = qualified_spec(ws[i]);
    let r = parse_spec(q);
    if n > 0 {
        lemma_tier_prefix(ws, i, n - 1);
        let pre = ws.subrange(0, n);
        assert(pre.drop_last() =~= ws.subrange(0, n - 1));
        let x = pre.last();
        assert(x == ws[n - 1]);
        assert(x.folder != q) by {
            if x.folder == q {
                assert(ws[n - 1].folder.contains('/'));
            }
        }
        if n - 1 == i {
            assert(segments_match(r, x));
            assert(hit(x.folder, q, r, x));
            assert(Seq::<WorldV>::empty() + seq![x] =~= seq![x]);
        } else {
            assert(!shares_reference(ws[n - 1], ws[i]));
            assert(!hit(x.folder, q, r, x));
            if n > i {
                assert(seq![ws[i]] + Seq::<WorldV>::empty() =~= seq![ws[i]]);
            } else {
                assert(Seq::<WorldV>::empty() + Seq::<WorldV>::empty() =~= Seq::<WorldV>::empty());
            }
        }
    } else {
        assert(ws.subrange(0, 0) =~= Seq::<WorldV>::empty());
    }
}

} // verus!
