//! Construct's `structures/` folder: ordinary `.mcstructure` files, no database.
//!
//! A file directly in `structures/` is `mystructure:<stem>`. A file in
//! `structures/<dir>/...` is `<dir>:<rest>`: the first folder is the
//! namespace, every deeper folder and the stem form the name, joined by `/`.
//! Every segment is kept exactly as it sits on disk, so what is listed is what
//! [`path_for`] can address again.
use crate::catalog::opt_view;
use crate::error::CoreError;
use crate::store::key::{default_namespace, default_namespace_vec, display_name, display_name_spec, qualify, qualify_spec};
use crate::text::{char_debug, chars_eq, chars_of, concat_chars, contains_char, debug_char, join_path, join_spec, seq_lt, split_spec, split_str, str_lt, string_from, strings_view, sub_chars, trim_chars, trim_spec};
use vstd::prelude::*;

verus! {

broadcast use vstd::std_specs::vec::group_vec_axioms;

pub const EXTENSION: &'static str = "mcstructure";

/// One structure file in a pack.
#[derive(Debug, PartialEq, Eq)]
pub struct PackStructure {
    /// The qualified id, always carrying a namespace.
    pub id: String,
    /// What the user types and sees.
    pub name: String,
    pub path: String,
    pub size_bytes: u64,
}

pub struct PackStructureV {
    pub id: Seq<char>,
    pub name: Seq<char>,
    pub path: Seq<char>,
    pub size_bytes: u64,
}

impl View for PackStructure {
    type V = PackStructureV;

    open spec fn view(&self) -> PackStructureV {
        PackStructureV { id: self.id@, name: self.name@, path: self.path@, size_bytes: self.size_bytes }
    }
}

impl Clone for PackStructure {
    fn clone(&self) -> (r: Self)
        ensures
            r@ == self@,
    {
        PackStructure {
            id: self.id.clone(),
            name: self.name.clone(),
            path: self.path.clone(),
            size_bytes: self.size_bytes,
        }
    }
}

pub open spec fn structures_view(s: Seq<PackStructure>) -> Seq<PackStructureV> {
    Seq::new(s.len(), |i: int| s[i]@)
}

/// The `structures/` folder of a pack.
pub open spec fn dir_spec(pack_dir: Seq<char>) -> Seq<char> {
    join_spec(pack_dir, "structures"@)
}

/// The `structures/` folder of a pack.
pub fn dir(pack_dir: &str) -> (r: String)
    ensures
        r@ == dir_spec(pack_dir@),
{
    join_path(pack_dir, "structures")
}

// ---------------------------------------------------------------------------
// Segments
// ---------------------------------------------------------------------------

/// The characters a name or namespace segment may hold.
pub open spec fn safe_char(c: char) -> bool {
    ('a' <= c <= 'z') || ('A' <= c <= 'Z') || ('0' <= c <= '9') || c == '_' || c == '.' || c
        == '-'
}

/// The index of the first character outside [`safe_char`], or the length.
pub open spec fn first_unsafe(s: Seq<char>) -> int
    decreases s.len(),
{
    if s.len() == 0 {
        0
    } else if !safe_char(s[0]) {
        0
    } else {
        1 + first_unsafe(s.drop_first())
    }
}

pub open spec fn empty_reason() -> Seq<char> {
    "an empty name or namespace"@
}

pub open spec fn outside_reason() -> Seq<char> {
    "a name that would point outside the pack"@
}

pub open spec fn not_allowed_suffix() -> Seq<char> {
    " is not allowed; names may use A-Z, a-z, 0-9, and _ . -"@
}

/// Why one segment of an id cannot be a path component, if it cannot.
///
/// This is a security boundary: ids arrive from file stems and from what the
/// user types, so a segment holding a separator or `..` would let a crafted
/// name write outside the pack.
pub open spec fn segment_problem(s: Seq<char>) -> Option<Seq<char>> {
    if s.len() == 0 {
        Some(empty_reason())
    } else if s == seq!['.'] || s == seq!['.', '.'] {
        Some(outside_reason())
    } else if first_unsafe(s) < s.len() {
        Some(char_debug(s[first_unsafe(s)]) + not_allowed_suffix())
    } else {
        None
    }
}

proof fn lemma_first_unsafe(s: Seq<char>, i: int)
    requires
        0 <= i <= s.len(),
        forall|j: int| 0 <= j < i ==> safe_char(#[trigger] s[j]),
        i < s.len() ==> !safe_char(s[i]),
    ensures
        first_unsafe(s) == i,
    decreases i,
{
    if i > 0 {
        assert forall|j: int| 0 <= j < i - 1 implies safe_char(#[trigger] s.drop_first()[j]) by {
            assert(s.drop_first()[j] == s[j + 1]);
        }
        if i < s.len() {
            assert(s.drop_first()[i - 1] == s[i]);
        }
        assert(safe_char(s[0]));
        lemma_first_unsafe(s.drop_first(), i - 1);
    }
}

/// Why `seg` cannot be a path component, as text, if it cannot.
fn segment_problem_of(seg: &[char]) -> (r: Option<String>)
    ensures
        opt_view(r) == segment_problem(seg@),
{
    let n = seg.len();
    if n == 0 {
        return Some(String::from_str("an empty name or namespace"));
    }
    if (n == 1 && seg[0] == '.') || (n == 2 && seg[0] == '.' && seg[1] == '.') {
        assert(seg@ =~= seq!['.'] || seg@ =~= seq!['.', '.']);
        return Some(String::from_str("a name that would point outside the pack"));
    }
    assert(seg@ != seq!['.'] && seg@ != seq!['.', '.']) by {
        if seg@ == seq!['.'] {
            assert(seg@[0] == '.');
        }
        if seg@ == seq!['.', '.'] {
            assert(seg@[0] == '.' && seg@[1] == '.');
        }
    }
    let mut i: usize = 0;
    while i < n
        invariant
            i <= n,
            n == seg@.len(),
            forall|j: int| 0 <= j < i ==> safe_char(#[trigger] seg@[j]),
        decreases n - i,
    {
        let c = seg[i];
        if !(('a' <= c && c <= 'z') || ('A' <= c && c <= 'Z') || ('0' <= c && c <= '9') || c == '_'
            || c == '.' || c == '-') {
            proof {
                lemma_first_unsafe(seg@, i as int);
            }
            let mut r = debug_char(c);
            r.append(" is not allowed; names may use A-Z, a-z, 0-9, and _ . -");
            return Some(r);
        }
        i += 1;
    }
    proof {
        lemma_first_unsafe(seg@, n as int);
    }
    None
}

/// The refusal of a structure name, naming what was asked for.
pub open spec fn is_name_error(e: CoreError, name: Seq<char>, reason: Seq<char>) -> bool {
    match e {
        CoreError::BadStructureName { name: n, reason: r } => n@ == name && r@ == reason,
        _ => false,
    }
}

// ---------------------------------------------------------------------------
// Where an id lives
// ---------------------------------------------------------------------------

/// The index of the first `:` in `s`, or its length.
pub open spec fn first_colon(s: Seq<char>) -> int
    decreases s.len(),
{
    if s.len() == 0 {
        0
    } else if s[0] == ':' {
        0
    } else {
        1 + first_colon(s.drop_first())
    }
}

proof fn lemma_first_colon(s: Seq<char>, i: int)
    requires
        0 <= i <= s.len(),
        forall|j: int| 0 <= j < i ==> #[trigger] s[j] != ':',
        i < s.len() ==> s[i] == ':',
    ensures
        first_colon(s) == i,
    decreases i,
{
    if i > 0 {
        assert forall|j: int| 0 <= j < i - 1 implies #[trigger] s.drop_first()[j] != ':' by {
            assert(s.drop_first()[j] == s[j + 1]);
        }
        if i < s.len() {
            assert(s.drop_first()[i - 1] == s[i]);
        }
        assert(s[0] != ':');
        lemma_first_colon(s.drop_first(), i - 1);
    }
}

/// The namespace of an id: what precedes the first `:` once qualified.
pub open spec fn id_namespace(id: Seq<char>) -> Seq<char> {
    let q = qualify_spec(id);
    q.subrange(0, first_colon(q))
}

/// The name of an id: what follows the first `:` once qualified.
pub open spec fn id_name(id: Seq<char>) -> Seq<char> {
    let q = qualify_spec(id);
    q.subrange(first_colon(q) + 1, q.len() as int)
}

/// Why the first unusable segment in `parts` is unusable, if one is.
pub open spec fn segments_problem(parts: Seq<Seq<char>>) -> Option<Seq<char>>
    decreases parts.len(),
{
    if parts.len() == 0 {
        None
    } else if segment_problem(parts[0]) is Some {
        segment_problem(parts[0])
    } else {
        segments_problem(parts.drop_first())
    }
}

pub open spec fn no_namespace_reason() -> Seq<char> {
    "no namespace"@
}

pub open spec fn two_separators_reason() -> Seq<char> {
    "more than one namespace separator"@
}

pub open spec fn nested_default_reason() -> Seq<char> {
    "a nested name needs a namespace of its own"@
}

/// Why an id cannot name a file in a pack, if it cannot.
///
/// `mystructure` is the one namespace with no folder of its own, so a nested
/// name there would be read back under another namespace: refused.
pub open spec fn id_problem(id: Seq<char>) -> Option<Seq<char>> {
    let q = qualify_spec(id);
    let ns = id_namespace(id);
    let name = id_name(id);
    if first_colon(q) >= q.len() {
        Some(no_namespace_reason())
    } else if name.contains(':') {
        Some(two_separators_reason())
    } else if segment_problem(ns) is Some {
        segment_problem(ns)
    } else if ns == default_namespace() && name.contains('/') {
        Some(nested_default_reason())
    } else {
        segments_problem(split_spec(name, '/'))
    }
}

/// The file an id names inside a pack: flat for `mystructure`, under a folder
/// named for its namespace otherwise, one more folder per `/` in the name.
pub open spec fn structure_path(pack_dir: Seq<char>, id: Seq<char>) -> Seq<char> {
    let root = dir_spec(pack_dir);
    let file = id_name(id) + "."@ + EXTENSION@;
    if id_namespace(id) == default_namespace() {
        join_spec(root, file)
    } else {
        join_spec(join_spec(root, id_namespace(id)), file)
    }
}

/// The position of the first `c` in `v`, if any.
fn find_char(v: &[char], c: char) -> (r: usize)
    ensures
        r <= v@.len(),
        forall|j: int| 0 <= j < r ==> #[trigger] v@[j] != c,
        r < v@.len() ==> v@[r as int] == c,
{
    let mut i: usize = 0;
    while i < v.len()
        invariant
            i <= v@.len(),
            forall|j: int| 0 <= j < i ==> #[trigger] v@[j] != c,
        decreases v@.len() - i,
    {
        if v[i] == c {
            return i;
        }
        i += 1;
    }
    i
}

/// Checks every segment in order, reporting the first that is unusable.
fn parts_problem(parts: &Vec<String>) -> (r: Option<String>)
    ensures
        opt_view(r) == segments_problem(strings_view(parts@)),
{
    let ghost all = strings_view(parts@);
    let mut i: usize = 0;
    assert(all.subrange(0, all.len() as int) =~= all);
    while i < parts.len()
        invariant
            i <= parts@.len(),
            all == strings_view(parts@),
            segments_problem(all) == segments_problem(all.subrange(i as int, all.len() as int)),
        decreases parts@.len() - i,
    {
        let ghost rest = all.subrange(i as int, all.len() as int);
        assert(rest[0] == parts@[i as int]@);
        let seg = chars_of(parts[i].as_str());
        let p = segment_problem_of(&seg);
        if p.is_some() {
            return p;
        }
        assert(rest.drop_first() =~= all.subrange(i + 1, all.len() as int));
        i += 1;
    }
    assert(all.subrange(i as int, all.len() as int) =~= Seq::<Seq<char>>::empty());
    None
}

/// Where a structure with this id belongs inside a pack.
pub fn path_for(pack_dir: &str, id: &str) -> (r: Result<String, CoreError>)
    ensures
        r is Ok <==> id_problem(id@) is None,
        r matches Ok(p) ==> p@ == structure_path(pack_dir@, id@),
        r matches Err(e) ==> is_name_error(e, id@, id_problem(id@)->0),
{
    let bad = |reason: String| -> (e: CoreError)
        ensures
            is_name_error(e, id@, reason@),
        { CoreError::BadStructureName { name: String::from_str(id), reason } };
    let qualified = qualify(id);
    let q = chars_of(qualified.as_str());
    let k = find_char(&q, ':');
    proof {
        lemma_first_colon(q@, k as int);
    }
    if k >= q.len() {
        return Err(bad(String::from_str("no namespace")));
    }
    let ns = sub_chars(&q, 0, k);
    let name = sub_chars(&q, k + 1, q.len());
    if contains_char(&name, ':') {
        return Err(bad(String::from_str("more than one namespace separator")));
    }
    if let Some(reason) = segment_problem_of(&ns) {
        return Err(bad(reason));
    }
    let dflt = default_namespace_vec();
    let flat = chars_eq(&ns, &dflt);
    if flat && contains_char(&name, '/') {
        return Err(bad(String::from_str("a nested name needs a namespace of its own")));
    }
    let name_s = string_from(&name);
    let parts = split_str(name_s.as_str(), '/');
    if let Some(reason) = parts_problem(&parts) {
        return Err(bad(reason));
    }
    let root = dir(pack_dir);
    let mut file = name_s;
    file.append(".");
    file.append(EXTENSION);
    if flat {
        Ok(join_path(root.as_str(), file.as_str()))
    } else {
        let ns_s = string_from(&ns);
        let sub = join_path(root.as_str(), ns_s.as_str());
        Ok(join_path(sub.as_str(), file.as_str()))
    }
}

// ---------------------------------------------------------------------------
// Names from file stems
// ---------------------------------------------------------------------------

/// `s` with every space turned into `_`.
pub open spec fn spaces_to_underscores(s: Seq<char>) -> Seq<char> {
    Seq::new(s.len(), |i: int| if s[i] == ' ' { '_' } else { s[i] })
}

/// The name derived from a file stem: trimmed, spaces to `_`, case kept.
pub open spec fn derived_name(stem: Seq<char>) -> Seq<char> {
    spaces_to_underscores(trim_spec(stem))
}

/// A structure name from a file stem: trimmed, spaces to `_`, case kept.
///
/// Anything outside `[A-Za-z0-9_.-]` is refused rather than mangled: a
/// mangled name is one Construct will not list, so the user is told to pass
/// a name instead. The result is always a single segment.
pub fn derive_name(stem: &str) -> (r: Result<String, CoreError>)
    ensures
        r is Ok <==> segment_problem(derived_name(stem@)) is None,
        r matches Ok(n) ==> n@ == derived_name(stem@),
        r matches Err(e) ==> is_name_error(e, stem@, segment_problem(derived_name(stem@))->0),
{
    let t = trim_chars(stem);
    let mut d: Vec<char> = Vec::new();
    let mut i: usize = 0;
    while i < t.len()
        invariant
            i <= t@.len(),
            d@ == spaces_to_underscores(t@.subrange(0, i as int)),
        decreases t@.len() - i,
    {
        let c = if t[i] == ' ' {
            '_'
        } else {
            t[i]
        };
        d.push(c);
        i += 1;
        assert(d@ =~= spaces_to_underscores(t@.subrange(0, i as int)));
    }
    assert(t@.subrange(0, t@.len() as int) =~= t@);
    match segment_problem_of(&d) {
        Some(reason) => Err(CoreError::BadStructureName { name: String::from_str(stem), reason }),
        None => Ok(string_from(&d)),
    }
}

// ---------------------------------------------------------------------------
// Listing
// ---------------------------------------------------------------------------

/// The index of the last `.` in `s`, or -1.
pub open spec fn last_dot(s: Seq<char>) -> int
    decreases s.len(),
{
    if s.len() == 0 {
        -1
    } else if s.last() == '.' {
        s.len() - 1
    } else {
        last_dot(s.drop_last())
    }
}

/// The stem of a file name whose extension is `mcstructure`, read the way a
/// path's extension is: what follows the last `.`, unless that `.` opens the
/// name or the name is `..`.
pub open spec fn mcstructure_stem(file_name: Seq<char>) -> Option<Seq<char>> {
    let k = last_dot(file_name);
    if file_name == seq!['.', '.'] || k <= 0 {
        None
    } else if file_name.subrange(k + 1, file_name.len() as int) == EXTENSION@ {
        Some(file_name.subrange(0, k))
    } else {
        None
    }
}

proof fn lemma_last_dot(s: Seq<char>, k: int)
    requires
        -1 <= k < s.len(),
        k >= 0 ==> s[k] == '.',
        forall|j: int| k < j < s.len() ==> #[trigger] s[j] != '.',
    ensures
        last_dot(s) == k,
    decreases s.len(),
{
    if s.len() > 0 && k < s.len() - 1 {
        assert forall|j: int| k < j < s.len() - 1 implies #[trigger] s.drop_last()[j] != '.' by {
            assert(s.drop_last()[j] == s[j]);
        }
        assert(s.last() != '.');
        lemma_last_dot(s.drop_last(), k);
    }
}

/// The structure stem of a file name, if the file is a `.mcstructure`.
pub fn structure_stem(file_name: &str) -> (r: Option<String>)
    ensures
        opt_view(r) == mcstructure_stem(file_name@),
{
    let f = chars_of(file_name);
    let n = f.len();
    let mut k: usize = n;
    while k > 0 && f[k - 1] != '.'
        invariant
            k <= n,
            n == f@.len(),
            forall|j: int| k <= j < n ==> #[trigger] f@[j] != '.',
        decreases k,
    {
        k -= 1;
    }
    proof {
        lemma_last_dot(f@, k - 1);
    }
    if n == 2 && f[0] == '.' && f[1] == '.' {
        assert(f@ =~= seq!['.', '.']);
        return None;
    }
    assert(f@ != seq!['.', '.']) by {
        if f@ == seq!['.', '.'] {
            assert(f@[0] == '.' && f@[1] == '.');
        }
    }
    if k <= 1 {
        return None;
    }
    let ext = sub_chars(&f, k, n);
    let want = chars_of(EXTENSION);
    if chars_eq(&ext, &want) {
        let stem = sub_chars(&f, 0, k - 1);
        Some(string_from(&stem))
    } else {
        None
    }
}

/// One `.mcstructure` file under a pack's `structures/` folder: the folders
/// between `structures/` and the file, its stem, where it is and its size.
#[derive(Debug, Clone)]
pub struct FoundFile {
    pub dirs: Vec<String>,
    pub stem: String,
    pub path: String,
    pub size_bytes: u64,
}

/// Segments joined by `/`.
pub open spec fn join_slash(parts: Seq<Seq<char>>) -> Seq<char>
    decreases parts.len(),
{
    if parts.len() == 0 {
        Seq::empty()
    } else if parts.len() == 1 {
        parts[0]
    } else {
        join_slash(parts.drop_last()) + seq!['/'] + parts.last()
    }
}

/// The id of a file found below `structures/`: `mystructure:<stem>` directly
/// in it, else the first folder as namespace and the rest, stem last, as the
/// name.
pub open spec fn found_id(dirs: Seq<Seq<char>>, stem: Seq<char>) -> Seq<char> {
    if dirs.len() == 0 {
        qualify_spec(stem)
    } else {
        dirs[0] + seq![':'] + join_slash(dirs.drop_first().push(stem))
    }
}

/// What a found file lists as.
pub open spec fn found_structure(f: FoundFile) -> PackStructureV {
    let id = found_id(strings_view(f.dirs@), f.stem@);
    PackStructureV { id, name: display_name_spec(id), path: f.path@, size_bytes: f.size_bytes }
}

/// Where `x` goes among structures ordered by id: after every one whose id
/// does not sort after it.
pub open spec fn id_pos(s: Seq<PackStructureV>, x: PackStructureV) -> int
    decreases s.len(),
{
    if s.len() == 0 {
        0
    } else if seq_lt(x.id, s[0].id) {
        0
    } else {
        1 + id_pos(s.drop_first(), x)
    }
}

/// `s` ordered by id, equal ids kept in the order given.
pub open spec fn by_id(s: Seq<PackStructureV>) -> Seq<PackStructureV>
    decreases s.len(),
{
    if s.len() == 0 {
        Seq::empty()
    } else {
        let t = by_id(s.drop_last());
        t.insert(id_pos(t, s.last()), s.last())
    }
}

proof fn lemma_id_pos_bound(s: Seq<PackStructureV>, x: PackStructureV)
    ensures
        0 <= id_pos(s, x) <= s.len(),
    decreases s.len(),
{
    if s.len() > 0 && !seq_lt(x.id, s[0].id) {
        lemma_id_pos_bound(s.drop_first(), x);
    }
}

/// Structures ordered by id, equal ids in the order given.
pub fn sort_by_id(v: Vec<PackStructure>) -> (r: Vec<PackStructure>)
    ensures
        structures_view(r@) == by_id(structures_view(v@)),
{
    let ghost src = structures_view(v@);
    let mut out: Vec<PackStructure> = Vec::new();
    let mut i: usize = 0;
    while i < v.len()
        invariant
            i <= v@.len(),
            src == structures_view(v@),
            structures_view(out@) == by_id(src.subrange(0, i as int)),
        decreases v@.len() - i,
    {
        let x = v[i].clone();
        let ghost s = structures_view(out@);
        assert(s.subrange(0, s.len() as int) =~= s);
        let mut j: usize = 0;
        while j < out.len() && !str_lt(x.id.as_str(), out[j].id.as_str())
            invariant
                j <= out@.len(),
                s == structures_view(out@),
                id_pos(s, x@) == j + id_pos(s.subrange(j as int, s.len() as int), x@),
            decreases out@.len() - j,
        {
            let ghost rest = s.subrange(j as int, s.len() as int);
            assert(rest[0] == s[j as int]);
            assert(rest.drop_first() =~= s.subrange(j + 1, s.len() as int));
            j += 1;
        }
        proof {
            if j < out@.len() {
                assert(s.subrange(j as int, s.len() as int)[0] == s[j as int]);
            } else {
                assert(s.subrange(j as int, s.len() as int) =~= Seq::<PackStructureV>::empty());
            }
            lemma_id_pos_bound(s, x@);
        }
        out.insert(j, x);
        assert(src.subrange(0, i + 1).drop_last() =~= src.subrange(0, i as int));
        assert(src.subrange(0, i + 1).last() == src[i as int]);
        assert(structures_view(out@) =~= s.insert(j as int, src[i as int]));
        i += 1;
    }
    assert(src.subrange(0, src.len() as int) =~= src);
    out
}

/// Segments joined by `/`.
fn join_parts(parts: &Vec<String>) -> (r: Vec<char>)
    ensures
        r@ == join_slash(strings_view(parts@)),
{
    let ghost all = strings_view(parts@);
    let mut acc: Vec<char> = Vec::new();
    let mut i: usize = 0;
    assert(all.subrange(0, 0) =~= Seq::<Seq<char>>::empty());
    while i < parts.len()
        invariant
            i <= parts@.len(),
            all == strings_view(parts@),
            acc@ == join_slash(all.subrange(0, i as int)),
        decreases parts@.len() - i,
    {
        let ghost pre = all.subrange(0, i as int);
        let ghost cur = all.subrange(0, i + 1);
        assert(cur.drop_last() =~= pre);
        assert(cur.last() == parts@[i as int]@);
        let p = chars_of(parts[i].as_str());
        if i > 0 {
            acc.push('/');
        }
        acc = concat_chars(&acc, &p);
        i += 1;
    }
    assert(all.subrange(0, all.len() as int) =~= all);
    acc
}

/// The id of a file found below `structures/`.
pub fn id_of_found(dirs: &Vec<String>, stem: &str) -> (r: String)
    ensures
        r@ == found_id(strings_view(dirs@), stem@),
{
    if dirs.len() == 0 {
        return qualify(stem);
    }
    let ghost dv = strings_view(dirs@);
    let mut parts: Vec<String> = Vec::new();
    let mut i: usize = 1;
    while i < dirs.len()
        invariant
            1 <= i <= dirs@.len(),
            dv == strings_view(dirs@),
            strings_view(parts@) == dv.subrange(1, i as int),
        decreases dirs@.len() - i,
    {
        let d = dirs[i].clone();
        assert(d@ == dv[i as int]);
        let ghost before = strings_view(parts@);
        parts.push(d);
        assert(strings_view(parts@) =~= before.push(dv[i as int]));
        assert(dv.subrange(1, i + 1) =~= dv.subrange(1, i as int).push(dv[i as int]));
        i += 1;
        assert(strings_view(parts@) =~= dv.subrange(1, i as int));
    }
    parts.push(String::from_str(stem));
    assert(strings_view(parts@) =~= dv.drop_first().push(stem@));
    let mut id = chars_of(dirs[0].as_str());
    id.push(':');
    let rest = join_parts(&parts);
    let all = concat_chars(&id, &rest);
    string_from(&all)
}

/// Every structure file found in a pack, sorted by id.
pub fn from_found(files: &Vec<FoundFile>) -> (r: Vec<PackStructure>)
    ensures
        structures_view(r@) == by_id(Seq::new(files@.len(), |i: int| found_structure(files@[i]))),
{
    let ghost want = Seq::new(files@.len(), |i: int| found_structure(files@[i]));
    let mut out: Vec<PackStructure> = Vec::new();
    let mut i: usize = 0;
    while i < files.len()
        invariant
            i <= files@.len(),
            want == Seq::new(files@.len(), |i: int| found_structure(files@[i])),
            structures_view(out@) == want.subrange(0, i as int),
        decreases files@.len() - i,
    {
        let f = &files[i];
        let id = id_of_found(&f.dirs, f.stem.as_str());
        let name = display_name(id.as_str());
        let path = f.path.clone();
        let item = PackStructure { id, name, path, size_bytes: f.size_bytes };
        assert(item@ == want[i as int]);
        let ghost before = structures_view(out@);
        out.push(item);
        assert(structures_view(out@) =~= before.push(want[i as int]));
        assert(want.subrange(0, i + 1) =~= want.subrange(0, i as int).push(want[i as int]));
        i += 1;
        assert(structures_view(out@) =~= want.subrange(0, i as int));
    }
    assert(want.subrange(0, want.len() as int) =~= want);
    sort_by_id(out)
}

// ---------------------------------------------------------------------------
// Laws
// ---------------------------------------------------------------------------

proof fn lemma_safe_all(s: Seq<char>)
    requires
        first_unsafe(s) >= s.len(),
    ensures
        forall|i: int| 0 <= i < s.len() ==> safe_char(#[trigger] s[i]),
    decreases s.len(),
{
    if s.len() > 0 {
        lemma_safe_all(s.drop_first());
        assert forall|i: int| 0 <= i < s.len() implies safe_char(#[trigger] s[i]) by {
            if i > 0 {
                assert(s[i] == s.drop_first()[i - 1]);
            }
        }
    }
}

proof fn lemma_safe_has_no(s: Seq<char>, c: char)
    requires
        segment_problem(s) is None,
        !safe_char(c),
    ensures
        !s.contains(c),
{
    lemma_safe_all(s);
    if s.contains(c) {
        let i = choose|i: int| 0 <= i < s.len() && s[i] == c;
        assert(safe_char(s[i]));
    }
}

proof fn lemma_split_whole(b: Seq<char>)
    requires
        !b.contains('/'),
    ensures
        split_spec(b, '/') == seq![b],
    decreases b.len(),
{
    if b.len() > 0 {
        assert(!b.drop_last().contains('/')) by {
            if b.drop_last().contains('/') {
                let i = choose|i: int| 0 <= i < b.drop_last().len() && b.drop_last()[i] == '/';
                assert(b[i] == '/');
            }
        }
        lemma_split_whole(b.drop_last());
        assert(b.last() != '/') by {
            assert(b[b.len() - 1] == b.last());
        }
        assert(b.drop_last().push(b.last()) =~= b);
        assert(seq![b.drop_last()].update(0, b.drop_last().push(b.last())) =~= seq![b]);
    } else {
        assert(b =~= Seq::<char>::empty());
    }
}

proof fn lemma_split_after_slash(a: Seq<char>, b: Seq<char>)
    requires
        !b.contains('/'),
    ensures
        split_spec(a + seq!['/'] + b, '/') == split_spec(a, '/').push(b),
    decreases b.len(),
{
    let whole = a + seq!['/'] + b;
    if b.len() == 0 {
        assert(whole.drop_last() =~= a);
        assert(whole.last() == '/');
        assert(b =~= Seq::<char>::empty());
    } else {
        let shorter = b.drop_last();
        assert(!shorter.contains('/')) by {
            if shorter.contains('/') {
                let i = choose|i: int| 0 <= i < shorter.len() && shorter[i] == '/';
                assert(b[i] == '/');
            }
        }
        lemma_split_after_slash(a, shorter);
        assert(whole.drop_last() =~= a + seq!['/'] + shorter);
        assert(whole.last() == b.last());
        assert(b.last() != '/') by {
            assert(b[b.len() - 1] == b.last());
        }
        let p = split_spec(a, '/');
        assert(shorter.push(b.last()) =~= b);
        assert(p.push(shorter).update(p.len() as int, shorter.push(b.last())) =~= p.push(b));
    }
}

proof fn lemma_join_split(parts: Seq<Seq<char>>)
    requires
        parts.len() >= 1,
        forall|i: int| 0 <= i < parts.len() ==> !(#[trigger] parts[i]).contains('/'),
    ensures
        split_spec(join_slash(parts), '/') == parts,
    decreases parts.len(),
{
    if parts.len() == 1 {
        lemma_split_whole(parts[0]);
        assert(parts =~= seq![parts[0]]);
    } else {
        let init = parts.drop_last();
        assert forall|i: int| 0 <= i < init.len() implies !(#[trigger] init[i]).contains('/') by {
            assert(init[i] == parts[i]);
        }
        lemma_join_split(init);
        assert(!parts.last().contains('/')) by {
            assert(parts[parts.len() - 1] == parts.last());
        }
        lemma_split_after_slash(join_slash(init), parts.last());
        assert(init.push(parts.last()) =~= parts);
    }
}

proof fn lemma_join_has_no(parts: Seq<Seq<char>>, c: char)
    requires
        c != '/',
        forall|i: int| 0 <= i < parts.len() ==> !(#[trigger] parts[i]).contains(c),
    ensures
        !join_slash(parts).contains(c),
    decreases parts.len(),
{
    if parts.len() > 1 {
        let init = parts.drop_last();
        assert forall|i: int| 0 <= i < init.len() implies !(#[trigger] init[i]).contains(c) by {
            assert(init[i] == parts[i]);
        }
        lemma_join_has_no(init, c);
        let j = join_slash(init);
        let last = parts.last();
        assert(!last.contains(c)) by {
            assert(parts[parts.len() - 1] == last);
        }
        let whole = j + seq!['/'] + last;
        if whole.contains(c) {
            let k = choose|k: int| 0 <= k < whole.len() && whole[k] == c;
            if k < j.len() {
                assert(whole[k] == j[k]);
            } else if k > j.len() {
                assert(whole[k] == last[k - j.len() - 1]);
            }
        }
    } else if parts.len() == 1 {
        assert(!parts[0].contains(c));
    }
}

proof fn lemma_segments_ok(parts: Seq<Seq<char>>)
    requires
        forall|i: int| 0 <= i < parts.len() ==> segment_problem(#[trigger] parts[i]) is None,
    ensures
        segments_problem(parts) is None,
    decreases parts.len(),
{
    if parts.len() > 0 {
        let rest = parts.drop_first();
        assert forall|i: int| 0 <= i < rest.len() implies segment_problem(#[trigger] rest[i]) is None by {
            assert(rest[i] == parts[i + 1]);
        }
        lemma_segments_ok(rest);
    }
}

proof fn lemma_default_namespace_ok()
    ensures
        segment_problem(default_namespace()) is None,
        !default_namespace().contains(':'),
        first_colon(default_namespace() + seq![':']) == default_namespace().len(),
{
    let d = default_namespace();
    assert forall|j: int| 0 <= j < d.len() implies safe_char(#[trigger] d[j]) by {
        if j == 0 {} else if j == 1 {} else if j == 2 {} else if j == 3 {} else if j == 4 {}
        else if j == 5 {} else if j == 6 {} else if j == 7 {} else if j == 8 {} else if j == 9 {}
        else {}
    }
    lemma_first_unsafe(d, d.len() as int);
    assert(d.len() == 11);
    assert(d != seq!['.'] && d != seq!['.', '.']);
    lemma_safe_has_no(d, ':');
    let q = d + seq![':'];
    assert forall|j: int| 0 <= j < d.len() implies #[trigger] q[j] != ':' by {
        assert(q[j] == d[j]);
    }
    lemma_first_colon(q, d.len() as int);
}

/// The id `<namespace>:<name>` splits back into that namespace and name when
/// the namespace holds no `:`.
proof fn lemma_split_id(ns: Seq<char>, name: Seq<char>)
    requires
        !ns.contains(':'),
    ensures
        qualify_spec(ns + seq![':'] + name) == ns + seq![':'] + name,
        id_namespace(ns + seq![':'] + name) == ns,
        id_name(ns + seq![':'] + name) == name,
{
    let id = ns + seq![':'] + name;
    assert(id[ns.len() as int] == ':');
    assert(id.contains(':'));
    assert forall|j: int| 0 <= j < ns.len() implies #[trigger] id[j] != ':' by {
        assert(id[j] == ns[j]);
    }
    lemma_first_colon(id, ns.len() as int);
    assert(id.subrange(0, ns.len() as int) =~= ns);
    assert(id.subrange(ns.len() as int + 1, id.len() as int) =~= name);
}

/// A single usable segment is addressable on its own: it lands in the
/// default namespace, directly in `structures/`. Every name [`derive_name`]
/// accepts is such a segment.
pub proof fn lemma_single_segment_is_flat(pack_dir: Seq<char>, name: Seq<char>)
    requires
        segment_problem(name) is None,
    ensures
        id_problem(name) is None,
        structure_path(pack_dir, name) == join_spec(dir_spec(pack_dir), name + "."@ + EXTENSION@),
{
    lemma_default_namespace_ok();
    lemma_safe_has_no(name, ':');
    lemma_safe_has_no(name, '/');
    let d = default_namespace();
    let q = d + seq![':'] + name;
    assert(qualify_spec(name) == q);
    lemma_split_id(d, name);
    assert(id_namespace(name) == d);
    assert(id_name(name) == name);
    assert(first_colon(q) < q.len()) by {
        assert(first_colon(q) == d.len()) by {
            assert forall|j: int| 0 <= j < d.len() implies #[trigger] q[j] != ':' by {
                assert(q[j] == d[j]);
            }
            assert(q[d.len() as int] == ':');
            lemma_first_colon(q, d.len() as int);
        }
    }
    lemma_split_whole(name);
    lemma_segments_ok(seq![name]);
}

/// What a pack lists, [`path_for`] writes back to the same place: a file
/// found under `structures/<ns>/<dir>.../<stem>.mcstructure` has an id that
/// is accepted and that names that folder and that file. The one folder this
/// does not hold for is one named `mystructure`, whose files are the flat
/// default namespace's.
pub proof fn lemma_listed_id_round_trips(pack_dir: Seq<char>, dirs: Seq<Seq<char>>, stem: Seq<char>)
    requires
        dirs.len() >= 1,
        dirs[0] != default_namespace(),
        forall|i: int| 0 <= i < dirs.len() ==> segment_problem(#[trigger] dirs[i]) is None,
        segment_problem(stem) is None,
    ensures
        id_problem(found_id(dirs, stem)) is None,
        id_namespace(found_id(dirs, stem)) == dirs[0],
        id_name(found_id(dirs, stem)) == join_slash(dirs.drop_first().push(stem)),
        structure_path(pack_dir, found_id(dirs, stem)) == join_spec(
            join_spec(dir_spec(pack_dir), dirs[0]),
            join_slash(dirs.drop_first().push(stem)) + "."@ + EXTENSION@,
        ),
{
    let ns = dirs[0];
    let parts = dirs.drop_first().push(stem);
    assert forall|i: int| 0 <= i < parts.len() implies segment_problem(#[trigger] parts[i]) is None by {
        if i < parts.len() - 1 {
            assert(parts[i] == dirs[i + 1]);
        }
    }
    assert forall|i: int| 0 <= i < parts.len() implies !(#[trigger] parts[i]).contains(':') && !parts[i].contains('/') by {
        lemma_safe_has_no(parts[i], ':');
        lemma_safe_has_no(parts[i], '/');
    }
    let name = join_slash(parts);
    lemma_safe_has_no(ns, ':');
    lemma_join_has_no(parts, ':');
    lemma_split_id(ns, name);
    let id = ns + seq![':'] + name;
    assert(found_id(dirs, stem) == id);
    assert(first_colon(id) < id.len()) by {
        assert forall|j: int| 0 <= j < ns.len() implies #[trigger] id[j] != ':' by {
            assert(id[j] == ns[j]);
        }
        assert(id[ns.len() as int] == ':');
        lemma_first_colon(id, ns.len() as int);
    }
    lemma_join_split(parts);
    lemma_segments_ok(parts);
}

} // verus!
