//! Copies taken before anything is modified.
//!
//! Backups live outside the world folder (one inside would confuse Minecraft
//! and ride along into any world export) and are keyed on the qualified
//! reference, since folder names are not unique across roots. A backup of a
//! file `name` is `name.<stamp>`, or `name.<stamp>-<n>` for the `n`-th more
//! taken in the same second. Copying and listing files is the caller's; the
//! names and which backups to drop are decided here.
use crate::config::{data_dir, Backups};
use crate::error::CoreError;
use crate::text::{chars_of, decimal, digits, join_path, join_spec, last_index, last_index_of, lemma_digits_value, nat_text, parse_u64, parse_u64_spec, starts_with, string_from, sub_chars, strings_view, unsigned_part};
use vstd::prelude::*;

verus! {

broadcast use vstd::std_specs::vec::group_vec_axioms;

/// The directory backups go in: `[backups] dir`, else `backups/` under the
/// data directory, which `CONSTRUCT_DATA_DIR` in `env` stands in for.
pub fn root_from<F: Fn(&str) -> Option<String>>(backups: &Backups, env: &F) -> (r: Result<
    String,
    CoreError,
>)
    requires
        env.requires(("CONSTRUCT_DATA_DIR",)),
    ensures
        backups.dir matches Some(d) ==> r == Ok::<String, CoreError>(d),
        backups.dir is None ==> exists|v: Option<String>|
            env.ensures(("CONSTRUCT_DATA_DIR",), v) && (v matches Some(p) ==> (r matches Ok(q)
                && q@ == join_spec(p@, "backups"@))),
        r matches Err(e) ==> e == CoreError::NoBackupDir,
{
    if let Some(dir) = &backups.dir {
        return Ok(dir.clone());
    }
    match data_dir(env) {
        Some(d) => Ok(join_path(d.as_str(), "backups")),
        None => Err(CoreError::NoBackupDir),
    }
}

/// A character kept as it is in a backup directory name.
pub open spec fn kept_char(c: char) -> bool {
    ('a' <= c <= 'z') || ('A' <= c <= 'Z') || ('0' <= c <= '9') || c == '-'
}

/// `reference` with every character but ASCII letters, digits and `-` turned into `_`.
pub open spec fn sanitize_spec(reference: Seq<char>) -> Seq<char> {
    Seq::new(reference.len(), |i: int| if kept_char(reference[i]) { reference[i] } else { '_' })
}

/// One directory name per world, from its qualified reference.
pub fn sanitize(reference: &str) -> (r: String)
    ensures
        r@ == sanitize_spec(reference@),
{
    let v = chars_of(reference);
    let mut out: Vec<char> = Vec::new();
    let mut i: usize = 0;
    while i < v.len()
        invariant
            i <= v@.len(),
            v@ == reference@,
            out@ == sanitize_spec(reference@).subrange(0, i as int),
        decreases v@.len() - i,
    {
        let c = v[i];
        let k = ('a' <= c && c <= 'z') || ('A' <= c && c <= 'Z') || ('0' <= c && c <= '9') || c == '-';
        out.push(if k { c } else { '_' });
        i += 1;
        assert(out@ =~= sanitize_spec(reference@).subrange(0, i as int));
    }
    assert(sanitize_spec(reference@).subrange(0, i as int) =~= sanitize_spec(reference@));
    string_from(&out)
}

/// The stamp and number a backup's suffix carries: `<stamp>` is number 0,
/// `<stamp>-<n>` is number `n`, each part a `u64` as `from_str` reads it.
pub open spec fn suffix_spec(suffix: Seq<char>) -> Option<(u64, u64)> {
    let k = last_index(suffix, '-');
    if k >= 0 {
        let stamp = parse_u64_spec(suffix.subrange(0, k));
        let n = parse_u64_spec(suffix.subrange(k + 1, suffix.len() as int));
        if stamp is Some && n is Some {
            Some((stamp->0 as u64, n->0 as u64))
        } else {
            None
        }
    } else {
        match parse_u64_spec(suffix) {
            Some(stamp) => Some((stamp as u64, 0u64)),
            None => None,
        }
    }
}

/// The stamp and number of a backup, from what follows `<name>.`.
pub fn parse_suffix(suffix: &str) -> (r: Option<(u64, u64)>)
    ensures
        r == suffix_spec(suffix@),
{
    let v = chars_of(suffix);
    match last_index_of(&v, '-') {
        Some(k) => {
            let a = string_from(&sub_chars(&v, 0, k));
            let b = string_from(&sub_chars(&v, k + 1, v.len()));
            match (parse_u64(a.as_str()), parse_u64(b.as_str())) {
                (Some(stamp), Some(n)) => Some((stamp, n)),
                _ => None,
            }
        },
        None => match parse_u64(suffix) {
            Some(stamp) => Some((stamp, 0)),
            None => None,
        },
    }
}

/// What follows `<name>.` in a file name, when it starts so.
pub open spec fn after_prefix(file: Seq<char>, name: Seq<char>) -> Option<Seq<char>> {
    let p = name + seq!['.'];
    if file.len() >= p.len() && file.subrange(0, p.len() as int) == p {
        Some(file.subrange(p.len() as int, file.len() as int))
    } else {
        None
    }
}

/// The stamp and number of a file that is a backup of `name`.
pub open spec fn backup_of(file: Seq<char>, name: Seq<char>) -> Option<(u64, u64)> {
    match after_prefix(file, name) {
        Some(s) => suffix_spec(s),
        None => None,
    }
}

/// The stamp and number of a file that is a backup of `name`, if it is one.
pub fn backup_number(file: &str, name: &str) -> (r: Option<(u64, u64)>)
    ensures
        r == backup_of(file@, name@),
{
    let f = chars_of(file);
    let mut p = chars_of(name);
    p.push('.');
    assert(p@ =~= name@ + seq!['.']);
    if !starts_with(&f, &p) {
        return None;
    }
    let rest = string_from(&sub_chars(&f, p.len(), f.len()));
    parse_suffix(rest.as_str())
}

/// A world's reference becomes one directory name: the same length, only
/// ASCII letters, digits, `-` and `_`, so never a `/`, a backslash or a `..` that
/// would put backups anywhere but in their own directory.
pub proof fn lemma_sanitized_is_one_name(reference: Seq<char>)
    ensures
        sanitize_spec(reference).len() == reference.len(),
        forall|i: int|
            0 <= i < reference.len() ==> kept_char(#[trigger] sanitize_spec(reference)[i])
                || sanitize_spec(reference)[i] == '_',
        !sanitize_spec(reference).contains('/'),
        !sanitize_spec(reference).contains('\\'),
        !sanitize_spec(reference).contains('.'),
{
    let s = sanitize_spec(reference);
    assert forall|c: char| (c == '/' || c == '\\' || c == '.') implies !s.contains(c) by {
        if s.contains(c) {
            let i = choose|i: int| 0 <= i < s.len() && s[i] == c;
            assert(kept_char(s[i]) || s[i] == '_');
        }
    }
}

/// The name of a backup of `name`: `<name>.<stamp>`, or `<name>.<stamp>-<n>`.
pub open spec fn backup_name_spec(name: Seq<char>, stamp: u64, n: u64) -> Seq<char> {
    if n == 0 {
        name + seq!['.'] + decimal(stamp as int)
    } else {
        name + seq!['.'] + decimal(stamp as int) + seq!['-'] + decimal(n as int)
    }
}

/// The name of the `n`-th backup of `name` taken at `stamp`.
pub fn backup_name(name: &str, stamp: u64, n: u64) -> (r: String)
    ensures
        r@ == backup_name_spec(name@, stamp, n),
{
    let mut r = String::from_str(name);
    r.append(".");
    r.append(nat_text(stamp).as_str());
    if n != 0 {
        r.append("-");
        r.append(nat_text(n).as_str());
    }
    proof {
        reveal_strlit(".");
        reveal_strlit("-");
    }
    assert(r@ =~= backup_name_spec(name@, stamp, n));
    r
}

/// One more than the highest number among backups of `name` taken at
/// `stamp`, or 0 when there are none: the number the next one takes.
pub open spec fn next_number_spec(files: Seq<Seq<char>>, name: Seq<char>, stamp: u64) -> nat
    decreases files.len(),
{
    if files.len() == 0 {
        0
    } else {
        let rest = next_number_spec(files.drop_last(), name, stamp);
        match backup_of(files.last(), name) {
            Some((s, n)) => if s == stamp && n + 1 > rest {
                (n + 1) as nat
            } else {
                rest
            },
            None => rest,
        }
    }
}

/// A backup of `name` taken at `stamp` whose number has room for one more.
pub open spec fn numbered_below_max(file: Seq<char>, name: Seq<char>, stamp: u64) -> bool {
    match backup_of(file, name) {
        Some((s, n)) => s == stamp ==> n < u64::MAX,
        None => true,
    }
}

/// The number the next backup of `name` taken at `stamp` gets, given the
/// files already in its directory.
pub fn next_number(files: &Vec<String>, name: &str, stamp: u64) -> (r: u64)
    requires
        forall|i: int| 0 <= i < files@.len() ==> numbered_below_max(#[trigger] files@[i]@, name@, stamp),
    ensures
        r == next_number_spec(strings_view(files@), name@, stamp),
{
    let ghost fv = strings_view(files@);
    let mut next: u64 = 0;
    let mut i: usize = 0;
    while i < files.len()
        invariant
            i <= files@.len(),
            fv == strings_view(files@),
            forall|j: int| 0 <= j < files@.len() ==> numbered_below_max(#[trigger] files@[j]@, name@, stamp),
            next == next_number_spec(fv.subrange(0, i as int), name@, stamp),
        decreases files@.len() - i,
    {
        let ghost cur = fv.subrange(0, i + 1);
        assert(cur.drop_last() =~= fv.subrange(0, i as int));
        assert(cur.last() == files@[i as int]@);
        match backup_number(files[i].as_str(), name) {
            Some((s, n)) => {
                if s == stamp && n + 1 > next {
                    next = n + 1;
                }
            },
            None => {},
        }
        i += 1;
    }
    assert(fv.subrange(0, fv.len() as int) =~= fv);
    next
}

// ---------------------------------------------------------------------------
// Retention
// ---------------------------------------------------------------------------

/// A backup found in a directory: its stamp, its number and its file name.
pub type Found = (u64, u64, Seq<char>);

/// Backup `a` is newer than `b`: a later stamp, or the same stamp and a
/// higher number.
pub open spec fn newer(a: Found, b: Found) -> bool {
    a.0 > b.0 || (a.0 == b.0 && a.1 > b.1)
}

/// The backups of `name` among `files`, in the order given.
pub open spec fn found_backups(files: Seq<Seq<char>>, name: Seq<char>) -> Seq<Found>
    decreases files.len(),
{
    if files.len() == 0 {
        Seq::empty()
    } else {
        let rest = found_backups(files.drop_last(), name);
        match backup_of(files.last(), name) {
            Some((s, n)) => rest.push((s, n, files.last())),
            None => rest,
        }
    }
}

/// Where `x` goes among backups ordered newest first: after every one at
/// least as new, so equal ones keep the order given.
pub open spec fn age_pos(s: Seq<Found>, x: Found) -> int
    decreases s.len(),
{
    if s.len() == 0 {
        0
    } else if newer(x, s[0]) {
        0
    } else {
        1 + age_pos(s.drop_first(), x)
    }
}

/// Backups ordered newest first, equal ones in the order given.
pub open spec fn newest_first(s: Seq<Found>) -> Seq<Found>
    decreases s.len(),
{
    if s.len() == 0 {
        Seq::empty()
    } else {
        let t = newest_first(s.drop_last());
        t.insert(age_pos(t, s.last()), s.last())
    }
}

/// The files pruned from a directory keeping `keep` backups of `name`: all
/// but the `keep` newest, once there are more than `keep`.
pub open spec fn pruned_spec(files: Seq<Seq<char>>, name: Seq<char>, keep: nat) -> Seq<Seq<char>> {
    let found = found_backups(files, name);
    if found.len() <= keep {
        Seq::empty()
    } else {
        let t = newest_first(found);
        Seq::new((t.len() - keep) as nat, |i: int| t[i + keep].2)
    }
}

proof fn lemma_age_pos(s: Seq<Found>, x: Found)
    ensures
        0 <= age_pos(s, x) <= s.len(),
        forall|i: int| 0 <= i < age_pos(s, x) ==> !newer(x, #[trigger] s[i]),
        age_pos(s, x) < s.len() ==> newer(x, s[age_pos(s, x)]),
    decreases s.len(),
{
    if s.len() > 0 && !newer(x, s[0]) {
        lemma_age_pos(s.drop_first(), x);
        assert forall|i: int| 0 <= i < age_pos(s, x) implies !newer(x, #[trigger] s[i]) by {
            if i > 0 {
                assert(s[i] == s.drop_first()[i - 1]);
            }
        }
    }
}

/// No backup in `s` is newer than one before it.
pub open spec fn newest_first_ordered(s: Seq<Found>) -> bool {
    forall|i: int, j: int| 0 <= i < j < s.len() ==> !newer(#[trigger] s[j], #[trigger] s[i])
}

proof fn lemma_newest_first(s: Seq<Found>)
    ensures
        newest_first_ordered(newest_first(s)),
        newest_first(s).len() == s.len(),
        newest_first(s).to_multiset() == s.to_multiset(),
    decreases s.len(),
{
    broadcast use vstd::seq_lib::to_multiset_build;
    broadcast use vstd::seq_lib::to_multiset_insert;
    if s.len() > 0 {
        let pre = s.drop_last();
        lemma_newest_first(pre);
        let t = newest_first(pre);
        let x = s.last();
        let p = age_pos(t, x);
        lemma_age_pos(t, x);
        let u = t.insert(p, x);
        assert forall|i: int, j: int| 0 <= i < j < u.len() implies !newer(#[trigger] u[j], #[trigger] u[i]) by {
            if j < p {
                assert(u[i] == t[i] && u[j] == t[j]);
            } else if j == p {
                assert(u[i] == t[i]);
            } else if i == p {
                assert(u[j] == t[j - 1]);
                if p < t.len() {
                    if j - 1 > p {
                        assert(!newer(t[j - 1], t[p]));
                    }
                }
            } else if i < p {
                assert(u[i] == t[i] && u[j] == t[j - 1]);
            } else {
                assert(u[i] == t[i - 1] && u[j] == t[j - 1]);
            }
        }
        assert(s =~= pre.push(x));
        assert(u.to_multiset() == t.to_multiset().insert(x));
        assert(pre.push(x).to_multiset() == pre.to_multiset().insert(x));
    } else {
        assert(s =~= Seq::<Found>::empty());
        assert(newest_first(s) =~= Seq::<Found>::empty());
    }
}

/// The backups of `name` to delete so that `keep` remain: all but the `keep`
/// newest, once there are more than `keep`. Other files are never named.
pub fn prune_list(files: &Vec<String>, name: &str, keep: usize) -> (r: Vec<String>)
    ensures
        strings_view(r@) == pruned_spec(strings_view(files@), name@, keep as nat),
{
    let ghost fv = strings_view(files@);
    let mut found: Vec<(u64, u64, String)> = Vec::new();
    let mut i: usize = 0;
    while i < files.len()
        invariant
            i <= files@.len(),
            fv == strings_view(files@),
            found_view(found@) == found_backups(fv.subrange(0, i as int), name@),
        decreases files@.len() - i,
    {
        let ghost cur = fv.subrange(0, i + 1);
        assert(cur.drop_last() =~= fv.subrange(0, i as int));
        assert(cur.last() == files@[i as int]@);
        let ghost before = found_view(found@);
        match backup_number(files[i].as_str(), name) {
            Some((s, n)) => {
                found.push((s, n, files[i].clone()));
                assert(found_view(found@) =~= before.push((s, n, files@[i as int]@)));
            },
            None => {},
        }
        i += 1;
    }
    assert(fv.subrange(0, fv.len() as int) =~= fv);
    let ghost all = found_view(found@);
    // Newest first, equal ones in the order found.
    let mut sorted: Vec<(u64, u64, String)> = Vec::new();
    let mut k: usize = 0;
    while k < found.len()
        invariant
            k <= found@.len(),
            all == found_view(found@),
            found_view(sorted@) == newest_first(all.subrange(0, k as int)),
        decreases found@.len() - k,
    {
        let x = (found[k].0, found[k].1, found[k].2.clone());
        let ghost xv = (x.0, x.1, x.2@);
        assert(xv == all[k as int]);
        let ghost t = found_view(sorted@);
        assert(t.subrange(0, t.len() as int) =~= t);
        let mut j: usize = 0;
        while j < sorted.len() && !(x.0 > sorted[j].0 || (x.0 == sorted[j].0 && x.1 > sorted[j].1))
            invariant
                j <= sorted@.len(),
                t == found_view(sorted@),
                xv == (x.0, x.1, x.2@),
                age_pos(t, xv) == j + age_pos(t.subrange(j as int, t.len() as int), xv),
            decreases sorted@.len() - j,
        {
            let ghost rest = t.subrange(j as int, t.len() as int);
            assert(t[j as int].0 == sorted@[j as int].0 && t[j as int].1 == sorted@[j as int].1);
            assert(rest[0] == t[j as int]);
            assert(rest.drop_first() =~= t.subrange(j + 1, t.len() as int));
            j += 1;
        }
        proof {
            if j < sorted@.len() {
                assert(t[j as int].0 == sorted@[j as int].0 && t[j as int].1 == sorted@[j as int].1);
                assert(t.subrange(j as int, t.len() as int)[0] == t[j as int]);
            } else {
                assert(t.subrange(j as int, t.len() as int) =~= Seq::<Found>::empty());
            }
            lemma_age_pos(t, xv);
        }
        sorted.insert(j, x);
        assert(all.subrange(0, k + 1).drop_last() =~= all.subrange(0, k as int));
        assert(all.subrange(0, k + 1).last() == all[k as int]);
        assert(found_view(sorted@) =~= t.insert(j as int, xv));
        k += 1;
    }
    assert(all.subrange(0, all.len() as int) =~= all);
    let ghost t = found_view(sorted@);
    proof {
        lemma_newest_first(all);
    }
    let mut out: Vec<String> = Vec::new();
    if sorted.len() <= keep {
        assert(strings_view(out@) =~= pruned_spec(fv, name@, keep as nat));
        return out;
    }
    let mut m: usize = keep;
    while m < sorted.len()
        invariant
            keep <= m <= sorted@.len(),
            t == found_view(sorted@),
            strings_view(out@) == Seq::new((m - keep) as nat, |i: int| t[i + keep].2),
        decreases sorted@.len() - m,
    {
        let ghost before = strings_view(out@);
        let f = sorted[m].2.clone();
        assert(f@ == t[m as int].2);
        out.push(f);
        assert(strings_view(out@) =~= before.push(t[m as int].2));
        assert(strings_view(out@) =~= Seq::new((m + 1 - keep) as nat, |i: int| t[i + keep].2));
        m += 1;
    }
    assert(strings_view(out@) =~= pruned_spec(fv, name@, keep as nat));
    out
}

/// The found backups as `(stamp, number, file name)`.
pub open spec fn found_view(v: Seq<(u64, u64, String)>) -> Seq<Found> {
    Seq::new(v.len(), |i: int| (v[i].0, v[i].1, v[i].2@))
}

// ---------------------------------------------------------------------------
// Laws
// ---------------------------------------------------------------------------

proof fn lemma_decimal_parses(v: u64)
    ensures
        parse_u64_spec(decimal(v as int)) == Some(v as nat),
        !decimal(v as int).contains('-'),
        last_index(decimal(v as int), '-') == -1,
{
    let d = decimal(v as int);
    lemma_digits_value(v as nat);
    assert(d == digits(v as nat));
    assert(unsigned_part(d) == d) by {
        assert(crate::text::is_digit(d[0]));
    }
    if d.contains('-') {
        let i = choose|i: int| 0 <= i < d.len() && d[i] == '-';
        assert(crate::text::is_digit(d[i]));
    }
    crate::text::lemma_last_index(d, '-', -1);
}

/// A backup's name reads back as the stamp and number it was made with.
pub proof fn lemma_backup_name_round_trip(name: Seq<char>, stamp: u64, n: u64)
    ensures
        backup_of(backup_name_spec(name, stamp, n), name) == Some((stamp, n)),
{
    let f = backup_name_spec(name, stamp, n);
    let p = name + seq!['.'];
    let a = decimal(stamp as int);
    lemma_decimal_parses(stamp);
    assert(f.subrange(0, p.len() as int) =~= p);
    if n == 0 {
        assert(f.subrange(p.len() as int, f.len() as int) =~= a);
    } else {
        let b = decimal(n as int);
        lemma_decimal_parses(n);
        let rest = f.subrange(p.len() as int, f.len() as int);
        assert(rest =~= a + seq!['-'] + b);
        assert forall|j: int| a.len() < j < rest.len() implies #[trigger] rest[j] != '-' by {
            assert(rest[j] == b[j - a.len() - 1]);
            assert(b.contains(b[j - a.len() - 1]));
        }
        crate::text::lemma_last_index(rest, '-', a.len() as int);
        assert(rest.subrange(0, a.len() as int) =~= a);
        assert(rest.subrange(a.len() as int + 1, rest.len() as int) =~= b);
    }
}

proof fn lemma_next_above(files: Seq<Seq<char>>, name: Seq<char>, stamp: u64, i: int, m: u64)
    requires
        0 <= i < files.len(),
        backup_of(files[i], name) == Some((stamp, m)),
    ensures
        m < next_number_spec(files, name, stamp),
    decreases files.len(),
{
    if i < files.len() - 1 {
        assert(files.drop_last()[i] == files[i]);
        lemma_next_above(files.drop_last(), name, stamp, i, m);
    }
}

/// Two backups in the same second do not collide: the name the next one
/// gets is none of the files already there.
pub proof fn lemma_next_name_is_free(files: Seq<Seq<char>>, name: Seq<char>, stamp: u64)
    requires
        next_number_spec(files, name, stamp) <= u64::MAX,
    ensures
        !files.contains(
            backup_name_spec(name, stamp, next_number_spec(files, name, stamp) as u64),
        ),
{
    let n = next_number_spec(files, name, stamp) as u64;
    let f = backup_name_spec(name, stamp, n);
    lemma_backup_name_round_trip(name, stamp, n);
    if files.contains(f) {
        let i = choose|i: int| 0 <= i < files.len() && files[i] == f;
        lemma_next_above(files, name, stamp, i, n);
    }
}

/// Pruning keeps the newest: once there are more than `keep` backups of a
/// file, exactly `keep` stay, none of them older than any one deleted.
pub proof fn lemma_prune_keeps_newest(files: Seq<Seq<char>>, name: Seq<char>, keep: nat)
    requires
        found_backups(files, name).len() > keep,
    ensures
        pruned_spec(files, name, keep).len() == found_backups(files, name).len() - keep,
        forall|i: int, j: int|
            0 <= i < keep <= j < found_backups(files, name).len() ==> !newer(
                #[trigger] newest_first(found_backups(files, name))[j],
                #[trigger] newest_first(found_backups(files, name))[i],
            ),
        newest_first(found_backups(files, name)).to_multiset() == found_backups(
            files,
            name,
        ).to_multiset(),
{
    lemma_newest_first(found_backups(files, name));
}

} // verus!
