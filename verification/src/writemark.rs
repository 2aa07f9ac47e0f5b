//! A record of the last write this library made to a world's database.
//!
//! The in-use check cannot tell the game's write from ours, so our own write
//! made the next run look like a running game and pay a full watch.
//! Recording the newest modification time after a write answers that case
//! at once: a later newest time equal to the mark is ours, since any write by
//! the game since would be strictly newer.
//!
//! Every failure falls the safe way: a missing mark, a first run, a moved
//! clock all fail to match, which only sends the caller to the watch it
//! would have done anyway. Times are nanoseconds since the Unix epoch;
//! reading and writing the mark file is the caller's.
use crate::backup::{sanitize, sanitize_spec};
use crate::config::data_dir;
use crate::discovery::World;
use crate::discovery::worlds::qualified_spec;
use crate::text::{chars_eq, chars_of, decimal, digits, digits_value, is_digit, is_white, join_path, join_spec, lemma_digits_value, trim_chars, trim_spec, trim_start_spec, wide_text, white_space};
use vstd::prelude::*;

verus! {

/// Where marks live: `writemarks/` under the data directory. Not the
/// backups directory: a mark is disposable bookkeeping, and a user
/// redirecting backups to external storage must not silently move it too.
pub fn root<F: Fn(&str) -> Option<String>>(env: &F) -> (r: Option<String>)
    requires
        env.requires(("CONSTRUCT_DATA_DIR",)),
    ensures
        exists|v: Option<String>|
            env.ensures(("CONSTRUCT_DATA_DIR",), v) && (v matches Some(p) ==> (r matches Some(q)
                && q@ == join_spec(p@, "writemarks"@))),
{
    match data_dir(env) {
        Some(d) => Some(join_path(d.as_str(), "writemarks")),
        None => None,
    }
}

/// The mark file for a world: its qualified reference, made one safe name.
pub fn mark_path(dir: &str, world: &World) -> (r: String)
    ensures
        r@ == join_spec(dir@, sanitize_spec(qualified_spec(world@))),
{
    let q = world.qualified();
    let name = sanitize(q.as_str());
    join_path(dir, name.as_str())
}

/// `s` preceded by zeros up to nine characters.
pub open spec fn pad9(s: Seq<char>) -> Seq<char> {
    if s.len() >= 9 {
        s
    } else {
        Seq::new((9 - s.len()) as nat, |i: int| '0') + s
    }
}

/// A time as a mark holds it: whole seconds, `.`, then the nanoseconds in
/// nine digits.
pub open spec fn stamp_spec(t: u128) -> Seq<char> {
    decimal((t / 1000000000) as int) + seq!['.'] + pad9(decimal((t % 1000000000) as int))
}

/// A time as a mark holds it.
pub fn stamp_text(t: u128) -> (r: String)
    ensures
        r@ == stamp_spec(t),
{
    let secs = wide_text(t / 1000000000);
    let nanos = wide_text(t % 1000000000);
    let n = nanos.unicode_len();
    let mut r = secs;
    r.append(".");
    let mut k: usize = n;
    let mut pad = String::new();
    while k < 9
        invariant
            n <= k <= 9 || (n > 9 && k == n),
            pad@ == Seq::new((k - n) as nat, |i: int| '0'),
        decreases 9 - k,
    {
        let ghost before = pad@;
        crate::text::push_char(&mut pad, '0');
        assert(pad@ =~= Seq::new((k + 1 - n) as nat, |i: int| '0'));
        k += 1;
    }
    pad.append(nanos.as_str());
    assert(pad@ =~= pad9(decimal((t % 1000000000) as int)));
    r.append(pad.as_str());
    proof {
        reveal_strlit(".");
    }
    assert(r@ =~= stamp_spec(t));
    r
}

/// The write recorded for a world, when there is one: the mark file's path
/// and what it holds. `newest` is the latest modification time in its `db/`,
/// read after the database handle is dropped so the times are final.
pub fn record(dir: &str, world: &World, newest: Option<u128>) -> (r: Option<(String, String)>)
    ensures
        r is Some <==> newest is Some,
        r matches Some((p, text)) ==> (p@ == join_spec(dir@, sanitize_spec(qualified_spec(world@)))
            && text@ == stamp_spec(newest->0)),
{
    match newest {
        Some(t) => Some((mark_path(dir, world), stamp_text(t))),
        None => None,
    }
}

proof fn lemma_trim_keeps(s: Seq<char>)
    requires
        s.len() > 0,
        !white_space(s[0]),
        !white_space(s.last()),
    ensures
        trim_spec(s) == s,
{
    assert(trim_start_spec(s) == s);
}

/// Whether the newest write to a world's `db/` is the one its mark
/// recorded. `recorded` is what the mark file holds, `None` when it could
/// not be read; surrounding white space is ignored. `true` means the
/// activity that made the world look in use was this library's own.
pub fn left_by_us(newest: Option<u128>, recorded: Option<String>) -> (r: bool)
    ensures
        r == (newest is Some && recorded is Some && trim_spec(recorded->0@) == stamp_spec(
            newest->0,
        )),
        (newest matches Some(t) && recorded matches Some(s) && s@ == stamp_spec(t)) ==> r,
{
    let t = match newest {
        Some(t) => t,
        None => return false,
    };
    let s = match recorded {
        Some(s) => s,
        None => return false,
    };
    let want = stamp_text(t);
    let w = chars_of(want.as_str());
    proof {
        let secs = ((t / 1000000000) as int) as nat;
        lemma_digits_value(secs);
        assert(decimal(secs as int) == digits(secs));
        assert(w@[0] == digits(secs)[0]);
        let nv = ((t % 1000000000) as int) as nat;
        lemma_digits_value(nv);
        assert(decimal(nv as int) == digits(nv));
        assert(w@.last() == pad9(digits(nv)).last());
        assert(pad9(digits(nv)).last() == digits(nv).last());
        assert(digits(nv).last() == digits(nv)[digits(nv).len() - 1]);
    }
    // A stamp starts and ends with a digit; asking tells the proof that
    // neither end is white space, so trimming leaves a stamp as it is.
    let first_white = is_white(w[0]);
    let last_white = is_white(w[w.len() - 1]);
    proof {
        lemma_trim_keeps(w@);
    }
    let got = trim_chars(s.as_str());
    chars_eq(&got, &w)
}

proof fn lemma_zeros_value(z: Seq<char>)
    requires
        forall|i: int| 0 <= i < z.len() ==> #[trigger] z[i] == '0',
    ensures
        digits_value(z) == 0,
    decreases z.len(),
{
    if z.len() > 0 {
        assert forall|i: int| 0 <= i < z.drop_last().len() implies #[trigger] z.drop_last()[i] == '0' by {
            assert(z.drop_last()[i] == z[i]);
        }
        lemma_zeros_value(z.drop_last());
        assert(z.last() == z[z.len() - 1]);
    }
}

proof fn lemma_leading_zeros(z: Seq<char>, d: Seq<char>)
    requires
        forall|i: int| 0 <= i < z.len() ==> #[trigger] z[i] == '0',
    ensures
        digits_value(z + d) == digits_value(d),
    decreases d.len(),
{
    if d.len() == 0 {
        assert(z + d =~= z);
        lemma_zeros_value(z);
    } else {
        lemma_leading_zeros(z, d.drop_last());
        assert((z + d).drop_last() =~= z + d.drop_last());
        assert((z + d).last() == d.last());
    }
}

proof fn lemma_pad_value(n: nat)
    ensures
        digits_value(pad9(digits(n))) == n,
        !pad9(digits(n)).contains('.'),
{
    lemma_digits_value(n);
    let d = digits(n);
    if d.len() < 9 {
        let z = Seq::new((9 - d.len()) as nat, |i: int| '0');
        lemma_leading_zeros(z, d);
        if pad9(d).contains('.') {
            let i = choose|i: int| 0 <= i < pad9(d).len() && pad9(d)[i] == '.';
            if i >= z.len() {
                assert(pad9(d)[i] == d[i - z.len()]);
                assert(is_digit(d[i - z.len()]));
            }
        }
    } else if d.contains('.') {
        let i = choose|i: int| 0 <= i < d.len() && d[i] == '.';
        assert(is_digit(d[i]));
    }
}

/// Two different times never share a mark: a write made after the one
/// recorded, however soon, reads as someone else's.
pub proof fn lemma_stamp_injective(a: u128, b: u128)
    requires
        stamp_spec(a) == stamp_spec(b),
    ensures
        a == b,
{
    let sa = ((a / 1000000000) as int) as nat;
    let sb = ((b / 1000000000) as int) as nat;
    let na = ((a % 1000000000) as int) as nat;
    let nb = ((b % 1000000000) as int) as nat;
    lemma_digits_value(sa);
    lemma_digits_value(sb);
    lemma_pad_value(na);
    lemma_pad_value(nb);
    let da = digits(sa);
    let db = digits(sb);
    let s = stamp_spec(a);
    assert(decimal(sa as int) == da && decimal(sb as int) == db);
    assert(decimal(na as int) == digits(na) && decimal(nb as int) == digits(nb));
    assert(s == da + seq!['.'] + pad9(digits(na)));
    assert(s == db + seq!['.'] + pad9(digits(nb)));
    assert forall|i: int| 0 <= i < da.len() implies #[trigger] s[i] != '.' by {
        assert(s[i] == da[i]);
        assert(is_digit(da[i]));
    }
    assert forall|i: int| 0 <= i < db.len() implies #[trigger] s[i] != '.' by {
        assert(s[i] == db[i]);
        assert(is_digit(db[i]));
    }
    assert(s[da.len() as int] == '.');
    assert(s[db.len() as int] == '.');
    assert(da.len() == db.len()) by {
        if da.len() < db.len() {
            assert(s[da.len() as int] != '.');
        }
        if db.len() < da.len() {
            assert(s[db.len() as int] != '.');
        }
    }
    assert(da =~= s.subrange(0, da.len() as int));
    assert(db =~= s.subrange(0, db.len() as int));
    assert(pad9(digits(na)) =~= s.subrange(da.len() as int + 1, s.len() as int));
    assert(pad9(digits(nb)) =~= s.subrange(db.len() as int + 1, s.len() as int));
    assert(sa == sb && na == nb);
    assert(a == sa * 1000000000 + na) by (nonlinear_arith)
        requires
            sa == a / 1000000000,
            na == a % 1000000000,
    ;
    assert(b == sb * 1000000000 + nb) by (nonlinear_arith)
        requires
            sb == b / 1000000000,
            nb == b % 1000000000,
    ;
}

} // verus!
