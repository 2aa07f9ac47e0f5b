//! Which files a snapshot of a world's database may share with the world.
//!
//! A snapshot hard-links what leveldb never rewrites and copies the rest;
//! the linking and copying are the caller's, the choice is made here.
use crate::text::chars_of;
use vstd::prelude::*;

verus! {

/// `c` with an ASCII capital turned into its small letter.
pub open spec fn ascii_lower(c: char) -> char {
    if 'A' <= c <= 'Z' {
        ((c as u32) + 32) as char
    } else {
        c
    }
}

/// Whether `name` ends with `suffix`, ignoring ASCII case on the name's side.
pub open spec fn ends_with_ci(name: Seq<char>, suffix: Seq<char>) -> bool {
    name.len() >= suffix.len() && forall|i: int|
        0 <= i < suffix.len() ==> ascii_lower(#[trigger] name[name.len() - suffix.len() + i]) == suffix[i]
}

/// Whether a file in `db/` is a table leveldb writes once and never
/// changes: a `.ldb` or `.sst`, in any case.
pub open spec fn immutable_table(name: Seq<char>) -> bool {
    ends_with_ci(name, ".ldb"@) || ends_with_ci(name, ".sst"@)
}

/// Whether `c` is `lower`, or its capital.
fn is_letter(c: char, lower: char, upper: char) -> (r: bool)
    requires
        'a' <= lower <= 'z',
        upper as u32 + 32 == lower as u32,
    ensures
        r == (ascii_lower(c) == lower),
{
    c == lower || c == upper
}

/// Whether a snapshot may hard-link this file rather than copy it.
pub fn is_immutable_table(name: &str) -> (r: bool)
    ensures
        r == immutable_table(name@),
{
    let v = chars_of(name);
    let n = v.len();
    proof {
        reveal_strlit(".ldb");
        reveal_strlit(".sst");
    }
    if n < 4 {
        return false;
    }
    let dot = v[n - 4] == '.';
    let ldb = dot && is_letter(v[n - 3], 'l', 'L') && is_letter(v[n - 2], 'd', 'D') && is_letter(v[n - 1], 'b', 'B');
    let sst = dot && is_letter(v[n - 3], 's', 'S') && is_letter(v[n - 2], 's', 'S') && is_letter(v[n - 1], 't', 'T');
    assert(ldb == ends_with_ci(name@, ".ldb"@)) by {
        if ends_with_ci(name@, ".ldb"@) {
            assert(ascii_lower(name@[n - 4 + 0]) == ".ldb"@[0]);
            assert(ascii_lower(name@[n - 4 + 1]) == ".ldb"@[1]);
            assert(ascii_lower(name@[n - 4 + 2]) == ".ldb"@[2]);
            assert(ascii_lower(name@[n - 4 + 3]) == ".ldb"@[3]);
        }
    }
    assert(sst == ends_with_ci(name@, ".sst"@)) by {
        if ends_with_ci(name@, ".sst"@) {
            assert(ascii_lower(name@[n - 4 + 0]) == ".sst"@[0]);
            assert(ascii_lower(name@[n - 4 + 1]) == ".sst"@[1]);
            assert(ascii_lower(name@[n - 4 + 2]) == ".sst"@[2]);
            assert(ascii_lower(name@[n - 4 + 3]) == ".sst"@[3]);
        }
    }
    ldb || sst
}

} // verus!
