//! Per-block extra data, kept as a list sorted by flattened block index, one
//! entry per index.
use super::nbt::{Nbt, NbtV};
use vstd::prelude::*;

verus! {

/// The model of a block-data list.
pub open spec fn data_view(v: Seq<(usize, Nbt)>) -> Seq<(usize, NbtV)> {
    Seq::new(v.len(), |i: int| (v[i].0, v[i].1.deep()))
}

/// Keys strictly increase, so each index appears once.
pub open spec fn sorted_keys(s: Seq<(usize, NbtV)>) -> bool {
    forall|i: int, j: int| 0 <= i < j < s.len() ==> s[i].0 < s[j].0
}

/// Whether `s` holds `(k, v)`.
pub open spec fn holds(s: Seq<(usize, NbtV)>, k: usize, v: NbtV) -> bool {
    exists|i: int| 0 <= i < s.len() && s[i] == (k, v)
}

/// Stores `(k, val)`, replacing any entry already at `k` and keeping the
/// keys sorted.
pub fn put(v: &mut Vec<(usize, Nbt)>, k: usize, val: Nbt)
    requires
        sorted_keys(data_view(old(v)@)),
    ensures
        sorted_keys(data_view(final(v)@)),
        holds(data_view(final(v)@), k, val.deep()),
        forall|i: int|
            0 <= i < data_view(final(v)@).len() ==> (#[trigger] data_view(final(v)@)[i] == (k, val.deep())
                || (data_view(final(v)@)[i].0 != k && holds(data_view(old(v)@), data_view(final(v)@)[i].0, data_view(final(v)@)[i].1))),
        forall|i: int|
            0 <= i < data_view(old(v)@).len() && #[trigger] data_view(old(v)@)[i].0 != k ==> holds(
                data_view(final(v)@),
                data_view(old(v)@)[i].0,
                data_view(old(v)@)[i].1,
            ),
{
    let ghost old_s = data_view(v@);
    let ghost dv = val.deep();
    let mut p: usize = 0;
    while p < v.len() && v[p].0 < k
        invariant
            p <= v@.len(),
            old_s == data_view(v@),
            sorted_keys(old_s),
            forall|j: int| 0 <= j < p ==> old_s[j].0 < k,
        decreases v@.len() - p,
    {
        p += 1;
    }
    if p < v.len() && v[p].0 == k {
        v.set(p, (k, val));
        let ghost new_s = data_view(v@);
        assert(new_s =~= old_s.update(p as int, (k, dv)));
        assert(new_s[p as int] == (k, dv));
        assert forall|i: int|
            0 <= i < new_s.len() && i != p implies new_s[i] == old_s[i] && old_s[i].0 != k by {
            if i < p {
            } else {
                assert(old_s[p as int].0 < old_s[i].0);
            }
        }
        assert forall|i: int|
            0 <= i < new_s.len() implies #[trigger] new_s[i] == (k, dv) || (new_s[i].0 != k && holds(
                old_s,
                new_s[i].0,
                new_s[i].1,
            )) by {
            if i != p {
                assert(old_s[i] == new_s[i]);
            }
        }
        assert forall|i: int| 0 <= i < old_s.len() && #[trigger] old_s[i].0 != k implies holds(
            new_s,
            old_s[i].0,
            old_s[i].1,
        ) by {
            assert(i != p);
            assert(new_s[i] == old_s[i]);
        }
    } else {
        v.insert(p, (k, val));
        let ghost new_s = data_view(v@);
        assert(new_s =~= old_s.insert(p as int, (k, dv)));
        assert(new_s[p as int] == (k, dv));
        assert forall|i: int|
            0 <= i < new_s.len() implies #[trigger] new_s[i] == (k, dv) || (new_s[i].0 != k && holds(
                old_s,
                new_s[i].0,
                new_s[i].1,
            )) by {
            if i < p {
                assert(new_s[i] == old_s[i]);
            } else if i > p {
                assert(new_s[i] == old_s[i - 1]);
                assert(old_s[i - 1].0 != k) by {
                    if p < old_s.len() {
                        assert(old_s[p as int].0 > k);
                        if i - 1 > p {
                            assert(old_s[p as int].0 < old_s[i - 1].0);
                        }
                    }
                }
            }
        }
        assert forall|i: int| 0 <= i < old_s.len() && #[trigger] old_s[i].0 != k implies holds(
            new_s,
            old_s[i].0,
            old_s[i].1,
        ) by {
            if i < p {
                assert(new_s[i] == old_s[i]);
            } else {
                assert(new_s[i + 1] == old_s[i]);
            }
        }
        assert forall|i: int, j: int| 0 <= i < j < new_s.len() implies new_s[i].0 < new_s[j].0 by {
            if p < old_s.len() {
                assert(old_s[p as int].0 > k);
            }
            if j < p {
            } else if j == p {
                assert(old_s[i].0 < k);
            } else if i < p {
                assert(old_s[i].0 < k);
                if j - 1 > p {
                    assert(old_s[p as int].0 < old_s[j - 1].0);
                }
            } else if i == p {
                if j - 1 > p {
                    assert(old_s[p as int].0 < old_s[j - 1].0);
                }
            } else {
                assert(old_s[i - 1].0 < old_s[j - 1].0);
            }
        }
    }
}

} // verus!
