//! Tables from symbols to symbol sets (FIRST and FOLLOW), kept as vectors of
//! entries ordered by key.
use vstd::prelude::*;

use crate::pos::copy_syms;
use crate::symset::{set_extend, set_insert, sorted_set};

verus! {

/// A table: entries `(key, set)` with strictly increasing keys.
pub type Table = Vec<(usize, Vec<usize>)>;

/// Keys strictly increase and every set is in canonical order.
pub open spec fn table_wf(t: Seq<(usize, Vec<usize>)>) -> bool {
    &&& forall|i: int, j: int| 0 <= i < j < t.len() ==> t[i].0 < t[j].0
    &&& forall|i: int| 0 <= i < t.len() ==> sorted_set(#[trigger] t[i].1@)
}

/// Whether `t` has an entry for `x`.
pub open spec fn has_key(t: Seq<(usize, Vec<usize>)>, x: usize) -> bool {
    exists|i: int| 0 <= i < t.len() && #[trigger] t[i].0 == x
}

/// The index of the entry for `x`.
pub open spec fn key_index(t: Seq<(usize, Vec<usize>)>, x: usize) -> int {
    choose|i: int| 0 <= i < t.len() && #[trigger] t[i].0 == x
}

/// The table as a map from keys to sets.
pub open spec fn tview(t: Seq<(usize, Vec<usize>)>) -> Map<usize, Set<usize>> {
    Map::new(|x: usize| has_key(t, x), |x: usize| t[key_index(t, x)].1@.to_set())
}

/// The set under `x`, or the empty set if `x` has no entry.
pub open spec fn entry_of(m: Map<usize, Set<usize>>, x: usize) -> Set<usize> {
    if m.contains_key(x) {
        m[x]
    } else {
        Set::empty()
    }
}

/// In a well-formed table, the entry found for a key is the only one with that key.
pub proof fn lemma_key_unique(t: Seq<(usize, Vec<usize>)>, i: int)
    requires
        table_wf(t),
        0 <= i < t.len(),
    ensures
        has_key(t, t[i].0),
        key_index(t, t[i].0) == i,
        tview(t)[t[i].0] == t[i].1@.to_set(),
{
    let x = t[i].0;
    assert(t[i].0 == x);
    let k = key_index(t, x);
    if k < i {
        assert(t[k].0 < t[i].0);
    } else if k > i {
        assert(t[i].0 < t[k].0);
    }
}

/// The index of the entry for `x`, if any.
pub fn table_find(t: &Table, x: usize) -> (r: Option<usize>)
    requires
        table_wf(t@),
    ensures
        match r {
            Some(i) => i < t@.len() && t@[i as int].0 == x && has_key(t@, x) && key_index(t@, x)
                == i,
            None => !has_key(t@, x),
        },
{
    let mut i: usize = 0;
    while i < t.len()
        invariant
            i <= t.len(),
            table_wf(t@),
            forall|k: int| 0 <= k < i ==> t@[k].0 != x,
        decreases t.len() - i,
    {
        if t[i].0 == x {
            proof {
                lemma_key_unique(t@, i as int);
            }
            return Some(i);
        }
        i = i + 1;
    }
    None
}

/// Makes sure `key` has an entry (an empty set if it had none) and returns its index.
pub fn table_touch(t: &mut Table, key: usize) -> (idx: usize)
    requires
        table_wf(old(t)@),
    ensures
        table_wf(final(t)@),
        idx < final(t)@.len(),
        final(t)@[idx as int].0 == key,
        tview(final(t)@) == tview(old(t)@).insert(key, entry_of(tview(old(t)@), key)),
{
    let mut i: usize = 0;
    while i < t.len() && t[i].0 < key
        invariant
            i <= t.len(),
            t@ == old(t)@,
            table_wf(t@),
            forall|k: int| 0 <= k < i ==> t@[k].0 < key,
        decreases t.len() - i,
    {
        i = i + 1;
    }
    if i < t.len() && t[i].0 == key {
        proof {
            lemma_key_unique(t@, i as int);
        }
        assert(tview(t@) =~= tview(old(t)@).insert(key, entry_of(tview(old(t)@), key)));
        return i;
    }
    let ghost old_t = t@;
    let empty: Vec<usize> = Vec::new();
    let ghost ev = empty;
    t.insert(i, (key, empty));
    assert(t@ == old_t.insert(i as int, (key, ev)));
    assert(table_wf(t@)) by {
        assert forall|a: int, b: int| 0 <= a < b < t@.len() implies t@[a].0 < t@[b].0 by {
            if b < i {
            } else if a < i && b == i {
            } else if a < i {
                assert(old_t[a].0 < old_t[b - 1].0);
            } else if a == i {
                assert(key < old_t[i as int].0);
                assert(old_t[i as int].0 <= old_t[b - 1].0);
            } else {
                assert(old_t[a - 1].0 < old_t[b - 1].0);
            }
        }
        assert forall|a: int| 0 <= a < t@.len() implies sorted_set(#[trigger] t@[a].1@) by {
            if a < i {
                assert(t@[a] == old_t[a]);
            } else if a > i {
                assert(t@[a] == old_t[a - 1]);
            } else {
                assert(t@[a].1@ == ev@);
            }
        }
    }
    assert(!has_key(old_t, key)) by {
        if has_key(old_t, key) {
            let k = key_index(old_t, key);
            if k < i {
                assert(old_t[k].0 < key);
            } else {
                assert(old_t[k] == t@[k + 1]);
            }
        }
    }
    assert(tview(t@) =~= tview(old_t).insert(key, Set::empty())) by {
        assert forall|x: usize| has_key(t@, x) <==> (has_key(old_t, x) || x == key) by {
            if has_key(t@, x) {
                let k = key_index(t@, x);
                if k < i {
                    assert(old_t[k].0 == x);
                } else if k > i {
                    assert(old_t[k - 1].0 == x);
                }
            }
            if has_key(old_t, x) {
                let k = key_index(old_t, x);
                if k < i {
                    assert(t@[k].0 == x);
                } else {
                    assert(t@[k + 1].0 == x);
                }
            }
            if x == key {
                assert(t@[i as int].0 == x);
            }
        }
        assert forall|x: usize|
            tview(t@).contains_key(x) <==> #[trigger] tview(old_t).insert(
                key,
                Set::empty(),
            ).contains_key(x) by {
            assert(tview(t@).contains_key(x) == has_key(t@, x));
            assert(tview(old_t).contains_key(x) == has_key(old_t, x));
        }
        assert forall|x: usize| #[trigger]
            tview(t@).contains_key(x) implies tview(t@)[x] == tview(old_t).insert(
                key,
                Set::empty(),
            )[x] by {
            if x == key {
                lemma_key_unique(t@, i as int);
                assert(t@[i as int].1@.to_set() =~= Set::empty());
            } else {
                let m = key_index(old_t, x);
                let m2 = if m < i {
                    m
                } else {
                    m + 1
                };
                assert(t@[m2] == old_t[m]);
                lemma_key_unique(t@, m2);
                lemma_key_unique(old_t, m);
            }
        }
    }
    i
}

/// Replaces the set of entry `idx` by `v` (a canonical set).
fn table_replace(t: &mut Table, idx: usize, v: Vec<usize>)
    requires
        table_wf(old(t)@),
        idx < old(t)@.len(),
        sorted_set(v@),
    ensures
        table_wf(final(t)@),
        final(t)@.len() == old(t)@.len(),
        final(t)@[idx as int].0 == old(t)@[idx as int].0,
        tview(final(t)@) == tview(old(t)@).insert(old(t)@[idx as int].0, v@.to_set()),
{
    let key = t[idx].0;
    let ghost old_t = t@;
    let ghost vv = v@;
    t.set(idx, (key, v));
    assert(t@ == old_t.update(idx as int, (key, t@[idx as int].1)));
    assert(table_wf(t@)) by {
        assert forall|a: int, b: int| 0 <= a < b < t@.len() implies t@[a].0 < t@[b].0 by {
            assert(old_t[a].0 < old_t[b].0);
        }
        assert forall|a: int| 0 <= a < t@.len() implies sorted_set(#[trigger] t@[a].1@) by {
            if a != idx {
                assert(t@[a] == old_t[a]);
            }
        }
    }
    assert(tview(t@) =~= tview(old_t).insert(key, vv.to_set())) by {
        assert forall|x: usize| has_key(t@, x) <==> has_key(old_t, x) by {
            if has_key(t@, x) {
                let k = key_index(t@, x);
                assert(old_t[k].0 == x);
            }
            if has_key(old_t, x) {
                let k = key_index(old_t, x);
                assert(t@[k].0 == x);
            }
        }
        lemma_key_unique(old_t, idx as int);
        assert forall|x: usize|
            tview(t@).contains_key(x) <==> #[trigger] tview(old_t).insert(
                key,
                vv.to_set(),
            ).contains_key(x) by {
            assert(tview(t@).contains_key(x) == has_key(t@, x));
            assert(tview(old_t).contains_key(x) == has_key(old_t, x));
        }
        assert forall|x: usize| #[trigger]
            tview(t@).contains_key(x) implies tview(t@)[x] == tview(old_t).insert(
                key,
                vv.to_set(),
            )[x] by {
            if x == key {
                lemma_key_unique(t@, idx as int);
            } else {
                let m = key_index(old_t, x);
                lemma_key_unique(old_t, m);
                assert(t@[m] == old_t[m]);
                lemma_key_unique(t@, m);
            }
        }
    }
}

/// `entry(key).or_default().insert(y)`.
pub fn table_insert(t: &mut Table, key: usize, y: usize)
    requires
        table_wf(old(t)@),
    ensures
        table_wf(final(t)@),
        tview(final(t)@) == tview(old(t)@).insert(key, entry_of(tview(old(t)@), key).insert(y)),
{
    let idx = table_touch(t, key);
    let ghost mid = t@;
    proof {
        lemma_key_unique(t@, idx as int);
    }
    let mut v = copy_syms(&t[idx].1);
    assert(sorted_set(v@));
    set_insert(&mut v, y);
    let ghost vv = v@;
    table_replace(t, idx, v);
    assert(vv.to_set() =~= mid[idx as int].1@.to_set().insert(y));
    assert(tview(t@) =~= tview(old(t)@).insert(key, entry_of(tview(old(t)@), key).insert(y)));
}

/// `entry(key).or_default().extend(set)`.
pub fn table_extend(t: &mut Table, key: usize, set: &Vec<usize>)
    requires
        table_wf(old(t)@),
    ensures
        table_wf(final(t)@),
        tview(final(t)@) == tview(old(t)@).insert(
            key,
            entry_of(tview(old(t)@), key).union(set@.to_set()),
        ),
{
    let idx = table_touch(t, key);
    let ghost mid = t@;
    proof {
        lemma_key_unique(t@, idx as int);
    }
    let mut v = copy_syms(&t[idx].1);
    assert(sorted_set(v@));
    set_extend(&mut v, set);
    let ghost vv = v@;
    table_replace(t, idx, v);
    assert(vv.to_set() =~= mid[idx as int].1@.to_set().union(set@.to_set()));
    assert(tview(t@) =~= tview(old(t)@).insert(
        key,
        entry_of(tview(old(t)@), key).union(set@.to_set()),
    ));
}

/// Sets the entry of `key` to `set` (a canonical set).
pub fn table_put(t: &mut Table, key: usize, set: Vec<usize>)
    requires
        table_wf(old(t)@),
        sorted_set(set@),
    ensures
        table_wf(final(t)@),
        tview(final(t)@) == tview(old(t)@).insert(key, set@.to_set()),
{
    let idx = table_touch(t, key);
    let ghost sv = set@;
    table_replace(t, idx, set);
    assert(tview(t@) =~= tview(old(t)@).insert(key, sv.to_set()));
}

/// A copy of the set under entry `idx`.
pub fn table_value(t: &Table, idx: usize) -> (v: Vec<usize>)
    requires
        table_wf(t@),
        idx < t@.len(),
    ensures
        sorted_set(v@),
        v@.to_set() == tview(t@)[t@[idx as int].0],
        v@ == t@[idx as int].1@,
{
    proof {
        lemma_key_unique(t@, idx as int);
    }
    copy_syms(&t[idx].1)
}

} // verus!
