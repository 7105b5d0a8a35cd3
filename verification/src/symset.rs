//! Finite sets of symbols, kept as strictly increasing vectors, and the facts
//! about strictly sorted sequences that the rest of the crate relies on.
use vstd::prelude::*;

verus! {

/// A strict total order on `A`, given as its "less than" relation.
pub open spec fn strict_total<A>(lt: spec_fn(A, A) -> bool) -> bool {
    &&& forall|a: A| !#[trigger] lt(a, a)
    &&& forall|a: A, b: A, c: A| #[trigger] lt(a, b) && #[trigger] lt(b, c) ==> lt(a, c)
    &&& forall|a: A, b: A| a != b ==> #[trigger] lt(a, b) || #[trigger] lt(b, a)
}

/// `s` is strictly increasing under `lt`.
pub open spec fn sorted_by_lt<A>(s: Seq<A>, lt: spec_fn(A, A) -> bool) -> bool {
    forall|i: int, j: int| 0 <= i < j < s.len() ==> #[trigger] lt(s[i], s[j])
}

/// A strictly increasing sequence of symbols: the canonical form of a finite set.
pub open spec fn sorted_set(s: Seq<usize>) -> bool {
    forall|i: int, j: int| 0 <= i < j < s.len() ==> s[i] < s[j]
}

pub open spec fn usize_lt(a: usize, b: usize) -> bool {
    a < b
}

pub proof fn lemma_usize_lt_total()
    ensures
        strict_total(|a: usize, b: usize| usize_lt(a, b)),
{
}

pub proof fn lemma_sorted_set_is_sorted_by(s: Seq<usize>)
    requires
        sorted_set(s),
    ensures
        sorted_by_lt(s, |a: usize, b: usize| usize_lt(a, b)),
{
}

/// A strictly sorted sequence has no duplicates.
pub proof fn lemma_sorted_no_dup<A>(s: Seq<A>, lt: spec_fn(A, A) -> bool)
    requires
        strict_total(lt),
        sorted_by_lt(s, lt),
    ensures
        s.no_duplicates(),
{
    assert forall|i: int, j: int| 0 <= i < s.len() && 0 <= j < s.len() && i != j implies s[i]
        != s[j] by {
        if i < j {
            assert(lt(s[i], s[j]));
        } else {
            assert(lt(s[j], s[i]));
        }
    }
}

/// Two strictly sorted sequences with the same elements are equal.
pub proof fn lemma_sorted_ext<A>(x: Seq<A>, y: Seq<A>, lt: spec_fn(A, A) -> bool)
    requires
        strict_total(lt),
        sorted_by_lt(x, lt),
        sorted_by_lt(y, lt),
        forall|e: A| x.contains(e) <==> y.contains(e),
    ensures
        x == y,
    decreases x.len(),
{
    if x.len() == 0 {
        if y.len() > 0 {
            assert(y.contains(y[0]));
        }
        assert(x =~= y);
    } else if y.len() == 0 {
        assert(x.contains(x[0]));
    } else {
        assert(x.contains(x[0]));
        assert(y.contains(y[0]));
        let i = choose|i: int| 0 <= i < x.len() && x[i] == y[0];
        let j = choose|j: int| 0 <= j < y.len() && y[j] == x[0];
        if x[0] != y[0] {
            assert(i > 0);
            assert(j > 0);
            assert(lt(x[0], x[i]));
            assert(lt(y[0], y[j]));
            assert(lt(x[0], x[0]));
        }
        let xs = x.drop_first();
        let ys = y.drop_first();
        assert forall|e: A| xs.contains(e) <==> ys.contains(e) by {
            if xs.contains(e) {
                let k = choose|k: int| 0 <= k < xs.len() && xs[k] == e;
                assert(x[k + 1] == e);
                assert(lt(x[0], x[k + 1]));
                assert(x.contains(e));
                let m = choose|m: int| 0 <= m < y.len() && y[m] == e;
                if m == 0 {
                    assert(lt(e, e));
                }
                assert(ys[m - 1] == e);
            }
            if ys.contains(e) {
                let k = choose|k: int| 0 <= k < ys.len() && ys[k] == e;
                assert(y[k + 1] == e);
                assert(lt(y[0], y[k + 1]));
                assert(y.contains(e));
                let m = choose|m: int| 0 <= m < x.len() && x[m] == e;
                if m == 0 {
                    assert(lt(e, e));
                }
                assert(xs[m - 1] == e);
            }
        }
        lemma_sorted_ext(xs, ys, lt);
        assert(x =~= seq![x[0]] + xs);
        assert(y =~= seq![y[0]] + ys);
    }
}

/// If every element of `y` is in `x` and some element of `x` is not in `y`
/// (both without duplicates), `x` is strictly longer.
pub proof fn lemma_strict_superset_longer<A>(x: Seq<A>, y: Seq<A>)
    requires
        x.no_duplicates(),
        y.no_duplicates(),
        forall|e: A| y.contains(e) ==> x.contains(e),
        exists|e: A| x.contains(e) && !y.contains(e),
    ensures
        x.len() > y.len(),
{
    x.unique_seq_to_set();
    y.unique_seq_to_set();
    assert(y.to_set().subset_of(x.to_set()));
    vstd::set_lib::lemma_len_subset(y.to_set(), x.to_set());
    let e = choose|e: A| x.contains(e) && !y.contains(e);
    if x.len() == y.len() {
        assert(y.to_set().insert(e).subset_of(x.to_set()));
        vstd::set_lib::lemma_len_subset(y.to_set().insert(e), x.to_set());
    }
}

/// A set of symbols drawn from a universe without duplicates is no larger than it.
pub proof fn lemma_subset_len<A>(x: Seq<A>, u: Seq<A>)
    requires
        x.no_duplicates(),
        u.no_duplicates(),
        forall|e: A| x.contains(e) ==> u.contains(e),
    ensures
        x.len() <= u.len(),
{
    x.unique_seq_to_set();
    u.unique_seq_to_set();
    assert(x.to_set().subset_of(u.to_set()));
    vstd::set_lib::lemma_len_subset(x.to_set(), u.to_set());
}

/// Whether `x` belongs to the set `v`.
pub fn set_contains(v: &Vec<usize>, x: usize) -> (r: bool)
    ensures
        r == v@.contains(x),
{
    let mut i: usize = 0;
    while i < v.len()
        invariant
            i <= v.len(),
            forall|k: int| 0 <= k < i ==> v@[k] != x,
        decreases v.len() - i,
    {
        if v[i] == x {
            return true;
        }
        i = i + 1;
    }
    false
}

/// Adds `x` to the set `v`.
pub fn set_insert(v: &mut Vec<usize>, x: usize)
    requires
        sorted_set(old(v)@),
    ensures
        sorted_set(final(v)@),
        forall|e: usize| final(v)@.contains(e) <==> (old(v)@.contains(e) || e == x),
{
    let mut i: usize = 0;
    while i < v.len() && v[i] < x
        invariant
            i <= v.len(),
            v@ == old(v)@,
            forall|k: int| 0 <= k < i ==> v@[k] < x,
        decreases v.len() - i,
    {
        i = i + 1;
    }
    if i < v.len() && v[i] == x {
        assert(v@[i as int] == x);
        assert(v@.contains(x));
        assert(forall|e: usize| v@.contains(e) <==> (old(v)@.contains(e) || e == x));
        return ;
    }
    let ghost old_v = v@;
    v.insert(i, x);
    assert forall|e: usize| v@.contains(e) <==> (old_v.contains(e) || e == x) by {
        if v@.contains(e) {
            let k = choose|k: int| 0 <= k < v@.len() && v@[k] == e;
            if k < i {
                assert(old_v[k] == e);
            } else if k > i {
                assert(old_v[k - 1] == e);
            }
        }
        if old_v.contains(e) {
            let k = choose|k: int| 0 <= k < old_v.len() && old_v[k] == e;
            if k < i {
                assert(v@[k] == e);
            } else {
                assert(v@[k + 1] == e);
            }
        }
        if e == x {
            assert(v@[i as int] == x);
        }
    }
    assert(sorted_set(v@));
    assert(forall|e: usize| v@.contains(e) <==> (old(v)@.contains(e) || e == x));
}

/// Adds every element of `other` to the set `v`.
pub fn set_extend(v: &mut Vec<usize>, other: &Vec<usize>)
    requires
        sorted_set(old(v)@),
    ensures
        sorted_set(final(v)@),
        forall|e: usize| #[trigger] final(v)@.contains(e) <==> (old(v)@.contains(e) || other@.contains(e)),
{
    let ghost v0 = v@;
    let mut i: usize = 0;
    while i < other.len()
        invariant
            i <= other.len(),
            sorted_set(v@),
            v0 == old(v)@,
            forall|e: usize|
                #[trigger] v@.contains(e) <==> (v0.contains(e) || other@.subrange(0, i as int).contains(e)),
        decreases other.len() - i,
    {
        let ghost before = v@;
        set_insert(v, other[i]);
        let ghost pre = other@.subrange(0, i as int);
        let ghost post = other@.subrange(0, i + 1);
        assert(post =~= pre.push(other@[i as int]));
        assert forall|e: usize| v@.contains(e) <==> (v0.contains(e) || post.contains(e)) by {
            assert(v@.contains(e) <==> (before.contains(e) || e == other@[i as int]));
            assert(before.contains(e) <==> (v0.contains(e) || pre.contains(e)));
            if pre.contains(e) {
                let k = choose|k: int| 0 <= k < pre.len() && pre[k] == e;
                assert(post[k] == e);
            }
            assert(post[i as int] == other@[i as int]);
            if post.contains(e) {
                let k = choose|k: int| 0 <= k < post.len() && post[k] == e;
                if k < i {
                    assert(pre[k] == e);
                }
            }
        }
        i = i + 1;
    }
    assert(other@.subrange(0, other@.len() as int) =~= other@);
}

/// Removes `x` from the set `v`.
pub fn set_remove(v: &mut Vec<usize>, x: usize)
    requires
        sorted_set(old(v)@),
    ensures
        sorted_set(final(v)@),
        forall|e: usize| final(v)@.contains(e) <==> (old(v)@.contains(e) && e != x),
{
    let mut i: usize = 0;
    while i < v.len() && v[i] != x
        invariant
            i <= v.len(),
            v@ == old(v)@,
            forall|k: int| 0 <= k < i ==> v@[k] != x,
        decreases v.len() - i,
    {
        i = i + 1;
    }
    if i < v.len() {
        let ghost old_v = v@;
        v.remove(i);
        assert forall|e: usize| v@.contains(e) <==> (old_v.contains(e) && e != x) by {
            if v@.contains(e) {
                let k = choose|k: int| 0 <= k < v@.len() && v@[k] == e;
                if k < i {
                    assert(old_v[k] == e);
                } else {
                    assert(old_v[k + 1] == e);
                    assert(old_v[i as int] < old_v[k + 1]);
                }
            }
            if old_v.contains(e) && e != x {
                let k = choose|k: int| 0 <= k < old_v.len() && old_v[k] == e;
                if k < i {
                    assert(v@[k] == e);
                } else {
                    assert(v@[k - 1] == e);
                }
            }
        }
    }
}

/// Whether two symbol sequences are equal.
pub fn seq_eq(a: &Vec<usize>, b: &Vec<usize>) -> (r: bool)
    ensures
        r == (a@ == b@),
{
    if a.len() != b.len() {
        return false;
    }
    let mut i: usize = 0;
    while i < a.len()
        invariant
            i <= a.len(),
            a.len() == b.len(),
            forall|k: int| 0 <= k < i ==> a@[k] == b@[k],
        decreases a.len() - i,
    {
        if a[i] != b[i] {
            return false;
        }
        i = i + 1;
    }
    assert(a@ =~= b@);
    true
}

/// Two sorted sets with the same members are the same sequence.
pub proof fn lemma_sorted_set_ext(x: Seq<usize>, y: Seq<usize>)
    requires
        sorted_set(x),
        sorted_set(y),
        forall|e: usize| x.contains(e) <==> y.contains(e),
    ensures
        x == y,
{
    lemma_usize_lt_total();
    lemma_sorted_set_is_sorted_by(x);
    lemma_sorted_set_is_sorted_by(y);
    lemma_sorted_ext(x, y, |a: usize, b: usize| usize_lt(a, b));
}

} // verus!
