//! Iterating a map until it leaves its argument unchanged.
use vstd::prelude::*;

use vstd::pervasive::cloned;
use vstd::std_specs::cmp::PartialEqSpec;

verus! {

/// Whether `xs` is a run of `map`: each value after the first is what `map` gives a
/// clone of the one before it.
pub open spec fn iterates<T: Clone, F: Fn(T) -> T>(map: F, xs: Seq<T>) -> bool {
    forall|i: int| 0 <= i < xs.len() - 1 ==> #[trigger] step_of(map, xs, i)
}

/// Whether value `i + 1` of `xs` is what `map` gives a clone of value `i`.
pub open spec fn step_of<T: Clone, F: Fn(T) -> T>(map: F, xs: Seq<T>, i: int) -> bool {
    exists|c: T| cloned(xs[i], c) && #[trigger] map.ensures((c,), xs[i + 1])
}

/// Whether value `i + 1` of `xs` differs from value `i`, as far as `T`'s `==` is
/// specified.
pub open spec fn moved_at<T: PartialEq>(xs: Seq<T>, i: int) -> bool {
    T::obeys_eq_spec() ==> !xs[i + 1].eq_spec(&xs[i])
}

/// Whether no step of the run `xs` gives back a value equal to the one it was given,
/// as far as `T`'s `==` is specified.
pub open spec fn no_fixpoint_in<T: PartialEq>(xs: Seq<T>) -> bool {
    forall|i: int| 0 <= i < xs.len() - 1 ==> #[trigger] moved_at(xs, i)
}

/// Whether `map`, given a clone of `v`, gives back a value equal to `v`, as far as `T`'s
/// `==` is specified.
pub open spec fn fixed_by<T: PartialEq + Clone, F: Fn(T) -> T>(map: F, v: T) -> bool {
    exists|c: T, w: T| cloned(v, c) && #[trigger] map.ensures((c,), w) && (T::obeys_eq_spec() ==> w.eq_spec(&v))
}

/// Applies `map` to `seed`, and again to each result, until it gives back a value equal
/// to the one it was given, and returns that value: the first such value of the run
/// from `seed` (`seed` itself where `map` leaves it unchanged). `None` where no value
/// among the first `usize::MAX + 1` steps is left unchanged.
pub fn transitive<T: PartialEq + Clone, F: Fn(T) -> T>(seed: T, map: F) -> (r: Option<T>)
    requires
        forall|x: T| #[trigger] map.requires((x,)),
    ensures
        match r {
            Some(v) => exists|xs: Seq<T>|
                #[trigger] iterates(map, xs) && xs.len() >= 1 && xs[0] == seed && xs.last() == v && no_fixpoint_in(xs)
                    && fixed_by(map, v),
            None => exists|xs: Seq<T>|
                #[trigger] iterates(map, xs) && xs.len() == usize::MAX + 2 && xs[0] == seed && no_fixpoint_in(xs),
        },
{
    let mut val = seed;
    let mut fuel: usize = usize::MAX;
    let ghost mut xs: Seq<T> = seq![seed];
    loop
        invariant
            forall|x: T| #[trigger] map.requires((x,)),
            iterates(map, xs),
            xs.len() >= 1,
            xs[0] == seed,
            xs.last() == val,
            no_fixpoint_in(xs),
            xs.len() + fuel == usize::MAX + 1,
        decreases fuel,
    {
        let c = val.clone();
        let ghost cg = c;
        let new = map(c);
        if new == val {
            assert(cloned(val, cg) && map.ensures((cg,), new));
            return Some(val);
        }
        let ghost xs1 = xs.push(new);
        proof {
            assert forall|i: int| 0 <= i < xs1.len() - 1 implies #[trigger] step_of(map, xs1, i) by {
                if i < xs.len() - 1 {
                    assert(step_of(map, xs, i));
                    assert(xs1[i] == xs[i] && xs1[i + 1] == xs[i + 1]);
                } else {
                    assert(xs1[i] == val && xs1[i + 1] == new);
                    assert(cloned(xs1[i], cg) && map.ensures((cg,), xs1[i + 1]));
                }
            }
            assert forall|i: int| 0 <= i < xs1.len() - 1 implies #[trigger] moved_at(xs1, i) by {
                if i < xs.len() - 1 {
                    assert(moved_at(xs, i));
                    assert(xs1[i] == xs[i] && xs1[i + 1] == xs[i + 1]);
                }
            }
        }
        if fuel == 0 {
            assert(iterates(map, xs1));
            return None;
        }
        fuel = fuel - 1;
        val = new;
        proof {
            xs = xs1;
        }
    }
}

/// Where `map` gives one value for each value, a clone is the value itself and `==` is
/// equality, two runs from one seed, each without a fixpoint before its last value and
/// ending at a value `map` leaves unchanged, are the same run: what [`transitive`]
/// returns is the first value of the run from the seed that `map` leaves unchanged (the
/// seed itself where `map` leaves the seed unchanged).
pub proof fn law_first_fixpoint<T: PartialEq + Clone, F: Fn(T) -> T>(map: F, xs: Seq<T>, ys: Seq<T>)
    requires
        T::obeys_eq_spec(),
        forall|a: T, b: T| #[trigger] a.eq_spec(&b) <==> a == b,
        forall|a: T, c: T| #[trigger] cloned(a, c) ==> c == a,
        forall|c: T, w1: T, w2: T| #[trigger] map.ensures((c,), w1) && #[trigger] map.ensures((c,), w2) ==> w1 == w2,
        iterates(map, xs),
        iterates(map, ys),
        xs.len() >= 1,
        ys.len() >= 1,
        xs[0] == ys[0],
        no_fixpoint_in(xs),
        no_fixpoint_in(ys),
        fixed_by(map, xs.last()),
        fixed_by(map, ys.last()),
    ensures
        xs == ys,
{
    lemma_runs_agree(map, xs, ys);
    lemma_runs_agree(map, ys, xs);
    assert(xs =~= ys);
}

/// Two runs from one seed of a `map` as in [`law_first_fixpoint`] agree up to place `i`.
proof fn lemma_prefix_agree<T: PartialEq + Clone, F: Fn(T) -> T>(map: F, xs: Seq<T>, ys: Seq<T>, i: int)
    requires
        forall|a: T, c: T| #[trigger] cloned(a, c) ==> c == a,
        forall|c: T, w1: T, w2: T| #[trigger] map.ensures((c,), w1) && #[trigger] map.ensures((c,), w2) ==> w1 == w2,
        iterates(map, xs),
        iterates(map, ys),
        0 <= i < xs.len(),
        i < ys.len(),
        xs[0] == ys[0],
    ensures
        forall|j: int| 0 <= j <= i ==> xs[j] == ys[j],
    decreases i,
{
    if i > 0 {
        lemma_prefix_agree(map, xs, ys, i - 1);
        let k = i - 1;
        assert(step_of(map, xs, k));
        assert(step_of(map, ys, k));
        let cx = choose|c: T| cloned(xs[k], c) && #[trigger] map.ensures((c,), xs[k + 1]);
        let cy = choose|c: T| cloned(ys[k], c) && #[trigger] map.ensures((c,), ys[k + 1]);
        assert(cx == xs[k]);
        assert(cy == ys[k]);
        assert(xs[k + 1] == ys[k + 1]);
    }
}

/// Two runs from one seed of a `map` as in [`law_first_fixpoint`] agree where both have
/// values, and the first ends no earlier than the second where the second ends at a
/// value `map` leaves unchanged.
proof fn lemma_runs_agree<T: PartialEq + Clone, F: Fn(T) -> T>(map: F, xs: Seq<T>, ys: Seq<T>)
    requires
        T::obeys_eq_spec(),
        forall|a: T, b: T| #[trigger] a.eq_spec(&b) <==> a == b,
        forall|a: T, c: T| #[trigger] cloned(a, c) ==> c == a,
        forall|c: T, w1: T, w2: T| #[trigger] map.ensures((c,), w1) && #[trigger] map.ensures((c,), w2) ==> w1 == w2,
        iterates(map, xs),
        iterates(map, ys),
        xs.len() >= 1,
        ys.len() >= 1,
        xs[0] == ys[0],
        no_fixpoint_in(xs),
        fixed_by(map, ys.last()),
    ensures
        xs.len() <= ys.len(),
        forall|i: int| 0 <= i < xs.len() ==> xs[i] == ys[i],
{
    let n = if xs.len() <= ys.len() { xs.len() as int } else { ys.len() as int };
    lemma_prefix_agree(map, xs, ys, n - 1);
    let i = n - 1;
    if xs.len() > ys.len() {
        let m = ys.len() - 1;
        assert(i == m);
        assert(step_of(map, xs, m));
        let cx = choose|c: T| cloned(xs[m], c) && #[trigger] map.ensures((c,), xs[m + 1]);
        let (c, w) = choose|c: T, w: T| cloned(ys.last(), c) && #[trigger] map.ensures((c,), w) && (T::obeys_eq_spec() ==> w.eq_spec(&ys.last()));
        assert(cx == xs[m]);
        assert(c == ys.last());
        assert(w == ys.last());
        assert(xs[m + 1] == xs[m]);
        assert(moved_at(xs, m));
        assert(xs[m + 1].eq_spec(&xs[m]));
    }
}

} // verus!
