//! Sets of items (LR states and kernels), kept in canonical order so that two
//! states hold the same items exactly when their sequences are equal.
use vstd::prelude::*;

use crate::pos::{canonical, lemma_canonical_sorted_by, lemma_pos_lt_transitive, lemma_pos_lt_trichotomy, lemma_pos_lt_total, pos_equal, pos_less, pos_lt, views, Position, PositionView};
use crate::symset::{lemma_sorted_ext, lemma_sorted_no_dup, lemma_strict_superset_longer};

verus! {

/// A set of items.
pub type State = Vec<Position>;

/// `s` is a well-formed state: its items are in canonical order.
pub open spec fn wf_state(s: Seq<Position>) -> bool {
    canonical(views(s))
}

/// Whether the state holds item `v`.
#[verifier::inline]
pub open spec fn holds(s: Seq<Position>, v: PositionView) -> bool {
    views(s).contains(v)
}

/// Two canonical states that hold the same items have the same views.
pub proof fn lemma_state_ext(a: Seq<Position>, b: Seq<Position>)
    requires
        wf_state(a),
        wf_state(b),
        forall|v: PositionView| holds(a, v) <==> holds(b, v),
    ensures
        views(a) == views(b),
{
    lemma_pos_lt_total();
    lemma_canonical_sorted_by(views(a));
    lemma_canonical_sorted_by(views(b));
    lemma_sorted_ext(views(a), views(b), |x: PositionView, y: PositionView| pos_lt(x, y));
}

/// A canonical state that holds every item of another one, and one more, is longer.
pub proof fn lemma_state_grows(a: Seq<Position>, b: Seq<Position>)
    requires
        wf_state(a),
        wf_state(b),
        forall|v: PositionView| holds(b, v) ==> holds(a, v),
        exists|v: PositionView| holds(a, v) && !holds(b, v),
    ensures
        a.len() > b.len(),
{
    lemma_pos_lt_total();
    lemma_canonical_sorted_by(views(a));
    lemma_canonical_sorted_by(views(b));
    lemma_sorted_no_dup(views(a), |x: PositionView, y: PositionView| pos_lt(x, y));
    lemma_sorted_no_dup(views(b), |x: PositionView, y: PositionView| pos_lt(x, y));
    lemma_strict_superset_longer(views(a), views(b));
}

/// Adds item `p` to the state.
pub fn state_insert(s: &mut State, p: Position)
    requires
        wf_state(old(s)@),
    ensures
        wf_state(final(s)@),
        forall|v: PositionView| holds(final(s)@, v) <==> (holds(old(s)@, v) || v == p@),
{
    proof {
        lemma_pos_lt_total();
    }
    let mut i: usize = 0;
    while i < s.len() && pos_less(&s[i], &p)
        invariant
            i <= s.len(),
            s@ == old(s)@,
            forall|k: int| 0 <= k < i ==> pos_lt(#[trigger] s@[k]@, p@),
        decreases s.len() - i,
    {
        i = i + 1;
    }
    if i < s.len() && pos_equal(&s[i], &p) {
        assert(views(s@)[i as int] == p@);
        assert(forall|v: PositionView| holds(s@, v) <==> (holds(old(s)@, v) || v == p@));
        return ;
    }
    let ghost old_s = s@;
    let ghost pv = p@;
    if i < s.len() {
        proof {
            lemma_pos_lt_trichotomy(s@[i as int]@, p@);
        }
        assert(pos_lt(pv, views(old_s)[i as int]));
    }
    s.insert(i, p);
    assert(views(s@) =~= views(old_s).insert(i as int, pv));
    assert forall|a: int, b: int| 0 <= a < b < views(s@).len() implies pos_lt(
        #[trigger] views(s@)[a],
        #[trigger] views(s@)[b],
    ) by {
        if b < i {
            assert(pos_lt(views(old_s)[a], views(old_s)[b]));
        } else if a < i && b == i {
            assert(pos_lt(old_s[a]@, pv));
        } else if a < i && b > i {
            assert(pos_lt(views(old_s)[a], views(old_s)[b - 1]));
        } else if a == i {
            if b - 1 > i {
                assert(pos_lt(views(old_s)[i as int], views(old_s)[b - 1]));
                lemma_pos_lt_transitive(pv, views(old_s)[i as int], views(old_s)[b - 1]);
            }
        } else {
            assert(pos_lt(views(old_s)[a - 1], views(old_s)[b - 1]));
        }
    }
    assert forall|v: PositionView| holds(s@, v) <==> (holds(old_s, v) || v == pv) by {
        if holds(s@, v) {
            let k = choose|k: int| 0 <= k < views(s@).len() && views(s@)[k] == v;
            if k < i {
                assert(views(old_s)[k] == v);
            } else if k > i {
                assert(views(old_s)[k - 1] == v);
            }
        }
        if holds(old_s, v) {
            let k = choose|k: int| 0 <= k < views(old_s).len() && views(old_s)[k] == v;
            if k < i {
                assert(views(s@)[k] == v);
            } else {
                assert(views(s@)[k + 1] == v);
            }
        }
        if v == pv {
            assert(views(s@)[i as int] == v);
        }
    }
    assert(forall|v: PositionView| holds(s@, v) <==> (holds(old(s)@, v) || v == p@));
}

/// Adds every item of `other` to the state.
pub fn state_extend(s: &mut State, other: State)
    requires
        wf_state(old(s)@),
    ensures
        wf_state(final(s)@),
        forall|v: PositionView| #[trigger] holds(final(s)@, v) <==> (holds(old(s)@, v) || holds(other@, v)),
{
    let ghost s0 = s@;
    let ghost o = other@;
    let mut other = other;
    while other.len() > 0
        invariant
            wf_state(s@),
            s0 == old(s)@,
            forall|v: PositionView|
                #[trigger] holds(o, v) <==> (holds(other@, v) || (holds(s@, v) && !holds(s0, v)) || (
                holds(o, v) && holds(s@, v))),
            forall|v: PositionView| holds(s0, v) ==> holds(s@, v),
            forall|v: PositionView| holds(s@, v) ==> (holds(s0, v) || holds(o, v)),
        decreases other.len(),
    {
        let ghost before = s@;
        let ghost ob = other@;
        let p = other.pop().unwrap();
        assert(ob =~= other@.push(p));
        assert(views(ob) =~= views(other@).push(p@));
        state_insert(s, p);
        assert forall|v: PositionView| holds(ob, v) <==> (holds(other@, v) || v == p@) by {
            if holds(ob, v) {
                let k = choose|k: int| 0 <= k < views(ob).len() && views(ob)[k] == v;
                if k < other@.len() {
                    assert(views(other@)[k] == v);
                }
            }
            if holds(other@, v) {
                let k = choose|k: int| 0 <= k < views(other@).len() && views(other@)[k] == v;
                assert(views(ob)[k] == v);
            }
            if v == p@ {
                assert(views(ob)[other@.len() as int] == v);
            }
        }
    }
    assert(forall|v: PositionView| holds(s@, v) <==> (holds(s0, v) || holds(o, v)));
}

/// Whether two states hold the same items.
pub fn state_eq(a: &State, b: &State) -> (r: bool)
    ensures
        r == (views(a@) == views(b@)),
{
    if a.len() != b.len() {
        assert(views(a@).len() != views(b@).len());
        return false;
    }
    let mut i: usize = 0;
    while i < a.len()
        invariant
            i <= a.len(),
            a.len() == b.len(),
            forall|k: int| 0 <= k < i ==> a@[k]@ == b@[k]@,
        decreases a.len() - i,
    {
        if !pos_equal(&a[i], &b[i]) {
            assert(views(a@)[i as int] != views(b@)[i as int]);
            return false;
        }
        i = i + 1;
    }
    assert(views(a@) =~= views(b@));
    true
}

/// A copy of a state.
pub fn state_copy(s: &State) -> (r: State)
    ensures
        views(r@) == views(s@),
{
    let mut r: State = Vec::new();
    let mut i: usize = 0;
    while i < s.len()
        invariant
            i <= s.len(),
            r@.len() == i,
            forall|k: int| 0 <= k < i ==> r@[k]@ == s@[k]@,
        decreases s.len() - i,
    {
        r.push(s[i].copy());
        i = i + 1;
    }
    assert(views(r@) =~= views(s@));
    r
}

/// The state holding exactly the given item.
pub fn state_single(p: Position) -> (r: State)
    ensures
        wf_state(r@),
        views(r@) == seq![p@],
{
    let r = vec![p];
    assert(views(r@) =~= seq![p@]);
    r
}

} // verus!
