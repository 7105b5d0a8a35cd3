//! LALR(1) parsers: LR(1) item sets whose kernels share a core are merged into one
//! state, the lookaheads of each item united.
use vstd::prelude::*;

use crate::Token;
use crate::action::{Row, row_wf, rview as row_view_of};
use crate::decide::{actions_match, build_actions, decision_entries, decision_row,
    lemma_actions_rows_wf, lemma_row_actions_same, looks_of, raws_wf, ready_all, rmap, row_actions};
use crate::dfa::{Dfa, Empty, Error, ErrorView, Reductor, accepts, act_view, parsed_value, rows_wf, run_spec,
    start_cfg, tys_of};
use crate::grammar::Grammar;
use crate::lr::{closes, core_of, core_set, entry_find, goto_items, goto_set, has_kernel, has_raw,
    item_ok, items, kernel_at, kernel_find, kernel_state, kernels_wf, lemma_closes_unique,
    lemma_core_closes, lex_lt, raw_at, raw_value, set_ok, states_ok, strip, target_ready,
    target_state};
use crate::parser::{queue_of, table_dfa, table_parse, table_validate};
use crate::looks::{follow_of, followed_in, lalr_looks, lalr_looks_of, lemma_basis_followed, lemma_closes_followed,
    lemma_goto_followed, lemma_merged_followed, looks_ready, set_followed};
use crate::pos::{Position, PositionView, peek_spec, same_core, views};
use crate::state::{State, holds, state_copy, state_eq, state_extend, state_insert, wf_state};
use crate::symset::{set_extend, sorted_set};
use crate::table::{table_wf, tview};
use crate::tabler::Tabler;
use std::collections::VecDeque;

verus! {

/// Every item of `s` has canonical lookaheads.
pub open spec fn looks_sorted(s: Set<PositionView>) -> bool {
    forall|v: PositionView| #[trigger] s.contains(v) ==> sorted_set(v.look)
}

/// `r` holds one item for each core of `s`, whose lookaheads are those of all the items
/// of `s` with that core.
pub open spec fn merged_ok(s: Set<PositionView>, r: Set<PositionView>) -> bool {
    &&& core_set(r) == core_set(s)
    &&& forall|v: PositionView| #[trigger] r.contains(v) ==> {
        &&& sorted_set(v.look)
        &&& forall|y: usize|
            v.look.contains(y) <==> exists|p: PositionView|
                s.contains(p) && same_core(p, v) && #[trigger] p.look.contains(y)
    }
    &&& forall|v1: PositionView, v2: PositionView|
        r.contains(v1) && r.contains(v2) && #[trigger] same_core(v1, v2) ==> v1 == v2
}

/// An item of `r` has the core of some item of `s` when both have the same cores.
pub proof fn lemma_core_witness(s: Set<PositionView>, r: Set<PositionView>, v: PositionView)
    requires
        core_set(r) == core_set(s),
        r.contains(v),
    ensures
        exists|p: PositionView| s.contains(p) && #[trigger] same_core(p, v),
{
    assert(core_set(r).contains(strip(v)));
    let p = choose|p: PositionView| s.contains(p) && strip(v) == #[trigger] strip(p);
    assert(same_core(p, v));
}

/// One kernel per state, and no two alike: kernel keys are canonical, distinct, and
/// hold grammar items; their states are distinct and below `n`.
#[verifier::opaque]
pub open spec fn inv_kernels(g: Grammar, n: int, kernels: Seq<(State, usize)>) -> bool {
    &&& kernels.len() == n
    &&& kernels_wf(kernels)
    &&& forall|a: int, b: int|
        0 <= a < b < kernels.len() ==> items(#[trigger] kernels[a].0@) != items(#[trigger] kernels[b].0@)
    &&& forall|a: int, b: int|
        0 <= a < b < kernels.len() ==> (#[trigger] kernels[a]).1 != (#[trigger] kernels[b]).1
    &&& forall|a: int|
        0 <= a < kernels.len() ==> (#[trigger] kernels[a]).1 < n && set_ok(g, items(kernels[a].0@))
}

/// Each state is canonical and holds grammar items.
#[verifier::opaque]
pub open spec fn inv_states(g: Grammar, states: Seq<State>) -> bool {
    &&& states.len() >= 1
    &&& forall|j: int| 0 <= j < states.len() ==> wf_state(#[trigger] states[j]@) && set_ok(g, items(states[j]@))
}

/// The empty kernel is that of state 0, whose cores are the closure without
/// lookaheads of the start item, and whose items are the closure with lookaheads of the
/// start item.
#[verifier::opaque]
pub open spec fn inv_start(g: Grammar, f: Map<usize, Set<usize>>, states: Seq<State>, kernels: Seq<(State, usize)>) -> bool {
    &&& has_kernel(kernels, Set::<PositionView>::empty())
    &&& kernel_state(kernels, Set::<PositionView>::empty()) == 0
    &&& closes(g, f, false, set![strip(g.basis@)], core_set(items(states[0]@)))
    &&& closes(g, f, true, set![g.basis@], items(states[0]@))
}

/// The cores of the state of each non-empty kernel are the closure without lookaheads
/// of the cores of the kernel.
#[verifier::opaque]
pub open spec fn inv_cores(g: Grammar, f: Map<usize, Set<usize>>, states: Seq<State>, kernels: Seq<(State, usize)>) -> bool {
    forall|a: int|
        0 <= a < kernels.len() && items(#[trigger] kernels[a].0@) != Set::<PositionView>::empty() ==> closes(
            g,
            f,
            false,
            core_set(items(kernels[a].0@)),
            core_set(items(states[kernels[a].1 as int]@)),
        )
}

/// `raws` has canonical, distinct keys, maps each non-empty core it holds to a kernel
/// of that core, and holds the core of each non-empty kernel, mapped to that kernel.
#[verifier::opaque]
pub open spec fn inv_raws(kernels: Seq<(State, usize)>, raws: Seq<(State, State)>) -> bool {
    &&& forall|b: int| 0 <= b < raws.len() ==> wf_state(#[trigger] raws[b].0@) && wf_state(raws[b].1@)
    &&& forall|a: int, b: int| 0 <= a < b < raws.len() ==> items(#[trigger] raws[a].0@) != items(#[trigger] raws[b].0@)
    &&& forall|b: int|
        0 <= b < raws.len() && items(#[trigger] raws[b].0@) != Set::<PositionView>::empty() ==> has_kernel(
            kernels,
            items(raws[b].1@),
        ) && core_set(items(raws[b].1@)) == items(raws[b].0@)
    &&& forall|a: int|
        0 <= a < kernels.len() && items(#[trigger] kernels[a].0@) != Set::<PositionView>::empty() ==> has_raw(
            raws,
            core_set(items(kernels[a].0@)),
        ) && raw_value(raws, core_set(items(kernels[a].0@))) == items(kernels[a].0@)
}

/// The LALR tables are consistent: see [`inv_kernels`], [`inv_states`], [`inv_start`],
/// [`inv_cores`] and [`inv_raws`].
pub open spec fn lalr_inv(
    g: Grammar,
    f: Map<usize, Set<usize>>,
    states: Seq<State>,
    kernels: Seq<(State, usize)>,
    raws: Seq<(State, State)>,
) -> bool {
    &&& inv_kernels(g, states.len() as int, kernels)
    &&& inv_states(g, states)
    &&& inv_start(g, f, states, kernels)
    &&& inv_cores(g, f, states, kernels)
    &&& inv_raws(kernels, raws)
}

/// With distinct keys, the entry at `a` is the first to have its key.
pub proof fn lemma_kernel_at_distinct(kernels: Seq<(State, usize)>, a: int)
    requires
        0 <= a < kernels.len(),
        forall|x: int, y: int|
            0 <= x < y < kernels.len() ==> items(#[trigger] kernels[x].0@) != items(#[trigger] kernels[y].0@),
    ensures
        kernel_at(kernels, items(kernels[a].0@), a),
        kernel_state(kernels, items(kernels[a].0@)) == kernels[a].1,
{
    assert forall|x: int| 0 <= x < a implies items(#[trigger] kernels[x].0@) != items(kernels[a].0@) by {}
    crate::lr::lemma_kernel_at_unique(kernels, items(kernels[a].0@), a);
}

/// With distinct keys, the raw entry at `b` is the first to have its key.
pub proof fn lemma_raw_at_distinct(raws: Seq<(State, State)>, b: int)
    requires
        0 <= b < raws.len(),
        forall|x: int, y: int| 0 <= x < y < raws.len() ==> items(#[trigger] raws[x].0@) != items(#[trigger] raws[y].0@),
    ensures
        raw_at(raws, items(raws[b].0@), b),
        raw_value(raws, items(raws[b].0@)) == items(raws[b].1@),
{
    assert forall|x: int| 0 <= x < b implies items(#[trigger] raws[x].0@) != items(raws[b].0@) by {}
    crate::lr::lemma_raw_at_unique(raws, items(raws[b].0@), b);
}

/// Merging grammar items gives grammar items.
pub proof fn lemma_merged_items_ok(g: Grammar, s: Set<PositionView>, r: Set<PositionView>)
    requires
        merged_ok(s, r),
        set_ok(g, s),
    ensures
        set_ok(g, r),
{
    assert forall|v: PositionView| #[trigger] r.contains(v) implies item_ok(g, v) by {
        lemma_core_witness(s, r, v);
        let p = choose|p: PositionView| s.contains(p) && #[trigger] same_core(p, v);
        assert(item_ok(g, p));
        let j = choose|j: int| 0 <= j < g.rule(p.rule).prods@.len() && #[trigger] crate::grammar::body_of(g.rule(p.rule), j) == p.body;
        assert(crate::grammar::body_of(g.rule(v.rule), j) == v.body);
    }
}

/// Cores of a union are the union of the cores.
pub proof fn lemma_core_union(a: Set<PositionView>, b: Set<PositionView>)
    ensures
        core_set(a.union(b)) == core_set(a).union(core_set(b)),
{
    assert forall|w: PositionView| core_set(a.union(b)).contains(w) <==> core_set(a).union(core_set(b)).contains(w) by {
        if core_set(a.union(b)).contains(w) {
            let p = choose|p: PositionView| a.union(b).contains(p) && w == #[trigger] strip(p);
            if a.contains(p) {
                assert(core_set(a).contains(w));
            } else {
                assert(core_set(b).contains(w));
            }
        }
        if core_set(a).contains(w) {
            let p = choose|p: PositionView| a.contains(p) && w == #[trigger] strip(p);
            assert(a.union(b).contains(p));
        }
        if core_set(b).contains(w) {
            let p = choose|p: PositionView| b.contains(p) && w == #[trigger] strip(p);
            assert(a.union(b).contains(p));
        }
    }
    assert(core_set(a.union(b)) =~= core_set(a).union(core_set(b)));
}

/// Only the empty set has empty cores.
pub proof fn lemma_core_empty(a: Set<PositionView>)
    ensures
        (core_set(a) == Set::<PositionView>::empty()) == (a == Set::<PositionView>::empty()),
{
    if a != Set::<PositionView>::empty() {
        let p = a.choose();
        assert(a.contains(p)) by {
            assert(!(a =~= Set::<PositionView>::empty()));
        }
        assert(core_set(a).contains(strip(p)));
    } else {
        assert(core_set(a) =~= Set::<PositionView>::empty());
    }
}

/// Removing an entry keeps a state canonical and drops exactly that item.
proof fn lemma_state_remove(s: Seq<Position>, k: int)
    requires
        wf_state(s),
        0 <= k < s.len(),
    ensures
        wf_state(s.remove(k)),
        forall|v: PositionView| holds(s.remove(k), v) <==> (holds(s, v) && v != s[k]@),
{
    let r = s.remove(k);
    assert(views(r) =~= views(s).remove(k));
    assert forall|a: int, b: int| 0 <= a < b < views(r).len() implies crate::pos::pos_lt(
        #[trigger] views(r)[a],
        #[trigger] views(r)[b],
    ) by {
        let a2 = if a < k { a } else { a + 1 };
        let b2 = if b < k { b } else { b + 1 };
        assert(views(s)[a2] == views(r)[a]);
        assert(views(s)[b2] == views(r)[b]);
    }
    crate::pos::lemma_pos_lt_total();
    crate::pos::lemma_canonical_sorted_by(views(s));
    crate::symset::lemma_sorted_no_dup(views(s), |x: PositionView, y: PositionView| crate::pos::pos_lt(x, y));
    assert forall|v: PositionView| holds(r, v) <==> (holds(s, v) && v != s[k]@) by {
        if holds(r, v) {
            let a = choose|a: int| 0 <= a < views(r).len() && views(r)[a] == v;
            let a2 = if a < k { a } else { a + 1 };
            assert(views(s)[a2] == v);
            assert(a2 != k);
            assert(views(s)[k] == s[k]@);
        }
        if holds(s, v) && v != s[k]@ {
            let a = choose|a: int| 0 <= a < views(s).len() && views(s)[a] == v;
            assert(a != k);
            if a < k {
                assert(views(r)[a] == v);
            } else {
                assert(views(r)[a - 1] == v);
            }
        }
    }
}

/// Adding an item whose core is already kept: the kept item gets its lookaheads too.
proof fn lemma_merge_found(
    pre: Set<PositionView>,
    pv: PositionView,
    r0: Set<PositionView>,
    w: PositionView,
    npv: PositionView,
)
    requires
        merged_ok(pre, r0),
        r0.contains(w),
        same_core(pv, w),
        same_core(npv, pv),
        sorted_set(npv.look),
        forall|y: usize| npv.look.contains(y) <==> (pv.look.contains(y) || w.look.contains(y)),
    ensures
        merged_ok(pre.insert(pv), r0.remove(w).insert(npv)),
{
    let post = pre.insert(pv);
    let r1 = r0.remove(w).insert(npv);
    assert(strip(npv) == strip(w));
    assert(strip(pv) == strip(w));
    assert forall|c: PositionView| core_set(r1).contains(c) <==> core_set(post).contains(c) by {
        if core_set(r1).contains(c) {
            let v = choose|v: PositionView| r1.contains(v) && c == #[trigger] strip(v);
            if v == npv {
                assert(post.contains(pv));
            } else {
                assert(core_set(r0).contains(c));
                let p = choose|p: PositionView| pre.contains(p) && c == #[trigger] strip(p);
                assert(post.contains(p));
            }
        }
        if core_set(post).contains(c) {
            let p = choose|p: PositionView| post.contains(p) && c == #[trigger] strip(p);
            if p == pv {
                assert(r1.contains(npv));
            } else {
                assert(core_set(pre).contains(c));
                let v = choose|v: PositionView| r0.contains(v) && c == #[trigger] strip(v);
                if v == w {
                    assert(r1.contains(npv));
                } else {
                    assert(r1.contains(v));
                }
            }
        }
    }
    assert(core_set(r1) =~= core_set(post));
    assert forall|v: PositionView| #[trigger] r1.contains(v) implies {
        &&& sorted_set(v.look)
        &&& forall|y: usize|
            v.look.contains(y) <==> exists|p2: PositionView|
                post.contains(p2) && same_core(p2, v) && #[trigger] p2.look.contains(y)
    } by {
        if v == npv {
            assert forall|y: usize|
                v.look.contains(y) <==> exists|p2: PositionView|
                    post.contains(p2) && same_core(p2, v) && #[trigger] p2.look.contains(y) by {
                if v.look.contains(y) {
                    if pv.look.contains(y) {
                        assert(post.contains(pv) && same_core(pv, v) && pv.look.contains(y));
                    } else {
                        assert(w.look.contains(y));
                        let p2 = choose|p2: PositionView|
                            pre.contains(p2) && same_core(p2, w) && #[trigger] p2.look.contains(y);
                        assert(post.contains(p2) && same_core(p2, v) && p2.look.contains(y));
                    }
                }
                if exists|p2: PositionView| post.contains(p2) && same_core(p2, v) && #[trigger] p2.look.contains(y) {
                    let p2 = choose|p2: PositionView|
                        post.contains(p2) && same_core(p2, v) && #[trigger] p2.look.contains(y);
                    if p2 != pv {
                        assert(pre.contains(p2) && same_core(p2, w) && p2.look.contains(y));
                        assert(w.look.contains(y));
                    }
                }
            }
        } else {
            assert(r0.contains(v) && v != w);
            assert(!same_core(pv, v)) by {
                if same_core(pv, v) {
                    assert(same_core(v, w));
                }
            }
            assert forall|y: usize|
                v.look.contains(y) <==> exists|p3: PositionView|
                    post.contains(p3) && same_core(p3, v) && #[trigger] p3.look.contains(y) by {
                if exists|p3: PositionView| post.contains(p3) && same_core(p3, v) && #[trigger] p3.look.contains(y) {
                    let p3 = choose|p3: PositionView|
                        post.contains(p3) && same_core(p3, v) && #[trigger] p3.look.contains(y);
                    assert(p3 != pv);
                    assert(pre.contains(p3));
                }
                if v.look.contains(y) {
                    let p3 = choose|p3: PositionView|
                        pre.contains(p3) && same_core(p3, v) && #[trigger] p3.look.contains(y);
                    assert(post.contains(p3));
                }
            }
        }
    }
    assert forall|v1: PositionView, v2: PositionView|
        r1.contains(v1) && r1.contains(v2) && #[trigger] same_core(v1, v2) implies v1 == v2 by {
        if v1 == npv && v2 != npv {
            assert(same_core(w, v2));
        } else if v2 == npv && v1 != npv {
            assert(same_core(w, v1));
        }
    }
}

/// Adding an item of a new core keeps it as it is.
proof fn lemma_merge_new(pre: Set<PositionView>, pv: PositionView, r0: Set<PositionView>)
    requires
        merged_ok(pre, r0),
        forall|v: PositionView| r0.contains(v) ==> !same_core(v, pv),
        sorted_set(pv.look),
    ensures
        merged_ok(pre.insert(pv), r0.insert(pv)),
{
    let post = pre.insert(pv);
    let r1 = r0.insert(pv);
    assert forall|p2: PositionView| pre.contains(p2) implies !same_core(p2, pv) by {
        if same_core(p2, pv) {
            assert(core_set(pre).contains(strip(p2)));
            let v = choose|v: PositionView| r0.contains(v) && strip(p2) == #[trigger] strip(v);
            assert(same_core(v, pv));
        }
    }
    assert forall|c: PositionView| core_set(r1).contains(c) <==> core_set(post).contains(c) by {
        if core_set(r1).contains(c) {
            let v = choose|v: PositionView| r1.contains(v) && c == #[trigger] strip(v);
            if v == pv {
                assert(post.contains(pv));
            } else {
                assert(core_set(r0).contains(c));
                let p = choose|p: PositionView| pre.contains(p) && c == #[trigger] strip(p);
                assert(post.contains(p));
            }
        }
        if core_set(post).contains(c) {
            let p = choose|p: PositionView| post.contains(p) && c == #[trigger] strip(p);
            if p == pv {
                assert(r1.contains(pv));
            } else {
                assert(core_set(pre).contains(c));
                let v = choose|v: PositionView| r0.contains(v) && c == #[trigger] strip(v);
                assert(r1.contains(v));
            }
        }
    }
    assert(core_set(r1) =~= core_set(post));
    assert forall|v: PositionView| #[trigger] r1.contains(v) implies {
        &&& sorted_set(v.look)
        &&& forall|y: usize|
            v.look.contains(y) <==> exists|p2: PositionView|
                post.contains(p2) && same_core(p2, v) && #[trigger] p2.look.contains(y)
    } by {
        if v == pv {
            assert forall|y: usize|
                v.look.contains(y) <==> exists|p2: PositionView|
                    post.contains(p2) && same_core(p2, v) && #[trigger] p2.look.contains(y) by {
                if v.look.contains(y) {
                    assert(post.contains(pv) && same_core(pv, v) && pv.look.contains(y));
                }
                if exists|p2: PositionView| post.contains(p2) && same_core(p2, v) && #[trigger] p2.look.contains(y) {
                    let p2 = choose|p2: PositionView|
                        post.contains(p2) && same_core(p2, v) && #[trigger] p2.look.contains(y);
                    if p2 != pv {
                        assert(pre.contains(p2));
                    }
                }
            }
        } else {
            assert(r0.contains(v));
            assert(!same_core(pv, v));
            assert forall|y: usize|
                v.look.contains(y) <==> exists|p3: PositionView|
                    post.contains(p3) && same_core(p3, v) && #[trigger] p3.look.contains(y) by {
                if exists|p3: PositionView| post.contains(p3) && same_core(p3, v) && #[trigger] p3.look.contains(y) {
                    let p3 = choose|p3: PositionView|
                        post.contains(p3) && same_core(p3, v) && #[trigger] p3.look.contains(y);
                    assert(p3 != pv);
                    assert(pre.contains(p3));
                }
                if v.look.contains(y) {
                    let p3 = choose|p3: PositionView|
                        pre.contains(p3) && same_core(p3, v) && #[trigger] p3.look.contains(y);
                    assert(post.contains(p3));
                }
            }
        }
    }
    assert forall|v1: PositionView, v2: PositionView|
        r1.contains(v1) && r1.contains(v2) && #[trigger] same_core(v1, v2) implies v1 == v2 by {
        if v1 == pv && v2 != pv {
            assert(same_core(v2, pv));
        } else if v2 == pv && v1 != pv {
            assert(same_core(v1, pv));
        }
    }
}

/// One item for each core of `states`, with the lookaheads of all its items of that core.
pub fn merged_state(states: State) -> (r: State)
    requires
        looks_sorted(items(states@)),
    ensures
        wf_state(r@),
        merged_ok(items(states@), items(r@)),
{
    let ghost all = items(states@);
    let mut new: State = Vec::new();
    let mut i: usize = 0;
    assert(merged_ok(views(states@).subrange(0, 0).to_set(), items(new@))) by {
        assert(views(states@).subrange(0, 0).to_set() =~= Set::<PositionView>::empty());
        assert(items(new@) =~= Set::<PositionView>::empty());
    }
    while i < states.len()
        invariant
            i <= states@.len(),
            all == items(states@),
            looks_sorted(all),
            wf_state(new@),
            merged_ok(views(states@).subrange(0, i as int).to_set(), items(new@)),
        decreases states@.len() - i,
    {
        let ghost pre_s = views(states@).subrange(0, i as int);
        let ghost post_s = views(states@).subrange(0, i + 1);
        let ghost pre = pre_s.to_set();
        let ghost pv = states@[i as int]@;
        let ghost r0 = items(new@);
        proof {
            assert(views(states@)[i as int] == pv);
            assert(all.contains(pv));
            assert(post_s =~= pre_s.push(pv));
            assert forall|q: PositionView| post_s.to_set().contains(q) <==> pre.insert(pv).contains(q) by {
                if post_s.contains(q) {
                    let a = choose|a: int| 0 <= a < post_s.len() && #[trigger] post_s[a] == q;
                    if a < i {
                        assert(pre_s[a] == q);
                    }
                }
                if pre_s.contains(q) {
                    let a = choose|a: int| 0 <= a < pre_s.len() && #[trigger] pre_s[a] == q;
                    assert(post_s[a] == q);
                }
                if q == pv {
                    assert(post_s[i as int] == q);
                }
            }
            assert(post_s.to_set() =~= pre.insert(pv));
        }
        let p = states[i].copy();
        let mut k: usize = 0;
        while k < new.len() && !new[k].body_eq(&p)
            invariant
                k <= new@.len(),
                p@ == pv,
                forall|a: int| 0 <= a < k ==> !same_core(#[trigger] new@[a]@, pv),
            decreases new@.len() - k,
        {
            k = k + 1;
        }
        if k < new.len() {
            let ghost w = new@[k as int]@;
            let mut look = crate::pos::copy_syms(&p.look);
            let ghost l0 = look@;
            assert(l0 == pv.look);
            let other = &new[k].look;
            assert(other@ == w.look);
            set_extend(&mut look, other);
            assert(sorted_set(look@));
            assert forall|y: usize| look@.contains(y) <==> (pv.look.contains(y) || w.look.contains(y)) by {
                assert(look@.contains(y) <==> (l0.contains(y) || other@.contains(y)));
            }
            let np = p.with_look(look);
            let ghost npv = np@;
            let ghost n0 = new@;
            proof {
                assert(views(n0)[k as int] == w);
                assert(r0.contains(w));
                lemma_state_remove(n0, k as int);
            }
            new.remove(k);
            state_insert(&mut new, np);
            proof {
                assert(same_core(pv, w));
                lemma_merge_found(pre, pv, r0, w, npv);
                assert forall|v: PositionView| items(new@).contains(v) <==> r0.remove(w).insert(npv).contains(v) by {
                    assert(items(new@).contains(v) == holds(new@, v));
                    assert(r0.contains(v) == holds(n0, v));
                }
                assert(items(new@) =~= r0.remove(w).insert(npv));
            }
        } else {
            let ghost n0 = new@;
            state_insert(&mut new, p);
            proof {
                assert forall|v: PositionView| r0.contains(v) implies !same_core(v, pv) by {
                    let a = choose|a: int| 0 <= a < views(n0).len() && views(n0)[a] == v;
                    assert(!same_core(n0[a]@, pv));
                }
                lemma_merge_new(pre, pv, r0);
                assert forall|v: PositionView| items(new@).contains(v) <==> r0.insert(pv).contains(v) by {
                    assert(items(new@).contains(v) == holds(new@, v));
                    assert(r0.contains(v) == holds(n0, v));
                }
                assert(items(new@) =~= r0.insert(pv));
            }
        }
        i = i + 1;
    }
    proof {
        assert(views(states@).subrange(0, states@.len() as int) =~= views(states@));
    }
    new
}

/// One direction of [`lemma_merged_unique`].
proof fn lemma_merged_sub(s: Set<PositionView>, r1: Set<PositionView>, r2: Set<PositionView>, v: PositionView)
    requires
        merged_ok(s, r1),
        merged_ok(s, r2),
        r1.contains(v),
    ensures
        r2.contains(v),
{
    assert(core_set(r1).contains(strip(v)));
    let w = choose|w: PositionView| r2.contains(w) && strip(v) == #[trigger] strip(w);
    assert(same_core(v, w));
    assert forall|y: usize| v.look.contains(y) <==> w.look.contains(y) by {
        if v.look.contains(y) {
            let q = choose|q: PositionView| s.contains(q) && same_core(q, v) && #[trigger] q.look.contains(y);
            assert(same_core(q, w));
        }
        if w.look.contains(y) {
            let q = choose|q: PositionView| s.contains(q) && same_core(q, w) && #[trigger] q.look.contains(y);
            assert(same_core(q, v));
        }
    }
    crate::symset::lemma_sorted_set_ext(v.look, w.look);
}

/// The merge of a set is unique.
pub proof fn lemma_merged_unique(s: Set<PositionView>, r1: Set<PositionView>, r2: Set<PositionView>)
    requires
        merged_ok(s, r1),
        merged_ok(s, r2),
    ensures
        r1 == r2,
{
    assert forall|v: PositionView| r1.contains(v) implies r2.contains(v) by {
        lemma_merged_sub(s, r1, r2, v);
    }
    assert forall|v: PositionView| r2.contains(v) implies r1.contains(v) by {
        lemma_merged_sub(s, r2, r1, v);
    }
    assert(r1 =~= r2);
}

/// The merge of nothing is nothing.
proof fn lemma_merged_empty(r: Set<PositionView>)
    requires
        merged_ok(Set::<PositionView>::empty(), r),
    ensures
        r == Set::<PositionView>::empty(),
{
    assert forall|v: PositionView| !r.contains(v) by {
        if r.contains(v) {
            assert(core_set(r).contains(strip(v)));
            assert(core_set(Set::<PositionView>::empty()) =~= Set::<PositionView>::empty());
        }
    }
    assert(r =~= Set::<PositionView>::empty());
}

/// How [`Lalr::update_state`] changes the tables: kernel entry `j0` (of state `id`) is
/// removed and an entry for `nk` with state `id` appended; state `id` is replaced; the
/// value of raw entry `b` becomes `nk`.
pub open spec fn update_rel(
    st0: Seq<State>,
    ke0: Seq<(State, usize)>,
    ra0: Seq<(State, State)>,
    nk: Seq<Position>,
    j0: int,
    b: int,
    st1: Seq<State>,
    ke1: Seq<(State, usize)>,
    ra1: Seq<(State, State)>,
) -> bool {
    &&& 0 <= j0 < ke0.len()
    &&& st1.len() == st0.len()
    &&& forall|j: int| 0 <= j < st0.len() && j != ke0[j0].1 ==> #[trigger] st1[j] == st0[j]
    &&& ke1.len() == ke0.len()
    &&& forall|a: int| 0 <= a < j0 ==> #[trigger] ke1[a] == ke0[a]
    &&& forall|a: int| j0 <= a < ke0.len() - 1 ==> #[trigger] ke1[a] == ke0[a + 1]
    &&& items(ke1[ke0.len() - 1].0@) == items(nk)
    &&& wf_state(ke1[ke0.len() - 1].0@)
    &&& ke1[ke0.len() - 1].1 == ke0[j0].1
    &&& 0 <= b < ra0.len()
    &&& ra1.len() == ra0.len()
    &&& forall|c: int| 0 <= c < ra0.len() && c != b ==> #[trigger] ra1[c] == ra0[c]
    &&& ra1[b].0 == ra0[b].0
    &&& items(ra1[b].1@) == items(nk)
    &&& wf_state(ra1[b].1@)
}

/// The old kernel entry that new entry `a` (below the appended one) comes from.
pub open spec fn old_index(j0: int, a: int) -> int {
    if a < j0 {
        a
    } else {
        a + 1
    }
}

/// Facts about the merge that [`Lalr::update_state`] performs.
proof fn lemma_update_facts(
    g: Grammar,
    first: Seq<(usize, Vec<usize>)>,
    st0: Seq<State>,
    ke0: Seq<(State, usize)>,
    ra0: Seq<(State, State)>,
    main: Seq<Position>,
    inc: Seq<Position>,
    closures: Seq<Position>,
    nk: Seq<Position>,
    j0: int,
    st1: Seq<State>,
)
    requires
        g.wf(),
        table_wf(first),
        lalr_inv(g, tview(first), st0, ke0, ra0),
        core_set(items(inc)) == core_set(items(main)),
        closes(g, tview(first), true, items(inc), items(closures)),
        kernel_at(ke0, items(main), j0),
        merged_ok(items(inc).union(items(main)), items(nk)),
        items(nk) != items(main),
        merged_ok(items(st0[ke0[j0].1 as int]@).union(items(closures)), items(st1[ke0[j0].1 as int]@)),
    ensures
        items(main) != Set::<PositionView>::empty(),
        items(nk) != Set::<PositionView>::empty(),
        core_set(items(nk)) == core_set(items(main)),
        ke0[j0].1 != 0,
        kernel_state(ke0, items(main)) == ke0[j0].1,
        core_set(items(st1[ke0[j0].1 as int]@)) == core_set(items(st0[ke0[j0].1 as int]@)),
        forall|a: int|
            0 <= a < ke0.len() && a != j0 && items(#[trigger] ke0[a].0@) != Set::<PositionView>::empty()
                ==> core_set(items(ke0[a].0@)) != core_set(items(main)),
        forall|a: int| 0 <= a < ke0.len() && a != j0 ==> #[trigger] ke0[a].1 != ke0[j0].1,
        has_raw(ra0, core_set(items(main))),
        raw_value(ra0, core_set(items(main))) == items(main),
{
    reveal(inv_kernels);
    reveal(inv_start);
    reveal(inv_cores);
    reveal(inv_raws);
    let f = tview(first);
    let id = ke0[j0].1;
    let mi = items(main);
    let ni = items(nk);
    let e = Set::<PositionView>::empty();
    lemma_kernel_at_distinct(ke0, j0);
    if mi == e {
        lemma_core_empty(mi);
        lemma_core_empty(items(inc));
        assert(items(inc).union(mi) =~= e);
        lemma_merged_empty(ni);
    }
    lemma_core_union(items(inc), mi);
    assert(core_set(ni) == core_set(mi)) by {
        assert(core_set(items(inc)).union(core_set(mi)) =~= core_set(mi));
    }
    lemma_core_empty(ni);
    lemma_core_empty(mi);
    assert forall|a: int| 0 <= a < ke0.len() && a != j0 implies #[trigger] ke0[a].1 != ke0[j0].1 by {
        if a < j0 {
            assert(ke0[a].1 != ke0[j0].1);
        } else {
            assert(ke0[j0].1 != ke0[a].1);
        }
    }
    let ae = choose|a: int| 0 <= a < ke0.len() && #[trigger] items(ke0[a].0@) == e;
    lemma_kernel_at_distinct(ke0, ae);
    assert(ae != j0);
    lemma_core_closes(g, first, items(inc), items(closures));
    assert(closes(g, f, false, core_set(mi), core_set(items(st0[id as int]@))));
    lemma_closes_unique(g, f, false, core_set(mi), core_set(items(closures)), core_set(items(st0[id as int]@)));
    lemma_core_union(items(st0[id as int]@), items(closures));
    assert(core_set(items(st1[id as int]@)) == core_set(items(st0[id as int]@))) by {
        assert(core_set(items(st0[id as int]@)).union(core_set(items(closures))) =~= core_set(items(st0[id as int]@)));
    }
    assert forall|a: int|
        0 <= a < ke0.len() && a != j0 && items(#[trigger] ke0[a].0@) != e implies core_set(items(ke0[a].0@))
            != core_set(mi) by {
        if core_set(items(ke0[a].0@)) == core_set(mi) {
            assert(raw_value(ra0, core_set(items(ke0[a].0@))) == items(ke0[a].0@));
            assert(raw_value(ra0, core_set(mi)) == mi);
            if a < j0 {
                assert(items(ke0[a].0@) != items(ke0[j0].0@));
            } else {
                assert(items(ke0[j0].0@) != items(ke0[a].0@));
            }
        }
    }
}

/// [`Lalr::update_state`] keeps [`inv_kernels`] and changes the kernel map as it says.
proof fn lemma_update_kernels(
    g: Grammar,
    st0: Seq<State>,
    ke0: Seq<(State, usize)>,
    ra0: Seq<(State, State)>,
    main: Seq<Position>,
    nk: Seq<Position>,
    j0: int,
    b: int,
    st1: Seq<State>,
    ke1: Seq<(State, usize)>,
    ra1: Seq<(State, State)>,
)
    requires
        inv_kernels(g, st0.len() as int, ke0),
        update_rel(st0, ke0, ra0, nk, j0, b, st1, ke1, ra1),
        kernel_at(ke0, items(main), j0),
        set_ok(g, items(nk)),
        items(nk) != Set::<PositionView>::empty(),
        forall|a: int|
            0 <= a < ke0.len() && a != j0 && items(#[trigger] ke0[a].0@) != Set::<PositionView>::empty()
                ==> core_set(items(ke0[a].0@)) != core_set(items(main)),
        core_set(items(nk)) == core_set(items(main)),
        forall|a: int| 0 <= a < ke0.len() && a != j0 ==> #[trigger] ke0[a].1 != ke0[j0].1,
    ensures
        inv_kernels(g, st1.len() as int, ke1),
        kview(ke1) == kview(ke0).remove(items(main)).insert(items(nk), ke0[j0].1),
{
    reveal(inv_kernels);
    let n = ke0.len();
    let last = n - 1;
    let mi = items(main);
    let ni = items(nk);
    let id = ke0[j0].1;
    let e = Set::<PositionView>::empty();
    assert forall|a: int| 0 <= a < last implies #[trigger] ke1[a] == ke0[old_index(j0, a)] by {}
    assert forall|x: int, y: int| 0 <= x < y < ke1.len() implies items(#[trigger] ke1[x].0@) != items(#[trigger] ke1[y].0@) by {
        let ox = old_index(j0, x);
        assert(ke1[x] == ke0[ox]);
        if y == last {
            if items(ke0[ox].0@) == ni {
                assert(core_set(items(ke0[ox].0@)) == core_set(mi));
            }
        } else {
            let oy = old_index(j0, y);
            assert(ke1[y] == ke0[oy]);
        }
    }
    assert forall|x: int, y: int| 0 <= x < y < ke1.len() implies (#[trigger] ke1[x]).1 != (#[trigger] ke1[y]).1 by {
        let ox = old_index(j0, x);
        assert(ke1[x] == ke0[ox]);
        if y != last {
            let oy = old_index(j0, y);
            assert(ke1[y] == ke0[oy]);
        }
    }
    assert forall|a: int| 0 <= a < ke1.len() implies (#[trigger] ke1[a]).1 < st1.len() && set_ok(g, items(ke1[a].0@)) by {
        if a < last {
            assert(ke1[a] == ke0[old_index(j0, a)]);
        }
    }
    assert forall|a: int| 0 <= a < ke1.len() implies wf_state(#[trigger] ke1[a].0@) by {
        if a < last {
            assert(ke1[a] == ke0[old_index(j0, a)]);
        }
    }
    assert(inv_kernels(g, st1.len() as int, ke1));
    assert forall|k: Set<PositionView>| #[trigger] kview(ke1).dom().contains(k) <==> kview(ke0).remove(mi).insert(ni, id).dom().contains(k) by {
        if has_kernel(ke1, k) {
            let a = choose|a: int| 0 <= a < ke1.len() && #[trigger] items(ke1[a].0@) == k;
            if a < last {
                assert(ke1[a] == ke0[old_index(j0, a)]);
                assert(items(ke0[old_index(j0, a)].0@) != mi);
            }
        }
        if has_kernel(ke0, k) && k != mi {
            let a = choose|a: int| 0 <= a < n && #[trigger] items(ke0[a].0@) == k;
            assert(a != j0);
            let a1 = if a < j0 { a } else { a - 1 };
            assert(ke1[a1] == ke0[a]);
        }
        if k == ni {
            assert(items(ke1[last].0@) == ni);
        }
    }
    assert(kview(ke1).dom() =~= kview(ke0).remove(mi).insert(ni, id).dom());
    assert forall|k: Set<PositionView>| #[trigger] kview(ke1).contains_key(k) implies kview(ke1)[k] == kview(ke0).remove(mi).insert(ni, id)[k] by {
        let a = choose|a: int| 0 <= a < ke1.len() && #[trigger] items(ke1[a].0@) == k;
        lemma_kernel_at_distinct(ke1, a);
        if a < last {
            let oa = old_index(j0, a);
            assert(ke1[a] == ke0[oa]);
            lemma_kernel_at_distinct(ke0, oa);
            assert(items(ke0[oa].0@) != mi);
        }
    }
    assert(kview(ke1) =~= kview(ke0).remove(mi).insert(ni, id));
}

/// [`Lalr::update_state`] keeps [`inv_states`].
proof fn lemma_update_states(
    g: Grammar,
    st0: Seq<State>,
    ke0: Seq<(State, usize)>,
    ra0: Seq<(State, State)>,
    nk: Seq<Position>,
    j0: int,
    b: int,
    st1: Seq<State>,
    ke1: Seq<(State, usize)>,
    ra1: Seq<(State, State)>,
)
    requires
        inv_states(g, st0),
        update_rel(st0, ke0, ra0, nk, j0, b, st1, ke1, ra1),
        0 <= ke0[j0].1 < st0.len(),
        wf_state(st1[ke0[j0].1 as int]@),
        set_ok(g, items(st1[ke0[j0].1 as int]@)),
    ensures
        inv_states(g, st1),
{
    reveal(inv_states);
    assert forall|j: int| 0 <= j < st1.len() implies wf_state(#[trigger] st1[j]@) && set_ok(g, items(st1[j]@)) by {
        if j != ke0[j0].1 {
            assert(st1[j] == st0[j]);
        }
    }
}

/// [`Lalr::update_state`] keeps [`inv_start`].
proof fn lemma_update_start(
    g: Grammar,
    f: Map<usize, Set<usize>>,
    st0: Seq<State>,
    ke0: Seq<(State, usize)>,
    ra0: Seq<(State, State)>,
    main: Seq<Position>,
    nk: Seq<Position>,
    j0: int,
    b: int,
    st1: Seq<State>,
    ke1: Seq<(State, usize)>,
    ra1: Seq<(State, State)>,
)
    requires
        inv_start(g, f, st0, ke0),
        inv_kernels(g, st0.len() as int, ke0),
        inv_kernels(g, st1.len() as int, ke1),
        update_rel(st0, ke0, ra0, nk, j0, b, st1, ke1, ra1),
        kernel_at(ke0, items(main), j0),
        items(main) != Set::<PositionView>::empty(),
        ke0[j0].1 != 0,
        st0.len() >= 1,
    ensures
        inv_start(g, f, st1, ke1),
{
    reveal(inv_start);
    reveal(inv_kernels);
    let e = Set::<PositionView>::empty();
    let ae = choose|a: int| 0 <= a < ke0.len() && #[trigger] items(ke0[a].0@) == e;
    lemma_kernel_at_distinct(ke0, ae);
    assert(ae != j0);
    let ae1 = if ae < j0 { ae } else { ae - 1 };
    assert(ke1[ae1] == ke0[ae]);
    lemma_kernel_at_distinct(ke1, ae1);
    assert(has_kernel(ke1, e));
    assert(st1[0] == st0[0]);
}

/// [`Lalr::update_state`] keeps [`inv_cores`].
proof fn lemma_update_cores(
    g: Grammar,
    f: Map<usize, Set<usize>>,
    st0: Seq<State>,
    ke0: Seq<(State, usize)>,
    ra0: Seq<(State, State)>,
    main: Seq<Position>,
    nk: Seq<Position>,
    j0: int,
    b: int,
    st1: Seq<State>,
    ke1: Seq<(State, usize)>,
    ra1: Seq<(State, State)>,
)
    requires
        inv_cores(g, f, st0, ke0),
        update_rel(st0, ke0, ra0, nk, j0, b, st1, ke1, ra1),
        kernel_at(ke0, items(main), j0),
        items(main) != Set::<PositionView>::empty(),
        core_set(items(nk)) == core_set(items(main)),
        core_set(items(st1[ke0[j0].1 as int]@)) == core_set(items(st0[ke0[j0].1 as int]@)),
        forall|a: int| 0 <= a < ke0.len() && a != j0 ==> #[trigger] ke0[a].1 != ke0[j0].1,
        forall|a: int| 0 <= a < ke0.len() ==> (#[trigger] ke0[a]).1 < st0.len(),
    ensures
        inv_cores(g, f, st1, ke1),
{
    reveal(inv_cores);
    let last = ke0.len() - 1;
    assert(closes(g, f, false, core_set(items(main)), core_set(items(st0[ke0[j0].1 as int]@)))) by {
        assert(items(ke0[j0].0@) == items(main));
    }
    assert forall|a: int|
        0 <= a < ke1.len() && items(#[trigger] ke1[a].0@) != Set::<PositionView>::empty() implies closes(
            g,
            f,
            false,
            core_set(items(ke1[a].0@)),
            core_set(items(st1[ke1[a].1 as int]@)),
        ) by {
        if a < last {
            let oa = old_index(j0, a);
            assert(ke1[a] == ke0[oa]);
            assert(ke0[oa].1 != ke0[j0].1);
            assert(st1[ke1[a].1 as int] == st0[ke0[oa].1 as int]);
        }
    }
}

/// [`Lalr::update_state`] keeps [`inv_raws`], keeps the cores `raws` holds, and maps
/// the core of the new kernel to it.
proof fn lemma_update_raws(
    st0: Seq<State>,
    ke0: Seq<(State, usize)>,
    ra0: Seq<(State, State)>,
    main: Seq<Position>,
    nk: Seq<Position>,
    j0: int,
    b: int,
    st1: Seq<State>,
    ke1: Seq<(State, usize)>,
    ra1: Seq<(State, State)>,
)
    requires
        inv_raws(ke0, ra0),
        update_rel(st0, ke0, ra0, nk, j0, b, st1, ke1, ra1),
        kernel_at(ke0, items(main), j0),
        forall|x: int, y: int|
            0 <= x < y < ke0.len() ==> items(#[trigger] ke0[x].0@) != items(#[trigger] ke0[y].0@),
        items(ra0[b].0@) == core_set(items(nk)),
        core_set(items(nk)) == core_set(items(main)),
        items(nk) != Set::<PositionView>::empty(),
        forall|a: int|
            0 <= a < ke0.len() && a != j0 && items(#[trigger] ke0[a].0@) != Set::<PositionView>::empty()
                ==> core_set(items(ke0[a].0@)) != core_set(items(main)),
    ensures
        inv_raws(ke1, ra1),
        forall|c: Set<PositionView>| has_raw(ra1, c) == has_raw(ra0, c),
        rview(ra1) == rview(ra0).insert(core_set(items(nk)), items(nk)),
{
    reveal(inv_raws);
    let n = ke0.len();
    let last = n - 1;
    let mi = items(main);
    let ni = items(nk);
    let e = Set::<PositionView>::empty();
    assert forall|c: int| 0 <= c < ra1.len() implies wf_state(#[trigger] ra1[c].0@) && wf_state(ra1[c].1@) by {
        if c != b {
            assert(ra1[c] == ra0[c]);
        }
    }
    assert forall|x: int, y: int| 0 <= x < y < ra1.len() implies items(#[trigger] ra1[x].0@) != items(#[trigger] ra1[y].0@) by {
        assert(ra1[x].0 == ra0[x].0);
        assert(ra1[y].0 == ra0[y].0);
    }
    assert(has_kernel(ke1, ni)) by {
        assert(items(ke1[last].0@) == ni);
    }
    assert forall|c: int|
        0 <= c < ra1.len() && items(#[trigger] ra1[c].0@) != e implies has_kernel(ke1, items(ra1[c].1@))
            && core_set(items(ra1[c].1@)) == items(ra1[c].0@) by {
        if c != b {
            assert(ra1[c] == ra0[c]);
            assert(has_kernel(ke0, items(ra0[c].1@)));
            let a = choose|a: int| 0 <= a < n && #[trigger] items(ke0[a].0@) == items(ra0[c].1@);
            assert(items(ra0[c].0@) != items(ra0[b].0@));
            assert(a != j0);
            let a1 = if a < j0 { a } else { a - 1 };
            assert(ke1[a1] == ke0[a]);
        }
    }
    assert forall|c: Set<PositionView>| has_raw(ra1, c) == has_raw(ra0, c) by {
        if has_raw(ra0, c) {
            let x = choose|x: int| 0 <= x < ra0.len() && #[trigger] items(ra0[x].0@) == c;
            assert(ra1[x].0 == ra0[x].0);
        }
        if has_raw(ra1, c) {
            let x = choose|x: int| 0 <= x < ra1.len() && #[trigger] items(ra1[x].0@) == c;
            assert(ra1[x].0 == ra0[x].0);
        }
    }
    lemma_raw_at_distinct(ra1, b);
    assert forall|a: int|
        0 <= a < ke1.len() && items(#[trigger] ke1[a].0@) != e implies has_raw(ra1, core_set(items(ke1[a].0@)))
            && raw_value(ra1, core_set(items(ke1[a].0@))) == items(ke1[a].0@) by {
        if a < last {
            let oa = old_index(j0, a);
            assert(ke1[a] == ke0[oa]);
            let c = core_set(items(ke0[oa].0@));
            assert(has_raw(ra0, c));
            let x = choose|x: int| 0 <= x < ra0.len() && #[trigger] items(ra0[x].0@) == c;
            lemma_raw_at_distinct(ra0, x);
            assert(x != b);
            assert(ra1[x] == ra0[x]);
            lemma_raw_at_distinct(ra1, x);
        }
    }
    assert(inv_raws(ke1, ra1));
    assert forall|c: Set<PositionView>| #[trigger] rview(ra1).dom().contains(c) <==> rview(ra0).insert(core_set(ni), ni).dom().contains(c) by {
        if c == core_set(ni) {
            assert(items(ra1[b].0@) == c);
        }
    }
    assert(rview(ra1).dom() =~= rview(ra0).insert(core_set(ni), ni).dom());
    assert forall|c: Set<PositionView>| #[trigger] rview(ra1).contains_key(c) implies rview(ra1)[c] == rview(ra0).insert(core_set(ni), ni)[c] by {
        let x = choose|x: int| 0 <= x < ra1.len() && #[trigger] items(ra1[x].0@) == c;
        lemma_raw_at_distinct(ra1, x);
        if x != b {
            assert(ra1[x] == ra0[x]);
            lemma_raw_at_distinct(ra0, x);
            assert(items(ra0[x].0@) != items(ra0[b].0@));
        }
    }
    assert(rview(ra1) =~= rview(ra0).insert(core_set(ni), ni));
}

/// Every move over a symbol from a state, for the pairs before `at`, gives an empty
/// kernel or one whose core `raws` holds.
pub open spec fn lalr_ready_before(g: Grammar, states: Seq<State>, raws: Seq<(State, State)>, at: (int, int)) -> bool {
    forall|i: int, k: int|
        #![trigger goto_set(items(states[i]@), g.symbols@[k])]
        0 <= i < states.len() && 0 <= k < g.symbols@.len() && lex_lt((i, k), at) ==> goto_set(
            items(states[i]@),
            g.symbols@[k],
        ) == Set::<PositionView>::empty() || has_raw(raws, core_set(goto_set(items(states[i]@), g.symbols@[k])))
}

/// State `k` has the cores of the LR(0) closure of a move, over some symbol and holding
/// some item, from the cores of an earlier state.
pub open spec fn derived_from(g: Grammar, f: Map<usize, Set<usize>>, states: Seq<State>, k: int) -> bool {
    exists|i: int, x: usize|
        0 <= i < k && goto_set(core_set(items(states[i]@)), x) != Set::<PositionView>::empty() && #[trigger] closes(
            g,
            f,
            false,
            goto_set(core_set(items(states[i]@)), x),
            core_set(items(states[k]@)),
        )
}

/// Every state after the first was derived from an earlier one, as [`derived_from`] says.
pub open spec fn states_derived(g: Grammar, f: Map<usize, Set<usize>>, states: Seq<State>) -> bool {
    forall|k: int| 1 <= k < states.len() ==> #[trigger] derived_from(g, f, states, k)
}

/// The derivation of the states stays while their cores stay.
proof fn lemma_derived_stays(g: Grammar, f: Map<usize, Set<usize>>, st0: Seq<State>, st1: Seq<State>)
    requires
        states_derived(g, f, st0),
        st1.len() == st0.len(),
        forall|j: int| 0 <= j < st0.len() ==> core_set(items(#[trigger] st1[j]@)) == core_set(items(st0[j]@)),
    ensures
        states_derived(g, f, st1),
{
    assert forall|k: int| 1 <= k < st1.len() implies #[trigger] derived_from(g, f, st1, k) by {
        assert(derived_from(g, f, st0, k));
        let (i, x) = choose|i: int, x: usize|
            0 <= i < k && goto_set(core_set(items(st0[i]@)), x) != Set::<PositionView>::empty() && #[trigger] closes(
                g,
                f,
                false,
                goto_set(core_set(items(st0[i]@)), x),
                core_set(items(st0[k]@)),
            );
        assert(core_set(items(st1[i]@)) == core_set(items(st0[i]@)));
        assert(core_set(items(st1[k]@)) == core_set(items(st0[k]@)));
        assert(closes(g, f, false, goto_set(core_set(items(st1[i]@)), x), core_set(items(st1[k]@))));
    }
}

/// Pushing the closure of a move from state `idx` keeps the states derived.
proof fn lemma_derived_push(
    g: Grammar,
    first: Seq<(usize, Vec<usize>)>,
    st0: Seq<State>,
    idx: int,
    sym: usize,
    kernel: Set<PositionView>,
    closures: State,
)
    requires
        table_wf(first),
        states_derived(g, tview(first), st0),
        0 <= idx < st0.len(),
        kernel != Set::<PositionView>::empty(),
        core_set(kernel) == core_set(goto_set(items(st0[idx]@), sym)),
        closes(g, tview(first), true, kernel, items(closures@)),
    ensures
        states_derived(g, tview(first), st0.push(closures)),
{
    let f = tview(first);
    let st1 = st0.push(closures);
    crate::lr::lemma_core_closes(g, first, kernel, items(closures@));
    crate::lr::lemma_core_goto(items(st0[idx]@), sym);
    lemma_core_empty(kernel);
    assert forall|k: int| 1 <= k < st1.len() implies #[trigger] derived_from(g, f, st1, k) by {
        if k < st0.len() {
            assert(derived_from(g, f, st0, k));
            let (i, x) = choose|i: int, x: usize|
                0 <= i < k && goto_set(core_set(items(st0[i]@)), x) != Set::<PositionView>::empty() && #[trigger] closes(
                    g,
                    f,
                    false,
                    goto_set(core_set(items(st0[i]@)), x),
                    core_set(items(st0[k]@)),
                );
            assert(st1[i] == st0[i] && st1[k] == st0[k]);
            assert(closes(g, f, false, goto_set(core_set(items(st1[i]@)), x), core_set(items(st1[k]@))));
        } else {
            assert(st1[idx] == st0[idx]);
            assert(st1[k] == closures);
            assert(closes(g, f, false, goto_set(core_set(items(st1[idx]@)), sym), core_set(items(st1[k]@))));
        }
    }
}

/// Moves are ready as long as the cores of the states and the cores `raws` holds stay.
pub proof fn lemma_ready_stays(
    g: Grammar,
    st0: Seq<State>,
    ra0: Seq<(State, State)>,
    st1: Seq<State>,
    ra1: Seq<(State, State)>,
    at: (int, int),
)
    requires
        lalr_ready_before(g, st0, ra0, at),
        st1.len() >= st0.len(),
        forall|j: int| 0 <= j < st0.len() ==> core_set(items(#[trigger] st1[j]@)) == core_set(items(st0[j]@)),
        forall|c: Set<PositionView>| has_raw(ra0, c) ==> has_raw(ra1, c),
        at.0 < st0.len() || (at.0 == st0.len() && at.1 <= 0),
    ensures
        lalr_ready_before(g, st1, ra1, at),
{
    assert forall|i: int, k: int|
        #![trigger goto_set(items(st1[i]@), g.symbols@[k])]
        0 <= i < st1.len() && 0 <= k < g.symbols@.len() && lex_lt((i, k), at) implies goto_set(
            items(st1[i]@),
            g.symbols@[k],
        ) == Set::<PositionView>::empty() || has_raw(ra1, core_set(goto_set(items(st1[i]@), g.symbols@[k]))) by {
        let sym = g.symbols@[k];
        assert(i < st0.len());
        assert(goto_set(items(st0[i]@), sym) == Set::<PositionView>::empty() || has_raw(ra0, core_set(goto_set(items(st0[i]@), sym))));
        crate::lr::lemma_core_goto(items(st0[i]@), sym);
        crate::lr::lemma_core_goto(items(st1[i]@), sym);
        lemma_core_empty(goto_set(items(st0[i]@), sym));
        lemma_core_empty(goto_set(items(st1[i]@), sym));
    }
}

/// Appending a state with a new kernel, of a new core, keeps the tables consistent.
proof fn lemma_push_inv(
    g: Grammar,
    first: Seq<(usize, Vec<usize>)>,
    st0: Seq<State>,
    ke0: Seq<(State, usize)>,
    ra0: Seq<(State, State)>,
    kernel: Seq<Position>,
    closures: Seq<Position>,
    st1: Seq<State>,
    ke1: Seq<(State, usize)>,
    ra1: Seq<(State, State)>,
)
    requires
        g.wf(),
        table_wf(first),
        lalr_inv(g, tview(first), st0, ke0, ra0),
        wf_state(kernel),
        wf_state(closures),
        set_ok(g, items(kernel)),
        items(kernel) != Set::<PositionView>::empty(),
        !has_kernel(ke0, items(kernel)),
        !has_raw(ra0, core_set(items(kernel))),
        closes(g, tview(first), true, items(kernel), items(closures)),
        st1 == st0.push(st1[st0.len() as int]),
        st1[st0.len() as int]@ == closures,
        ke1 == ke0.push(ke1[ke0.len() as int]),
        items(ke1[ke0.len() as int].0@) == items(kernel),
        wf_state(ke1[ke0.len() as int].0@),
        ke1[ke0.len() as int].1 == st0.len(),
        ra1 == ra0.push(ra1[ra0.len() as int]),
        items(ra1[ra0.len() as int].0@) == core_set(items(kernel)),
        wf_state(ra1[ra0.len() as int].0@),
        items(ra1[ra0.len() as int].1@) == items(kernel),
        wf_state(ra1[ra0.len() as int].1@),
    ensures
        lalr_inv(g, tview(first), st1, ke1, ra1),
{
    reveal(inv_kernels);
    reveal(inv_states);
    reveal(inv_start);
    reveal(inv_cores);
    reveal(inv_raws);
    let f = tview(first);
    let n = st0.len();
    let e = Set::<PositionView>::empty();
    crate::lr::lemma_closes_ok(g, f, true, items(kernel), items(closures));
    lemma_core_closes(g, first, items(kernel), items(closures));
    assert forall|x: int, y: int| 0 <= x < y < ke1.len() implies items(#[trigger] ke1[x].0@) != items(#[trigger] ke1[y].0@) by {
        if y == n {
            assert(ke1[x] == ke0[x]);
        } else {
            assert(ke1[x] == ke0[x] && ke1[y] == ke0[y]);
        }
    }
    assert forall|x: int, y: int| 0 <= x < y < ke1.len() implies (#[trigger] ke1[x]).1 != (#[trigger] ke1[y]).1 by {
        assert(ke1[x] == ke0[x]);
        if y < n {
            assert(ke1[y] == ke0[y]);
        }
    }
    assert forall|a: int| 0 <= a < ke1.len() implies (#[trigger] ke1[a]).1 < st1.len() && set_ok(g, items(ke1[a].0@)) by {
        if a < n {
            assert(ke1[a] == ke0[a]);
        }
    }
    assert forall|a: int| 0 <= a < ke1.len() implies wf_state(#[trigger] ke1[a].0@) by {
        if a < n {
            assert(ke1[a] == ke0[a]);
        }
    }
    assert(inv_kernels(g, st1.len() as int, ke1));
    assert forall|j: int| 0 <= j < st1.len() implies wf_state(#[trigger] st1[j]@) && set_ok(g, items(st1[j]@)) by {
        if j < n {
            assert(st1[j] == st0[j]);
        }
    }
    assert(inv_states(g, st1));
    let ae = choose|a: int| 0 <= a < ke0.len() && #[trigger] items(ke0[a].0@) == e;
    lemma_kernel_at_distinct(ke0, ae);
    assert(ke1[ae] == ke0[ae]);
    lemma_kernel_at_distinct(ke1, ae);
    assert(st1[0] == st0[0]);
    assert(inv_start(g, f, st1, ke1));
    assert forall|a: int|
        0 <= a < ke1.len() && items(#[trigger] ke1[a].0@) != e implies closes(
            g,
            f,
            false,
            core_set(items(ke1[a].0@)),
            core_set(items(st1[ke1[a].1 as int]@)),
        ) by {
        if a < n {
            assert(ke1[a] == ke0[a]);
            assert(st1[ke0[a].1 as int] == st0[ke0[a].1 as int]);
        }
    }
    assert(inv_cores(g, f, st1, ke1));
    let m = ra0.len();
    assert forall|c: int| 0 <= c < ra1.len() implies wf_state(#[trigger] ra1[c].0@) && wf_state(ra1[c].1@) by {
        if c < m {
            assert(ra1[c] == ra0[c]);
        }
    }
    assert forall|x: int, y: int| 0 <= x < y < ra1.len() implies items(#[trigger] ra1[x].0@) != items(#[trigger] ra1[y].0@) by {
        assert(ra1[x] == ra0[x]);
        if y < m {
            assert(ra1[y] == ra0[y]);
        }
    }
    assert forall|c: int|
        0 <= c < ra1.len() && items(#[trigger] ra1[c].0@) != e implies has_kernel(ke1, items(ra1[c].1@))
            && core_set(items(ra1[c].1@)) == items(ra1[c].0@) by {
        if c < m {
            assert(ra1[c] == ra0[c]);
            let a = choose|a: int| 0 <= a < ke0.len() && #[trigger] items(ke0[a].0@) == items(ra0[c].1@);
            assert(ke1[a] == ke0[a]);
        } else {
            assert(items(ke1[n as int].0@) == items(kernel));
        }
    }
    assert forall|a: int|
        0 <= a < ke1.len() && items(#[trigger] ke1[a].0@) != e implies has_raw(ra1, core_set(items(ke1[a].0@)))
            && raw_value(ra1, core_set(items(ke1[a].0@))) == items(ke1[a].0@) by {
        if a < n {
            assert(ke1[a] == ke0[a]);
            let c = core_set(items(ke0[a].0@));
            let x = choose|x: int| 0 <= x < ra0.len() && #[trigger] items(ra0[x].0@) == c;
            lemma_raw_at_distinct(ra0, x);
            assert(ra1[x] == ra0[x]);
            lemma_raw_at_distinct(ra1, x);
        } else {
            lemma_raw_at_distinct(ra1, m as int);
        }
    }
    assert(inv_raws(ke1, ra1));
}

/// Consistent tables whose every move was made are ready for their decisions.
pub proof fn lemma_lalr_ready(
    g: Grammar,
    f: Map<usize, Set<usize>>,
    states: Seq<State>,
    kernels: Seq<(State, usize)>,
    raws: Seq<(State, State)>,
)
    requires
        g.wf(),
        lalr_inv(g, f, states, kernels, raws),
        lalr_ready_before(g, states, raws, (states.len() as int, 0)),
    ensures
        ready_all(states, kernels, Some(raws)),
        states_ok(g, states),
        kernels_wf(kernels),
        raws_wf(Some(raws)),
{
    reveal(inv_kernels);
    reveal(inv_states);
    reveal(inv_raws);
    assert forall|i: int, v: PositionView|
        0 <= i < states.len() && #[trigger] items(states[i]@).contains(v) && peek_spec(v, 0) is Some implies target_ready(
        kernels,
        Some(raws),
        goto_set(items(states[i]@), peek_spec(v, 0)->0),
    ) by {
        let top = peek_spec(v, 0)->0;
        assert(set_ok(g, items(states[i]@)));
        crate::decide::lemma_item_syms(g, v, v.point as int);
        let k = choose|k: int| 0 <= k < g.symbols@.len() && g.symbols@[k] == top;
        assert(lex_lt((i, k), (states.len() as int, 0)));
        let gs = goto_set(items(states[i]@), top);
        assert(gs.contains(crate::pos::advanced(v)));
        assert(goto_set(items(states[i]@), g.symbols@[k]) == gs);
        lemma_core_empty(gs);
        assert(has_raw(raws, core_set(gs)));
        let b = choose|b: int| 0 <= b < raws.len() && #[trigger] items(raws[b].0@) == core_set(gs);
        lemma_raw_at_distinct(raws, b);
    }
    assert forall|j: int| 0 <= j < states.len() implies set_ok(g, #[trigger] items(states[j]@)) by {}
}

/// No two LALR(1) states have kernels of the same core: states whose kernels share a
/// core are merged.
pub proof fn law_lalr_cores_distinct(p: Lalr, a: int, b: int)
    requires
        p.inv(),
        0 <= a < p.table.kernels@.len(),
        0 <= b < p.table.kernels@.len(),
        a != b,
        items(p.table.kernels@[a].0@) != Set::<PositionView>::empty(),
        items(p.table.kernels@[b].0@) != Set::<PositionView>::empty(),
    ensures
        core_set(items(p.table.kernels@[a].0@)) != core_set(items(p.table.kernels@[b].0@)),
{
    reveal(inv_kernels);
    reveal(inv_raws);
    let ke = p.table.kernels@;
    if core_set(items(ke[a].0@)) == core_set(items(ke[b].0@)) {
        assert(raw_value(p.raws@, core_set(items(ke[a].0@))) == items(ke[a].0@));
        assert(raw_value(p.raws@, core_set(items(ke[b].0@))) == items(ke[b].0@));
        if a < b {
            assert(items(ke[a].0@) != items(ke[b].0@));
        } else {
            assert(items(ke[b].0@) != items(ke[a].0@));
        }
    }
}

/// The cores of each LALR(1) state are the LR(0) closure of the cores of its kernel:
/// merging lookaheads never changes which items a state holds.
pub proof fn law_lalr_state_cores(p: Lalr, a: int)
    requires
        p.inv(),
        0 <= a < p.table.kernels@.len(),
        items(p.table.kernels@[a].0@) != Set::<PositionView>::empty(),
    ensures
        closes(
            p.table.grammar,
            tview(p.table.first@),
            false,
            core_set(items(p.table.kernels@[a].0@)),
            core_set(items(p.table.states@[p.table.kernels@[a].1 as int]@)),
        ),
{
    reveal(inv_cores);
}

/// The kernels as a map from item sets to states.
pub open spec fn kview(kernels: Seq<(State, usize)>) -> Map<Set<PositionView>, usize> {
    Map::new(|k: Set<PositionView>| has_kernel(kernels, k), |k: Set<PositionView>| kernel_state(kernels, k))
}

/// The map from cores to kernels, as a map of item sets.
pub open spec fn rview(raws: Seq<(State, State)>) -> Map<Set<PositionView>, Set<PositionView>> {
    Map::new(|c: Set<PositionView>| has_raw(raws, c), |c: Set<PositionView>| raw_value(raws, c))
}

/// Every item of `s` has an item of `k` with its core and at least its lookaheads.
pub open spec fn covers(k: Set<PositionView>, s: Set<PositionView>) -> bool {
    forall|p: PositionView|
        #[trigger] s.contains(p) ==> exists|q: PositionView|
            #[trigger] k.contains(q) && same_core(p, q) && forall|y: usize| p.look.contains(y) ==> #[trigger] q.look.contains(y)
}

/// The kernels kept for cores only grow: every core that `ra0` maps is mapped by `ra1`
/// to a kernel that covers the old one.
pub open spec fn raws_grow(ra0: Seq<(State, State)>, ra1: Seq<(State, State)>) -> bool {
    forall|c: Set<PositionView>|
        #[trigger] rview(ra0).contains_key(c) ==> rview(ra1).contains_key(c) && covers(rview(ra1)[c], rview(ra0)[c])
}

/// Every kernel of `ke1` stands for a state that a kernel of `ke0` with the same core
/// stood for: merging changes a state's kernel, never its core.
pub open spec fn kernels_keep_cores(ke0: Seq<(State, usize)>, ke1: Seq<(State, usize)>) -> bool {
    forall|k: Set<PositionView>|
        #[trigger] kview(ke1).contains_key(k) ==> exists|k0: Set<PositionView>|
            #[trigger] kview(ke0).contains_key(k0) && kview(ke0)[k0] == kview(ke1)[k] && core_set(k0) == core_set(k)
}

/// A set covers itself.
pub proof fn lemma_covers_refl(s: Set<PositionView>)
    ensures
        covers(s, s),
{
    assert forall|p: PositionView| #[trigger] s.contains(p) implies exists|q: PositionView|
        #[trigger] s.contains(q) && same_core(p, q) && forall|y: usize| p.look.contains(y) ==> #[trigger] q.look.contains(y) by {
        assert(s.contains(p) && same_core(p, p));
    }
}

/// Covering is transitive.
pub proof fn lemma_covers_trans(a: Set<PositionView>, b: Set<PositionView>, c: Set<PositionView>)
    requires
        covers(a, b),
        covers(b, c),
    ensures
        covers(a, c),
{
    assert forall|p: PositionView| #[trigger] c.contains(p) implies exists|r: PositionView|
        #[trigger] a.contains(r) && same_core(p, r) && forall|y: usize| p.look.contains(y) ==> #[trigger] r.look.contains(y) by {
        let q = choose|q: PositionView|
            #[trigger] b.contains(q) && same_core(p, q) && forall|y: usize| p.look.contains(y) ==> #[trigger] q.look.contains(y);
        let r = choose|r: PositionView|
            #[trigger] a.contains(r) && same_core(q, r) && forall|y: usize| q.look.contains(y) ==> #[trigger] r.look.contains(y);
        assert(a.contains(r) && same_core(p, r));
    }
}

/// A merge covers what it merged.
pub proof fn lemma_merged_covers(s: Set<PositionView>, r: Set<PositionView>)
    requires
        merged_ok(s, r),
    ensures
        covers(r, s),
{
    assert forall|p: PositionView| #[trigger] s.contains(p) implies exists|q: PositionView|
        #[trigger] r.contains(q) && same_core(p, q) && forall|y: usize| p.look.contains(y) ==> #[trigger] q.look.contains(y) by {
        assert(core_set(s).contains(strip(p)));
        assert(core_set(r).contains(strip(p)));
        let q = choose|q: PositionView| r.contains(q) && strip(p) == #[trigger] strip(q);
        assert(same_core(p, q));
        assert forall|y: usize| p.look.contains(y) implies #[trigger] q.look.contains(y) by {
            assert(s.contains(p) && same_core(p, q) && p.look.contains(y));
        }
    }
}

/// Growth of the kept kernels composes.
pub proof fn lemma_raws_grow_trans(ra0: Seq<(State, State)>, ra1: Seq<(State, State)>, ra2: Seq<(State, State)>)
    requires
        raws_grow(ra0, ra1),
        raws_grow(ra1, ra2),
    ensures
        raws_grow(ra0, ra2),
{
    assert forall|c: Set<PositionView>| #[trigger] rview(ra0).contains_key(c) implies rview(ra2).contains_key(c)
        && covers(rview(ra2)[c], rview(ra0)[c]) by {
        lemma_covers_trans(rview(ra2)[c], rview(ra1)[c], rview(ra0)[c]);
    }
}

/// Keeping the cores of the states composes.
pub proof fn lemma_keep_cores_trans(ke0: Seq<(State, usize)>, ke1: Seq<(State, usize)>, ke2: Seq<(State, usize)>)
    requires
        kernels_keep_cores(ke0, ke1),
        kernels_keep_cores(ke1, ke2),
    ensures
        kernels_keep_cores(ke0, ke2),
{
    assert forall|k: Set<PositionView>| #[trigger] kview(ke2).contains_key(k) implies exists|k0: Set<PositionView>|
        #[trigger] kview(ke0).contains_key(k0) && kview(ke0)[k0] == kview(ke2)[k] && core_set(k0) == core_set(k) by {
        let k1 = choose|k1: Set<PositionView>|
            #[trigger] kview(ke1).contains_key(k1) && kview(ke1)[k1] == kview(ke2)[k] && core_set(k1) == core_set(k);
        let k0 = choose|k0: Set<PositionView>|
            #[trigger] kview(ke0).contains_key(k0) && kview(ke0)[k0] == kview(ke1)[k1] && core_set(k0) == core_set(k1);
        assert(kview(ke0).contains_key(k0));
    }
}

/// With distinct state numbers, two kernels that stand for the same state are the same.
pub proof fn lemma_kview_injective(ke: Seq<(State, usize)>, a: Set<PositionView>, b: Set<PositionView>)
    requires
        forall|x: int, y: int| 0 <= x < y < ke.len() ==> (#[trigger] ke[x]).1 != (#[trigger] ke[y]).1,
        kview(ke).contains_key(a),
        kview(ke).contains_key(b),
        kview(ke)[a] == kview(ke)[b],
    ensures
        a == b,
{
    let ja = choose|j: int| 0 <= j < ke.len() && #[trigger] items(ke[j].0@) == a;
    let jb = choose|j: int| 0 <= j < ke.len() && #[trigger] items(ke[j].0@) == b;
    crate::lr::lemma_kernel_at_exists(ke, a, ja);
    crate::lr::lemma_kernel_at_exists(ke, b, jb);
    let ca = choose|c: int| kernel_at(ke, a, c);
    let cb = choose|c: int| kernel_at(ke, b, c);
    crate::lr::lemma_kernel_at_unique(ke, a, ca);
    crate::lr::lemma_kernel_at_unique(ke, b, cb);
    if ca < cb {
        assert(ke[ca].1 != ke[cb].1);
    } else if cb < ca {
        assert(ke[cb].1 != ke[ca].1);
    }
}

/// Nothing changed, nothing shrank.
pub proof fn lemma_grow_refl(ke: Seq<(State, usize)>, ra: Seq<(State, State)>)
    ensures
        kernels_keep_cores(ke, ke),
        raws_grow(ra, ra),
{
    assert forall|k: Set<PositionView>| #[trigger] kview(ke).contains_key(k) implies exists|k0: Set<PositionView>|
        #[trigger] kview(ke).contains_key(k0) && kview(ke)[k0] == kview(ke)[k] && core_set(k0) == core_set(k) by {
        assert(kview(ke).contains_key(k));
    }
    assert forall|c: Set<PositionView>| #[trigger] rview(ra).contains_key(c) implies rview(ra).contains_key(c)
        && covers(rview(ra)[c], rview(ra)[c]) by {
        lemma_covers_refl(rview(ra)[c]);
    }
}

/// A set that covers a set covers each part of it.
pub proof fn lemma_covers_part(k: Set<PositionView>, s: Set<PositionView>, t: Set<PositionView>)
    requires
        covers(k, s),
        t.subset_of(s),
    ensures
        covers(k, t),
{
    assert forall|p: PositionView| #[trigger] t.contains(p) implies exists|q: PositionView|
        #[trigger] k.contains(q) && same_core(p, q) && forall|y: usize| p.look.contains(y) ==> #[trigger] q.look.contains(y) by {
        assert(s.contains(p));
    }
}

/// Replacing kernel `main` of state `id` by `nk` of the same core, and mapping the core
/// to `nk`, keeps the cores of the states and only grows the kept kernels.
pub proof fn lemma_update_grows(
    ke0: Seq<(State, usize)>,
    ra0: Seq<(State, State)>,
    ke1: Seq<(State, usize)>,
    ra1: Seq<(State, State)>,
    mi: Set<PositionView>,
    nk: Set<PositionView>,
    id: usize,
)
    requires
        kview(ke0).contains_key(mi),
        kview(ke0)[mi] == id,
        kview(ke1) == kview(ke0).remove(mi).insert(nk, id),
        rview(ra1) == rview(ra0).insert(core_set(nk), nk),
        core_set(nk) == core_set(mi),
        covers(nk, mi),
        rview(ra0).contains_key(core_set(mi)) ==> rview(ra0)[core_set(mi)] == mi,
    ensures
        kernels_keep_cores(ke0, ke1),
        raws_grow(ra0, ra1),
{
    assert forall|k: Set<PositionView>| #[trigger] kview(ke1).contains_key(k) implies exists|k0: Set<PositionView>|
        #[trigger] kview(ke0).contains_key(k0) && kview(ke0)[k0] == kview(ke1)[k] && core_set(k0) == core_set(k) by {
        if k == nk {
            assert(kview(ke0).contains_key(mi));
        } else {
            assert(kview(ke0).contains_key(k));
        }
    }
    assert forall|c: Set<PositionView>| #[trigger] rview(ra0).contains_key(c) implies rview(ra1).contains_key(c)
        && covers(rview(ra1)[c], rview(ra0)[c]) by {
        if c == core_set(nk) {
            assert(rview(ra1)[c] == nk);
        } else {
            assert(rview(ra1)[c] == rview(ra0)[c]);
            lemma_covers_refl(rview(ra0)[c]);
        }
    }
}

/// As many states, each covering the one at its place before: merging only adds
/// lookaheads.
pub open spec fn states_grow(st0: Seq<State>, st1: Seq<State>) -> bool {
    &&& st1.len() == st0.len()
    &&& forall|j: int| 0 <= j < st0.len() ==> covers(items(#[trigger] st1[j]@), items(st0[j]@))
}

/// Nothing changed, nothing shrank.
pub proof fn lemma_states_grow_refl(st: Seq<State>)
    ensures
        states_grow(st, st),
{
    assert forall|j: int| 0 <= j < st.len() implies covers(items(#[trigger] st[j]@), items(st[j]@)) by {
        lemma_covers_refl(items(st[j]@));
    }
}

/// Growth of the states composes.
pub proof fn lemma_states_grow_trans(st0: Seq<State>, st1: Seq<State>, st2: Seq<State>)
    requires
        states_grow(st0, st1),
        states_grow(st1, st2),
    ensures
        states_grow(st0, st2),
{
    assert forall|j: int| 0 <= j < st0.len() implies covers(items(#[trigger] st2[j]@), items(st0[j]@)) by {
        lemma_covers_trans(items(st2[j]@), items(st1[j]@), items(st0[j]@));
    }
}

/// Whether the move from item set `row` on symbol `x` leads nowhere, or is covered by the
/// kernel that `raws` keeps for its core.
pub open spec fn move_covered(raws: Seq<(State, State)>, row: Set<PositionView>, x: usize) -> bool {
    let gs = goto_set(row, x);
    gs == Set::<PositionView>::empty() || (rview(raws).contains_key(core_set(gs)) && covers(
        rview(raws)[core_set(gs)],
        gs,
    ))
}

/// Whether the moves from `row` on the first `k` symbols of `g` are covered (see
/// [`move_covered`]).
pub open spec fn row_covered(g: Grammar, raws: Seq<(State, State)>, row: Set<PositionView>, k: int) -> bool {
    forall|k2: int| 0 <= k2 < k && k2 < g.symbols@.len() ==> #[trigger] move_covered(raws, row, g.symbols@[k2])
}

/// The first `n` states as they stood when last visited: `rows[i]` has the core of state
/// `i`, which covers it, and every move from it is covered by the kernel kept for its core.
pub open spec fn visited_covered(
    g: Grammar,
    states: Seq<State>,
    raws: Seq<(State, State)>,
    rows: Seq<Set<PositionView>>,
    n: int,
) -> bool {
    &&& rows.len() == n
    &&& n <= states.len()
    &&& forall|i: int|
        0 <= i < n ==> covers(items(states[i]@), #[trigger] rows[i]) && core_set(rows[i]) == core_set(items(states[i]@))
            && row_covered(g, raws, rows[i], g.symbols@.len() as int)
}

/// A covered move stays covered while the kept kernels grow.
proof fn lemma_move_covered_stays(ra0: Seq<(State, State)>, ra1: Seq<(State, State)>, row: Set<PositionView>, x: usize)
    requires
        move_covered(ra0, row, x),
        raws_grow(ra0, ra1),
    ensures
        move_covered(ra1, row, x),
{
    let gs = goto_set(row, x);
    if gs != Set::<PositionView>::empty() {
        let c = core_set(gs);
        assert(rview(ra0).contains_key(c));
        lemma_covers_trans(rview(ra1)[c], rview(ra0)[c], gs);
    }
}

/// Covered moves stay covered while the kept kernels grow.
proof fn lemma_row_covered_stays(g: Grammar, ra0: Seq<(State, State)>, ra1: Seq<(State, State)>, row: Set<PositionView>, k: int)
    requires
        row_covered(g, ra0, row, k),
        raws_grow(ra0, ra1),
    ensures
        row_covered(g, ra1, row, k),
{
    assert forall|k2: int| 0 <= k2 < k && k2 < g.symbols@.len() implies #[trigger] move_covered(ra1, row, g.symbols@[k2]) by {
        lemma_move_covered_stays(ra0, ra1, row, g.symbols@[k2]);
    }
}

/// The visited states stay covered while the states and the kept kernels grow.
proof fn lemma_visited_stays(
    g: Grammar,
    st0: Seq<State>,
    ra0: Seq<(State, State)>,
    rows: Seq<Set<PositionView>>,
    n: int,
    st1: Seq<State>,
    ra1: Seq<(State, State)>,
)
    requires
        visited_covered(g, st0, ra0, rows, n),
        st0.len() <= st1.len(),
        forall|j: int| 0 <= j < st0.len() ==> covers(items(#[trigger] st1[j]@), items(st0[j]@)),
        forall|j: int| 0 <= j < st0.len() ==> core_set(items(#[trigger] st1[j]@)) == core_set(items(st0[j]@)),
        raws_grow(ra0, ra1),
    ensures
        visited_covered(g, st1, ra1, rows, n),
{
    assert forall|i: int| 0 <= i < n implies covers(items(st1[i]@), #[trigger] rows[i]) && core_set(rows[i]) == core_set(
        items(st1[i]@),
    ) && row_covered(g, ra1, rows[i], g.symbols@.len() as int) by {
        assert(covers(items(st1[i]@), items(st0[i]@)));
        lemma_covers_trans(items(st1[i]@), items(st0[i]@), rows[i]);
        lemma_row_covered_stays(g, ra0, ra1, rows[i], g.symbols@.len() as int);
    }
}

/// Pushing a kernel for a core not kept yet only grows the kept kernels, and keeps the
/// new kernel for its core.
proof fn lemma_raws_push(ra0: Seq<(State, State)>, e: (State, State))
    requires
        forall|a: int, b: int| 0 <= a < b < ra0.len() ==> items(#[trigger] ra0[a].0@) != items(#[trigger] ra0[b].0@),
        !has_raw(ra0, items(e.0@)),
    ensures
        raws_grow(ra0, ra0.push(e)),
        rview(ra0.push(e)).contains_key(items(e.0@)),
        rview(ra0.push(e))[items(e.0@)] == items(e.1@),
{
    let ra1 = ra0.push(e);
    assert forall|c: Set<PositionView>| #[trigger] rview(ra0).contains_key(c) implies rview(ra1).contains_key(c) && covers(
        rview(ra1)[c],
        rview(ra0)[c],
    ) by {
        let j = choose|j: int| 0 <= j < ra0.len() && #[trigger] items(ra0[j].0@) == c;
        assert(raw_at(ra0, c, j)) by {
            assert forall|a: int| 0 <= a < j implies items(#[trigger] ra0[a].0@) != c by {
                assert(items(ra0[a].0@) != items(ra0[j].0@));
            }
        }
        assert(raw_at(ra1, c, j)) by {
            assert forall|a: int| 0 <= a < j implies items(#[trigger] ra1[a].0@) != c by {
                assert(ra1[a] == ra0[a]);
                assert(items(ra0[a].0@) != items(ra0[j].0@));
            }
            assert(ra1[j] == ra0[j]);
        }
        crate::lr::lemma_raw_at_unique(ra0, c, j);
        crate::lr::lemma_raw_at_unique(ra1, c, j);
        assert(has_raw(ra1, c));
        lemma_covers_refl(rview(ra0)[c]);
    }
    let n = ra0.len() as int;
    assert(raw_at(ra1, items(e.0@), n)) by {
        assert forall|a: int| 0 <= a < n implies items(#[trigger] ra1[a].0@) != items(e.0@) by {
            assert(ra1[a] == ra0[a]);
        }
    }
    crate::lr::lemma_raw_at_unique(ra1, items(e.0@), n);
    assert(has_raw(ra1, items(e.0@)));
}

/// An LALR(1) parser: its tables, and for the core of each kernel the kernel kept for it.
#[derive(Debug)]
pub struct Lalr {
    pub table: Tabler,
    pub raws: Vec<(State, State)>,
}

/// The LALR(1) tables of a grammar are complete: FIRST and FOLLOW, consistent states,
/// every move from every state made, every state derived from an earlier one, lookaheads
/// within FOLLOW (when the end symbol is not a non-terminal), one action row per state,
/// and every move from each state, as it stood when last visited, covered by the kernel
/// kept for its core (see [`visited_covered`]).
pub open spec fn lalr_built(p: Lalr) -> bool {
    &&& p.inv()
    &&& p.table.first_ok()
    &&& p.table.follow_ok()
    &&& lalr_ready_before(p.table.grammar, p.table.states@, p.raws@, (p.table.states@.len() as int, 0))
    &&& actions_match(p.table, true, Some(p.raws@))
    &&& states_derived(p.table.grammar, tview(p.table.first@), p.table.states@)
    &&& !p.table.grammar.nonterminal(p.table.grammar.eof()) ==> lalr_looks_of(p)
    &&& exists|rows: Seq<Set<PositionView>>|
        #[trigger] visited_covered(p.table.grammar, p.table.states@, p.raws@, rows, p.table.states@.len() as int)
}

impl Lalr {
    /// The tables are consistent (see [`lalr_inv`]).
    pub open spec fn inv(&self) -> bool {
        &&& self.table.grammar.wf()
        &&& table_wf(self.table.first@)
        &&& lalr_inv(
            self.table.grammar,
            tview(self.table.first@),
            self.table.states@,
            self.table.kernels@,
            self.raws@,
        )
    }

    /// Merges into the state of kernel `main` the kernel `inc` of the same core and its
    /// closure `closures`: the kernel becomes the merge of both kernels (unless that
    /// changes nothing), the state the merge of both closures, and the core maps to the
    /// new kernel. Returns the new kernel.
    pub fn update_state(&mut self, main: &State, inc: State, closures: State) -> (r: Option<State>)
        requires
            old(self).inv(),
            wf_state(main@),
            wf_state(inc@),
            wf_state(closures@),
            set_ok(old(self).table.grammar, items(inc@)),
            set_ok(old(self).table.grammar, items(closures@)),
            core_set(items(inc@)) == core_set(items(main@)),
            closes(old(self).table.grammar, tview(old(self).table.first@), true, items(inc@), items(closures@)),
        ensures
            final(self).inv(),
            final(self).table.grammar == old(self).table.grammar,
            final(self).table.first == old(self).table.first,
            final(self).table.follow == old(self).table.follow,
            final(self).table.actions == old(self).table.actions,
            final(self).table.states@.len() == old(self).table.states@.len(),
            forall|j: int|
                0 <= j < old(self).table.states@.len() ==> core_set(items(#[trigger] final(self).table.states@[j]@))
                    == core_set(items(old(self).table.states@[j]@)),
            forall|c: Set<PositionView>| has_raw(final(self).raws@, c) == has_raw(old(self).raws@, c),
            r is None <==> (!has_kernel(old(self).table.kernels@, items(main@)) || merged_ok(
                items(inc@).union(items(main@)),
                items(main@),
            )),
            r is None ==> final(self).table.states == old(self).table.states && final(self).table.kernels
                == old(self).table.kernels && final(self).raws == old(self).raws,
            match r {
                Some(nk) => {
                    let id = kernel_state(old(self).table.kernels@, items(main@));
                    &&& wf_state(nk@)
                    &&& set_ok(old(self).table.grammar, items(nk@))
                    &&& merged_ok(items(inc@).union(items(main@)), items(nk@))
                    &&& final(self).table.states@ == old(self).table.states@.update(
                        id as int,
                        final(self).table.states@[id as int],
                    )
                    &&& merged_ok(
                        items(old(self).table.states@[id as int]@).union(items(closures@)),
                        items(final(self).table.states@[id as int]@),
                    )
                    &&& kview(final(self).table.kernels@) == kview(old(self).table.kernels@).remove(
                        items(main@),
                    ).insert(items(nk@), id)
                    &&& rview(final(self).raws@) == rview(old(self).raws@).insert(core_set(items(nk@)), items(nk@))
                },
                None => true,
            },
            looks_ready(old(self).table) && lalr_looks_of(*old(self)) && followed_in(*old(self), items(inc@))
                && followed_in(*old(self), items(closures@)) ==> lalr_looks_of(*final(self)) && (r matches Some(k)
                ==> followed_in(*old(self), items(k@))),
            raws_grow(old(self).raws@, final(self).raws@),
            kernels_keep_cores(old(self).table.kernels@, final(self).table.kernels@),
            states_grow(old(self).table.states@, final(self).table.states@),
    {
        let ghost g = self.table.grammar;
        let ghost f = tview(self.table.first@);
        let ghost st0 = self.table.states@;
        let ghost ke0 = self.table.kernels@;
        let ghost ra0 = self.raws@;
        let ghost mi = items(main@);
        proof {
            reveal(inv_kernels);
            reveal(inv_states);
            reveal(inv_raws);
            lemma_grow_refl(ke0, ra0);
            lemma_states_grow_refl(st0);
        }
        let j0 = match kernel_find(&self.table.kernels, main) {
            Some(j) => j,
            None => {
                return None;
            },
        };
        let id = self.table.kernels[j0].1;
        proof {
            lemma_kernel_at_distinct(ke0, j0 as int);
            assert(set_ok(g, items(ke0[j0 as int].0@)));
        }
        let mc = state_copy(main);
        let mut both = inc;
        state_extend(&mut both, mc);
        proof {
            assert forall|v: PositionView| items(both@).contains(v) <==> items(inc@).union(mi).contains(v) by {
                assert(items(both@).contains(v) == holds(both@, v));
                assert(holds(mc@, v) == holds(main@, v));
            }
            assert(items(both@) =~= items(inc@).union(mi));
            assert(looks_sorted(items(both@))) by {
                assert forall|v: PositionView| #[trigger] items(both@).contains(v) implies sorted_set(v.look) by {
                    if items(inc@).contains(v) {
                        assert(item_ok(g, v));
                    } else {
                        assert(mi.contains(v));
                        assert(item_ok(g, v));
                    }
                }
            }
        }
        let nk = merged_state(both);
        if state_eq(&nk, main) {
            proof {
                assert(items(nk@) == mi);
            }
            return None;
        }
        proof {
            if merged_ok(items(inc@).union(mi), mi) {
                lemma_merged_unique(items(inc@).union(mi), items(nk@), mi);
                assert forall|v: PositionView| holds(nk@, v) <==> holds(main@, v) by {
                    assert(items(nk@).contains(v) == holds(nk@, v));
                    assert(mi.contains(v) == holds(main@, v));
                }
                crate::state::lemma_state_ext(nk@, main@);
            }
        }
        let cl0 = state_copy(&self.table.states[id]);
        let ghost c0 = cl0@;
        let ghost sid = items(st0[id as int]@);
        let mut both_cl = cl0;
        let ghost cl = items(closures@);
        state_extend(&mut both_cl, closures);
        proof {
            assert(views(c0) == views(st0[id as int]@));
            assert forall|v: PositionView| items(both_cl@).contains(v) <==> sid.union(cl).contains(v) by {
                assert(items(both_cl@).contains(v) == holds(both_cl@, v));
                assert(holds(both_cl@, v) == (holds(c0, v) || holds(closures@, v)));
                assert(holds(c0, v) == holds(st0[id as int]@, v));
                assert(sid.contains(v) == holds(st0[id as int]@, v));
                assert(cl.contains(v) == holds(closures@, v));
            }
            assert(items(both_cl@) =~= sid.union(cl));
            assert(looks_sorted(items(both_cl@))) by {
                assert forall|v: PositionView| #[trigger] items(both_cl@).contains(v) implies sorted_set(v.look) by {
                    if cl.contains(v) {
                        assert(item_ok(g, v));
                    } else {
                        assert(set_ok(g, sid));
                        assert(item_ok(g, v));
                    }
                }
            }
        }
        let ns = merged_state(both_cl);
        proof {
            assert(set_ok(g, sid.union(cl))) by {
                assert forall|v: PositionView| #[trigger] sid.union(cl).contains(v) implies item_ok(g, v) by {
                    if !cl.contains(v) {
                        assert(set_ok(g, sid));
                    }
                }
            }
            lemma_merged_items_ok(g, sid.union(cl), items(ns@));
            assert(set_ok(g, items(inc@).union(mi))) by {
                assert forall|v: PositionView| #[trigger] items(inc@).union(mi).contains(v) implies item_ok(g, v) by {}
            }
            lemma_merged_items_ok(g, items(inc@).union(mi), items(nk@));
        }
        let core = core_of(&nk);
        let rj = entry_find(&self.raws, &core);
        let ghost nsv = ns@;
        self.table.kernels.remove(j0);
        self.table.kernels.push((state_copy(&nk), id));
        self.table.states.set(id, ns);
        proof {
            let st1 = self.table.states@;
            lemma_update_facts(g, self.table.first@, st0, ke0, ra0, main@, inc@, closures@, nk@, j0 as int, st1);
        }
        let b = match rj {
            Some(b) => b,
            None => {
                proof {
                    reveal(inv_raws);
                    let x = choose|x: int| 0 <= x < ra0.len() && #[trigger] items(ra0[x].0@) == core_set(mi);
                    assert(items(ra0[x].0@) == items(core@));
                }
                return None;
            },
        };
        let (key, _) = self.raws.remove(b);
        self.raws.insert(b, (key, state_copy(&nk)));
        proof {
            let st1 = self.table.states@;
            let ke1 = self.table.kernels@;
            let ra1 = self.raws@;
            assert forall|a: int| 0 <= a < j0 implies #[trigger] ke1[a] == ke0[a] by {}
            assert forall|a: int| j0 <= a < ke0.len() - 1 implies #[trigger] ke1[a] == ke0[a + 1] by {}
            assert forall|c: int| 0 <= c < ra0.len() && c != b implies #[trigger] ra1[c] == ra0[c] by {}
            assert(update_rel(st0, ke0, ra0, nk@, j0 as int, b as int, st1, ke1, ra1));
            lemma_update_kernels(g, st0, ke0, ra0, main@, nk@, j0 as int, b as int, st1, ke1, ra1);
            lemma_update_states(g, st0, ke0, ra0, nk@, j0 as int, b as int, st1, ke1, ra1);
            lemma_update_start(g, f, st0, ke0, ra0, main@, nk@, j0 as int, b as int, st1, ke1, ra1);
            lemma_update_cores(g, f, st0, ke0, ra0, main@, nk@, j0 as int, b as int, st1, ke1, ra1);
            lemma_update_raws(st0, ke0, ra0, main@, nk@, j0 as int, b as int, st1, ke1, ra1);
            assert forall|j: int| 0 <= j < st0.len() implies core_set(items(#[trigger] st1[j]@)) == core_set(items(st0[j]@)) by {
                if j != id {
                    assert(st1[j] == st0[j]);
                }
            }
            assert(st1 =~= st0.update(id as int, st1[id as int]));
            if looks_ready(old(self).table) && lalr_looks(g, f, st0, ke0, ra0) && set_followed(follow_of(g, f), items(inc@))
                && set_followed(follow_of(g, f), cl) {
                let fo = follow_of(g, f);
                assert(mi == items(ke0[j0 as int].0@));
                assert(set_followed(fo, items(inc@).union(mi)));
                lemma_merged_followed(fo, items(inc@).union(mi), items(nk@));
                assert(set_followed(fo, sid));
                assert(set_followed(fo, sid.union(cl)));
                lemma_merged_followed(fo, sid.union(cl), items(nsv));
                assert(st1[id as int]@ == nsv);
                assert forall|j: int| 0 <= j < st1.len() implies set_followed(fo, #[trigger] items(st1[j]@)) by {
                    if j != id {
                        assert(st1[j] == st0[j]);
                    }
                }
                assert forall|a: int| 0 <= a < ke1.len() implies set_followed(fo, #[trigger] items(ke1[a].0@)) by {
                    if a < j0 {
                        assert(ke1[a] == ke0[a]);
                    } else if a < ke0.len() - 1 {
                        assert(ke1[a] == ke0[a + 1]);
                    }
                }
                assert forall|c: int| 0 <= c < ra1.len() implies set_followed(fo, #[trigger] items(ra1[c].1@)) by {
                    if c != b {
                        assert(ra1[c] == ra0[c]);
                    }
                }
            }
            assert(mi == items(ke0[j0 as int].0@));
            lemma_merged_covers(items(inc@).union(mi), items(nk@));
            lemma_covers_part(items(nk@), items(inc@).union(mi), mi);
            assert(kview(ke0).contains_key(mi));
            lemma_kernel_at_distinct(ke0, j0 as int);
            lemma_update_grows(ke0, ra0, ke1, ra1, mi, items(nk@), id);
            lemma_merged_covers(sid.union(cl), items(nsv));
            lemma_covers_part(items(nsv), sid.union(cl), sid);
            assert forall|j: int| 0 <= j < st0.len() implies covers(items(#[trigger] st1[j]@), items(st0[j]@)) by {
                if j != id {
                    assert(st1[j] == st0[j]);
                    lemma_covers_refl(items(st0[j]@));
                }
            }
        }
        Some(nk)
    }

    /// Pushes the start state, the propagated closure of the start item, maps the
    /// empty kernel to state 0 and the empty core to the start state.
    pub fn proc_closures_first_row(&mut self)
        requires
            old(self).table.grammar.wf(),
            table_wf(old(self).table.first@),
            old(self).table.states@.len() == 0,
            old(self).table.kernels@.len() == 0,
            old(self).raws@.len() == 0,
        ensures
            final(self).inv(),
            final(self).table.grammar == old(self).table.grammar,
            final(self).table.first == old(self).table.first,
            final(self).table.follow == old(self).table.follow,
            final(self).table.actions == old(self).table.actions,
            final(self).table.states@.len() == 1,
            closes(
                old(self).table.grammar,
                tview(old(self).table.first@),
                true,
                set![old(self).table.grammar.basis@],
                items(final(self).table.states@[0]@),
            ),
            final(self).table.kernels@.len() == 1,
            items(final(self).table.kernels@[0].0@) == Set::<PositionView>::empty(),
            final(self).table.kernels@[0].1 == 0,
            final(self).raws@.len() == 1,
            items(final(self).raws@[0].0@) == Set::<PositionView>::empty(),
            items(final(self).raws@[0].1@) == items(final(self).table.states@[0]@),
            looks_ready(old(self).table) ==> lalr_looks_of(*final(self)),
    {
        let ghost g = self.table.grammar;
        let ghost f = tview(self.table.first@);
        let seed = crate::state::state_single(self.table.grammar.basis());
        proof {
            crate::lr::lemma_basis_ok(g);
            assert(items(seed@) =~= set![g.basis@]) by {
                assert(views(seed@) == seq![g.basis@]);
                assert forall|v: PositionView| views(seed@).contains(v) <==> v == g.basis@ by {
                    if v == g.basis@ {
                        assert(views(seed@)[0] == v);
                    }
                }
            }
        }
        let start = crate::lr::prop_closure_items(&self.table, seed, true);
        let empty: State = Vec::new();
        let empty2: State = Vec::new();
        self.table.kernels.push((empty, 0));
        self.raws.push((empty2, state_copy(&start)));
        self.table.states.push(start);
        proof {
            let st = self.table.states@;
            let ke = self.table.kernels@;
            let ra = self.raws@;
            let e = Set::<PositionView>::empty();
            assert(items(ke[0].0@) =~= e);
            assert(items(ra[0].0@) =~= e);
            assert(set_ok(g, set![g.basis@]));
            crate::lr::lemma_closes_ok(g, f, true, set![g.basis@], items(st[0]@));
            lemma_core_closes(g, self.table.first@, set![g.basis@], items(st[0]@));
            assert(core_set(set![g.basis@]) =~= set![strip(g.basis@)]) by {
                assert(core_set(set![g.basis@]).contains(strip(g.basis@))) by {
                    assert(set![g.basis@].contains(g.basis@));
                }
            }
            assert(set_ok(g, e));
            reveal(inv_kernels);
            reveal(inv_states);
            reveal(inv_start);
            reveal(inv_cores);
            reveal(inv_raws);
            lemma_kernel_at_distinct(ke, 0);
            assert(has_kernel(ke, e));
            assert(inv_kernels(g, st.len() as int, ke));
            assert(inv_states(g, st));
            assert(inv_start(g, f, st, ke));
            assert(inv_cores(g, f, st, ke));
            assert(inv_raws(ke, ra));
            if looks_ready(old(self).table) {
                let fo = follow_of(g, f);
                lemma_basis_followed(g, f);
                lemma_closes_followed(g, f, set![g.basis@], items(st[0]@));
                assert(set_followed(fo, e));
                assert(items(ra[0].1@) == items(st[0]@));
            }
        }
    }

    /// Merges `inc` and its closure into the state of kernel `main`, as
    /// [`Lalr::update_state`] does, then carries the change over to the states that the
    /// new kernel moves to, at most `fuel` calls deep; returns the kernel the state ends
    /// with.
    fn propagate(&mut self, main: &State, inc: State, closures: State, fuel: usize) -> (r: Option<State>)
        requires
            old(self).inv(),
            wf_state(main@),
            wf_state(inc@),
            wf_state(closures@),
            set_ok(old(self).table.grammar, items(inc@)),
            set_ok(old(self).table.grammar, items(closures@)),
            core_set(items(inc@)) == core_set(items(main@)),
            closes(old(self).table.grammar, tview(old(self).table.first@), true, items(inc@), items(closures@)),
        ensures
            final(self).inv(),
            final(self).table.grammar == old(self).table.grammar,
            final(self).table.first == old(self).table.first,
            final(self).table.follow == old(self).table.follow,
            final(self).table.actions == old(self).table.actions,
            final(self).table.states@.len() == old(self).table.states@.len(),
            forall|j: int|
                0 <= j < old(self).table.states@.len() ==> core_set(items(#[trigger] final(self).table.states@[j]@))
                    == core_set(items(old(self).table.states@[j]@)),
            forall|c: Set<PositionView>| has_raw(final(self).raws@, c) == has_raw(old(self).raws@, c),
            r is None <==> (!has_kernel(old(self).table.kernels@, items(main@)) || merged_ok(
                items(inc@).union(items(main@)),
                items(main@),
            )),
            r is None ==> final(self).table.states == old(self).table.states && final(self).table.kernels
                == old(self).table.kernels && final(self).raws == old(self).raws,
            match r {
                Some(k) => wf_state(k@) && set_ok(old(self).table.grammar, items(k@)),
                None => true,
            },
            looks_ready(old(self).table) && lalr_looks_of(*old(self)) && followed_in(*old(self), items(inc@))
                && followed_in(*old(self), items(closures@)) ==> lalr_looks_of(*final(self)) && (r matches Some(k)
                ==> followed_in(*old(self), items(k@))),
            raws_grow(old(self).raws@, final(self).raws@),
            kernels_keep_cores(old(self).table.kernels@, final(self).table.kernels@),
            states_grow(old(self).table.states@, final(self).table.states@),
            r matches Some(k) ==> {
                let cm = core_set(items(main@));
                &&& covers(items(k@), items(inc@).union(items(main@)))
                &&& core_set(items(k@)) == cm
                &&& rview(final(self).raws@).contains_key(cm)
                &&& covers(rview(final(self).raws@)[cm], items(k@))
            },
        decreases fuel,
    {
        let ghost g = self.table.grammar;
        let ghost f = tview(self.table.first@);
        let ghost st0 = self.table.states@;
        let ghost ra0 = self.raws@;
        let ghost lk = looks_ready(self.table) && lalr_looks_of(*self) && followed_in(*self, items(inc@)) && followed_in(
            *self,
            items(closures@),
        );
        let ghost ke0 = self.table.kernels@;
        let ghost cm = core_set(items(main@));
        let ghost iu = items(inc@).union(items(main@));
        proof {
            lemma_states_grow_refl(st0);
        }
        let mut new_kernel = match self.update_state(main, inc, closures) {
            Some(k) => k,
            None => {
                return None;
            },
        };
        let ghost ke1 = self.table.kernels@;
        let ghost nk1 = items(new_kernel@);
        proof {
            reveal(inv_kernels);
            assert(core_set(iu) =~= cm) by {
                assert forall|v: PositionView| #[trigger] core_set(iu).contains(v) implies cm.contains(v) by {
                    let p = choose|p: PositionView| iu.contains(p) && v == #[trigger] strip(p);
                    if items(inc@).contains(p) {
                        assert(core_set(items(inc@)).contains(v));
                    }
                }
                assert forall|v: PositionView| #[trigger] cm.contains(v) implies core_set(iu).contains(v) by {
                    let p = choose|p: PositionView| items(main@).contains(p) && v == #[trigger] strip(p);
                    assert(iu.contains(p));
                }
            }
            lemma_merged_covers(iu, nk1);
            assert(rview(self.raws@)[cm] == nk1);
            lemma_covers_refl(nk1);
        }
        let id: usize = match kernel_find(&self.table.kernels, &new_kernel) {
            Some(j) => {
                proof {
                    crate::lr::lemma_kernel_at_unique(ke1, nk1, j as int);
                }
                self.table.kernels[j].1
            },
            None => {
                return Some(new_kernel);
            },
        };
        proof {
            lemma_grow_refl(ke1, self.raws@);
        }
        let ghost ra1 = self.raws@;
        let syms = self.table.grammar.symbols();
        let mut budget: usize = usize::MAX;
        loop
            invariant
                self.inv(),
                self.table.grammar == g,
                self.table.first == old(self).table.first,
                self.table.follow == old(self).table.follow,
                self.table.actions == old(self).table.actions,
                f == tview(self.table.first@),
                g == old(self).table.grammar,
                st0 == old(self).table.states@,
                ra0 == old(self).raws@,
                syms@ == g.symbols@,
                self.table.states@.len() == st0.len(),
                forall|j: int| 0 <= j < st0.len() ==> core_set(items(#[trigger] self.table.states@[j]@)) == core_set(items(st0[j]@)),
                forall|c: Set<PositionView>| has_raw(self.raws@, c) == has_raw(ra0, c),
                wf_state(new_kernel@),
                set_ok(g, items(new_kernel@)),
                lk ==> looks_ready(self.table) && lalr_looks_of(*self) && followed_in(*self, items(new_kernel@)),
                raws_grow(old(self).raws@, self.raws@),
                kernels_keep_cores(ke0, self.table.kernels@),
                states_grow(st0, self.table.states@),
                raws_grow(ra1, self.raws@),
                kernels_keep_cores(ke1, self.table.kernels@),
                ke0 == old(self).table.kernels@,
                cm == core_set(items(main@)),
                iu == items(inc@).union(items(main@)),
                kview(ke1).contains_key(nk1),
                kview(ke1)[nk1] == id,
                core_set(nk1) == cm,
                forall|x: int, y: int| 0 <= x < y < ke1.len() ==> (#[trigger] ke1[x]).1 != (#[trigger] ke1[y]).1,
                covers(items(new_kernel@), iu),
                core_set(items(new_kernel@)) == cm,
                rview(self.raws@).contains_key(cm),
                covers(rview(self.raws@)[cm], items(new_kernel@)),
            decreases budget,
        {
            let mut k: usize = 0;
            let mut changed = false;
            while k < syms.len() && !changed
                invariant
                    self.inv(),
                    self.table.grammar == g,
                    self.table.first == old(self).table.first,
                    self.table.follow == old(self).table.follow,
                    self.table.actions == old(self).table.actions,
                    f == tview(self.table.first@),
                    g == old(self).table.grammar,
                    st0 == old(self).table.states@,
                    ra0 == old(self).raws@,
                    syms@ == g.symbols@,
                    k <= syms@.len(),
                    self.table.states@.len() == st0.len(),
                    forall|j: int| 0 <= j < st0.len() ==> core_set(items(#[trigger] self.table.states@[j]@)) == core_set(items(st0[j]@)),
                    forall|c: Set<PositionView>| has_raw(self.raws@, c) == has_raw(ra0, c),
                    wf_state(new_kernel@),
                    set_ok(g, items(new_kernel@)),
                    lk ==> looks_ready(self.table) && lalr_looks_of(*self) && followed_in(*self, items(new_kernel@)),
                    raws_grow(old(self).raws@, self.raws@),
                    kernels_keep_cores(ke0, self.table.kernels@),
                    states_grow(st0, self.table.states@),
                    raws_grow(ra1, self.raws@),
                    kernels_keep_cores(ke1, self.table.kernels@),
                    ke0 == old(self).table.kernels@,
                    cm == core_set(items(main@)),
                    iu == items(inc@).union(items(main@)),
                    kview(ke1).contains_key(nk1),
                    kview(ke1)[nk1] == id,
                    core_set(nk1) == cm,
                    forall|x: int, y: int| 0 <= x < y < ke1.len() ==> (#[trigger] ke1[x]).1 != (#[trigger] ke1[y]).1,
                    covers(items(new_kernel@), iu),
                    core_set(items(new_kernel@)) == cm,
                    rview(self.raws@).contains_key(cm),
                    covers(rview(self.raws@)[cm], items(new_kernel@)),
                decreases syms@.len() - k,
            {
                if fuel > 0 {
                    proof {
                        reveal(inv_kernels);
                    }
                    match goto_items(&self.table, &new_kernel, syms[k], true) {
                        Some((kernel, cls)) => {
                            proof {
                                crate::lr::lemma_goto_ok(g, items(new_kernel@), syms@[k as int]);
                                crate::lr::lemma_closes_ok(g, f, true, items(kernel@), items(cls@));
                                if lk {
                                    lemma_goto_followed(follow_of(g, f), items(new_kernel@), syms@[k as int]);
                                    lemma_closes_followed(g, f, items(kernel@), items(cls@));
                                }
                            }
                            let raw = core_of(&kernel);
                            proof {
                                reveal(inv_raws);
                            }
                            match entry_find(&self.raws, &raw) {
                                Some(b) => {
                                    let main_kernel = state_copy(&self.raws[b].1);
                                    proof {
                                        lemma_core_empty(items(kernel@));
                                        assert(items(self.raws@[b as int].0@) != Set::<PositionView>::empty());
                                        assert(core_set(items(main_kernel@)) == items(self.raws@[b as int].0@));
                                    }
                                    let ghost stb = self.table.states@;
                                    let ghost rab = self.raws@;
                                    let ghost keb = self.table.kernels@;
                                    let ghost nkb = items(new_kernel@);
                                    let ghost ik = items(kernel@);
                                    let ghost imk = items(main_kernel@);
                                    proof {
                                        crate::lr::lemma_raw_at_unique(rab, items(raw@), b as int);
                                        assert(imk == items(rab[b as int].1@));
                                    }
                                    match self.propagate(&main_kernel, kernel, cls, fuel - 1) {
                                        Some(nk) => {
                                            proof {
                                                reveal(inv_kernels);
                                            }
                                            match kernel_find(&self.table.kernels, &nk) {
                                                Some(j) => {
                                                    if self.table.kernels[j].1 == id && !state_eq(&nk, &new_kernel) {
                                                        proof {
                                                            let ke2 = self.table.kernels@;
                                                            let inn = items(nk@);
                                                            crate::lr::lemma_kernel_at_unique(ke2, inn, j as int);
                                                            lemma_keep_cores_trans(ke1, keb, ke2);
                                                            assert(kview(ke2).contains_key(inn));
                                                            let k0 = choose|k0: Set<PositionView>|
                                                                #[trigger] kview(ke1).contains_key(k0) && kview(ke1)[k0] == kview(ke2)[inn]
                                                                    && core_set(k0) == core_set(inn);
                                                            lemma_kview_injective(ke1, k0, nk1);
                                                            assert(core_set(inn) == cm);
                                                            assert(rview(rab)[cm] == imk);
                                                            lemma_covers_part(inn, ik.union(imk), imk);
                                                            lemma_covers_trans(inn, imk, nkb);
                                                            lemma_covers_trans(inn, nkb, iu);
                                                        }
                                                        new_kernel = nk;
                                                        changed = true;
                                                    }
                                                },
                                                None => {},
                                            }
                                        },
                                        None => {},
                                    }
                                    proof {
                                        lemma_states_grow_trans(st0, stb, self.table.states@);
                                        assert forall|j: int| 0 <= j < st0.len() implies core_set(items(#[trigger] self.table.states@[j]@)) == core_set(items(st0[j]@)) by {
                                            assert(core_set(items(stb[j]@)) == core_set(items(st0[j]@)));
                                        }
                                        assert forall|c: Set<PositionView>| has_raw(self.raws@, c) == has_raw(ra0, c) by {
                                            assert(has_raw(rab, c) == has_raw(ra0, c));
                                        }
                                    }
                                },
                                None => {},
                            }
                        },
                        None => {},
                    }
                }
                k = k + 1;
            }
            if !changed || budget == 0 {
                break;
            }
            budget = budget - 1;
        }
        Some(new_kernel)
    }

    /// Builds the LALR(1) states of a table that has none yet: breadth first over the
    /// states and the symbols, a move to a kernel of a new core makes a new state, and
    /// one to a known core merges into the state of that core (revisiting the current
    /// state when the merge changed it).
    pub fn proc_closures(&mut self)
        requires
            old(self).table.grammar.wf(),
            table_wf(old(self).table.first@),
            old(self).table.states@.len() == 0,
            old(self).table.kernels@.len() == 0,
            old(self).raws@.len() == 0,
        ensures
            final(self).inv(),
            final(self).table.grammar == old(self).table.grammar,
            final(self).table.first == old(self).table.first,
            final(self).table.follow == old(self).table.follow,
            final(self).table.actions == old(self).table.actions,
            lalr_ready_before(
                final(self).table.grammar,
                final(self).table.states@,
                final(self).raws@,
                (final(self).table.states@.len() as int, 0),
            ),
            states_derived(final(self).table.grammar, tview(final(self).table.first@), final(self).table.states@),
            looks_ready(old(self).table) ==> lalr_looks_of(*final(self)),
            exists|rows: Seq<Set<PositionView>>|
                #[trigger] visited_covered(
                    final(self).table.grammar,
                    final(self).table.states@,
                    final(self).raws@,
                    rows,
                    final(self).table.states@.len() as int,
                ),
    {
        self.proc_closures_first_row();
        let ghost g = self.table.grammar;
        let ghost f = tview(self.table.first@);
        let syms = self.table.grammar.symbols();
        let mut idx: usize = 0;
        let mut restarts: usize = usize::MAX;
        let ghost mut rows: Seq<Set<PositionView>> = Seq::empty();
        while idx < self.table.states.len()
            invariant
                self.inv(),
                self.table.grammar == g,
                self.table.first == old(self).table.first,
                self.table.follow == old(self).table.follow,
                self.table.actions == old(self).table.actions,
                g == old(self).table.grammar,
                f == tview(self.table.first@),
                syms@ == g.symbols@,
                idx <= self.table.states@.len(),
                lalr_ready_before(g, self.table.states@, self.raws@, (idx as int, 0)),
                states_derived(g, f, self.table.states@),
                looks_ready(self.table) ==> lalr_looks_of(*self),
                visited_covered(g, self.table.states@, self.raws@, rows, idx as int),
            decreases usize::MAX - idx, restarts,
        {
            proof {
                reveal(inv_states);
            }
            let row = state_copy(&self.table.states[idx]);
            proof {
                assert(items(row@) == items(self.table.states@[idx as int]@));
                lemma_covers_refl(items(row@));
            }
            let ghost rc = core_set(items(row@));
            let mut k: usize = 0;
            let mut again = false;
            while k < syms.len() && !again
                invariant
                    self.inv(),
                    self.table.grammar == g,
                    self.table.first == old(self).table.first,
                    self.table.follow == old(self).table.follow,
                    self.table.actions == old(self).table.actions,
                    g == old(self).table.grammar,
                    f == tview(self.table.first@),
                    syms@ == g.symbols@,
                    idx < self.table.states@.len(),
                    k <= syms@.len(),
                    wf_state(row@),
                    set_ok(g, items(row@)),
                    rc == core_set(items(row@)),
                    core_set(items(self.table.states@[idx as int]@)) == rc,
                    again ==> k > 0 && restarts > 0,
                    lalr_ready_before(g, self.table.states@, self.raws@, (idx as int, k as int)),
                    states_derived(g, f, self.table.states@),
                    looks_ready(self.table) ==> lalr_looks_of(*self),
                    looks_ready(self.table) ==> followed_in(*self, items(row@)),
                    visited_covered(g, self.table.states@, self.raws@, rows, idx as int),
                    covers(items(self.table.states@[idx as int]@), items(row@)),
                    row_covered(g, self.raws@, items(row@), k as int),
                decreases syms@.len() - k,
            {
                let ghost st0 = self.table.states@;
                let ghost ke0 = self.table.kernels@;
                let ghost ra0 = self.raws@;
                let ghost sym = syms@[k as int];
                let ghost gr = goto_set(items(row@), sym);
                proof {
                    reveal(inv_kernels);
                    reveal(inv_raws);
                    crate::lr::lemma_core_goto(items(row@), sym);
                    crate::lr::lemma_core_goto(items(st0[idx as int]@), sym);
                    lemma_core_empty(gr);
                    lemma_core_empty(goto_set(items(st0[idx as int]@), sym));
                    assert(core_set(gr) == core_set(goto_set(items(st0[idx as int]@), sym)));
                }
                match goto_items(&self.table, &row, syms[k], true) {
                    Some((kernel, closures)) => {
                        proof {
                            crate::lr::lemma_goto_ok(g, items(row@), sym);
                            crate::lr::lemma_closes_ok(g, f, true, items(kernel@), items(closures@));
                            if looks_ready(self.table) {
                                lemma_goto_followed(follow_of(g, f), items(row@), sym);
                                lemma_closes_followed(g, f, items(kernel@), items(closures@));
                            }
                        }
                        let raw = core_of(&kernel);
                        match entry_find(&self.raws, &raw) {
                            Some(b) => {
                                let main_kernel = state_copy(&self.raws[b].1);
                                proof {
                                    lemma_core_empty(items(kernel@));
                                    assert(items(self.raws@[b as int].0@) != Set::<PositionView>::empty());
                                    assert(core_set(items(main_kernel@)) == items(self.raws@[b as int].0@));
                                    assert(has_raw(ra0, core_set(gr)));
                                }
                                proof {
                                    crate::lr::lemma_raw_at_unique(ra0, items(raw@), b as int);
                                    assert(rview(ra0)[core_set(gr)] == items(main_kernel@));
                                    assert(has_kernel(ke0, items(main_kernel@)));
                                }
                                let ghost gk = items(kernel@);
                                match self.update_closures(&main_kernel, kernel, closures) {
                                    Some(nk) => {
                                        proof {
                                            reveal(inv_kernels);
                                            let cm = core_set(items(main_kernel@));
                                            lemma_covers_part(items(nk@), gk.union(items(main_kernel@)), gk);
                                            lemma_covers_trans(rview(self.raws@)[cm], items(nk@), gk);
                                            assert(gk.union(items(main_kernel@)) =~= items(main_kernel@).union(gk));
                                        }
                                        match kernel_find(&self.table.kernels, &nk) {
                                            Some(j) => {
                                                if self.table.kernels[j].1 == idx && !state_eq(&nk, &row) && restarts > 0 {
                                                    again = true;
                                                }
                                            },
                                            None => {},
                                        }
                                    },
                                    None => {
                                        proof {
                                            let mk = items(main_kernel@);
                                            lemma_merged_covers(gk.union(mk), mk);
                                            lemma_covers_part(mk, gk.union(mk), gk);
                                            assert(gk.union(mk) =~= mk.union(gk));
                                            lemma_covers_part(mk, mk.union(gk), mk.union(gk));
                                        }
                                    },
                                }
                                proof {
                                    lemma_ready_stays(g, st0, ra0, self.table.states@, self.raws@, (idx as int, k as int));
                                    lemma_derived_stays(g, f, st0, self.table.states@);
                                    let st1 = self.table.states@;
                                    let ra1 = self.raws@;
                                    lemma_visited_stays(g, st0, ra0, rows, idx as int, st1, ra1);
                                    lemma_row_covered_stays(g, ra0, ra1, items(row@), k as int);
                                    lemma_covers_trans(items(st1[idx as int]@), items(st0[idx as int]@), items(row@));
                                    let cm = core_set(items(main_kernel@));
                                    assert(cm == core_set(gr));
                                    if rview(ra1).contains_key(cm) && covers(rview(ra1)[cm], items(main_kernel@).union(gr)) {
                                        lemma_covers_part(rview(ra1)[cm], items(main_kernel@).union(gr), gr);
                                    }
                                    assert(move_covered(ra1, items(row@), sym));
                                }
                            },
                            None => {
                                let n = self.table.states.len();
                                let kc = state_copy(&kernel);
                                proof {
                                    lemma_core_empty(items(kernel@));
                                    assert(!has_raw(ra0, core_set(items(kernel@))));
                                }
                                let ghost cl = closures;
                                proof {
                                    lemma_derived_push(g, self.table.first@, st0, idx as int, sym, items(kernel@), cl);
                                }
                                self.raws.push((raw, kc));
                                self.table.states.push(closures);
                                self.table.kernels.push((kernel, n));
                                proof {
                                    let st1 = self.table.states@;
                                    let ke1 = self.table.kernels@;
                                    let ra1 = self.raws@;
                                    assert(st1 == st0.push(st1[st0.len() as int]));
                                    assert(ke1 == ke0.push(ke1[ke0.len() as int]));
                                    assert(ra1 == ra0.push(ra1[ra0.len() as int]));
                                    lemma_push_inv(g, self.table.first@, st0, ke0, ra0, kernel@, closures@, st1, ke1, ra1);
                                    assert forall|j: int| 0 <= j < st0.len() implies core_set(items(#[trigger] st1[j]@)) == core_set(items(st0[j]@)) by {
                                        assert(st1[j] == st0[j]);
                                    }
                                    assert forall|c: Set<PositionView>| has_raw(ra0, c) implies has_raw(ra1, c) by {
                                        let x = choose|x: int| 0 <= x < ra0.len() && #[trigger] items(ra0[x].0@) == c;
                                        assert(ra1[x] == ra0[x]);
                                    }
                                    lemma_ready_stays(g, st0, ra0, st1, ra1, (idx as int, k as int));
                                    assert(st1 == st0.push(cl));
                                    lemma_raws_push(ra0, (raw, kc));
                                    assert(ra1 == ra0.push((raw, kc)));
                                    assert forall|j: int| 0 <= j < st0.len() implies covers(items(#[trigger] st1[j]@), items(st0[j]@)) by {
                                        assert(st1[j] == st0[j]);
                                        lemma_covers_refl(items(st0[j]@));
                                    }
                                    lemma_visited_stays(g, st0, ra0, rows, idx as int, st1, ra1);
                                    lemma_row_covered_stays(g, ra0, ra1, items(row@), k as int);
                                    assert(st1[idx as int] == st0[idx as int]);
                                    assert(items(kc@) == items(kernel@));
                                    lemma_covers_refl(gr);
                                    assert(move_covered(ra1, items(row@), sym));
                                    if looks_ready(self.table) {
                                        let fo = follow_of(g, f);
                                        assert(items(ke1[ke0.len() as int].0@) == items(kernel@));
                                        assert(items(ra1[ra0.len() as int].1@) == items(kernel@));
                                        assert forall|jj: int| 0 <= jj < st1.len() implies set_followed(fo, #[trigger] items(st1[jj]@)) by {
                                            if jj < st0.len() {
                                                assert(st1[jj] == st0[jj]);
                                            }
                                        }
                                        assert forall|a: int| 0 <= a < ke1.len() implies set_followed(fo, #[trigger] items(ke1[a].0@)) by {
                                            if a < ke0.len() {
                                                assert(ke1[a] == ke0[a]);
                                            }
                                        }
                                        assert forall|c: int| 0 <= c < ra1.len() implies set_followed(fo, #[trigger] items(ra1[c].1@)) by {
                                            if c < ra0.len() {
                                                assert(ra1[c] == ra0[c]);
                                            }
                                        }
                                    }
                                    assert(has_raw(ra1, core_set(gr))) by {
                                        assert(items(ra1[ra0.len() as int].0@) == core_set(gr));
                                    }
                                }
                            },
                        }
                    },
                    None => {
                        proof {
                            if gr != Set::<PositionView>::empty() {
                                let a = choose|a: int| 0 <= a < ke0.len() && #[trigger] items(ke0[a].0@) == gr;
                                assert(items(ke0[a].0@) != Set::<PositionView>::empty());
                                lemma_covers_refl(gr);
                            }
                            lemma_grow_refl(ke0, ra0);
                            lemma_row_covered_stays(g, ra0, ra0, items(row@), k as int);
                            assert(move_covered(ra0, items(row@), sym));
                        }
                    },
                }
                proof {
                    let st1 = self.table.states@;
                    let ra1 = self.raws@;
                    assert forall|k2: int| 0 <= k2 < k + 1 && k2 < g.symbols@.len() implies #[trigger] move_covered(
                        ra1,
                        items(row@),
                        g.symbols@[k2],
                    ) by {
                        if k2 < k {
                            assert(row_covered(g, ra1, items(row@), k as int));
                        }
                    }
                    assert(core_set(items(st1[idx as int]@)) == rc);
                    crate::lr::lemma_core_goto(items(st1[idx as int]@), sym);
                    lemma_core_empty(goto_set(items(st1[idx as int]@), sym));
                    assert(goto_set(items(st1[idx as int]@), syms@[k as int]) == Set::<PositionView>::empty() || has_raw(
                        ra1,
                        core_set(goto_set(items(st1[idx as int]@), syms@[k as int])),
                    ));
                    assert forall|i: int, k2: int|
                        #![trigger goto_set(items(st1[i]@), g.symbols@[k2])]
                        0 <= i < st1.len() && 0 <= k2 < g.symbols@.len() && lex_lt((i, k2), (idx as int, k + 1)) implies goto_set(
                            items(st1[i]@),
                            g.symbols@[k2],
                        ) == Set::<PositionView>::empty() || has_raw(ra1, core_set(goto_set(items(st1[i]@), g.symbols@[k2]))) by {
                        if !(i == idx && k2 == k) {
                            assert(lex_lt((i, k2), (idx as int, k as int)));
                        }
                    }
                }
                k = k + 1;
            }
            proof {
                let st1 = self.table.states@;
                let ra1 = self.raws@;
                if !again {
                    let rows1 = rows.push(items(row@));
                    assert forall|i: int| 0 <= i < idx + 1 implies covers(items(st1[i]@), #[trigger] rows1[i]) && core_set(rows1[i])
                        == core_set(items(st1[i]@)) && row_covered(g, ra1, rows1[i], g.symbols@.len() as int) by {
                        if i < idx {
                            assert(rows1[i] == rows[i]);
                        }
                    }
                    rows = rows1;
                    assert forall|i: int, k2: int|
                        #![trigger goto_set(items(st1[i]@), g.symbols@[k2])]
                        0 <= i < st1.len() && 0 <= k2 < g.symbols@.len() && lex_lt((i, k2), (idx + 1, 0)) implies goto_set(
                            items(st1[i]@),
                            g.symbols@[k2],
                        ) == Set::<PositionView>::empty() || has_raw(ra1, core_set(goto_set(items(st1[i]@), g.symbols@[k2]))) by {
                        assert(lex_lt((i, k2), (idx as int, k as int)));
                    }
                } else {
                    assert forall|i: int, k2: int|
                        #![trigger goto_set(items(st1[i]@), g.symbols@[k2])]
                        0 <= i < st1.len() && 0 <= k2 < g.symbols@.len() && lex_lt((i, k2), (idx as int, 0)) implies goto_set(
                            items(st1[i]@),
                            g.symbols@[k2],
                        ) == Set::<PositionView>::empty() || has_raw(ra1, core_set(goto_set(items(st1[i]@), g.symbols@[k2]))) by {
                        assert(lex_lt((i, k2), (idx as int, k as int)));
                    }
                }
            }
            if again {
                restarts = restarts - 1;
            } else {
                idx = idx + 1;
            }
        }
    }

    /// Merges `inc` and its closure into the state of kernel `main`, and carries the
    /// change over to the states the new kernel moves to; returns the kernel the state
    /// ends with.
    pub fn update_closures(&mut self, main: &State, inc: State, closures: State) -> (r: Option<State>)
        requires
            old(self).inv(),
            wf_state(main@),
            wf_state(inc@),
            wf_state(closures@),
            set_ok(old(self).table.grammar, items(inc@)),
            set_ok(old(self).table.grammar, items(closures@)),
            core_set(items(inc@)) == core_set(items(main@)),
            closes(old(self).table.grammar, tview(old(self).table.first@), true, items(inc@), items(closures@)),
        ensures
            final(self).inv(),
            final(self).table.grammar == old(self).table.grammar,
            final(self).table.first == old(self).table.first,
            final(self).table.follow == old(self).table.follow,
            final(self).table.actions == old(self).table.actions,
            final(self).table.states@.len() == old(self).table.states@.len(),
            forall|j: int|
                0 <= j < old(self).table.states@.len() ==> core_set(items(#[trigger] final(self).table.states@[j]@))
                    == core_set(items(old(self).table.states@[j]@)),
            forall|c: Set<PositionView>| has_raw(final(self).raws@, c) == has_raw(old(self).raws@, c),
            r is None <==> (!has_kernel(old(self).table.kernels@, items(main@)) || merged_ok(
                items(inc@).union(items(main@)),
                items(main@),
            )),
            r is None ==> final(self).table.states == old(self).table.states && final(self).table.kernels
                == old(self).table.kernels && final(self).raws == old(self).raws,
            match r {
                Some(k) => wf_state(k@) && set_ok(old(self).table.grammar, items(k@)),
                None => true,
            },
            looks_ready(old(self).table) && lalr_looks_of(*old(self)) && followed_in(*old(self), items(inc@))
                && followed_in(*old(self), items(closures@)) ==> lalr_looks_of(*final(self)) && (r matches Some(k)
                ==> followed_in(*old(self), items(k@))),
            raws_grow(old(self).raws@, final(self).raws@),
            kernels_keep_cores(old(self).table.kernels@, final(self).table.kernels@),
            states_grow(old(self).table.states@, final(self).table.states@),
            r matches Some(k) ==> {
                let cm = core_set(items(main@));
                &&& covers(items(k@), items(inc@).union(items(main@)))
                &&& core_set(items(k@)) == cm
                &&& rview(final(self).raws@).contains_key(cm)
                &&& covers(rview(final(self).raws@)[cm], items(k@))
            },
    {
        self.propagate(main, inc, closures, usize::MAX)
    }

    /// The parser of `grammar`.
    pub fn new(grammar: Grammar) -> (p: Self)
        requires
            grammar.wf(),
        ensures
            p.table.grammar == grammar,
            lalr_built(p),
            closes(grammar, tview(p.table.first@), true, set![grammar.basis@], items(p.table.states@[0]@)),
    {
        Self::with_table(Tabler::new(grammar))
    }

    /// The parser whose FIRST and FOLLOW sets are those of `table`, with its states
    /// and actions built.
    pub fn with_table(table: Tabler) -> (p: Self)
        requires
            table.grammar.wf(),
            table.first_ok(),
            table.follow_ok(),
            table.states@.len() == 0,
            table.kernels@.len() == 0,
            table.actions@.len() == 0,
        ensures
            p.table.grammar == table.grammar,
            p.table.first == table.first,
            p.table.follow == table.follow,
            lalr_built(p),
            closes(table.grammar, tview(table.first@), true, set![table.grammar.basis@], items(p.table.states@[0]@)),
    {
        let mut parser = Self::uninit(table);
        parser.proc_actions();
        proof {
            reveal(inv_start);
        }
        parser
    }

    /// The parser holding `table` as it is, with no cores mapped.
    pub fn uninit(table: Tabler) -> (p: Self)
        ensures
            p.table == table,
            p.raws@.len() == 0,
    {
        Lalr { table, raws: Vec::new() }
    }

    /// Merges equal rows of the parser's action table and renames the states they name,
    /// as [`Tabler::reduce_equals`] does.
    pub fn reduce_equals(&mut self)
        requires
            crate::tabler::table_closed(old(self).table.actions@),
        ensures
            final(self).table.grammar == old(self).table.grammar,
            final(self).table.first == old(self).table.first,
            final(self).table.follow == old(self).table.follow,
            final(self).table.states == old(self).table.states,
            final(self).table.kernels == old(self).table.kernels,
            final(self).table.actions@.len() <= old(self).table.actions@.len(),
            final(self).raws == old(self).raws,
            exists|travel: Seq<usize>|
                #[trigger] travel.len() == old(self).table.actions@.len() && crate::tabler::reduced(
                    old(self).table.actions@,
                    travel,
                    final(self).table.actions@,
                ),
    {
        self.table.reduce_equals();
    }

    /// The parser's tables.
    pub fn tables(&self) -> (t: &Tabler)
        ensures
            *t == self.table,
    {
        &self.table
    }

    /// The items of `state` without their lookaheads.
    pub fn without_look(state: &State) -> (r: State)
        ensures
            wf_state(r@),
            items(r@) == core_set(items(state@)),
    {
        core_of(state)
    }

    /// One item for each core of `states`, with the lookaheads of all its items of that
    /// core.
    pub fn merged(states: State) -> (r: State)
        requires
            looks_sorted(items(states@)),
        ensures
            wf_state(r@),
            merged_ok(items(states@), items(r@)),
    {
        merged_state(states)
    }

    /// Applies closure steps to `seed` until one changes nothing.
    pub fn prop_closure(&self, seed: State) -> (r: State)
        requires
            self.table.grammar.wf(),
            table_wf(self.table.first@),
            wf_state(seed@),
        ensures
            wf_state(r@),
            closes(self.table.grammar, tview(self.table.first@), true, items(seed@), items(r@)),
    {
        crate::lr::prop_closure_items(&self.table, seed, true)
    }

    /// One closure step on `state`: the items its items spawn, with their lookaheads,
    /// and its own items.
    pub fn closure(&self, state: State) -> (r: State)
        requires
            self.table.grammar.wf(),
            table_wf(self.table.first@),
        ensures
            wf_state(r@),
            items(r@) == crate::lr::closure_step(self.table.grammar, tview(self.table.first@), true, items(state@)),
    {
        crate::lr::closure_items(&self.table, &state, true)
    }

    /// The kernel of moving over `sym` from `kernels`, and its propagated closure,
    /// unless that kernel is already known or empty.
    pub fn goto(&self, kernels: &State, sym: usize) -> (r: Option<(State, State)>)
        requires
            self.table.grammar.wf(),
            table_wf(self.table.first@),
            kernels_wf(self.table.kernels@),
        ensures
            r is None <==> (has_kernel(self.table.kernels@, goto_set(items(kernels@), sym)) || goto_set(
                items(kernels@),
                sym,
            ) == Set::<PositionView>::empty()),
            match r {
                Some((k, c)) => {
                    &&& wf_state(k@)
                    &&& wf_state(c@)
                    &&& items(k@) == goto_set(items(kernels@), sym)
                    &&& closes(self.table.grammar, tview(self.table.first@), true, items(k@), items(c@))
                },
                None => true,
            },
    {
        goto_items(&self.table, kernels, sym, true)
    }

    /// The kernel kept for the core of `kernel`, if any.
    pub fn final_kernel(&self, kernel: &State) -> (r: Option<State>)
        requires
            forall|b: int| 0 <= b < self.raws@.len() ==> wf_state(#[trigger] self.raws@[b].0@) && wf_state(self.raws@[b].1@),
        ensures
            r is Some <==> has_raw(self.raws@, core_set(items(kernel@))),
            match r {
                Some(k) => wf_state(k@) && items(k@) == raw_value(self.raws@, core_set(items(kernel@))),
                None => true,
            },
    {
        let raw = core_of(kernel);
        match entry_find(&self.raws, &raw) {
            Some(b) => {
                proof {
                    crate::lr::lemma_raw_at_unique(self.raws@, items(raw@), b as int);
                }
                Some(state_copy(&self.raws[b].1))
            },
            None => None,
        }
    }

    /// The state of the kernel kept for the core of `kernel`, if any.
    pub fn state_from_kernel(&self, kernel: &State) -> (r: Option<usize>)
        requires
            forall|b: int| 0 <= b < self.raws@.len() ==> wf_state(#[trigger] self.raws@[b].0@) && wf_state(self.raws@[b].1@),
            kernels_wf(self.table.kernels@),
        ensures
            r == (if target_ready(self.table.kernels@, Some(self.raws@), items(kernel@)) {
                Some(target_state(self.table.kernels@, Some(self.raws@), items(kernel@)))
            } else {
                None
            }),
    {
        match self.final_kernel(kernel) {
            Some(fk) => match kernel_find(&self.table.kernels, &fk) {
                Some(j) => {
                    proof {
                        crate::lr::lemma_kernel_at_unique(self.table.kernels@, items(fk@), j as int);
                    }
                    Some(self.table.kernels[j].1)
                },
                None => None,
            },
            None => None,
        }
    }

    /// The actions of item `pos` of state `row`: its reduction (or acceptance, for the
    /// rule `start`) on each of its lookaheads when it is finished, else the move over
    /// its next symbol to the state kept for the core of that move.
    pub fn decision(&self, start: usize, pos: &Position, row: &State) -> (r: Row)
        requires
            self.table.grammar.wf(),
            kernels_wf(self.table.kernels@),
            raws_wf(Some(self.raws@)),
            peek_spec(pos@, 0) is None ==> sorted_set(pos@.look),
            forall|top: usize|
                peek_spec(pos@, 0) == Some(top) ==> target_ready(
                    self.table.kernels@,
                    Some(self.raws@),
                    goto_set(items(row@), top),
                ),
        ensures
            row_wf(r@),
            row_view_of(r) == decision_entries(
                self.table.grammar,
                start,
                self.table.kernels@,
                Some(self.raws@),
                items(row@),
                pos@,
                looks_of(self.table.follow@, true, pos@),
            ),
    {
        let looks = crate::pos::copy_syms(&pos.look);
        decision_row(&self.table, start, pos, row, &looks, Some(&self.raws))
    }

    /// Builds the states, then the action table.
    pub fn proc_actions(&mut self)
        requires
            old(self).table.grammar.wf(),
            table_wf(old(self).table.first@),
            old(self).table.states@.len() == 0,
            old(self).table.kernels@.len() == 0,
            old(self).raws@.len() == 0,
        ensures
            final(self).inv(),
            final(self).table.grammar == old(self).table.grammar,
            final(self).table.first == old(self).table.first,
            final(self).table.follow == old(self).table.follow,
            lalr_ready_before(
                final(self).table.grammar,
                final(self).table.states@,
                final(self).raws@,
                (final(self).table.states@.len() as int, 0),
            ),
            final(self).table.actions@.len() == old(self).table.actions@.len()
                + final(self).table.states@.len(),
            forall|i: int|
                0 <= i < old(self).table.actions@.len() ==> #[trigger] final(self).table.actions@[i]
                    == old(self).table.actions@[i],
            forall|i: int|
                0 <= i < final(self).table.states@.len() ==> row_wf(
                    #[trigger] final(self).table.actions@[old(self).table.actions@.len() + i]@,
                ) && rmap(final(self).table.actions@[old(self).table.actions@.len() + i]@)
                    == row_actions(
                    final(self).table,
                    true,
                    Some(final(self).raws@),
                    final(self).table.states@[i]@,
                    final(self).table.states@[i]@.len() as int,
                ),
            old(self).table.actions@.len() == 0 ==> actions_match(final(self).table, true, Some(final(self).raws@)),
            states_derived(final(self).table.grammar, tview(final(self).table.first@), final(self).table.states@),
            looks_ready(old(self).table) ==> lalr_looks_of(*final(self)),
            exists|rows: Seq<Set<PositionView>>|
                #[trigger] visited_covered(
                    final(self).table.grammar,
                    final(self).table.states@,
                    final(self).raws@,
                    rows,
                    final(self).table.states@.len() as int,
                ),
    {
        self.proc_closures();
        proof {
            lemma_lalr_ready(
                self.table.grammar,
                tview(self.table.first@),
                self.table.states@,
                self.table.kernels@,
                self.raws@,
            );
        }
        let ghost t1 = self.table;
        build_actions(&mut self.table, true, Some(&self.raws));
        proof {
            let t2 = self.table;
            let rw = Some(self.raws@);
            assert forall|i: int| 0 <= i < t2.states@.len() implies row_actions(
                t1,
                true,
                rw,
                t2.states@[i]@,
                t2.states@[i]@.len() as int,
            ) == row_actions(t2, true, rw, t2.states@[i]@, t2.states@[i]@.len() as int) by {
                lemma_row_actions_same(t1, t2, true, rw, t2.states@[i]@, t2.states@[i]@.len() as int);
            }
            if old(self).table.actions@.len() == 0 {
                assert forall|i: int| 0 <= i < t2.states@.len() implies row_wf(#[trigger] t2.actions@[i]@)
                    && rmap(t2.actions@[i]@) == row_actions(
                    t2,
                    true,
                    rw,
                    t2.states@[i]@,
                    t2.states@[i]@.len() as int,
                ) by {
                    assert(t2.actions@[0 + i] == t2.actions@[i]);
                }
            }
        }
    }

    /// An automaton running this parser's action table over `buffer`.
    pub fn dfa<T, R: Reductor<T>>(&self, buffer: VecDeque<Token<T, usize>>, maps: R) -> (d: Dfa<T, R>)
        requires
            self.table.grammar.wf(),
        ensures
            d.cfg() == start_cfg(tys_of(buffer@)),
            d.buffer@ == buffer@,
            act_view(d.table@) == act_view(self.table.actions@),
            rows_wf(self.table.actions@) ==> rows_wf(d.table@),
            d.eof == self.table.grammar.eof(),
            d.reductors == maps,
    {
        table_dfa(&self.table, buffer, maps)
    }

    /// An automaton over symbol-only tokens.
    pub fn simple_dfa(&self, buffer: Vec<Token<(), usize>>) -> (d: Dfa<(), Empty>)
        requires
            self.table.grammar.wf(),
        ensures
            d.cfg() == start_cfg(tys_of(buffer@)),
            act_view(d.table@) == act_view(self.table.actions@),
            rows_wf(self.table.actions@) ==> rows_wf(d.table@),
            d.eof == self.table.grammar.eof(),
    {
        table_dfa(&self.table, queue_of(buffer), Empty)
    }

    /// Parses `buffer`, with `maps` giving reduced items their values, and returns the
    /// value of the item left on top when the input is accepted.
    pub fn parse<T, R: Reductor<T>>(&self, buffer: Vec<Token<T, usize>>, maps: R) -> (r: Result<T, Error>)
        requires
            lalr_built(*self),
        ensures
            ({
                let (c, res) = run_spec(
                    act_view(self.table.actions@),
                    self.table.grammar.eof(),
                    start_cfg(tys_of(buffer@)),
                    usize::MAX as nat,
                );
                match res {
                    Err(e) => r matches Err(x) && x@ == e,
                    Ok(()) => if c.tys.len() == 0 {
                        r matches Err(x) && x@ == ErrorView::MissingPreviousState
                    } else {
                        r matches Ok(v) && parsed_value(act_view(self.table.actions@), maps, self.table.grammar.eof(), buffer@, v)
                    },
                }
            }),
    {
        proof {
            lemma_actions_rows_wf(self.table, true, Some(self.raws@));
        }
        table_parse(&self.table, buffer, maps)
    }

    /// Whether the parser accepts the symbols of `buffer`.
    pub fn validate(&self, buffer: Vec<Token<(), usize>>) -> (r: bool)
        requires
            lalr_built(*self),
        ensures
            r == accepts(act_view(self.table.actions@), self.table.grammar.eof(), tys_of(buffer@)),
    {
        proof {
            lemma_actions_rows_wf(self.table, true, Some(self.raws@));
        }
        table_validate(&self.table, buffer)
    }
}

} // verus!
