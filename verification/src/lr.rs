//! Item sets of an LR automaton: the closure of a set of items, its fixpoint, and
//! the kernel that moving over a symbol gives.
use vstd::prelude::*;

use crate::grammar::{Grammar, body_of, find_rule, has_rule, rule_index};
use crate::pos::{Position, PositionView, Production, advanced, copy_syms, peek_spec, views};
use crate::state::{State, holds, lemma_state_ext, lemma_state_grows, state_copy, state_eq,
    state_extend, state_insert, wf_state};
use crate::symset::{lemma_sorted_set_ext, sorted_set};
use crate::table::{table_wf, tview};
use crate::tabler::{Tabler, filtered, first_contrib, first_of_set};

verus! {

/// The items of a state, as a set.
pub open spec fn items(s: Seq<Position>) -> Set<PositionView> {
    views(s).to_set()
}

/// The lookaheads that an item spawned by `p` carries: none when the automaton has no
/// lookaheads (`lr1` false); else the FIRST set of the symbol after the next one of `p`,
/// or the lookaheads of `p` when there is no such symbol.
pub open spec fn look_ok(f: Map<usize, Set<usize>>, lr1: bool, p: PositionView, look: Seq<usize>) -> bool {
    if !lr1 {
        look == Seq::<usize>::empty()
    } else {
        match peek_spec(p, 1) {
            Some(l) => sorted_set(look) && look.to_set() == first_of_set(f, seq![l]),
            None => look == p.look,
        }
    }
}

/// `v` is the item that production `j` of the non-terminal after the point of `p`
/// spawns: the production with the point at its start.
pub open spec fn spawn_of(
    g: Grammar,
    f: Map<usize, Set<usize>>,
    lr1: bool,
    p: PositionView,
    j: int,
    v: PositionView,
) -> bool {
    match peek_spec(p, 0) {
        Some(top) => {
            &&& g.nonterminal(top)
            &&& 0 <= j < g.rule(top).prods@.len()
            &&& v.rule == top
            &&& v.body == body_of(g.rule(top), j)
            &&& v.index == g.rule(top).prods@[j].1
            &&& v.point == 0
            &&& look_ok(f, lr1, p, v.look)
        },
        None => false,
    }
}

/// Some item of `s` spawns `v`.
pub open spec fn spawned(
    g: Grammar,
    f: Map<usize, Set<usize>>,
    lr1: bool,
    s: Set<PositionView>,
    v: PositionView,
) -> bool {
    exists|p: PositionView, j: int| s.contains(p) && #[trigger] spawn_of(g, f, lr1, p, j, v)
}

/// One closure step: the items of `s` and those they spawn.
pub open spec fn closure_step(
    g: Grammar,
    f: Map<usize, Set<usize>>,
    lr1: bool,
    s: Set<PositionView>,
) -> Set<PositionView> {
    Set::new(|v: PositionView| s.contains(v) || spawned(g, f, lr1, s, v))
}

/// `n` closure steps from `s`.
pub open spec fn closure_iter(
    g: Grammar,
    f: Map<usize, Set<usize>>,
    lr1: bool,
    s: Set<PositionView>,
    n: nat,
) -> Set<PositionView>
    decreases n,
{
    if n == 0 {
        s
    } else {
        closure_step(g, f, lr1, closure_iter(g, f, lr1, s, (n - 1) as nat))
    }
}

/// `r` is the propagated closure of `seed`: the first closure iterate that one more
/// step leaves unchanged.
pub open spec fn closes(
    g: Grammar,
    f: Map<usize, Set<usize>>,
    lr1: bool,
    seed: Set<PositionView>,
    r: Set<PositionView>,
) -> bool {
    exists|n: nat| #[trigger] closure_iter(g, f, lr1, seed, n) == r && closure_step(g, f, lr1, r) == r
}

/// The kernel that moving over `sym` from the items `s` gives: the items of `s` with
/// `sym` after the point, each advanced past it.
pub open spec fn goto_set(s: Set<PositionView>, sym: usize) -> Set<PositionView> {
    Set::new(
        |v: PositionView|
            exists|p: PositionView| s.contains(p) && peek_spec(p, 0) == Some(sym) && v == #[trigger] advanced(p),
    )
}

/// The state that `sym_filter` gives holds the items of the move over `sym`.
pub proof fn lemma_filter_items(from: Seq<Position>, sym: usize, k: Seq<Position>)
    requires
        forall|v: PositionView| holds(k, v) <==> filtered(from, sym, v),
    ensures
        items(k) == goto_set(items(from), sym),
{
    let gs = goto_set(items(from), sym);
    assert forall|v: PositionView| items(k).contains(v) <==> gs.contains(v) by {
        assert(items(k).contains(v) == holds(k, v));
        if holds(k, v) {
            let p = choose|p: PositionView| holds(from, p) && peek_spec(p, 0) == Some(sym) && v == #[trigger] advanced(p);
            assert(items(from).contains(p));
        }
        if gs.contains(v) {
            let p = choose|p: PositionView| items(from).contains(p) && peek_spec(p, 0) == Some(sym) && v == #[trigger] advanced(p);
            assert(holds(from, p));
        }
    }
    assert(items(k) =~= gs);
}

/// A closure iterate holds every earlier one.
pub proof fn lemma_iter_grows(
    g: Grammar,
    f: Map<usize, Set<usize>>,
    lr1: bool,
    s: Set<PositionView>,
    n: nat,
    m: nat,
)
    requires
        n <= m,
    ensures
        closure_iter(g, f, lr1, s, n).subset_of(closure_iter(g, f, lr1, s, m)),
    decreases m - n,
{
    if n < m {
        lemma_iter_grows(g, f, lr1, s, n, (m - 1) as nat);
    }
}

/// Once a closure iterate is unchanged by a step, every later iterate equals it.
pub proof fn lemma_iter_stable(
    g: Grammar,
    f: Map<usize, Set<usize>>,
    lr1: bool,
    s: Set<PositionView>,
    n: nat,
    m: nat,
)
    requires
        n <= m,
        closure_step(g, f, lr1, closure_iter(g, f, lr1, s, n)) == closure_iter(g, f, lr1, s, n),
    ensures
        closure_iter(g, f, lr1, s, m) == closure_iter(g, f, lr1, s, n),
    decreases m - n,
{
    if n < m {
        lemma_iter_stable(g, f, lr1, s, n, (m - 1) as nat);
    }
}

/// The propagated closure of a set is unique.
pub proof fn lemma_closes_unique(
    g: Grammar,
    f: Map<usize, Set<usize>>,
    lr1: bool,
    seed: Set<PositionView>,
    r1: Set<PositionView>,
    r2: Set<PositionView>,
)
    requires
        closes(g, f, lr1, seed, r1),
        closes(g, f, lr1, seed, r2),
    ensures
        r1 == r2,
{
    let n1 = choose|n: nat| #[trigger] closure_iter(g, f, lr1, seed, n) == r1 && closure_step(g, f, lr1, r1) == r1;
    let n2 = choose|n: nat| #[trigger] closure_iter(g, f, lr1, seed, n) == r2 && closure_step(g, f, lr1, r2) == r2;
    if n1 <= n2 {
        lemma_iter_stable(g, f, lr1, seed, n1, n2);
    } else {
        lemma_iter_stable(g, f, lr1, seed, n2, n1);
    }
}

/// The propagated closure holds its seed.
pub proof fn lemma_closes_holds_seed(
    g: Grammar,
    f: Map<usize, Set<usize>>,
    lr1: bool,
    seed: Set<PositionView>,
    r: Set<PositionView>,
)
    requires
        closes(g, f, lr1, seed, r),
    ensures
        seed.subset_of(r),
{
    let n = choose|n: nat| #[trigger] closure_iter(g, f, lr1, seed, n) == r && closure_step(g, f, lr1, r) == r;
    lemma_iter_grows(g, f, lr1, seed, 0, n);
}

/// Propagating a closure again changes nothing: the propagated closure of a
/// propagated closure is itself, and it is the only one.
pub proof fn law_prop_closure_idempotent(
    g: Grammar,
    f: Map<usize, Set<usize>>,
    lr1: bool,
    seed: Set<PositionView>,
    r: Set<PositionView>,
    r2: Set<PositionView>,
)
    requires
        closes(g, f, lr1, seed, r),
        closes(g, f, lr1, r, r2),
    ensures
        r2 == r,
{
    let n = choose|n: nat| #[trigger] closure_iter(g, f, lr1, seed, n) == r && closure_step(g, f, lr1, r) == r;
    assert(closure_iter(g, f, lr1, r, 0) == r);
    assert(closes(g, f, lr1, r, r));
    lemma_closes_unique(g, f, lr1, r, r, r2);
}

/// The items that `state` spawns in one closure step, followed by `state` itself.
pub fn closure_items(t: &Tabler, state: &State, lr1: bool) -> (r: State)
    requires
        t.grammar.wf(),
        table_wf(t.first@),
    ensures
        wf_state(r@),
        items(r@) == closure_step(t.grammar, tview(t.first@), lr1, items(state@)),
{
    let ghost g = t.grammar;
    let ghost f = tview(t.first@);
    let ghost s = items(state@);
    let mut new_state: State = Vec::new();
    let mut i: usize = 0;
    while i < state.len()
        invariant
            i <= state@.len(),
            g == t.grammar,
            f == tview(t.first@),
            s == items(state@),
            t.grammar.wf(),
            table_wf(t.first@),
            wf_state(new_state@),
            forall|v: PositionView|
                #[trigger] holds(new_state@, v) <==> exists|q: int, j: int|
                    0 <= q < i && spawn_of(g, f, lr1, state@[q]@, j, v),
        decreases state@.len() - i,
    {
        let ghost before = new_state@;
        let ghost pv = state@[i as int]@;
        match state[i].top() {
            Some(top) => {
                if !t.grammar.is_terminal(top) {
                    let look: Vec<usize> = if lr1 {
                        match state[i].next() {
                            Some(locus) => {
                                let one = vec![locus];
                                assert(one@ == seq![locus]);
                                t.first_of(&one)
                            },
                            None => copy_syms(&state[i].look),
                        }
                    } else {
                        Vec::new()
                    };
                    assert(look_ok(f, lr1, pv, look@));
                    match find_rule(&t.grammar.rules, top) {
                        Some(ri) => {
                            let prods: Vec<Production> = t.grammar.rules[ri].prods();
                            assert(g.rule(top) == t.grammar.rules@[ri as int]);
                            let mut k: usize = 0;
                            while k < prods.len()
                                invariant
                                    k <= prods@.len(),
                                    g == t.grammar,
                                    ri < g.rules@.len(),
                                    g.rule(top) == g.rules@[ri as int],
                                    g.nonterminal(top),
                                    peek_spec(pv, 0) == Some(top),
                                    look_ok(f, lr1, pv, look@),
                                    prods@.len() == g.rules@[ri as int].prods@.len(),
                                    forall|j: int|
                                        0 <= j < prods@.len() ==> #[trigger] prods@[j].0@
                                            == g.rules@[ri as int].prods@[j].0@ && prods@[j].1
                                            == g.rules@[ri as int].prods@[j].1,
                                    wf_state(new_state@),
                                    forall|v: PositionView|
                                        #[trigger] holds(new_state@, v) <==> (holds(before, v)
                                            || exists|j: int|
                                            0 <= j < k && spawn_of(g, f, lr1, pv, j, v)),
                                decreases prods@.len() - k,
                            {
                                let ghost nb = new_state@;
                                let item = Position::new(
                                    top,
                                    (copy_syms(&prods[k].0), prods[k].1),
                                    0,
                                    copy_syms(&look),
                                );
                                assert(spawn_of(g, f, lr1, pv, k as int, item@));
                                state_insert(&mut new_state, item);
                                assert forall|v: PositionView|
                                    #[trigger] holds(new_state@, v) <==> (holds(before, v)
                                        || exists|j: int|
                                        0 <= j < k + 1 && spawn_of(g, f, lr1, pv, j, v)) by {
                                    if exists|j: int| 0 <= j < k + 1 && spawn_of(g, f, lr1, pv, j, v) {
                                        let j = choose|j: int| 0 <= j < k + 1 && spawn_of(g, f, lr1, pv, j, v);
                                        if j == k {
                                            if lr1 && peek_spec(pv, 1) is Some {
                                                assert forall|e: usize| v.look.contains(e) <==> look@.contains(e) by {
                                                    assert(v.look.to_set().contains(e) == v.look.contains(e));
                                                    assert(look@.to_set().contains(e) == look@.contains(e));
                                                }
                                                lemma_sorted_set_ext(v.look, look@);
                                            }
                                            assert(v == item@);
                                        }
                                    }
                                }
                                k = k + 1;
                            }
                            assert forall|v: PositionView|
                                #[trigger] holds(new_state@, v) <==> (holds(before, v) || exists|j: int|
                                    spawn_of(g, f, lr1, pv, j, v)) by {
                                if exists|j: int| spawn_of(g, f, lr1, pv, j, v) {
                                    let j = choose|j: int| spawn_of(g, f, lr1, pv, j, v);
                                    assert(0 <= j < prods@.len());
                                }
                            }
                        },
                        None => {},
                    }
                } else {
                    assert forall|v: PositionView, j: int| !spawn_of(g, f, lr1, pv, j, v) by {}
                }
            },
            None => {
                assert forall|v: PositionView, j: int| !spawn_of(g, f, lr1, pv, j, v) by {}
            },
        }
        assert(forall|v: PositionView|
            #[trigger] holds(new_state@, v) <==> (holds(before, v) || exists|j: int|
                spawn_of(g, f, lr1, pv, j, v)));
        assert forall|v: PositionView|
            #[trigger] holds(new_state@, v) <==> exists|q: int, j: int|
                0 <= q < i + 1 && spawn_of(g, f, lr1, state@[q]@, j, v) by {
            if exists|q: int, j: int| 0 <= q < i + 1 && spawn_of(g, f, lr1, state@[q]@, j, v) {
                let (q, j) = choose|q: int, j: int| 0 <= q < i + 1 && spawn_of(g, f, lr1, state@[q]@, j, v);
                if q == i {
                    assert(spawn_of(g, f, lr1, pv, j, v));
                } else {
                    assert(holds(before, v));
                }
            }
            if holds(new_state@, v) && !holds(before, v) {
                let j = choose|j: int| spawn_of(g, f, lr1, pv, j, v);
                assert(spawn_of(g, f, lr1, state@[i as int]@, j, v));
            }
        }
        i = i + 1;
    }
    let copy = state_copy(state);
    state_extend(&mut new_state, copy);
    assert forall|v: PositionView|
        items(new_state@).contains(v) <==> closure_step(g, f, lr1, s).contains(v) by {
        assert(holds(copy@, v) == holds(state@, v));
        if spawned(g, f, lr1, s, v) {
            let (p, j) = choose|p: PositionView, j: int| s.contains(p) && #[trigger] spawn_of(g, f, lr1, p, j, v);
            let q = choose|q: int| 0 <= q < views(state@).len() && views(state@)[q] == p;
            assert(spawn_of(g, f, lr1, state@[q]@, j, v));
        }
        if exists|q: int, j: int| 0 <= q < state@.len() && spawn_of(g, f, lr1, state@[q]@, j, v) {
            let (q, j) = choose|q: int, j: int| 0 <= q < state@.len() && spawn_of(g, f, lr1, state@[q]@, j, v);
            assert(views(state@)[q] == state@[q]@);
            assert(s.contains(state@[q]@));
        }
    }
    assert(items(new_state@) =~= closure_step(g, f, lr1, s));
    new_state
}

/// Applies closure steps to `seed` until one changes nothing.
pub fn prop_closure_items(t: &Tabler, seed: State, lr1: bool) -> (r: State)
    requires
        t.grammar.wf(),
        table_wf(t.first@),
        wf_state(seed@),
    ensures
        wf_state(r@),
        closes(t.grammar, tview(t.first@), lr1, items(seed@), items(r@)),
{
    let ghost g = t.grammar;
    let ghost f = tview(t.first@);
    let ghost s0 = items(seed@);
    let mut val = seed;
    let ghost mut n: nat = 0;
    loop
        invariant
            g == t.grammar,
            f == tview(t.first@),
            t.grammar.wf(),
            table_wf(t.first@),
            wf_state(val@),
            s0 == items(seed@),
            items(val@) == closure_iter(g, f, lr1, s0, n),
        decreases usize::MAX - val@.len(),
    {
        let new = closure_items(t, &val, lr1);
        let new_len = new.len();
        if state_eq(&new, &val) {
            assert(items(new@) == items(val@));
            assert(closure_iter(g, f, lr1, s0, n) == items(val@) && closure_step(g, f, lr1, items(val@))
                == items(val@));
            return val;
        }
        proof {
            assert forall|v: PositionView| holds(val@, v) implies holds(new@, v) by {
                assert(items(val@).contains(v));
                assert(closure_step(g, f, lr1, items(val@)).contains(v));
                assert(items(new@).contains(v));
            }
            assert(exists|v: PositionView| holds(new@, v) && !holds(val@, v)) by {
                if !exists|v: PositionView| holds(new@, v) && !holds(val@, v) {
                    lemma_state_ext(new@, val@);
                }
            }
            lemma_state_grows(new@, val@);
            n = n + 1;
        }
        val = new;
    }
}

/// `x` is the start symbol, or stands in a production body at a place that gives it a
/// FOLLOW entry: before another symbol, or last in a rule other than itself.
pub open spec fn rule_followed(g: Grammar, x: usize) -> bool {
    x == g.basis.rule || exists|i: int, j: int, q: int|
        0 <= i < g.rules@.len() && 0 <= j < g.rules@[i].prods@.len() && 0 <= q < body_of(
            g.rules@[i],
            j,
        ).len() && #[trigger] body_of(g.rules@[i], j)[q] == x && (q + 1 < body_of(g.rules@[i], j).len()
            || g.rules@[i].name != x)
}

/// An item of the grammar: a production of a rule of `g`, with canonical lookaheads,
/// whose rule gets a FOLLOW entry.
pub open spec fn item_ok(g: Grammar, v: PositionView) -> bool {
    &&& has_rule(g.rules@, v.rule)
    &&& exists|j: int|
        0 <= j < g.rule(v.rule).prods@.len() && #[trigger] body_of(g.rule(v.rule), j) == v.body
    &&& sorted_set(v.look)
    &&& rule_followed(g, v.rule)
}

/// Every item of `s` is an item of the grammar.
pub open spec fn set_ok(g: Grammar, s: Set<PositionView>) -> bool {
    forall|v: PositionView| #[trigger] s.contains(v) ==> item_ok(g, v)
}

/// The start item is an item of the grammar.
pub proof fn lemma_basis_ok(g: Grammar)
    requires
        g.wf(),
    ensures
        item_ok(g, g.basis@),
{
    assert(body_of(g.rule(g.basis.rule), 0) == g.basis@.body);
    assert(g.basis@.rule == g.basis.rule);
    assert(rule_followed(g, g.basis@.rule));
    assert(sorted_set(g.basis@.look));
    assert(has_rule(g.rules@, g.basis@.rule));
}

/// A closure step keeps the items of the grammar.
pub proof fn lemma_step_ok(g: Grammar, f: Map<usize, Set<usize>>, lr1: bool, s: Set<PositionView>)
    requires
        g.wf(),
        set_ok(g, s),
    ensures
        set_ok(g, closure_step(g, f, lr1, s)),
{
    assert forall|v: PositionView| #[trigger] closure_step(g, f, lr1, s).contains(v) implies item_ok(g, v) by {
        if !s.contains(v) {
            let (p, j) = choose|p: PositionView, j: int| s.contains(p) && #[trigger] spawn_of(g, f, lr1, p, j, v);
            let top = v.rule;
            assert(item_ok(g, p));
            assert(body_of(g.rule(top), j) == v.body);
            let i = rule_index(g.rules@, p.rule);
            let j2 = choose|j2: int|
                0 <= j2 < g.rule(p.rule).prods@.len() && #[trigger] body_of(g.rule(p.rule), j2) == p.body;
            let q = p.point as int;
            assert(body_of(g.rules@[i], j2) == p.body);
            assert(body_of(g.rules@[i], j2)[q] == top);
            if q + 1 < p.body.len() || g.rules@[i].name != top {
                assert(rule_followed(g, top));
            } else {
                assert(p.rule == top);
            }
        }
    }
}

/// Closure iterates keep the items of the grammar.
pub proof fn lemma_iter_ok(g: Grammar, f: Map<usize, Set<usize>>, lr1: bool, s: Set<PositionView>, n: nat)
    requires
        g.wf(),
        set_ok(g, s),
    ensures
        set_ok(g, closure_iter(g, f, lr1, s, n)),
    decreases n,
{
    if n > 0 {
        lemma_iter_ok(g, f, lr1, s, (n - 1) as nat);
        lemma_step_ok(g, f, lr1, closure_iter(g, f, lr1, s, (n - 1) as nat));
    }
}

/// The propagated closure of grammar items holds grammar items only.
pub proof fn lemma_closes_ok(
    g: Grammar,
    f: Map<usize, Set<usize>>,
    lr1: bool,
    seed: Set<PositionView>,
    r: Set<PositionView>,
)
    requires
        g.wf(),
        set_ok(g, seed),
        closes(g, f, lr1, seed, r),
    ensures
        set_ok(g, r),
{
    let n = choose|n: nat| #[trigger] closure_iter(g, f, lr1, seed, n) == r && closure_step(g, f, lr1, r) == r;
    lemma_iter_ok(g, f, lr1, seed, n);
}

/// Moving over a symbol keeps the items of the grammar.
pub proof fn lemma_goto_ok(g: Grammar, s: Set<PositionView>, sym: usize)
    requires
        set_ok(g, s),
    ensures
        set_ok(g, goto_set(s, sym)),
{
    assert forall|v: PositionView| #[trigger] goto_set(s, sym).contains(v) implies item_ok(g, v) by {
        let p = choose|p: PositionView| s.contains(p) && peek_spec(p, 0) == Some(sym) && v == #[trigger] advanced(p);
        assert(item_ok(g, p));
        let j = choose|j: int| 0 <= j < g.rule(p.rule).prods@.len() && #[trigger] body_of(g.rule(p.rule), j) == p.body;
        assert(body_of(g.rule(v.rule), j) == v.body);
    }
}

/// The closure of nothing is nothing.
pub proof fn lemma_iter_empty(g: Grammar, f: Map<usize, Set<usize>>, lr1: bool, n: nat)
    ensures
        closure_iter(g, f, lr1, Set::<PositionView>::empty(), n) == Set::<PositionView>::empty(),
    decreases n,
{
    if n > 0 {
        lemma_iter_empty(g, f, lr1, (n - 1) as nat);
        assert(closure_step(g, f, lr1, Set::<PositionView>::empty()) =~= Set::<PositionView>::empty());
    }
}

/// Some kernel entry holds exactly the items `k`.
pub open spec fn has_kernel(kernels: Seq<(State, usize)>, k: Set<PositionView>) -> bool {
    exists|j: int| 0 <= j < kernels.len() && #[trigger] items(kernels[j].0@) == k
}

/// `j` is the first kernel entry whose key holds exactly the items `k`.
pub open spec fn kernel_at(kernels: Seq<(State, usize)>, k: Set<PositionView>, j: int) -> bool {
    &&& 0 <= j < kernels.len()
    &&& items(kernels[j].0@) == k
    &&& forall|a: int| 0 <= a < j ==> items(#[trigger] kernels[a].0@) != k
}

/// The state that the first kernel entry holding the items `k` names.
pub open spec fn kernel_state(kernels: Seq<(State, usize)>, k: Set<PositionView>) -> usize {
    kernels[choose|j: int| kernel_at(kernels, k, j)].1
}

/// Only one entry is the first to hold given items.
pub proof fn lemma_kernel_at_unique(kernels: Seq<(State, usize)>, k: Set<PositionView>, j: int)
    requires
        kernel_at(kernels, k, j),
    ensures
        kernel_state(kernels, k) == kernels[j].1,
{
    let c = choose|c: int| kernel_at(kernels, k, c);
    if c < j {
        assert(items(kernels[c].0@) != k);
    } else if c > j {
        assert(items(kernels[j].0@) != k);
    }
}

/// Some entry holding `k` gives a first one.
pub proof fn lemma_kernel_at_exists(kernels: Seq<(State, usize)>, k: Set<PositionView>, j: int)
    requires
        0 <= j < kernels.len(),
        items(kernels[j].0@) == k,
    ensures
        exists|c: int| kernel_at(kernels, k, c),
    decreases j,
{
    if !kernel_at(kernels, k, j) {
        let a = choose|a: int| 0 <= a < j && items(#[trigger] kernels[a].0@) == k;
        lemma_kernel_at_exists(kernels, k, a);
    }
}

/// An item without its lookaheads: its core.
pub open spec fn strip(v: PositionView) -> PositionView {
    PositionView { look: Seq::empty(), ..v }
}

/// The cores of the items of `s`.
pub open spec fn core_set(s: Set<PositionView>) -> Set<PositionView> {
    Set::new(|v: PositionView| exists|p: PositionView| s.contains(p) && v == #[trigger] strip(p))
}

/// `j` is the first entry of `raws` whose key holds exactly the items `c`.
pub open spec fn raw_at(raws: Seq<(State, State)>, c: Set<PositionView>, j: int) -> bool {
    &&& 0 <= j < raws.len()
    &&& items(raws[j].0@) == c
    &&& forall|a: int| 0 <= a < j ==> items(#[trigger] raws[a].0@) != c
}

/// Some entry of `raws` has the key `c`.
pub open spec fn has_raw(raws: Seq<(State, State)>, c: Set<PositionView>) -> bool {
    exists|j: int| 0 <= j < raws.len() && #[trigger] items(raws[j].0@) == c
}

/// The items of the value of the first entry of `raws` with key `c`.
pub open spec fn raw_value(raws: Seq<(State, State)>, c: Set<PositionView>) -> Set<PositionView> {
    items(raws[choose|j: int| raw_at(raws, c, j)].1@)
}

/// The state a move to kernel `k` reaches: the one of kernel `k` itself, or, through
/// `raws`, the one of the kernel kept for the core of `k`.
pub open spec fn target_state(
    kernels: Seq<(State, usize)>,
    raws: Option<Seq<(State, State)>>,
    k: Set<PositionView>,
) -> usize {
    match raws {
        None => kernel_state(kernels, k),
        Some(r) => kernel_state(kernels, raw_value(r, core_set(k))),
    }
}

/// A move to kernel `k` reaches a known state.
pub open spec fn target_ready(
    kernels: Seq<(State, usize)>,
    raws: Option<Seq<(State, State)>>,
    k: Set<PositionView>,
) -> bool {
    match raws {
        None => has_kernel(kernels, k),
        Some(r) => has_raw(r, core_set(k)) && has_kernel(kernels, raw_value(r, core_set(k))),
    }
}

/// Only one entry is the first to have a key.
pub proof fn lemma_raw_at_unique(raws: Seq<(State, State)>, c: Set<PositionView>, j: int)
    requires
        raw_at(raws, c, j),
    ensures
        raw_value(raws, c) == items(raws[j].1@),
{
    let k = choose|k: int| raw_at(raws, c, k);
    if k < j {
        assert(items(raws[k].0@) != c);
    } else if k > j {
        assert(items(raws[j].0@) != c);
    }
}

/// FIRST of one symbol is the set of some canonical symbol sequence.
pub proof fn lemma_first_look_exists(first: Seq<(usize, Vec<usize>)>, l: usize)
    requires
        table_wf(first),
    ensures
        exists|look: Seq<usize>| sorted_set(look) && look.to_set() == first_of_set(tview(first), seq![l]),
{
    let f = tview(first);
    let fs = first_of_set(f, seq![l]);
    assert(seq![l].contains(l)) by {
        assert(seq![l][0] == l);
    }
    if f.contains_key(l) {
        let i = crate::table::key_index(first, l);
        let look = first[i].1@;
        assert forall|y: usize| look.to_set().contains(y) <==> fs.contains(y) by {
            if fs.contains(y) {
                let x = choose|x: usize| #[trigger] seq![l].contains(x) && first_contrib(f, x, y);
                assert(x == l);
            }
            if look.to_set().contains(y) {
                assert(first_contrib(f, l, y));
            }
        }
        assert(look.to_set() =~= fs);
        assert(sorted_set(look));
    } else {
        let look = seq![l];
        assert forall|y: usize| look.to_set().contains(y) <==> fs.contains(y) by {
            if fs.contains(y) {
                let x = choose|x: usize| #[trigger] seq![l].contains(x) && first_contrib(f, x, y);
                assert(x == l);
            }
            if look.to_set().contains(y) {
                assert(look.contains(y));
                assert(y == look[0]);
                assert(first_contrib(f, l, y));
            }
        }
        assert(look.to_set() =~= fs);
        assert(sorted_set(look));
    }
}

/// Cores of a closure step with lookaheads are the closure step without lookaheads of
/// the cores.
pub proof fn lemma_core_step(g: Grammar, first: Seq<(usize, Vec<usize>)>, s: Set<PositionView>)
    requires
        table_wf(first),
    ensures
        core_set(closure_step(g, tview(first), true, s)) == closure_step(g, tview(first), false, core_set(s)),
{
    let f = tview(first);
    let a = core_set(closure_step(g, f, true, s));
    let b = closure_step(g, f, false, core_set(s));
    assert forall|w: PositionView| a.contains(w) implies b.contains(w) by {
        let v = choose|v: PositionView| closure_step(g, f, true, s).contains(v) && w == #[trigger] strip(v);
        if s.contains(v) {
            assert(core_set(s).contains(w));
        } else {
            let (p, j) = choose|p: PositionView, j: int| s.contains(p) && #[trigger] spawn_of(g, f, true, p, j, v);
            assert(core_set(s).contains(strip(p)));
            assert(spawn_of(g, f, false, strip(p), j, w));
        }
    }
    assert forall|w: PositionView| b.contains(w) implies a.contains(w) by {
        if core_set(s).contains(w) {
            let p = choose|p: PositionView| s.contains(p) && w == #[trigger] strip(p);
            assert(closure_step(g, f, true, s).contains(p));
        } else {
            let (q, j) = choose|q: PositionView, j: int| core_set(s).contains(q) && #[trigger] spawn_of(g, f, false, q, j, w);
            let p = choose|p: PositionView| s.contains(p) && q == #[trigger] strip(p);
            let look: Seq<usize> = match peek_spec(p, 1) {
                Some(l) => {
                    lemma_first_look_exists(first, l);
                    choose|look: Seq<usize>| sorted_set(look) && look.to_set() == first_of_set(f, seq![l])
                },
                None => p.look,
            };
            let v = PositionView { look: look, ..w };
            assert(spawn_of(g, f, true, p, j, v));
            assert(closure_step(g, f, true, s).contains(v));
            assert(strip(v) == w);
        }
    }
    assert(a =~= b);
}

/// Cores of closure iterates with lookaheads are the iterates without lookaheads of the
/// cores.
pub proof fn lemma_core_iter(g: Grammar, first: Seq<(usize, Vec<usize>)>, s: Set<PositionView>, n: nat)
    requires
        table_wf(first),
    ensures
        core_set(closure_iter(g, tview(first), true, s, n)) == closure_iter(g, tview(first), false, core_set(s), n),
    decreases n,
{
    if n > 0 {
        lemma_core_iter(g, first, s, (n - 1) as nat);
        lemma_core_step(g, first, closure_iter(g, tview(first), true, s, (n - 1) as nat));
    }
}

/// The cores of a propagated closure with lookaheads are the propagated closure without
/// lookaheads of the cores of its seed.
pub proof fn lemma_core_closes(
    g: Grammar,
    first: Seq<(usize, Vec<usize>)>,
    seed: Set<PositionView>,
    r: Set<PositionView>,
)
    requires
        table_wf(first),
        closes(g, tview(first), true, seed, r),
    ensures
        closes(g, tview(first), false, core_set(seed), core_set(r)),
{
    let f = tview(first);
    let n = choose|n: nat| #[trigger] closure_iter(g, f, true, seed, n) == r && closure_step(g, f, true, r) == r;
    lemma_core_iter(g, first, seed, n);
    lemma_core_step(g, first, r);
    assert(closure_iter(g, f, false, core_set(seed), n) == core_set(r) && closure_step(g, f, false, core_set(r)) == core_set(r));
}

/// Cores of a move are the move of the cores.
pub proof fn lemma_core_goto(s: Set<PositionView>, sym: usize)
    ensures
        core_set(goto_set(s, sym)) == goto_set(core_set(s), sym),
{
    let a = core_set(goto_set(s, sym));
    let b = goto_set(core_set(s), sym);
    assert forall|w: PositionView| a.contains(w) implies b.contains(w) by {
        let v = choose|v: PositionView| goto_set(s, sym).contains(v) && w == #[trigger] strip(v);
        let p = choose|p: PositionView| s.contains(p) && peek_spec(p, 0) == Some(sym) && v == #[trigger] advanced(p);
        assert(core_set(s).contains(strip(p)));
        assert(advanced(strip(p)) == w);
    }
    assert forall|w: PositionView| b.contains(w) implies a.contains(w) by {
        let q = choose|q: PositionView| core_set(s).contains(q) && peek_spec(q, 0) == Some(sym) && w == #[trigger] advanced(q);
        let p = choose|p: PositionView| s.contains(p) && q == #[trigger] strip(p);
        assert(goto_set(s, sym).contains(advanced(p)));
        assert(strip(advanced(p)) == w);
    }
    assert(a =~= b);
}

/// The index of the first entry of `entries` whose key holds the items of `k`, if any.
pub fn entry_find<V>(entries: &Vec<(State, V)>, k: &State) -> (r: Option<usize>)
    requires
        forall|j: int| 0 <= j < entries@.len() ==> wf_state(#[trigger] entries@[j].0@),
        wf_state(k@),
    ensures
        match r {
            Some(j) => {
                &&& j < entries@.len()
                &&& items(entries@[j as int].0@) == items(k@)
                &&& forall|a: int| 0 <= a < j ==> items(#[trigger] entries@[a].0@) != items(k@)
            },
            None => forall|a: int| 0 <= a < entries@.len() ==> items(#[trigger] entries@[a].0@) != items(k@),
        },
{
    let mut j: usize = 0;
    while j < entries.len()
        invariant
            j <= entries@.len(),
            forall|a: int| 0 <= a < entries@.len() ==> wf_state(#[trigger] entries@[a].0@),
            wf_state(k@),
            forall|a: int| 0 <= a < j ==> items(#[trigger] entries@[a].0@) != items(k@),
        decreases entries@.len() - j,
    {
        if state_eq(&entries[j].0, k) {
            return Some(j);
        }
        proof {
            if items(entries@[j as int].0@) == items(k@) {
                assert forall|v: PositionView| holds(entries@[j as int].0@, v) <==> holds(k@, v) by {
                    assert(items(entries@[j as int].0@).contains(v) == items(k@).contains(v));
                }
                lemma_state_ext(entries@[j as int].0@, k@);
            }
        }
        j = j + 1;
    }
    None
}

/// The cores of the items of `state`, as a state.
pub fn core_of(state: &State) -> (r: State)
    ensures
        wf_state(r@),
        items(r@) == core_set(items(state@)),
{
    let mut r: State = Vec::new();
    let mut i: usize = 0;
    while i < state.len()
        invariant
            i <= state@.len(),
            wf_state(r@),
            forall|v: PositionView|
                #[trigger] holds(r@, v) <==> exists|q: int| 0 <= q < i && v == strip(state@[q]@),
        decreases state@.len() - i,
    {
        let p = state[i].no_look();
        let ghost before = r@;
        state_insert(&mut r, p);
        assert forall|v: PositionView|
            #[trigger] holds(r@, v) <==> exists|q: int| 0 <= q < i + 1 && v == strip(state@[q]@) by {
            if exists|q: int| 0 <= q < i + 1 && v == strip(state@[q]@) {
                let q = choose|q: int| 0 <= q < i + 1 && v == strip(state@[q]@);
                if q < i {
                    assert(holds(before, v));
                }
            }
        }
        i = i + 1;
    }
    assert forall|v: PositionView| items(r@).contains(v) <==> core_set(items(state@)).contains(v) by {
        if core_set(items(state@)).contains(v) {
            let p = choose|p: PositionView| items(state@).contains(p) && v == #[trigger] strip(p);
            let q = choose|q: int| 0 <= q < views(state@).len() && views(state@)[q] == p;
            assert(v == strip(state@[q]@));
        }
        if holds(r@, v) {
            let q = choose|q: int| 0 <= q < state@.len() && v == strip(state@[q]@);
            assert(views(state@)[q] == state@[q]@);
            assert(items(state@).contains(state@[q]@));
        }
    }
    assert(items(r@) =~= core_set(items(state@)));
    r
}

/// Every kernel key is a canonical state.
pub open spec fn kernels_wf(kernels: Seq<(State, usize)>) -> bool {
    forall|j: int| 0 <= j < kernels.len() ==> wf_state(#[trigger] kernels[j].0@)
}

/// The index of the kernel entry whose key holds the items of `k`, if any.
pub fn kernel_find(kernels: &Vec<(State, usize)>, k: &State) -> (r: Option<usize>)
    requires
        kernels_wf(kernels@),
        wf_state(k@),
    ensures
        match r {
            Some(j) => kernel_at(kernels@, items(k@), j as int),
            None => !has_kernel(kernels@, items(k@)),
        },
{
    let mut j: usize = 0;
    while j < kernels.len()
        invariant
            j <= kernels@.len(),
            kernels_wf(kernels@),
            wf_state(k@),
            forall|a: int| 0 <= a < j ==> items(#[trigger] kernels@[a].0@) != items(k@),
        decreases kernels@.len() - j,
    {
        if state_eq(&kernels[j].0, k) {
            return Some(j);
        }
        proof {
            if items(kernels@[j as int].0@) == items(k@) {
                assert forall|v: PositionView| holds(kernels@[j as int].0@, v) <==> holds(k@, v) by {
                    assert(items(kernels@[j as int].0@).contains(v) == items(k@).contains(v));
                }
                lemma_state_ext(kernels@[j as int].0@, k@);
            }
        }
        j = j + 1;
    }
    None
}

/// The kernel of moving over `sym` from `from`, and its propagated closure, unless that
/// kernel is already known or empty.
pub fn goto_items(t: &Tabler, from: &State, sym: usize, lr1: bool) -> (r: Option<(State, State)>)
    requires
        t.grammar.wf(),
        table_wf(t.first@),
        kernels_wf(t.kernels@),
    ensures
        r is None <==> (has_kernel(t.kernels@, goto_set(items(from@), sym)) || goto_set(
            items(from@),
            sym,
        ) == Set::<PositionView>::empty()),
        match r {
            Some((k, c)) => {
                &&& wf_state(k@)
                &&& wf_state(c@)
                &&& items(k@) == goto_set(items(from@), sym)
                &&& closes(t.grammar, tview(t.first@), lr1, items(k@), items(c@))
            },
            None => true,
        },
{
    let kernel = Tabler::sym_filter(from, sym);
    let ghost gs = goto_set(items(from@), sym);
    proof {
        lemma_filter_items(from@, sym, kernel@);
    }
    if kernel_find(&t.kernels, &kernel).is_some() {
        return None;
    }
    let new = prop_closure_items(t, state_copy(&kernel), lr1);
    proof {
        lemma_closes_holds_seed(t.grammar, tview(t.first@), lr1, items(kernel@), items(new@));
        if gs == Set::<PositionView>::empty() {
            let n = choose|n: nat| #[trigger] closure_iter(t.grammar, tview(t.first@), lr1, gs, n) == items(new@)
                && closure_step(t.grammar, tview(t.first@), lr1, items(new@)) == items(new@);
            lemma_iter_empty(t.grammar, tview(t.first@), lr1, n);
        }
    }
    if new.len() == 0 {
        proof {
            assert(views(new@).len() == 0);
            assert forall|v: PositionView| !gs.contains(v) by {
                if gs.contains(v) {
                    assert(items(new@).contains(v));
                }
            }
            assert(gs =~= Set::<PositionView>::empty());
        }
        None
    } else {
        proof {
            if gs == Set::<PositionView>::empty() {
                assert(items(new@).contains(new@[0]@)) by {
                    assert(views(new@)[0] == new@[0]@);
                }
            }
        }
        Some((kernel, new))
    }
}

/// Lexicographic order on (state, symbol index) pairs.
pub open spec fn lex_lt(a: (int, int), b: (int, int)) -> bool {
    a.0 < b.0 || (a.0 == b.0 && a.1 < b.1)
}

/// Kernel `j` belongs to state `j`; keys and states are canonical; no two kernels hold
/// the same items.
pub open spec fn shape_ok(states: Seq<State>, kernels: Seq<(State, usize)>) -> bool {
    &&& kernels.len() == states.len()
    &&& forall|j: int| 0 <= j < states.len() ==> #[trigger] kernels[j].1 == j
    &&& kernels_wf(kernels)
    &&& forall|j: int| 0 <= j < states.len() ==> wf_state(#[trigger] states[j]@)
    &&& forall|a: int, b: int|
        0 <= a < b < kernels.len() ==> items(#[trigger] kernels[a].0@) != items(#[trigger] kernels[b].0@)
}

/// State 0 is the propagated closure of the start item; its kernel is empty.
pub open spec fn start_ok(
    g: Grammar,
    f: Map<usize, Set<usize>>,
    lr1: bool,
    states: Seq<State>,
    kernels: Seq<(State, usize)>,
) -> bool {
    &&& states.len() >= 1
    &&& kernels.len() >= 1
    &&& items(kernels[0].0@) == Set::<PositionView>::empty()
    &&& closes(g, f, lr1, set![g.basis@], items(states[0]@))
}

/// Every later state `j` was found moving over symbol `symbols[par[j].1]` from the
/// earlier state `par[j].0`: its kernel is that move and the state is the propagated
/// closure of its kernel; and states were found in increasing order of `par`.
pub open spec fn derived_ok(
    g: Grammar,
    f: Map<usize, Set<usize>>,
    lr1: bool,
    states: Seq<State>,
    kernels: Seq<(State, usize)>,
    par: Seq<(int, int)>,
) -> bool {
    &&& par.len() == states.len()
    &&& forall|j: int|
        1 <= j < states.len() ==> {
            &&& 0 <= (#[trigger] par[j]).0 < j
            &&& 0 <= par[j].1 < g.symbols@.len()
            &&& items(kernels[j].0@) == goto_set(items(states[par[j].0]@), g.symbols@[par[j].1])
            &&& closes(g, f, lr1, items(kernels[j].0@), items(states[j]@))
        }
    &&& forall|a: int, b: int| 1 <= a < b < states.len() ==> lex_lt(#[trigger] par[a], #[trigger] par[b])
}

/// Every move over a symbol from a state, for the pairs before `at`, gives a known
/// kernel, found no later than that pair.
pub open spec fn complete_before(
    g: Grammar,
    states: Seq<State>,
    kernels: Seq<(State, usize)>,
    par: Seq<(int, int)>,
    at: (int, int),
) -> bool {
    forall|i: int, k: int|
        #![trigger goto_set(items(states[i]@), g.symbols@[k])]
        0 <= i < states.len() && 0 <= k < g.symbols@.len() && lex_lt((i, k), at) ==> exists|j: int|
            0 <= j < kernels.len() && #[trigger] items(kernels[j].0@) == goto_set(
                items(states[i]@),
                g.symbols@[k],
            ) && (j == 0 || !lex_lt((i, k), par[j]))
}

/// All states hold grammar items only.
pub open spec fn states_ok(g: Grammar, states: Seq<State>) -> bool {
    forall|j: int| 0 <= j < states.len() ==> set_ok(g, #[trigger] items(states[j]@))
}

/// The canonical collection of item sets, in the order a breadth-first walk over the
/// states and the symbols (in increasing order) finds them: state 0 is the closure of the
/// start item, each later state the closure of a new kernel, and every move over a symbol
/// from every state gives one of the kernels.
pub open spec fn automaton(
    g: Grammar,
    f: Map<usize, Set<usize>>,
    lr1: bool,
    states: Seq<State>,
    kernels: Seq<(State, usize)>,
) -> bool {
    &&& shape_ok(states, kernels)
    &&& start_ok(g, f, lr1, states, kernels)
    &&& states_ok(g, states)
    &&& exists|par: Seq<(int, int)>|
        #[trigger] derived_ok(g, f, lr1, states, kernels, par) && complete_before(
            g,
            states,
            kernels,
            par,
            (states.len() as int, 0),
        )
}

/// Pushes the start state, the propagated closure of the start item, and maps the
/// empty kernel to state 0.
pub fn first_row(t: &mut Tabler, lr1: bool)
    requires
        old(t).grammar.wf(),
        table_wf(old(t).first@),
        kernels_wf(old(t).kernels@),
    ensures
        final(t).grammar == old(t).grammar,
        final(t).first == old(t).first,
        final(t).follow == old(t).follow,
        final(t).actions == old(t).actions,
        final(t).states@.len() == old(t).states@.len() + 1,
        forall|j: int| 0 <= j < old(t).states@.len() ==> #[trigger] final(t).states@[j] == old(t).states@[j],
        wf_state(final(t).states@[old(t).states@.len() as int]@),
        closes(
            old(t).grammar,
            tview(old(t).first@),
            lr1,
            set![old(t).grammar.basis@],
            items(final(t).states@[old(t).states@.len() as int]@),
        ),
        kernels_wf(final(t).kernels@),
        !has_kernel(old(t).kernels@, Set::<PositionView>::empty()) ==> {
            &&& final(t).kernels@.len() == old(t).kernels@.len() + 1
            &&& forall|j: int| 0 <= j < old(t).kernels@.len() ==> #[trigger] final(t).kernels@[j] == old(t).kernels@[j]
            &&& items(final(t).kernels@[old(t).kernels@.len() as int].0@) == Set::<PositionView>::empty()
            &&& final(t).kernels@[old(t).kernels@.len() as int].1 == 0
        },
        has_kernel(old(t).kernels@, Set::<PositionView>::empty()) ==> exists|e: int|
            kernel_at(old(t).kernels@, Set::<PositionView>::empty(), e) && final(t).kernels@ == old(
                t,
            ).kernels@.update(e, (old(t).kernels@[e].0, 0usize)),
{
    let ghost g = t.grammar;
    let seed = crate::state::state_single(t.grammar.basis());
    proof {
        assert(items(seed@) =~= set![g.basis@]) by {
            assert(views(seed@) == seq![g.basis@]);
            assert forall|v: PositionView| views(seed@).contains(v) <==> v == g.basis@ by {
                if v == g.basis@ {
                    assert(views(seed@)[0] == v);
                }
            }
        }
    }
    let start = prop_closure_items(t, seed, lr1);
    let empty: State = Vec::new();
    proof {
        assert(items(empty@) =~= Set::<PositionView>::empty());
    }
    match kernel_find(&t.kernels, &empty) {
        Some(e) => {
            let ghost k0 = t.kernels@;
            let (key, _) = t.kernels.remove(e);
            t.kernels.insert(e, (key, 0));
            proof {
                assert(t.kernels@ =~= k0.update(e as int, (k0[e as int].0, 0usize)));
                assert forall|j: int| 0 <= j < t.kernels@.len() implies wf_state(#[trigger] t.kernels@[j].0@) by {
                    assert(t.kernels@[j].0 == k0[j].0);
                }
            }
        },
        None => {
            t.kernels.push((empty, 0));
        },
    }
    t.states.push(start);
}

/// Builds the states of the automaton of a table that has none yet: the closure of the
/// start item first, then, state after state and symbol after symbol, the closure of
/// every new kernel.
pub fn build_states(t: &mut Tabler, lr1: bool)
    requires
        old(t).grammar.wf(),
        table_wf(old(t).first@),
        old(t).states@.len() == 0,
        old(t).kernels@.len() == 0,
    ensures
        final(t).grammar == old(t).grammar,
        final(t).first == old(t).first,
        final(t).follow == old(t).follow,
        final(t).actions == old(t).actions,
        automaton(final(t).grammar, tview(final(t).first@), lr1, final(t).states@, final(t).kernels@),
{
    let ghost g = t.grammar;
    let ghost f = tview(t.first@);
    proof {
        lemma_basis_ok(g);
        assert(!has_kernel(t.kernels@, Set::<PositionView>::empty()));
    }
    first_row(t, lr1);
    let ghost mut par: Seq<(int, int)> = seq![(0int, 0int)];
    proof {
        assert(items(t.kernels@[0].0@) =~= Set::<PositionView>::empty());
        lemma_closes_ok(g, f, lr1, set![g.basis@], items(t.states@[0]@));
        assert(set_ok(g, set![g.basis@]));
    }
    let syms = t.grammar.symbols();
    let mut idx: usize = 0;
    while idx < t.states.len()
        invariant
            t.grammar == g,
            f == tview(t.first@),
            g.wf(),
            table_wf(t.first@),
            t.first == old(t).first,
            t.follow == old(t).follow,
            t.actions == old(t).actions,
            g == old(t).grammar,
            syms@ == g.symbols@,
            idx <= t.states@.len(),
            shape_ok(t.states@, t.kernels@),
            start_ok(g, f, lr1, t.states@, t.kernels@),
            states_ok(g, t.states@),
            derived_ok(g, f, lr1, t.states@, t.kernels@, par),
            complete_before(g, t.states@, t.kernels@, par, (idx as int, 0)),
            forall|j: int| 1 <= j < t.states@.len() ==> lex_lt(#[trigger] par[j], (idx as int, 0)),
        decreases usize::MAX - idx,
    {
        let mut k: usize = 0;
        while k < syms.len()
            invariant
                t.grammar == g,
                f == tview(t.first@),
                g.wf(),
                table_wf(t.first@),
                t.first == old(t).first,
                t.follow == old(t).follow,
                t.actions == old(t).actions,
                syms@ == g.symbols@,
                idx < t.states@.len(),
                k <= syms@.len(),
                shape_ok(t.states@, t.kernels@),
                start_ok(g, f, lr1, t.states@, t.kernels@),
                states_ok(g, t.states@),
                derived_ok(g, f, lr1, t.states@, t.kernels@, par),
                complete_before(g, t.states@, t.kernels@, par, (idx as int, k as int)),
                forall|j: int| 1 <= j < t.states@.len() ==> lex_lt(#[trigger] par[j], (idx as int, k as int)),
            decreases syms@.len() - k,
        {
            let ghost st0 = t.states@;
            let ghost ke0 = t.kernels@;
            let ghost gs = goto_set(items(st0[idx as int]@), g.symbols@[k as int]);
            let found = goto_items(t, &t.states[idx], syms[k], lr1);
            match found {
                Some((kernel, closures)) => {
                    let n = t.states.len();
                    t.kernels.push((kernel, n));
                    t.states.push(closures);
                    proof {
                        par = par.push((idx as int, k as int));
                        let st = t.states@;
                        let ke = t.kernels@;
                        assert(st == st0.push(st[n as int]));
                        assert(ke == ke0.push(ke[n as int]));
                        assert forall|j: int| 0 <= j < n implies st[j] == st0[j] && ke[j] == ke0[j] by {}
                        assert(shape_ok(st, ke)) by {
                            assert forall|a: int, b: int| 0 <= a < b < ke.len() implies items(
                                #[trigger] ke[a].0@,
                            ) != items(#[trigger] ke[b].0@) by {
                                if b == n {
                                    assert(ke[a] == ke0[a]);
                                    if items(ke[a].0@) == gs {
                                        assert(has_kernel(ke0, gs));
                                    }
                                } else {
                                    assert(ke[a] == ke0[a] && ke[b] == ke0[b]);
                                }
                            }
                        }
                        lemma_goto_ok(g, items(st0[idx as int]@), g.symbols@[k as int]);
                        lemma_closes_ok(g, f, lr1, gs, items(st[n as int]@));
                        assert(states_ok(g, st)) by {
                            assert forall|j: int| 0 <= j < st.len() implies set_ok(g, #[trigger] items(st[j]@)) by {
                                if j < n {
                                    assert(st[j] == st0[j]);
                                }
                            }
                        }
                        assert(derived_ok(g, f, lr1, st, ke, par)) by {
                            assert forall|j: int| 1 <= j < st.len() implies {
                                &&& 0 <= (#[trigger] par[j]).0 < j
                                &&& 0 <= par[j].1 < g.symbols@.len()
                                &&& items(ke[j].0@) == goto_set(items(st[par[j].0]@), g.symbols@[par[j].1])
                                &&& closes(g, f, lr1, items(ke[j].0@), items(st[j]@))
                            } by {
                                if j < n {
                                    assert(st[j] == st0[j] && ke[j] == ke0[j]);
                                    assert(st[par[j].0] == st0[par[j].0]);
                                } else {
                                    assert(par[j] == (idx as int, k as int));
                                    assert(st[idx as int] == st0[idx as int]);
                                }
                            }
                            assert forall|a: int, b: int| 1 <= a < b < st.len() implies lex_lt(
                                #[trigger] par[a],
                                #[trigger] par[b],
                            ) by {
                                if b == n {
                                    assert(lex_lt(par[a], (idx as int, k as int)));
                                }
                            }
                        }
                        assert(complete_before(g, st, ke, par, (idx as int, k + 1))) by {
                            assert forall|i: int, k2: int|
                                #![trigger goto_set(items(st[i]@), g.symbols@[k2])]
                                0 <= i < st.len() && 0 <= k2 < g.symbols@.len() && lex_lt((i, k2), (idx as int, k + 1))
                                implies exists|j: int|
                                0 <= j < ke.len() && #[trigger] items(ke[j].0@) == goto_set(
                                    items(st[i]@),
                                    g.symbols@[k2],
                                ) && (j == 0 || !lex_lt((i, k2), par[j])) by {
                                assert(i <= idx);
                                assert(st[i] == st0[i]);
                                if i == idx && k2 == k {
                                    assert(items(ke[n as int].0@) == goto_set(items(st[i]@), g.symbols@[k2]));
                                } else {
                                    assert(lex_lt((i, k2), (idx as int, k as int)));
                                    assert(goto_set(items(st0[i]@), g.symbols@[k2]) == goto_set(items(st[i]@), g.symbols@[k2]));
                                    let j = choose|j: int|
                                        0 <= j < ke0.len() && #[trigger] items(ke0[j].0@) == goto_set(
                                            items(st0[i]@),
                                            g.symbols@[k2],
                                        ) && (j == 0 || !lex_lt((i, k2), par[j]));
                                    assert(ke[j] == ke0[j]);
                                }
                            }
                        }
                        assert(start_ok(g, f, lr1, st, ke)) by {
                            assert(st[0] == st0[0] && ke[0] == ke0[0]);
                        }
                    }
                },
                None => {
                    proof {
                        if has_kernel(ke0, gs) {
                            let j = choose|j: int| 0 <= j < ke0.len() && #[trigger] items(ke0[j].0@) == gs;
                            if j > 0 {
                                assert(lex_lt(par[j], (idx as int, k as int)));
                            }
                        } else {
                            assert(items(ke0[0].0@) == gs);
                        }
                        assert(complete_before(g, t.states@, t.kernels@, par, (idx as int, k + 1))) by {
                            assert forall|i: int, k2: int|
                                #![trigger goto_set(items(t.states@[i]@), g.symbols@[k2])]
                                0 <= i < t.states@.len() && 0 <= k2 < g.symbols@.len() && lex_lt((i, k2), (idx as int, k + 1))
                                implies exists|j: int|
                                0 <= j < t.kernels@.len() && #[trigger] items(t.kernels@[j].0@) == goto_set(
                                    items(t.states@[i]@),
                                    g.symbols@[k2],
                                ) && (j == 0 || !lex_lt((i, k2), par[j])) by {
                                if i == idx && k2 == k {
                                    if has_kernel(ke0, gs) {
                                        let j = choose|j: int| 0 <= j < ke0.len() && #[trigger] items(ke0[j].0@) == gs;
                                        assert(j == 0 || !lex_lt((i, k2), par[j]));
                                    } else {
                                        assert(items(ke0[0].0@) == gs);
                                    }
                                } else {
                                    assert(lex_lt((i, k2), (idx as int, k as int)));
                                }
                            }
                        }
                    }
                },
            }
            k = k + 1;
        }
        proof {
            assert(complete_before(g, t.states@, t.kernels@, par, (idx + 1, 0))) by {
                assert forall|i: int, k2: int|
                    #![trigger goto_set(items(t.states@[i]@), g.symbols@[k2])]
                    0 <= i < t.states@.len() && 0 <= k2 < g.symbols@.len() && lex_lt((i, k2), (idx + 1, 0))
                    implies exists|j: int|
                    0 <= j < t.kernels@.len() && #[trigger] items(t.kernels@[j].0@) == goto_set(
                        items(t.states@[i]@),
                        g.symbols@[k2],
                    ) && (j == 0 || !lex_lt((i, k2), par[j])) by {
                    assert(lex_lt((i, k2), (idx as int, syms@.len() as int)));
                }
            }
        }
        idx = idx + 1;
    }
    assert(derived_ok(g, f, lr1, t.states@, t.kernels@, par));
}

} // verus!
