//! The states of the canonical LR(1), the LALR(1) and the SLR(1) parser of a grammar
//! hold the same item sets once their lookaheads are dropped.
use vstd::prelude::*;

use crate::clr::{Clr, clr_built};
use crate::decide::lemma_decision_ready;
use crate::grammar::Grammar;
use crate::lalr::{Lalr, derived_from, inv_cores, inv_kernels, inv_raws, inv_start, lalr_built,
    lemma_core_empty, lemma_raw_at_distinct};
use crate::lr::{automaton, closes, closure_iter, closure_step, complete_before, core_set,
    derived_ok, goto_set, has_kernel, items, lemma_closes_unique, lemma_core_closes,
    lemma_core_goto, spawn_of, strip};
use crate::pos::{PositionView, advanced, peek_spec};
use crate::slr::{Slr, slr_built};
use crate::state::State;
use crate::table::{table_wf, tview};

verus! {

/// The cores of one closure step without lookaheads are the step from the cores.
proof fn lemma_core_step0(g: Grammar, f: Map<usize, Set<usize>>, s: Set<PositionView>)
    ensures
        core_set(closure_step(g, f, false, s)) == closure_step(g, f, false, core_set(s)),
{
    let a = core_set(closure_step(g, f, false, s));
    let b = closure_step(g, f, false, core_set(s));
    assert forall|w: PositionView| a.contains(w) implies b.contains(w) by {
        let v = choose|v: PositionView| closure_step(g, f, false, s).contains(v) && w == #[trigger] strip(v);
        if s.contains(v) {
            assert(core_set(s).contains(w));
        } else {
            let (p, j) = choose|p: PositionView, j: int| s.contains(p) && #[trigger] spawn_of(g, f, false, p, j, v);
            assert(core_set(s).contains(strip(p)));
            assert(v == w);
            assert(spawn_of(g, f, false, strip(p), j, w));
        }
    }
    assert forall|w: PositionView| b.contains(w) implies a.contains(w) by {
        if core_set(s).contains(w) {
            let p = choose|p: PositionView| s.contains(p) && w == #[trigger] strip(p);
            assert(closure_step(g, f, false, s).contains(p));
        } else {
            let (q, j) = choose|q: PositionView, j: int| core_set(s).contains(q) && #[trigger] spawn_of(g, f, false, q, j, w);
            let p = choose|p: PositionView| s.contains(p) && q == #[trigger] strip(p);
            assert(spawn_of(g, f, false, p, j, w));
            assert(closure_step(g, f, false, s).contains(w));
            assert(strip(w) == w);
        }
    }
    assert(a =~= b);
}

/// The cores of closure iterates without lookaheads are the iterates from the cores.
proof fn lemma_core_iter0(g: Grammar, f: Map<usize, Set<usize>>, s: Set<PositionView>, n: nat)
    ensures
        core_set(closure_iter(g, f, false, s, n)) == closure_iter(g, f, false, core_set(s), n),
    decreases n,
{
    if n > 0 {
        lemma_core_iter0(g, f, s, (n - 1) as nat);
        lemma_core_step0(g, f, closure_iter(g, f, false, s, (n - 1) as nat));
    }
}

/// The cores of a propagated closure without lookaheads are the propagated closure of
/// the cores of its seed.
proof fn lemma_core_closes0(g: Grammar, f: Map<usize, Set<usize>>, seed: Set<PositionView>, r: Set<PositionView>)
    requires
        closes(g, f, false, seed, r),
    ensures
        closes(g, f, false, core_set(seed), core_set(r)),
{
    let n = choose|n: nat| #[trigger] closure_iter(g, f, false, seed, n) == r && closure_step(g, f, false, r) == r;
    lemma_core_iter0(g, f, seed, n);
    lemma_core_step0(g, f, r);
    assert(closure_iter(g, f, false, core_set(seed), n) == core_set(r) && closure_step(g, f, false, core_set(r))
        == core_set(r));
}

/// The cores of the start item alone are its core alone.
proof fn lemma_core_single(v: PositionView)
    ensures
        core_set(set![v]) == set![strip(v)],
{
    assert(core_set(set![v]) =~= set![strip(v)]) by {
        assert(set![v].contains(v));
    }
}

/// The cores of the propagated closure of a seed, with lookaheads or without, are the
/// LR(0) closure of the cores of the seed.
proof fn lemma_closes_cores(
    g: Grammar,
    first: Seq<(usize, Vec<usize>)>,
    lr1: bool,
    seed: Set<PositionView>,
    r: Set<PositionView>,
)
    requires
        table_wf(first),
        closes(g, tview(first), lr1, seed, r),
    ensures
        closes(g, tview(first), false, core_set(seed), core_set(r)),
{
    if lr1 {
        lemma_core_closes(g, first, seed, r);
    } else {
        lemma_core_closes0(g, tview(first), seed, r);
    }
}

/// The cores of the start state of a complete automaton are the LR(0) closure of the
/// core of the start item.
proof fn lemma_automaton_start(
    g: Grammar,
    first: Seq<(usize, Vec<usize>)>,
    lr1: bool,
    states: Seq<State>,
    kernels: Seq<(State, usize)>,
)
    requires
        table_wf(first),
        automaton(g, tview(first), lr1, states, kernels),
    ensures
        closes(g, tview(first), false, set![strip(g.basis@)], core_set(items(states[0]@))),
{
    lemma_closes_cores(g, first, lr1, set![g.basis@], items(states[0]@));
    lemma_core_single(g.basis@);
}

/// In a complete automaton, a move that holds some item from the cores of state `j`
/// reaches a state whose cores are the LR(0) closure of that move.
proof fn lemma_automaton_move(
    g: Grammar,
    first: Seq<(usize, Vec<usize>)>,
    lr1: bool,
    states: Seq<State>,
    kernels: Seq<(State, usize)>,
    j: int,
    x: usize,
)
    requires
        g.wf(),
        table_wf(first),
        automaton(g, tview(first), lr1, states, kernels),
        0 <= j < states.len(),
        goto_set(core_set(items(states[j]@)), x) != Set::<PositionView>::empty(),
    ensures
        exists|a: int|
            0 <= a < states.len() && #[trigger] closes(
                g,
                tview(first),
                false,
                goto_set(core_set(items(states[j]@)), x),
                core_set(items(states[a]@)),
            ),
{
    let f = tview(first);
    let kg = goto_set(items(states[j]@), x);
    lemma_core_goto(items(states[j]@), x);
    lemma_core_empty(kg);
    let w = kg.choose();
    assert(kg.contains(w)) by {
        if !kg.contains(w) {
            assert(kg =~= Set::<PositionView>::empty());
        }
    }
    let v = choose|v: PositionView| items(states[j]@).contains(v) && peek_spec(v, 0) == Some(x) && w == #[trigger] advanced(v);
    lemma_decision_ready(g, f, lr1, states, kernels, j, v, x);
    let a = choose|a: int| 0 <= a < kernels.len() && #[trigger] items(kernels[a].0@) == kg;
    assert(a != 0) by {
        if a == 0 {
            assert(items(kernels[0].0@) == Set::<PositionView>::empty());
        }
    }
    let par = choose|par: Seq<(int, int)>|
        #[trigger] derived_ok(g, f, lr1, states, kernels, par) && complete_before(g, states, kernels, par, (states.len() as int, 0));
    assert(0 <= par[a].0 < a);
    assert(closes(g, f, lr1, kg, items(states[a]@)));
    lemma_closes_cores(g, first, lr1, kg, items(states[a]@));
}

/// The start states of both parsers have the same cores.
proof fn lemma_start_cores(p: Lalr, q: Slr)
    requires
        lalr_built(p),
        slr_built(q.table),
        p.table.grammar == q.table.grammar,
    ensures
        core_set(items(p.table.states@[0]@)) == core_set(items(q.table.states@[0]@)),
{
    reveal(inv_start);
    let g = p.table.grammar;
    let f = tview(p.table.first@);
    assert(tview(q.table.first@) == f);
    lemma_automaton_start(g, q.table.first@, false, q.table.states@, q.table.kernels@);
    lemma_closes_unique(g, f, false, set![strip(g.basis@)], core_set(items(p.table.states@[0]@)), core_set(items(q.table.states@[0]@)));
}

/// Every LALR(1) state has the cores of some SLR(1) state.
proof fn lemma_lalr_in_slr(p: Lalr, q: Slr, k: int)
    requires
        lalr_built(p),
        slr_built(q.table),
        p.table.grammar == q.table.grammar,
        0 <= k < p.table.states@.len(),
    ensures
        exists|j: int|
            0 <= j < q.table.states@.len() && #[trigger] core_set(items(q.table.states@[j]@)) == core_set(
                items(p.table.states@[k]@),
            ),
    decreases k,
{
    let g = p.table.grammar;
    let f = tview(p.table.first@);
    let ps = p.table.states@;
    let qs = q.table.states@;
    assert(tview(q.table.first@) == f);
    if k == 0 {
        lemma_start_cores(p, q);
        assert(core_set(items(qs[0]@)) == core_set(items(ps[0]@)));
    } else {
        assert(derived_from(g, f, ps, k));
        let (i, x) = choose|i: int, x: usize|
            0 <= i < k && goto_set(core_set(items(ps[i]@)), x) != Set::<PositionView>::empty() && #[trigger] closes(
                g,
                f,
                false,
                goto_set(core_set(items(ps[i]@)), x),
                core_set(items(ps[k]@)),
            );
        let g0 = goto_set(core_set(items(ps[i]@)), x);
        lemma_lalr_in_slr(p, q, i);
        let ji = choose|j: int| 0 <= j < qs.len() && #[trigger] core_set(items(qs[j]@)) == core_set(items(ps[i]@));
        lemma_automaton_move(g, q.table.first@, false, qs, q.table.kernels@, ji, x);
        let a = choose|a: int| 0 <= a < qs.len() && #[trigger] closes(g, f, false, g0, core_set(items(qs[a]@)));
        lemma_closes_unique(g, f, false, g0, core_set(items(ps[k]@)), core_set(items(qs[a]@)));
        assert(core_set(items(qs[a]@)) == core_set(items(ps[k]@)));
    }
}

/// Every SLR(1) state has the cores of some LALR(1) state.
proof fn lemma_slr_in_lalr(p: Lalr, q: Slr, j: int)
    requires
        lalr_built(p),
        slr_built(q.table),
        p.table.grammar == q.table.grammar,
        0 <= j < q.table.states@.len(),
    ensures
        exists|k: int|
            0 <= k < p.table.states@.len() && #[trigger] core_set(items(p.table.states@[k]@)) == core_set(
                items(q.table.states@[j]@),
            ),
    decreases j,
{
    reveal(inv_kernels);
    reveal(inv_raws);
    reveal(inv_cores);
    let g = p.table.grammar;
    let f = tview(p.table.first@);
    let ps = p.table.states@;
    let pk = p.table.kernels@;
    let raws = p.raws@;
    let qs = q.table.states@;
    let qk = q.table.kernels@;
    reveal(crate::lalr::inv_states);
    assert(tview(q.table.first@) == f);
    if j == 0 {
        lemma_start_cores(p, q);
        assert(core_set(items(ps[0]@)) == core_set(items(qs[0]@)));
    } else {
        let par = choose|par: Seq<(int, int)>|
            #[trigger] derived_ok(g, f, false, qs, qk, par) && complete_before(g, qs, qk, par, (qs.len() as int, 0));
        let (i, si) = par[j];
        let x = g.symbols@[si];
        let kq = items(qk[j].0@);
        assert(kq == goto_set(items(qs[i]@), x));
        assert(closes(g, f, false, kq, items(qs[j]@)));
        assert(kq != Set::<PositionView>::empty()) by {
            assert(items(qk[0].0@) == Set::<PositionView>::empty());
            assert(items(qk[0].0@) != items(qk[j].0@));
        }
        lemma_slr_in_lalr(p, q, i);
        let m = choose|k: int| 0 <= k < ps.len() && #[trigger] core_set(items(ps[k]@)) == core_set(items(qs[i]@));
        let gp = goto_set(items(ps[m]@), x);
        lemma_core_goto(items(ps[m]@), x);
        lemma_core_goto(items(qs[i]@), x);
        assert(core_set(gp) == core_set(kq));
        lemma_core_empty(gp);
        lemma_core_empty(kq);
        assert(crate::lr::lex_lt((m, si), (ps.len() as int, 0)));
        assert(goto_set(items(ps[m]@), g.symbols@[si]) == gp);
        assert(crate::lr::has_raw(raws, core_set(gp)));
        let b = choose|b: int| 0 <= b < raws.len() && #[trigger] items(raws[b].0@) == core_set(gp);
        lemma_raw_at_distinct(raws, b);
        let r = items(raws[b].1@);
        assert(has_kernel(pk, r) && core_set(r) == core_set(gp));
        let a = choose|a: int| 0 <= a < pk.len() && #[trigger] items(pk[a].0@) == r;
        lemma_core_empty(r);
        let kk = pk[a].1 as int;
        assert(0 <= kk < ps.len());
        assert(closes(g, f, false, core_set(r), core_set(items(ps[kk]@))));
        lemma_core_closes0(g, f, kq, items(qs[j]@));
        lemma_closes_unique(g, f, false, core_set(kq), core_set(items(ps[kk]@)), core_set(items(qs[j]@)));
        assert(core_set(items(ps[kk]@)) == core_set(items(qs[j]@)));
    }
}

/// Every state of one complete automaton has the cores of some state of another complete
/// automaton of the same grammar, whether either has lookaheads or not.
proof fn lemma_automaton_in(
    g: Grammar,
    fa: Seq<(usize, Vec<usize>)>,
    la: bool,
    sa: Seq<State>,
    ka: Seq<(State, usize)>,
    fb: Seq<(usize, Vec<usize>)>,
    lb: bool,
    sb: Seq<State>,
    kb: Seq<(State, usize)>,
    k: int,
)
    requires
        g.wf(),
        table_wf(fa),
        table_wf(fb),
        tview(fa) == tview(fb),
        automaton(g, tview(fa), la, sa, ka),
        automaton(g, tview(fb), lb, sb, kb),
        0 <= k < sa.len(),
    ensures
        exists|j: int| 0 <= j < sb.len() && #[trigger] core_set(items(sb[j]@)) == core_set(items(sa[k]@)),
    decreases k,
{
    let f = tview(fa);
    if k == 0 {
        lemma_automaton_start(g, fa, la, sa, ka);
        lemma_automaton_start(g, fb, lb, sb, kb);
        lemma_closes_unique(g, f, false, set![strip(g.basis@)], core_set(items(sa[0]@)), core_set(items(sb[0]@)));
        assert(core_set(items(sb[0]@)) == core_set(items(sa[0]@)));
    } else {
        let par = choose|par: Seq<(int, int)>|
            #[trigger] derived_ok(g, f, la, sa, ka, par) && complete_before(g, sa, ka, par, (sa.len() as int, 0));
        let (i, si) = par[k];
        let x = g.symbols@[si];
        let kk = items(ka[k].0@);
        assert(kk == goto_set(items(sa[i]@), x));
        assert(closes(g, f, la, kk, items(sa[k]@)));
        assert(kk != Set::<PositionView>::empty()) by {
            assert(items(ka[0].0@) == Set::<PositionView>::empty());
            assert(items(ka[0].0@) != items(ka[k].0@));
        }
        lemma_closes_cores(g, fa, la, kk, items(sa[k]@));
        lemma_core_goto(items(sa[i]@), x);
        lemma_core_empty(kk);
        let g0 = goto_set(core_set(items(sa[i]@)), x);
        lemma_automaton_in(g, fa, la, sa, ka, fb, lb, sb, kb, i);
        let ji = choose|j: int| 0 <= j < sb.len() && #[trigger] core_set(items(sb[j]@)) == core_set(items(sa[i]@));
        lemma_automaton_move(g, fb, lb, sb, kb, ji, x);
        let a = choose|a: int| 0 <= a < sb.len() && #[trigger] closes(g, f, false, g0, core_set(items(sb[a]@)));
        lemma_closes_unique(g, f, false, g0, core_set(items(sa[k]@)), core_set(items(sb[a]@)));
        assert(core_set(items(sb[a]@)) == core_set(items(sa[k]@)));
    }
}

/// The canonical LR(1) and the SLR(1) parser of a grammar have states with the same
/// cores: the items of every LR(1) state, without their lookaheads, are those of some
/// SLR(1) state, and the other way round.
pub proof fn law_clr_cores_are_lr0_states(c: Clr, q: Slr)
    requires
        clr_built(c.table),
        slr_built(q.table),
        c.table.grammar == q.table.grammar,
    ensures
        forall|k: int|
            #![trigger c.table.states@[k]]
            0 <= k < c.table.states@.len() ==> exists|j: int|
                0 <= j < q.table.states@.len() && #[trigger] core_set(items(q.table.states@[j]@)) == core_set(
                    items(c.table.states@[k]@),
                ),
        forall|j: int|
            #![trigger q.table.states@[j]]
            0 <= j < q.table.states@.len() ==> exists|k: int|
                0 <= k < c.table.states@.len() && #[trigger] core_set(items(c.table.states@[k]@)) == core_set(
                    items(q.table.states@[j]@),
                ),
{
    let g = c.table.grammar;
    assert(tview(c.table.first@) == tview(q.table.first@));
    assert forall|k: int| #![trigger c.table.states@[k]] 0 <= k < c.table.states@.len() implies exists|j: int|
        0 <= j < q.table.states@.len() && #[trigger] core_set(items(q.table.states@[j]@)) == core_set(
            items(c.table.states@[k]@),
        ) by {
        lemma_automaton_in(g, c.table.first@, true, c.table.states@, c.table.kernels@, q.table.first@, false, q.table.states@, q.table.kernels@, k);
    }
    assert forall|j: int| #![trigger q.table.states@[j]] 0 <= j < q.table.states@.len() implies exists|k: int|
        0 <= k < c.table.states@.len() && #[trigger] core_set(items(c.table.states@[k]@)) == core_set(
            items(q.table.states@[j]@),
        ) by {
        lemma_automaton_in(g, q.table.first@, false, q.table.states@, q.table.kernels@, c.table.first@, true, c.table.states@, c.table.kernels@, j);
    }
}

/// The LALR(1) and the SLR(1) parser of a grammar have states with the same cores: the
/// items of every LALR(1) state, without their lookaheads, are those of some SLR(1)
/// state, and the other way round.
pub proof fn law_lalr_cores_are_lr0_states(p: Lalr, q: Slr)
    requires
        lalr_built(p),
        slr_built(q.table),
        p.table.grammar == q.table.grammar,
    ensures
        forall|k: int|
            #![trigger p.table.states@[k]]
            0 <= k < p.table.states@.len() ==> exists|j: int|
                0 <= j < q.table.states@.len() && #[trigger] core_set(items(q.table.states@[j]@)) == core_set(
                    items(p.table.states@[k]@),
                ),
        forall|j: int|
            #![trigger q.table.states@[j]]
            0 <= j < q.table.states@.len() ==> exists|k: int|
                0 <= k < p.table.states@.len() && #[trigger] core_set(items(p.table.states@[k]@)) == core_set(
                    items(q.table.states@[j]@),
                ),
{
    assert forall|k: int| #![trigger p.table.states@[k]] 0 <= k < p.table.states@.len() implies exists|j: int|
        0 <= j < q.table.states@.len() && #[trigger] core_set(items(q.table.states@[j]@)) == core_set(
            items(p.table.states@[k]@),
        ) by {
        lemma_lalr_in_slr(p, q, k);
    }
    assert forall|j: int| #![trigger q.table.states@[j]] 0 <= j < q.table.states@.len() implies exists|k: int|
        0 <= k < p.table.states@.len() && #[trigger] core_set(items(p.table.states@[k]@)) == core_set(
            items(q.table.states@[j]@),
        ) by {
        lemma_slr_in_lalr(p, q, j);
    }
}

} // verus!
