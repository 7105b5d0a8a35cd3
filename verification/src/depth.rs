//! How deep each state of an automaton can stand on the state stack, and why a run of
//! a table whose states keep to their depths never lacks a state or a stack entry.
use vstd::prelude::*;

use crate::action::{ActionView, refs_below};
use crate::clr::{Clr, clr_built};
use crate::decide::{actions_match, combine, decision_entries, fold_entries, lemma_decision_ready,
    lemma_row_get, looks_of, move_action, reduce_action, rmap, row_actions};
use crate::dfa::{DfaView, ErrorView, StepOut, act_view, lemma_run_accepts, next_sym, run_spec,
    start_cfg, travel_spec, tstep, vget, vhas};
use crate::grammar::{Grammar, body_of, rule_index};
use crate::lalr::{Lalr, inv_cores, inv_kernels, inv_raws, inv_start, inv_states, lalr_built,
    lalr_inv, lalr_ready_before, lemma_core_empty, lemma_kernel_at_distinct, lemma_lalr_ready,
    lemma_raw_at_distinct};
use crate::lr::{automaton, closes, closure_iter, closure_step, complete_before, core_set,
    derived_ok, goto_set, item_ok, items, kernel_at, lemma_kernel_at_exists,
    lemma_kernel_at_unique, set_ok, spawn_of, states_ok, strip, target_state};
use crate::pos::{Position, PositionView, advanced, peek_spec, views};
use crate::slr::{Slr, slr_built};
use crate::state::State;
use crate::table::tview;
use crate::tabler::{Tabler, bodies_nonempty, table_closed};

verus! {

/// The two failures that a run of a sound table over terminals never meets: a current
/// state without a row, and a reduction that finds no state below its body.
pub open spec fn lacks(e: ErrorView) -> bool {
    e is StateNotSpecified || e is MissingPreviousState
}

/// Entry `(x, a)` of row `j` of a table of `n` rows, where state `k` stands at depth at
/// least `d[k]`: a move goes to a state of the table at most one deeper than `j` (a
/// goto only on a symbol of `nts`), a reduction pops no more symbols than `j`'s depth,
/// and an acceptance happens above the bottom of the stack.
pub open spec fn entry_ok(n: int, d: Seq<nat>, nts: Set<usize>, j: int, x: usize, a: ActionView) -> bool {
    match a {
        ActionView::Shift(k) => k < n && d[k as int] <= d[j] + 1,
        ActionView::Goto(k) => k < n && d[k as int] <= d[j] + 1 && nts.contains(x),
        ActionView::Reduce(_, body, _) => body.len() <= d[j],
        ActionView::Acc => 1 <= d[j],
        ActionView::Conflict(_, _) => true,
    }
}

/// Table `t` with depths `d`: state 0 has depth 0 and every entry keeps to the depths
/// as [`entry_ok`] says.
pub open spec fn depth_ok(t: Seq<Seq<(usize, ActionView)>>, d: Seq<nat>, nts: Set<usize>) -> bool {
    &&& t.len() > 0
    &&& d.len() == t.len()
    &&& d[0] == 0
    &&& forall|j: int, e: int|
        #![trigger t[j][e]]
        0 <= j < t.len() && 0 <= e < t[j].len() ==> entry_ok(t.len() as int, d, nts, j, t[j][e].0, t[j][e].1)
}

/// A configuration between two travels: the current state is on top of the state
/// stack, every stacked state has a row and stands no lower than its depth, the item
/// stack is at most one shorter than the state stack, the input holds no symbol of
/// `nts`, and an accepted configuration holds an item.
pub open spec fn cfg_ok(t: Seq<Seq<(usize, ActionView)>>, d: Seq<nat>, nts: Set<usize>, c: DfaView) -> bool {
    &&& c.states.len() >= 1
    &&& c.top == c.states.last()
    &&& forall|i: int| 0 <= i < c.states.len() ==> #[trigger] c.states[i] < t.len() && d[c.states[i] as int] <= i
    &&& c.tys.len() + 1 >= c.states.len()
    &&& forall|i: int| 0 <= i < c.input.len() ==> !nts.contains(#[trigger] c.input[i])
    &&& c.finished ==> c.tys.len() >= 1
}

/// The action a row gives a symbol is one of its entries, so it keeps to the depths.
proof fn lemma_vget_ok(t: Seq<Seq<(usize, ActionView)>>, d: Seq<nat>, nts: Set<usize>, j: int, x: usize)
    requires
        depth_ok(t, d, nts),
        0 <= j < t.len(),
        vhas(t[j], x),
    ensures
        entry_ok(t.len() as int, d, nts, j, x, vget(t[j], x)),
{
    let r = t[j];
    let k = choose|i: int| 0 <= i < r.len() && #[trigger] r[i].0 == x;
    assert(0 <= k < r.len() && r[k].0 == x);
    assert(entry_ok(t.len() as int, d, nts, j, t[j][k].0, t[j][k].1));
}

/// One action from a sound configuration, on a symbol outside `nts` or right after a
/// reduction, finds its state and enough stack entries, and leaves a sound
/// configuration.
proof fn lemma_step_keeps(
    t: Seq<Seq<(usize, ActionView)>>,
    d: Seq<nat>,
    nts: Set<usize>,
    c: DfaView,
    sym: usize,
)
    requires
        depth_ok(t, d, nts),
        cfg_ok(t, d, nts, c),
        !c.finished,
        !nts.contains(sym) || c.tys.len() >= c.states.len(),
    ensures
        ({
            let (c1, o) = tstep(t, c, sym);
            &&& !(o matches StepOut::Fail(e) && lacks(e))
            &&& o is Done ==> cfg_ok(t, d, nts, c1)
            &&& o is Again ==> cfg_ok(t, d, nts, c1) && !c1.finished && c1.tys.len() >= c1.states.len()
        }),
{
    let len = c.states.len() as int;
    let top = c.top as int;
    assert(c.states[len - 1] == c.top);
    assert(c.top < t.len() && d[top] <= len - 1);
    if vhas(t[top], sym) {
        lemma_vget_ok(t, d, nts, top, sym);
        let (c1, o) = tstep(t, c, sym);
        match vget(t[top], sym) {
            ActionView::Shift(k) => {
                if c.input.len() > 0 {
                    assert forall|q: int| 0 <= q < c1.states.len() implies #[trigger] c1.states[q] < t.len()
                        && d[c1.states[q] as int] <= q by {
                        if q < len {
                            assert(c1.states[q] == c.states[q]);
                        }
                    }
                    assert forall|q: int| 0 <= q < c1.input.len() implies !nts.contains(#[trigger] c1.input[q]) by {
                        assert(c1.input[q] == c.input[q + 1]);
                    }
                }
            },
            ActionView::Goto(k) => {
                assert forall|q: int| 0 <= q < c1.states.len() implies #[trigger] c1.states[q] < t.len() && d[c1.states[q] as int]
                    <= q by {
                    if q < len {
                        assert(c1.states[q] == c.states[q]);
                    }
                }
            },
            ActionView::Reduce(name, body, index) => {
                let n = body.len() as int;
                assert(c.tys.len() >= n && c.states.len() >= n + 1);
                assert forall|q: int| 0 <= q < c1.states.len() implies #[trigger] c1.states[q] < t.len() && d[c1.states[q] as int]
                    <= q by {
                    assert(c1.states[q] == c.states[q]);
                }
                assert(c1.states.last() == c.states[len - n - 1]);
            },
            ActionView::Acc => {},
            ActionView::Conflict(a, b) => {},
        }
    }
}

/// Travelling from a sound configuration, on a symbol outside `nts` or right after a
/// reduction, never lacks a state or a stack entry, and a travel that ends well leaves a
/// sound configuration.
proof fn lemma_travel_keeps(
    t: Seq<Seq<(usize, ActionView)>>,
    d: Seq<nat>,
    nts: Set<usize>,
    c: DfaView,
    sym: usize,
    fuel: nat,
)
    requires
        depth_ok(t, d, nts),
        cfg_ok(t, d, nts, c),
        !c.finished,
        !nts.contains(sym) || c.tys.len() >= c.states.len(),
    ensures
        ({
            let (c1, r) = travel_spec(t, c, sym, fuel);
            &&& !(r matches Err(e) && lacks(e))
            &&& r is Ok ==> cfg_ok(t, d, nts, c1)
        }),
    decreases fuel,
{
    lemma_step_keeps(t, d, nts, c, sym);
    let (c1, o) = tstep(t, c, sym);
    if let StepOut::Again(name) = o {
        if fuel > 0 {
            lemma_travel_keeps(t, d, nts, c1, name, (fuel - 1) as nat);
        }
    }
}

/// A run from a sound configuration never lacks a state or a stack entry, and a run
/// that ends well leaves a sound configuration.
proof fn lemma_run_keeps(
    t: Seq<Seq<(usize, ActionView)>>,
    d: Seq<nat>,
    nts: Set<usize>,
    eof: usize,
    c: DfaView,
    fuel: nat,
)
    requires
        depth_ok(t, d, nts),
        cfg_ok(t, d, nts, c),
        !nts.contains(eof),
    ensures
        ({
            let (c1, r) = run_spec(t, eof, c, fuel);
            &&& !(r matches Err(e) && lacks(e))
            &&& r is Ok ==> cfg_ok(t, d, nts, c1)
        }),
    decreases fuel,
{
    if !c.finished && fuel > 0 {
        let sym = next_sym(c, eof);
        if c.input.len() > 0 {
            assert(!nts.contains(c.input[0]));
        }
        lemma_travel_keeps(t, d, nts, c, sym, usize::MAX as nat);
        let (c1, r) = travel_spec(t, c, sym, usize::MAX as nat);
        if r is Ok {
            lemma_run_keeps(t, d, nts, eof, c1, (fuel - 1) as nat);
        }
    }
}

/// A run of a table whose states keep to depths `d`, over an input of symbols outside
/// `nts` ended by `eof`, never stops for want of a row for its current state or of a
/// state below a reduction's body; and a run that accepts leaves an item on the item
/// stack.
pub proof fn law_run_never_lacks(
    t: Seq<Seq<(usize, ActionView)>>,
    d: Seq<nat>,
    nts: Set<usize>,
    eof: usize,
    input: Seq<usize>,
)
    requires
        depth_ok(t, d, nts),
        !nts.contains(eof),
        forall|i: int| 0 <= i < input.len() ==> !nts.contains(#[trigger] input[i]),
    ensures
        ({
            let (c, r) = run_spec(t, eof, start_cfg(input), usize::MAX as nat);
            &&& !(r matches Err(e) && lacks(e))
            &&& r is Ok ==> c.tys.len() >= 1
        }),
{
    let c0 = start_cfg(input);
    assert(c0.states.last() == 0usize);
    assert forall|i: int| 0 <= i < c0.states.len() implies #[trigger] c0.states[i] < t.len() && d[c0.states[i] as int] <= i by {
        assert(c0.states[i] == 0usize);
    }
    lemma_run_keeps(t, d, nts, eof, c0, usize::MAX as nat);
    lemma_run_accepts(t, eof, c0, usize::MAX as nat);
}

/// The body of an item of the grammar is one of its productions: a vector, so no
/// longer than `usize::MAX`, and not empty when no production is.
proof fn lemma_item_body(g: Grammar, v: PositionView)
    requires
        item_ok(g, v),
    ensures
        bodies_nonempty(g) ==> v.body.len() > 0,
        v.body.len() <= usize::MAX,
{
    let i = rule_index(g.rules@, v.rule);
    let j = choose|j: int| 0 <= j < g.rule(v.rule).prods@.len() && #[trigger] body_of(g.rule(v.rule), j) == v.body;
    assert(body_of(g.rules@[i], j) == v.body);
    assert(g.rules@[i].prods@[j].0.len() == v.body.len());
}

/// The largest point of the items of a state.
pub open spec fn max_point(s: Seq<Position>) -> nat
    decreases s.len(),
{
    if s.len() == 0 {
        0
    } else {
        let m = max_point(s.drop_last());
        if s.last()@.point as nat > m {
            s.last()@.point as nat
        } else {
            m
        }
    }
}

/// The depths of the states: the largest point of the items of each.
pub open spec fn depths(states: Seq<State>) -> Seq<nat> {
    Seq::new(states.len(), |j: int| max_point(states[j]@))
}

/// No item of a state has its point past the largest.
proof fn lemma_max_point_above(s: Seq<Position>, v: PositionView)
    requires
        items(s).contains(v),
    ensures
        v.point <= max_point(s),
    decreases s.len(),
{
    assert(views(s).contains(v));
    let i = choose|i: int| 0 <= i < views(s).len() && views(s)[i] == v;
    assert(s[i]@ == v);
    if i < s.len() - 1 {
        assert(views(s.drop_last())[i] == v);
        assert(items(s.drop_last()).contains(v));
        lemma_max_point_above(s.drop_last(), v);
    }
}

/// The largest point is no more than a bound on every item's point.
proof fn lemma_max_point_below(s: Seq<Position>, b: nat)
    requires
        forall|v: PositionView| #[trigger] items(s).contains(v) ==> v.point <= b,
    ensures
        max_point(s) <= b,
    decreases s.len(),
{
    if s.len() > 0 {
        assert forall|v: PositionView| #[trigger] items(s.drop_last()).contains(v) implies v.point <= b by {
            assert(views(s.drop_last()).contains(v));
            let i = choose|i: int| 0 <= i < views(s.drop_last()).len() && views(s.drop_last())[i] == v;
            assert(views(s)[i] == v);
            assert(items(s).contains(v));
        }
        lemma_max_point_below(s.drop_last(), b);
        assert(views(s)[s.len() - 1] == s.last()@);
        assert(items(s).contains(s.last()@));
    }
}

/// An item of a closure iterate is an item of the seed or has its point at the start.
proof fn lemma_iter_points(
    g: Grammar,
    f: Map<usize, Set<usize>>,
    lr1: bool,
    seed: Set<PositionView>,
    n: nat,
    u: PositionView,
)
    requires
        closure_iter(g, f, lr1, seed, n).contains(u),
    ensures
        seed.contains(u) || u.point == 0,
    decreases n,
{
    if n > 0 {
        let prev = closure_iter(g, f, lr1, seed, (n - 1) as nat);
        assert(closure_step(g, f, lr1, prev).contains(u));
        if prev.contains(u) {
            lemma_iter_points(g, f, lr1, seed, (n - 1) as nat, u);
        } else {
            let (p, j) = choose|p: PositionView, j: int| prev.contains(p) && #[trigger] spawn_of(g, f, lr1, p, j, u);
        }
    }
}

/// An item of a propagated closure is an item of the seed or has its point at the
/// start.
proof fn lemma_closes_points(
    g: Grammar,
    f: Map<usize, Set<usize>>,
    lr1: bool,
    seed: Set<PositionView>,
    r: Set<PositionView>,
    u: PositionView,
)
    requires
        closes(g, f, lr1, seed, r),
        r.contains(u),
    ensures
        seed.contains(u) || u.point == 0,
{
    let n = choose|n: nat| #[trigger] closure_iter(g, f, lr1, seed, n) == r && closure_step(g, f, lr1, r) == r;
    lemma_iter_points(g, f, lr1, seed, n, u);
}

/// `p` holds of a conflict between two actions it holds of.
pub open spec fn conflicts_keep(p: spec_fn(usize, ActionView) -> bool) -> bool {
    forall|x: usize, a: ActionView, b: ActionView|
        p(x, a) && p(x, b) ==> #[trigger] p(x, ActionView::Conflict(Box::new(a), Box::new(b)))
}

/// `p` holds of every entry of `e`.
pub open spec fn entries_hold(p: spec_fn(usize, ActionView) -> bool, e: Seq<(usize, ActionView)>) -> bool {
    forall|i: int| #![trigger e[i]] 0 <= i < e.len() ==> p(e[i].0, e[i].1)
}

/// `p` holds of every entry of map `m`.
pub open spec fn map_holds(p: spec_fn(usize, ActionView) -> bool, m: Map<usize, ActionView>) -> bool {
    forall|x: usize| #[trigger] m.contains_key(x) ==> p(x, m[x])
}

/// Every entry of `e` keeps to the depths, as row `j`.
pub open spec fn entries_ok(n: int, d: Seq<nat>, nts: Set<usize>, j: int, e: Seq<(usize, ActionView)>) -> bool {
    forall|i: int| #![trigger e[i]] 0 <= i < e.len() ==> entry_ok(n, d, nts, j, e[i].0, e[i].1)
}

/// Folding entries of which `p` holds into a map of whose entries it holds gives such a
/// map, when `p` holds of conflicts between actions it holds of.
proof fn lemma_fold_holds(m: Map<usize, ActionView>, e: Seq<(usize, ActionView)>, p: spec_fn(usize, ActionView) -> bool)
    requires
        conflicts_keep(p),
        map_holds(p, m),
        entries_hold(p, e),
    ensures
        map_holds(p, fold_entries(m, e)),
    decreases e.len(),
{
    if e.len() > 0 {
        let e0 = e.drop_last();
        assert forall|i: int| #![trigger e0[i]] 0 <= i < e0.len() implies p(e0[i].0, e0[i].1) by {
            assert(e0[i] == e[i]);
        }
        lemma_fold_holds(m, e0, p);
        let last = e[e.len() - 1];
        assert(p(last.0, last.1));
        let m1 = fold_entries(m, e0);
        assert(fold_entries(m, e) == combine(m1, last.0, last.1));
        if m1.contains_key(last.0) && m1[last.0] != last.1 {
            assert(p(last.0, ActionView::Conflict(Box::new(m1[last.0]), Box::new(last.1))));
        }
    }
}

/// `p` holds of the actions of the first `q` items of a row when it holds of the entries
/// each of its items gives, and of conflicts between actions it holds of.
proof fn lemma_row_actions_hold(
    t: Tabler,
    lr1: bool,
    raws: Option<Seq<(State, State)>>,
    row: Seq<Position>,
    q: int,
    p: spec_fn(usize, ActionView) -> bool,
)
    requires
        q <= row.len(),
        conflicts_keep(p),
        forall|k: int|
            0 <= k < row.len() ==> entries_hold(
                p,
                #[trigger] decision_entries(
                    t.grammar,
                    t.grammar.basis.rule,
                    t.kernels@,
                    raws,
                    items(row),
                    row[k]@,
                    looks_of(t.follow@, lr1, row[k]@),
                ),
            ),
    ensures
        map_holds(p, row_actions(t, lr1, raws, row, q)),
    decreases q,
{
    if q > 0 {
        lemma_row_actions_hold(t, lr1, raws, row, q - 1, p);
        let de = decision_entries(
            t.grammar,
            t.grammar.basis.rule,
            t.kernels@,
            raws,
            items(row),
            row[q - 1]@,
            looks_of(t.follow@, lr1, row[q - 1]@),
        );
        lemma_fold_holds(row_actions(t, lr1, raws, row, q - 1), de, p);
    } else {
        assert(row_actions(t, lr1, raws, row, q) == Map::<usize, ActionView>::empty());
    }
}

/// `p` holds of every entry of the table whose actions are those of its states, when it
/// holds of the entries each item of each state gives, and of conflicts between actions
/// it holds of.
proof fn lemma_table_holds(t: Tabler, lr1: bool, raws: Option<Seq<(State, State)>>, j: int, p: spec_fn(usize, ActionView) -> bool)
    requires
        actions_match(t, lr1, raws),
        0 <= j < t.states@.len(),
        conflicts_keep(p),
        forall|k: int|
            0 <= k < t.states@[j]@.len() ==> entries_hold(
                p,
                #[trigger] decision_entries(
                    t.grammar,
                    t.grammar.basis.rule,
                    t.kernels@,
                    raws,
                    items(t.states@[j]@),
                    t.states@[j]@[k]@,
                    looks_of(t.follow@, lr1, t.states@[j]@[k]@),
                ),
            ),
    ensures
        entries_hold(p, act_view(t.actions@)[j]),
{
    let row = t.states@[j]@;
    lemma_row_actions_hold(t, lr1, raws, row, row.len() as int, p);
    let r = t.actions@[j]@;
    let at = act_view(t.actions@);
    assert forall|e: int| #![trigger at[j][e]] 0 <= e < at[j].len() implies p(at[j][e].0, at[j][e].1) by {
        lemma_row_get(r, e);
        assert(at[j][e] == (r[e].0, r[e].1@));
        assert(rmap(r).contains_key(r[e].0));
    }
}

/// The entries an item of state `j` gives keep to the depths, when its point is within
/// `j`'s depth, a finished item of the start rule has a non-empty body, and every move
/// goes to a state of the table at most one deeper.
proof fn lemma_decision_ok(
    g: Grammar,
    start: usize,
    kernels: Seq<(State, usize)>,
    raws: Option<Seq<(State, State)>>,
    row: Set<PositionView>,
    v: PositionView,
    looks: Seq<usize>,
    n: int,
    d: Seq<nat>,
    nts: Set<usize>,
    j: int,
)
    requires
        nts == Set::new(|x: usize| g.nonterminal(x)),
        0 <= j < d.len(),
        v.point <= d[j],
        peek_spec(v, 0) is None && v.rule == start ==> v.body.len() > 0,
        forall|top: usize|
            peek_spec(v, 0) == Some(top) ==> {
                let k = #[trigger] target_state(kernels, raws, goto_set(row, top));
                k < n && d[k as int] <= d[j] + 1
            },
    ensures
        entries_ok(n, d, nts, j, decision_entries(g, start, kernels, raws, row, v, looks)),
{
    let e = decision_entries(g, start, kernels, raws, row, v, looks);
    match peek_spec(v, 0) {
        None => {
            assert forall|i: int| #![trigger e[i]] 0 <= i < e.len() implies entry_ok(n, d, nts, j, e[i].0, e[i].1) by {
                assert(e[i] == (looks[i], reduce_action(start, v)));
            }
        },
        Some(top) => {
            let k = target_state(kernels, raws, goto_set(row, top));
            assert(e[0] == (top, move_action(g, kernels, raws, row, top)));
        },
    }
}

/// A table whose actions are those of its states, where state 0 has depth 0 and every
/// move of every item goes to a state at most one deeper, keeps to the depths of its
/// states, with a goto only on a non-terminal.
proof fn lemma_table_depths(t: Tabler, lr1: bool, raws: Option<Seq<(State, State)>>)
    requires
        actions_match(t, lr1, raws),
        t.states@.len() > 0,
        states_ok(t.grammar, t.states@),
        bodies_nonempty(t.grammar),
        max_point(t.states@[0]@) == 0,
        forall|j: int, v: PositionView|
            0 <= j < t.states@.len() && #[trigger] items(t.states@[j]@).contains(v) && peek_spec(v, 0) is Some
                ==> {
                let k = target_state(t.kernels@, raws, goto_set(items(t.states@[j]@), peek_spec(v, 0)->0));
                k < t.states@.len() && max_point(t.states@[k as int]@) <= max_point(t.states@[j]@) + 1
            },
    ensures
        depth_ok(act_view(t.actions@), depths(t.states@), Set::new(|x: usize| t.grammar.nonterminal(x))),
{
    let g = t.grammar;
    let st = t.states@;
    let at = act_view(t.actions@);
    let d = depths(st);
    let nts = Set::new(|x: usize| g.nonterminal(x));
    let n = st.len() as int;
    assert forall|j: int, e: int| #![trigger at[j][e]] 0 <= j < at.len() && 0 <= e < at[j].len() implies entry_ok(
        at.len() as int,
        d,
        nts,
        j,
        at[j][e].0,
        at[j][e].1,
    ) by {
        let row = st[j]@;
        let p = |x: usize, a: ActionView| entry_ok(n, d, nts, j, x, a);
        assert forall|q: int| 0 <= q < row.len() implies entries_hold(
            p,
            #[trigger] decision_entries(
                g,
                g.basis.rule,
                t.kernels@,
                raws,
                items(row),
                row[q]@,
                looks_of(t.follow@, lr1, row[q]@),
            ),
        ) by {
            let v = row[q]@;
            assert(views(row)[q] == v);
            assert(items(row).contains(v));
            lemma_max_point_above(row, v);
            assert(set_ok(g, items(st[j]@)));
            lemma_item_body(g, v);
            assert forall|top: usize| peek_spec(v, 0) == Some(top) implies {
                let k = #[trigger] target_state(t.kernels@, raws, goto_set(items(row), top));
                k < n && d[k as int] <= d[j] + 1
            } by {
                let k = target_state(t.kernels@, raws, goto_set(items(row), top));
                assert(items(st[j]@).contains(v));
            }
            lemma_decision_ok(
                g,
                g.basis.rule,
                t.kernels@,
                raws,
                items(row),
                v,
                looks_of(t.follow@, lr1, v),
                n,
                d,
                nts,
                j,
            );
        }
        lemma_table_holds(t, lr1, raws, j, p);
    }
}

/// A kernel item reached by a move from state `j` has its point at most one past the
/// largest point of `j`.
proof fn lemma_goto_point(g: Grammar, row: Seq<Position>, top: usize, w: PositionView)
    requires
        set_ok(g, items(row)),
        goto_set(items(row), top).contains(w),
    ensures
        w.point <= max_point(row) + 1,
{
    let p = choose|p: PositionView| items(row).contains(p) && peek_spec(p, 0) == Some(top) && w == #[trigger] advanced(p);
    lemma_max_point_above(row, p);
    lemma_item_body(g, p);
}

/// In a complete automaton, every move from an item of state `j` goes to a state at
/// most one deeper than `j`.
proof fn lemma_automaton_moves(
    g: Grammar,
    f: Map<usize, Set<usize>>,
    lr1: bool,
    states: Seq<State>,
    kernels: Seq<(State, usize)>,
    j: int,
    v: PositionView,
)
    requires
        g.wf(),
        automaton(g, f, lr1, states, kernels),
        0 <= j < states.len(),
        items(states[j]@).contains(v),
        peek_spec(v, 0) is Some,
    ensures
        ({
            let k = target_state(kernels, None, goto_set(items(states[j]@), peek_spec(v, 0)->0));
            k < states.len() && max_point(states[k as int]@) <= max_point(states[j]@) + 1
        }),
{
    let top = peek_spec(v, 0)->0;
    let kg = goto_set(items(states[j]@), top);
    lemma_decision_ready(g, f, lr1, states, kernels, j, v, top);
    let a0 = choose|a: int| 0 <= a < kernels.len() && #[trigger] items(kernels[a].0@) == kg;
    lemma_kernel_at_exists(kernels, kg, a0);
    let a = choose|a: int| kernel_at(kernels, kg, a);
    lemma_kernel_at_unique(kernels, kg, a);
    assert(kernels[a].1 == a);
    assert(kg.contains(advanced(v)));
    assert(a != 0) by {
        if a == 0 {
            assert(items(kernels[0].0@) == Set::<PositionView>::empty());
            assert(items(kernels[0].0@).contains(advanced(v)));
        }
    }
    let par = choose|par: Seq<(int, int)>|
        #[trigger] derived_ok(g, f, lr1, states, kernels, par) && complete_before(
            g,
            states,
            kernels,
            par,
            (states.len() as int, 0),
        );
    assert(0 <= par[a].0 < a);
    assert(closes(g, f, lr1, items(kernels[a].0@), items(states[a]@)));
    assert(set_ok(g, items(states[j]@)));
    assert forall|u: PositionView| #[trigger] items(states[a]@).contains(u) implies u.point <= max_point(states[j]@) + 1 by {
        lemma_closes_points(g, f, lr1, kg, items(states[a]@), u);
        if kg.contains(u) {
            lemma_goto_point(g, states[j]@, top, u);
        }
    }
    lemma_max_point_below(states[a]@, max_point(states[j]@) + 1);
}

/// The table of a complete LR(1) or LR(0) automaton keeps to the depths of its states.
proof fn lemma_automaton_depths(t: Tabler, lr1: bool)
    requires
        t.grammar.wf(),
        bodies_nonempty(t.grammar),
        automaton(t.grammar, tview(t.first@), lr1, t.states@, t.kernels@),
        actions_match(t, lr1, None),
    ensures
        depth_ok(act_view(t.actions@), depths(t.states@), Set::new(|x: usize| t.grammar.nonterminal(x))),
{
    let g = t.grammar;
    let f = tview(t.first@);
    let st = t.states@;
    assert forall|u: PositionView| #[trigger] items(st[0]@).contains(u) implies u.point <= 0 by {
        lemma_closes_points(g, f, lr1, set![g.basis@], items(st[0]@), u);
    }
    lemma_max_point_below(st[0]@, 0);
    assert forall|j: int, v: PositionView|
        0 <= j < st.len() && #[trigger] items(st[j]@).contains(v) && peek_spec(v, 0) is Some implies {
        let k = target_state(t.kernels@, None, goto_set(items(st[j]@), peek_spec(v, 0)->0));
        k < st.len() && max_point(st[k as int]@) <= max_point(st[j]@) + 1
    } by {
        lemma_automaton_moves(g, f, lr1, st, t.kernels@, j, v);
    }
    lemma_table_depths(t, lr1, None);
}

/// In consistent LALR(1) tables whose every move was made, every move from an item of
/// state `j` goes to a state at most one deeper than `j`: the merged state of the
/// move's core.
proof fn lemma_lalr_moves(
    g: Grammar,
    f: Map<usize, Set<usize>>,
    states: Seq<State>,
    kernels: Seq<(State, usize)>,
    raws: Seq<(State, State)>,
    j: int,
    v: PositionView,
)
    requires
        g.wf(),
        lalr_inv(g, f, states, kernels, raws),
        lalr_ready_before(g, states, raws, (states.len() as int, 0)),
        0 <= j < states.len(),
        items(states[j]@).contains(v),
        peek_spec(v, 0) is Some,
    ensures
        ({
            let k = target_state(kernels, Some(raws), goto_set(items(states[j]@), peek_spec(v, 0)->0));
            k < states.len() && max_point(states[k as int]@) <= max_point(states[j]@) + 1
        }),
{
    reveal(inv_kernels);
    reveal(inv_states);
    reveal(inv_raws);
    reveal(inv_cores);
    lemma_lalr_ready(g, f, states, kernels, raws);
    let top = peek_spec(v, 0)->0;
    let kg = goto_set(items(states[j]@), top);
    assert(kg.contains(advanced(v)));
    lemma_core_empty(kg);
    let b = choose|b: int| 0 <= b < raws.len() && #[trigger] items(raws[b].0@) == core_set(kg);
    lemma_raw_at_distinct(raws, b);
    let r = items(raws[b].1@);
    let a = choose|a: int| 0 <= a < kernels.len() && #[trigger] items(kernels[a].0@) == r;
    lemma_kernel_at_distinct(kernels, a);
    let k = kernels[a].1;
    lemma_core_empty(r);
    assert(closes(g, f, false, core_set(r), core_set(items(states[k as int]@))));
    assert(set_ok(g, items(states[j]@)));
    assert forall|u: PositionView| #[trigger] items(states[k as int]@).contains(u) implies u.point <= max_point(states[j]@)
        + 1 by {
        assert(core_set(items(states[k as int]@)).contains(strip(u)));
        lemma_closes_points(g, f, false, core_set(r), core_set(items(states[k as int]@)), strip(u));
        if core_set(r).contains(strip(u)) {
            assert(core_set(kg).contains(strip(u)));
            let w = choose|w: PositionView| kg.contains(w) && strip(u) == #[trigger] strip(w);
            lemma_goto_point(g, states[j]@, top, w);
            assert(strip(u).point == strip(w).point);
        }
    }
    lemma_max_point_below(states[k as int]@, max_point(states[j]@) + 1);
}

/// The table of consistent LALR(1) tables whose every move was made keeps to the
/// depths of its states.
proof fn lemma_lalr_depths(p: Lalr)
    requires
        lalr_built(p),
        bodies_nonempty(p.table.grammar),
    ensures
        depth_ok(act_view(p.table.actions@), depths(p.table.states@), Set::new(|x: usize| p.table.grammar.nonterminal(x))),
{
    let t = p.table;
    let g = t.grammar;
    let f = tview(t.first@);
    let st = t.states@;
    reveal(inv_states);
    reveal(inv_start);
    lemma_lalr_ready(g, f, st, t.kernels@, p.raws@);
    assert forall|u: PositionView| #[trigger] items(st[0]@).contains(u) implies u.point <= 0 by {
        assert(core_set(items(st[0]@)).contains(strip(u)));
        lemma_closes_points(g, f, false, set![strip(g.basis@)], core_set(items(st[0]@)), strip(u));
    }
    lemma_max_point_below(st[0]@, 0);
    assert forall|j: int, v: PositionView|
        0 <= j < st.len() && #[trigger] items(st[j]@).contains(v) && peek_spec(v, 0) is Some implies {
        let k = target_state(t.kernels@, Some(p.raws@), goto_set(items(st[j]@), peek_spec(v, 0)->0));
        k < st.len() && max_point(st[k as int]@) <= max_point(st[j]@) + 1
    } by {
        lemma_lalr_moves(g, f, st, t.kernels@, p.raws@, j, v);
    }
    lemma_table_depths(t, true, Some(p.raws@));
}

/// A table whose actions are those of its states is closed when every move of every
/// item goes to a state of the table.
proof fn lemma_table_refs(t: Tabler, lr1: bool, raws: Option<Seq<(State, State)>>)
    requires
        actions_match(t, lr1, raws),
        forall|j: int, v: PositionView|
            0 <= j < t.states@.len() && #[trigger] items(t.states@[j]@).contains(v) && peek_spec(v, 0) is Some
                ==> target_state(t.kernels@, raws, goto_set(items(t.states@[j]@), peek_spec(v, 0)->0))
                < t.states@.len(),
    ensures
        table_closed(t.actions@),
{
    let g = t.grammar;
    let n = t.states@.len() as int;
    let p = |x: usize, a: ActionView| refs_below(a, n);
    let at = act_view(t.actions@);
    assert forall|i: int, k: int| 0 <= i < t.actions@.len() && 0 <= k < t.actions@[i]@.len() implies refs_below(
        #[trigger] t.actions@[i]@[k].1@,
        n,
    ) by {
        let row = t.states@[i]@;
        assert forall|q: int| 0 <= q < row.len() implies entries_hold(
            p,
            #[trigger] decision_entries(
                g,
                g.basis.rule,
                t.kernels@,
                raws,
                items(row),
                row[q]@,
                looks_of(t.follow@, lr1, row[q]@),
            ),
        ) by {
            let v = row[q]@;
            assert(views(row)[q] == v);
            assert(items(t.states@[i]@).contains(v));
            let e = decision_entries(g, g.basis.rule, t.kernels@, raws, items(row), v, looks_of(t.follow@, lr1, v));
            let looks = looks_of(t.follow@, lr1, v);
            match peek_spec(v, 0) {
                None => {
                    assert forall|m: int| #![trigger e[m]] 0 <= m < e.len() implies p(e[m].0, e[m].1) by {
                        assert(e[m] == (looks[m], reduce_action(g.basis.rule, v)));
                    }
                },
                Some(top) => {
                    assert(e[0] == (top, move_action(g, t.kernels@, raws, items(row), top)));
                },
            }
        }
        lemma_table_holds(t, lr1, raws, i, p);
        assert(at[i][k] == (t.actions@[i]@[k].0, t.actions@[i]@[k].1@));
    }
}

/// Every action of a canonical LR(1) or SLR(1) parser's table names one of its states.
proof fn lemma_automaton_closed(t: Tabler, lr1: bool)
    requires
        t.grammar.wf(),
        automaton(t.grammar, tview(t.first@), lr1, t.states@, t.kernels@),
        actions_match(t, lr1, None),
    ensures
        table_closed(t.actions@),
{
    assert forall|j: int, v: PositionView|
        0 <= j < t.states@.len() && #[trigger] items(t.states@[j]@).contains(v) && peek_spec(v, 0) is Some implies target_state(
        t.kernels@,
        None,
        goto_set(items(t.states@[j]@), peek_spec(v, 0)->0),
    ) < t.states@.len() by {
        lemma_automaton_moves(t.grammar, tview(t.first@), lr1, t.states@, t.kernels@, j, v);
    }
    lemma_table_refs(t, lr1, None);
}

/// Every action of a canonical LR(1) parser's table names one of the table's states.
pub proof fn law_clr_table_closed(p: Clr)
    requires
        clr_built(p.table),
    ensures
        table_closed(p.table.actions@),
{
    lemma_automaton_closed(p.table, true);
}

/// Every action of an SLR(1) parser's table names one of the table's states.
pub proof fn law_slr_table_closed(p: Slr)
    requires
        slr_built(p.table),
    ensures
        table_closed(p.table.actions@),
{
    lemma_automaton_closed(p.table, false);
}

/// Every action of an LALR(1) parser's table names one of the table's states.
pub proof fn law_lalr_table_closed(p: Lalr)
    requires
        lalr_built(p),
    ensures
        table_closed(p.table.actions@),
{
    let t = p.table;
    assert forall|j: int, v: PositionView|
        0 <= j < t.states@.len() && #[trigger] items(t.states@[j]@).contains(v) && peek_spec(v, 0) is Some implies target_state(
        t.kernels@,
        Some(p.raws@),
        goto_set(items(t.states@[j]@), peek_spec(v, 0)->0),
    ) < t.states@.len() by {
        lemma_lalr_moves(t.grammar, tview(t.first@), t.states@, t.kernels@, p.raws@, j, v);
    }
    lemma_table_refs(t, true, Some(p.raws@));
}

/// The symbols a parser reads: none of them, nor the end symbol, is a non-terminal.
pub open spec fn reads_terminals(g: Grammar, input: Seq<usize>) -> bool {
    &&& !g.nonterminal(g.eof())
    &&& forall|i: int| 0 <= i < input.len() ==> !g.nonterminal(#[trigger] input[i])
}

/// A run of a canonical LR(1) parser's table over symbols that are not non-terminals
/// never stops for want of a row for its current state or of a state below a reduction's body;
/// and a run that accepts leaves an item on the item stack.
pub proof fn law_clr_run_never_lacks(p: Clr, input: Seq<usize>)
    requires
        clr_built(p.table),
        bodies_nonempty(p.table.grammar),
        reads_terminals(p.table.grammar, input),
    ensures
        ({
            let (c, r) = run_spec(act_view(p.table.actions@), p.table.grammar.eof(), start_cfg(input), usize::MAX as nat);
            &&& !(r matches Err(e) && lacks(e))
            &&& r is Ok ==> c.tys.len() >= 1
        }),
{
    let g = p.table.grammar;
    lemma_automaton_depths(p.table, true);
    law_run_never_lacks(
        act_view(p.table.actions@),
        depths(p.table.states@),
        Set::new(|x: usize| g.nonterminal(x)),
        g.eof(),
        input,
    );
}

/// A run of an SLR(1) parser's table over symbols that are not non-terminals never
/// stops for want of a row for its current state or of a state below a reduction's body; and a
/// run that accepts leaves an item on the item stack.
pub proof fn law_slr_run_never_lacks(p: Slr, input: Seq<usize>)
    requires
        slr_built(p.table),
        bodies_nonempty(p.table.grammar),
        reads_terminals(p.table.grammar, input),
    ensures
        ({
            let (c, r) = run_spec(act_view(p.table.actions@), p.table.grammar.eof(), start_cfg(input), usize::MAX as nat);
            &&& !(r matches Err(e) && lacks(e))
            &&& r is Ok ==> c.tys.len() >= 1
        }),
{
    let g = p.table.grammar;
    lemma_automaton_depths(p.table, false);
    law_run_never_lacks(
        act_view(p.table.actions@),
        depths(p.table.states@),
        Set::new(|x: usize| g.nonterminal(x)),
        g.eof(),
        input,
    );
}

/// A run of an LALR(1) parser's table over symbols that are not non-terminals never
/// stops for want of a row for its current state or of a state below a reduction's body; and a
/// run that accepts leaves an item on the item stack.
pub proof fn law_lalr_run_never_lacks(p: Lalr, input: Seq<usize>)
    requires
        lalr_built(p),
        bodies_nonempty(p.table.grammar),
        reads_terminals(p.table.grammar, input),
    ensures
        ({
            let (c, r) = run_spec(act_view(p.table.actions@), p.table.grammar.eof(), start_cfg(input), usize::MAX as nat);
            &&& !(r matches Err(e) && lacks(e))
            &&& r is Ok ==> c.tys.len() >= 1
        }),
{
    let g = p.table.grammar;
    lemma_lalr_depths(p);
    law_run_never_lacks(
        act_view(p.table.actions@),
        depths(p.table.states@),
        Set::new(|x: usize| g.nonterminal(x)),
        g.eof(),
        input,
    );
}

} // verus!
