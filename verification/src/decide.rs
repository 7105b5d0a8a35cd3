//! What the automaton does in each state: the actions of each item, folded into one
//! row per state, where two different actions on one symbol become a conflict.
use vstd::prelude::*;

use crate::action::{Action, ActionView, Row, row_get, row_has, row_wf, rview};
use crate::grammar::{Grammar, Rule, body_of, has_rule, occurs, occurs_in, rule_index};
use crate::lr::{automaton, complete_before, core_of, core_set, derived_ok, entry_find, goto_set,
    has_kernel, item_ok, items, kernel_find, kernels_wf, lemma_filter_items,
    lemma_kernel_at_unique, lemma_raw_at_unique, lex_lt, raw_value, set_ok, states_ok,
    target_ready, target_state};
use crate::pos::{Position, PositionView, copy_syms, peek_spec, views};
use crate::reach::saturated;
use crate::state::{State, wf_state};
use crate::symset::sorted_set;
use crate::table::{has_key, key_index, table_find, tview};
use crate::tabler::{Tabler, add_body_map, add_prods_map, add_rules_map, follow_graph, inner_key,
    last_key};

verus! {

/// The action of a finished item: accepting for the start rule, else reducing its
/// production.
pub open spec fn reduce_action(start: usize, v: PositionView) -> ActionView {
    if v.rule == start {
        ActionView::Acc
    } else {
        ActionView::Reduce(v.rule, v.body, v.index)
    }
}

/// Moving over `top` from a state with items `row`: a goto for a non-terminal, a shift
/// for a terminal, to the state that the kernel of the move reaches.
pub open spec fn move_action(
    g: Grammar,
    kernels: Seq<(State, usize)>,
    raws: Option<Seq<(State, State)>>,
    row: Set<PositionView>,
    top: usize,
) -> ActionView {
    let k = target_state(kernels, raws, goto_set(row, top));
    if g.nonterminal(top) {
        ActionView::Goto(k)
    } else {
        ActionView::Shift(k)
    }
}

/// The actions of item `v` of a state with items `row`: for a finished item, its
/// reduction on each symbol of `looks`; otherwise the move over its next symbol.
pub open spec fn decision_entries(
    g: Grammar,
    start: usize,
    kernels: Seq<(State, usize)>,
    raws: Option<Seq<(State, State)>>,
    row: Set<PositionView>,
    v: PositionView,
    looks: Seq<usize>,
) -> Seq<(usize, ActionView)> {
    match peek_spec(v, 0) {
        None => looks.map_values(|l: usize| (l, reduce_action(start, v))),
        Some(top) => seq![(top, move_action(g, kernels, raws, row, top))],
    }
}

/// The view of an optional map from cores to kernels.
pub open spec fn raws_view(raws: Option<&Vec<(State, State)>>) -> Option<Seq<(State, State)>> {
    match raws {
        Some(r) => Some(r@),
        None => None,
    }
}

/// Keys and values of the map from cores to kernels are canonical states.
pub open spec fn raws_wf(raws: Option<Seq<(State, State)>>) -> bool {
    match raws {
        Some(r) => forall|j: int|
            0 <= j < r.len() ==> wf_state(#[trigger] r[j].0@) && wf_state(r[j].1@),
        None => true,
    }
}

/// `m` with action `a` added for symbol `x`: where `m` already has a different action
/// for `x`, the two become a conflict, the earlier one first.
pub open spec fn combine(m: Map<usize, ActionView>, x: usize, a: ActionView) -> Map<usize, ActionView> {
    if m.contains_key(x) && m[x] != a {
        m.insert(x, ActionView::Conflict(Box::new(m[x]), Box::new(a)))
    } else {
        m.insert(x, a)
    }
}

/// The entries `e` added to `m` one after the other.
pub open spec fn fold_entries(m: Map<usize, ActionView>, e: Seq<(usize, ActionView)>) -> Map<
    usize,
    ActionView,
>
    decreases e.len(),
{
    if e.len() == 0 {
        m
    } else {
        combine(fold_entries(m, e.drop_last()), e.last().0, e.last().1)
    }
}

/// Whether map `m` at `x` and every entry of `e` for `x` carry action `a`.
pub open spec fn all_agree(m: Map<usize, ActionView>, e: Seq<(usize, ActionView)>, x: usize, a: ActionView) -> bool {
    &&& (m.contains_key(x) ==> m[x] == a)
    &&& forall|i: int| 0 <= i < e.len() && #[trigger] e[i].0 == x ==> e[i].1 == a
}

/// Whether two of the actions that map `m` at `x` and the entries of `e` for `x` carry
/// differ.
pub open spec fn disagree(m: Map<usize, ActionView>, e: Seq<(usize, ActionView)>, x: usize) -> bool {
    ||| exists|i: int, j: int|
        0 <= i < e.len() && 0 <= j < e.len() && #[trigger] e[i].0 == x && #[trigger] e[j].0 == x && e[i].1
            != e[j].1
    ||| exists|j: int| 0 <= j < e.len() && #[trigger] e[j].0 == x && m.contains_key(x) && e[j].1 != m[x]
}

/// Folding entries that all agree with the map on `x` leaves that action at `x`.
pub proof fn lemma_fold_agree(m: Map<usize, ActionView>, e: Seq<(usize, ActionView)>, x: usize, a: ActionView)
    requires
        all_agree(m, e, x, a),
    ensures
        fold_entries(m, e).contains_key(x) == (m.contains_key(x) || exists|i: int|
            0 <= i < e.len() && #[trigger] e[i].0 == x),
        fold_entries(m, e).contains_key(x) ==> fold_entries(m, e)[x] == a,
    decreases e.len(),
{
    if e.len() > 0 {
        let p = e.drop_last();
        assert forall|i: int| 0 <= i < p.len() && #[trigger] p[i].0 == x implies p[i].1 == a by {
            assert(e[i].0 == x);
        }
        lemma_fold_agree(m, p, x, a);
        if exists|i: int| 0 <= i < e.len() && #[trigger] e[i].0 == x {
            let i = choose|i: int| 0 <= i < e.len() && #[trigger] e[i].0 == x;
            if i < p.len() {
                assert(p[i].0 == x);
            }
        }
        if exists|i: int| 0 <= i < p.len() && #[trigger] p[i].0 == x {
            let i = choose|i: int| 0 <= i < p.len() && #[trigger] p[i].0 == x;
            assert(e[i].0 == x);
        }
    }
}

/// Once a map holds a conflict at `x`, folding more entries keeps a conflict there.
pub proof fn lemma_fold_keeps_conflict(m: Map<usize, ActionView>, e: Seq<(usize, ActionView)>, x: usize)
    requires
        m.contains_key(x),
        m[x] is Conflict,
    ensures
        fold_entries(m, e).contains_key(x),
        fold_entries(m, e)[x] is Conflict,
    decreases e.len(),
{
    if e.len() > 0 {
        lemma_fold_keeps_conflict(m, e.drop_last(), x);
    }
}

/// Folding entries among which, or against the map, two actions for `x` differ leaves a
/// conflict at `x`.
pub proof fn lemma_fold_disagree(m: Map<usize, ActionView>, e: Seq<(usize, ActionView)>, x: usize)
    requires
        disagree(m, e, x),
    ensures
        fold_entries(m, e).contains_key(x),
        fold_entries(m, e)[x] is Conflict,
    decreases e.len(),
{
    let n = e.len() - 1;
    let p = e.drop_last();
    let l = e[n];
    if disagree(m, p, x) {
        lemma_fold_disagree(m, p, x);
        if l.0 == x {
            lemma_fold_keeps_conflict(fold_entries(m, p), seq![l], x);
            assert(seq![l].drop_last() =~= Seq::<(usize, ActionView)>::empty());
        }
    } else {
        // The actions that differ are the last entry's and an earlier one (or the map's).
        let v0: ActionView = if m.contains_key(x) {
            m[x]
        } else {
            let (i, j) = choose|i: int, j: int|
                0 <= i < e.len() && 0 <= j < e.len() && #[trigger] e[i].0 == x && #[trigger] e[j].0 == x
                    && e[i].1 != e[j].1;
            if i < n && j < n {
                assert(p[i].0 == x && p[j].0 == x);
            }
            if i == n {
                e[j].1
            } else {
                e[i].1
            }
        };
        assert(l.0 == x && v0 != l.1 && (m.contains_key(x) || exists|k: int|
            0 <= k < p.len() && #[trigger] p[k].0 == x)) by {
            if exists|i: int, j: int|
                0 <= i < e.len() && 0 <= j < e.len() && #[trigger] e[i].0 == x && #[trigger] e[j].0 == x
                    && e[i].1 != e[j].1 {
                let (i, j) = choose|i: int, j: int|
                    0 <= i < e.len() && 0 <= j < e.len() && #[trigger] e[i].0 == x && #[trigger] e[j].0 == x
                        && e[i].1 != e[j].1;
                if i < n && j < n {
                    assert(p[i].0 == x && p[j].0 == x);
                }
                let k = if i == n { j } else { i };
                assert(p[k].0 == x);
                if m.contains_key(x) {
                    assert(p[k].1 == m[x]);
                }
            } else {
                let j = choose|j: int|
                    0 <= j < e.len() && #[trigger] e[j].0 == x && m.contains_key(x) && e[j].1 != m[x];
                if j < n {
                    assert(p[j].0 == x);
                }
            }
        }
        assert forall|i: int| 0 <= i < p.len() && #[trigger] p[i].0 == x implies p[i].1 == v0 by {
            if !m.contains_key(x) {
                let k = choose|k: int| 0 <= k < p.len() && #[trigger] p[k].0 == x;
                if p[i].1 != p[k].1 {
                    assert(e[i].0 == x && e[k].0 == x);
                    assert(p[i].0 == x && p[k].0 == x);
                }
                assert(p[k].1 == v0) by {
                    let (i2, j2) = choose|i2: int, j2: int|
                        0 <= i2 < e.len() && 0 <= j2 < e.len() && #[trigger] e[i2].0 == x && #[trigger] e[j2].0
                            == x && e[i2].1 != e[j2].1;
                    let k2 = if i2 == n { j2 } else { i2 };
                    if k2 < n {
                        assert(p[k2].0 == x);
                    }
                }
            }
        }
        lemma_fold_agree(m, p, x, v0);
    }
}

/// The row as a map from symbols to actions.
pub open spec fn rmap(r: Seq<(usize, Action)>) -> Map<usize, ActionView> {
    Map::new(|x: usize| row_has(r, x), |x: usize| row_get(r, x))
}

/// In a row with increasing symbols, the action found for the symbol of entry `i` is
/// the action of that entry.
pub proof fn lemma_row_get(r: Seq<(usize, Action)>, i: int)
    requires
        row_wf(r),
        0 <= i < r.len(),
    ensures
        row_has(r, r[i].0),
        row_get(r, r[i].0) == r[i].1@,
{
    let x = r[i].0;
    assert(r[i].0 == x);
    let c = choose|c: int| 0 <= c < r.len() && #[trigger] r[c].0 == x;
    if c < i {
        assert(r[c].0 < r[i].0);
    } else if c > i {
        assert(r[i].0 < r[c].0);
    }
}

/// Replacing the entry for `sym` as [`combine`] says.
proof fn lemma_combine_update(
    r0: Seq<(usize, Action)>,
    i: int,
    sym: usize,
    av: ActionView,
    r1: Seq<(usize, Action)>,
)
    requires
        row_wf(r0),
        0 <= i < r0.len(),
        r0[i].0 == sym,
        r1 == r0.update(i, r1[i]),
        r1[i].0 == sym,
        r1[i].1@ == (if r0[i].1@ != av {
            ActionView::Conflict(Box::new(r0[i].1@), Box::new(av))
        } else {
            av
        }),
    ensures
        row_wf(r1),
        rmap(r1) == combine(rmap(r0), sym, av),
{
    assert forall|a: int, b: int| 0 <= a < b < r1.len() implies r1[a].0 < r1[b].0 by {
        assert(r0[a].0 < r0[b].0);
    }
    lemma_row_get(r0, i);
    lemma_row_get(r1, i);
    let m = combine(rmap(r0), sym, av);
    assert forall|x: usize| #[trigger] rmap(r1).dom().contains(x) <==> m.dom().contains(x) by {
        if x != sym {
            if row_has(r0, x) {
                let a = choose|a: int| 0 <= a < r0.len() && #[trigger] r0[a].0 == x;
                assert(r1[a].0 == x);
            }
            if row_has(r1, x) {
                let a = choose|a: int| 0 <= a < r1.len() && #[trigger] r1[a].0 == x;
                assert(r0[a].0 == x);
            }
        }
    }
    assert forall|x: usize| #[trigger] rmap(r1).dom().contains(x) implies rmap(r1)[x] == m[x] by {
        if x != sym {
            let a = choose|a: int| 0 <= a < r1.len() && #[trigger] r1[a].0 == x;
            lemma_row_get(r1, a);
            assert(r0[a] == r1[a]);
            lemma_row_get(r0, a);
        }
    }
    assert(rmap(r1) =~= m);
}

/// Inserting a new entry for `sym` at its place.
proof fn lemma_combine_insert(
    r0: Seq<(usize, Action)>,
    i: int,
    sym: usize,
    av: ActionView,
    r1: Seq<(usize, Action)>,
)
    requires
        row_wf(r0),
        0 <= i <= r0.len(),
        forall|a: int| 0 <= a < i ==> (#[trigger] r0[a]).0 < sym,
        i < r0.len() ==> r0[i].0 > sym,
        r1 == r0.insert(i, r1[i]),
        r1[i].0 == sym,
        r1[i].1@ == av,
    ensures
        row_wf(r1),
        rmap(r1) == combine(rmap(r0), sym, av),
{
    assert forall|a: int, b: int| 0 <= a < b < r1.len() implies r1[a].0 < r1[b].0 by {
        if a < i && b < i {
            assert(r0[a].0 < r0[b].0);
        } else if a < i && b == i {
            assert(r0[a].0 < sym);
        } else if a < i {
            assert(r0[a].0 < r0[b - 1].0);
        } else if a == i {
            if b - 1 > i {
                assert(r0[i].0 < r0[b - 1].0);
            }
        } else {
            assert(r0[a - 1].0 < r0[b - 1].0);
        }
    }
    assert(!row_has(r0, sym)) by {
        if row_has(r0, sym) {
            let a = choose|a: int| 0 <= a < r0.len() && #[trigger] r0[a].0 == sym;
            if a < i {
                assert(r0[a].0 < sym);
            } else if a > i {
                assert(r0[i].0 < r0[a].0);
            }
        }
    }
    lemma_row_get(r1, i);
    let m = combine(rmap(r0), sym, av);
    assert forall|x: usize| #[trigger] rmap(r1).dom().contains(x) <==> m.dom().contains(x) by {
        if x != sym {
            if row_has(r0, x) {
                let a = choose|a: int| 0 <= a < r0.len() && #[trigger] r0[a].0 == x;
                if a < i {
                    assert(r1[a].0 == x);
                } else {
                    assert(r1[a + 1].0 == x);
                }
            }
            if row_has(r1, x) {
                let a = choose|a: int| 0 <= a < r1.len() && #[trigger] r1[a].0 == x;
                if a < i {
                    assert(r0[a].0 == x);
                } else {
                    assert(r0[a - 1].0 == x);
                }
            }
        }
    }
    assert forall|x: usize| #[trigger] rmap(r1).dom().contains(x) implies rmap(r1)[x] == m[x] by {
        if x != sym {
            let a = choose|a: int| 0 <= a < r1.len() && #[trigger] r1[a].0 == x;
            lemma_row_get(r1, a);
            if a < i {
                assert(r0[a] == r1[a]);
                lemma_row_get(r0, a);
            } else {
                assert(r0[a - 1] == r1[a]);
                lemma_row_get(r0, a - 1);
            }
        }
    }
    assert(rmap(r1) =~= m);
}

/// Adds action `act` for `sym` to the row, as [`combine`] says.
pub fn row_combine(row: &mut Row, sym: usize, act: Action)
    requires
        row_wf(old(row)@),
    ensures
        row_wf(final(row)@),
        rmap(final(row)@) == combine(rmap(old(row)@), sym, act@),
{
    let ghost r0 = row@;
    let ghost av = act@;
    let mut i: usize = 0;
    while i < row.len() && row[i].0 < sym
        invariant
            i <= row@.len(),
            row@ == r0,
            forall|a: int| 0 <= a < i ==> (#[trigger] r0[a]).0 < sym,
        decreases row@.len() - i,
    {
        i = i + 1;
    }
    if i < row.len() && row[i].0 == sym {
        let ghost prevv = r0[i as int].1@;
        proof {
            lemma_row_get(r0, i as int);
        }
        let (s, prev) = row.remove(i);
        let entry: (usize, Action) = if prev.equal(&act) {
            (s, act)
        } else {
            (s, Action::Conflict(Box::new(prev), Box::new(act)))
        };
        let ghost ev = entry.1@;
        row.insert(i, entry);
        proof {
            assert(row@ =~= r0.update(i as int, row@[i as int]));
            lemma_combine_update(r0, i as int, sym, av, row@);
        }
    } else {
        row.insert(i, (sym, act));
        proof {
            assert(row@ =~= r0.insert(i as int, row@[i as int]));
            lemma_combine_insert(r0, i as int, sym, av, row@);
        }
    }
}

/// The actions of item `pos` of state `row`, on the symbols `looks` when it is finished.
pub fn decision_row(
    t: &Tabler,
    start: usize,
    pos: &Position,
    row: &State,
    looks: &Vec<usize>,
    raws: Option<&Vec<(State, State)>>,
) -> (r: Row)
    requires
        t.grammar.wf(),
        kernels_wf(t.kernels@),
        raws_wf(raws_view(raws)),
        peek_spec(pos@, 0) is None ==> sorted_set(looks@),
        forall|top: usize|
            peek_spec(pos@, 0) == Some(top) ==> target_ready(t.kernels@, raws_view(raws), goto_set(items(row@), top)),
    ensures
        row_wf(r@),
        rview(r) == decision_entries(t.grammar, start, t.kernels@, raws_view(raws), items(row@), pos@, looks@),
{
    match pos.top() {
        None => {
            let mut r: Row = Vec::new();
            let mut i: usize = 0;
            while i < looks.len()
                invariant
                    i <= looks@.len(),
                    peek_spec(pos@, 0) is None,
                    sorted_set(looks@),
                    rview(r) == looks@.subrange(0, i as int).map_values(
                        |l: usize| (l, reduce_action(start, pos@)),
                    ),
                decreases looks@.len() - i,
            {
                let a = if pos.rule == start {
                    Action::Acc
                } else {
                    Action::Reduce(pos.rule, (copy_syms(&pos.seq.0), pos.seq.1))
                };
                let ghost r_before = r@;
                let l = looks[i];
                let e = (l, a);
                let ghost ev = e;
                assert(ev.1@ == reduce_action(start, pos@));
                r.push(e);
                assert(r@ == r_before.push(ev));
                assert(rview(r) =~= crate::action::row_view(r_before).push((l, reduce_action(start, pos@))));
                assert(looks@.subrange(0, i + 1).map_values(|l: usize| (l, reduce_action(start, pos@)))
                    =~= looks@.subrange(0, i as int).map_values(|l: usize| (l, reduce_action(start, pos@))).push(
                    (l, reduce_action(start, pos@)),
                ));
                i = i + 1;
            }
            assert(looks@.subrange(0, looks@.len() as int) =~= looks@);
            assert forall|a: int, b: int| 0 <= a < b < r@.len() implies r@[a].0 < r@[b].0 by {
                assert(rview(r)[a].0 == r@[a].0);
                assert(rview(r)[b].0 == r@[b].0);
            }
            assert(rview(r) =~= decision_entries(t.grammar, start, t.kernels@, raws_view(raws), items(row@), pos@, looks@));
            r
        },
        Some(top) => {
            let filter = Tabler::sym_filter(row, top);
            proof {
                lemma_filter_items(row@, top, filter@);
            }
            let ghost gs = goto_set(items(row@), top);
            let found: Option<usize> = match raws {
                None => kernel_find(&t.kernels, &filter),
                Some(rw) => {
                    let core = core_of(&filter);
                    match entry_find(rw, &core) {
                        Some(j) => {
                            proof {
                                lemma_raw_at_unique(rw@, core_set(gs), j as int);
                            }
                            kernel_find(&t.kernels, &rw[j].1)
                        },
                        None => None,
                    }
                },
            };
            match found {
                Some(j) => {
                    proof {
                        match raws {
                            None => lemma_kernel_at_unique(t.kernels@, gs, j as int),
                            Some(rw) => lemma_kernel_at_unique(t.kernels@, raw_value(rw@, core_set(gs)), j as int),
                        }
                    }
                    let k = t.kernels[j].1;
                    let a = if t.grammar.is_terminal(top) {
                        Action::Shift(k)
                    } else {
                        Action::Goto(k)
                    };
                    let r: Row = vec![(top, a)];
                    assert(rview(r) =~= decision_entries(t.grammar, start, t.kernels@, raws_view(raws), items(row@), pos@, looks@));
                    r
                },
                None => {
                    proof {
                        assert(target_ready(t.kernels@, raws_view(raws), gs));
                        match raws {
                            None => {},
                            Some(rw) => {
                                let j = choose|j: int| 0 <= j < rw@.len() && #[trigger] items(rw@[j].0@) == core_set(gs);
                                assert(items(rw@[j].0@) == core_set(gs));
                            },
                        }
                    }
                    Vec::new()
                },
            }
        },
    }
}

/// The symbols on which a finished item `v` reduces: its own lookaheads when the
/// automaton has them (`lr1`), else the FOLLOW entry of its rule.
pub open spec fn looks_of(follow: Seq<(usize, Vec<usize>)>, lr1: bool, v: PositionView) -> Seq<usize> {
    if lr1 {
        v.look
    } else {
        follow[key_index(follow, v.rule)].1@
    }
}

/// The actions of the first `n` items of state `row` of table `t`, folded in order.
pub open spec fn row_actions(
    t: Tabler,
    lr1: bool,
    raws: Option<Seq<(State, State)>>,
    row: Seq<Position>,
    n: int,
) -> Map<usize, ActionView>
    decreases n,
{
    if n <= 0 {
        Map::empty()
    } else {
        fold_entries(
            row_actions(t, lr1, raws, row, n - 1),
            decision_entries(
                t.grammar,
                t.grammar.basis.rule,
                t.kernels@,
                raws,
                items(row),
                row[n - 1]@,
                looks_of(t.follow@, lr1, row[n - 1]@),
            ),
        )
    }
}

/// The actions of `t` are those [`row_actions`] gives each of its states, row after row.
pub open spec fn actions_match(t: Tabler, lr1: bool, raws: Option<Seq<(State, State)>>) -> bool {
    &&& t.actions@.len() == t.states@.len()
    &&& forall|i: int|
        0 <= i < t.states@.len() ==> row_wf(#[trigger] t.actions@[i]@) && rmap(t.actions@[i]@)
            == row_actions(t, lr1, raws, t.states@[i]@, t.states@[i]@.len() as int)
}

/// The entries that the first `n` items of state `row` give, in order.
pub open spec fn row_entries(
    t: Tabler,
    lr1: bool,
    raws: Option<Seq<(State, State)>>,
    row: Seq<Position>,
    n: int,
) -> Seq<(usize, ActionView)>
    decreases n,
{
    if n <= 0 {
        Seq::empty()
    } else {
        row_entries(t, lr1, raws, row, n - 1) + decision_entries(
            t.grammar,
            t.grammar.basis.rule,
            t.kernels@,
            raws,
            items(row),
            row[n - 1]@,
            looks_of(t.follow@, lr1, row[n - 1]@),
        )
    }
}

/// Folding two runs of entries one after the other is folding them joined.
pub proof fn lemma_fold_append(m: Map<usize, ActionView>, a: Seq<(usize, ActionView)>, b: Seq<(usize, ActionView)>)
    ensures
        fold_entries(fold_entries(m, a), b) == fold_entries(m, a + b),
    decreases b.len(),
{
    if b.len() == 0 {
        assert(a + b =~= a);
    } else {
        lemma_fold_append(m, a, b.drop_last());
        assert((a + b).drop_last() =~= a + b.drop_last());
        assert((a + b).last() == b.last());
    }
}

/// The actions of a row are all its items' entries folded from an empty row.
pub proof fn lemma_row_actions_fold(t: Tabler, lr1: bool, raws: Option<Seq<(State, State)>>, row: Seq<Position>, n: int)
    ensures
        row_actions(t, lr1, raws, row, n) == fold_entries(Map::empty(), row_entries(t, lr1, raws, row, n)),
    decreases n,
{
    if n > 0 {
        lemma_row_actions_fold(t, lr1, raws, row, n - 1);
        lemma_fold_append(
            Map::empty(),
            row_entries(t, lr1, raws, row, n - 1),
            decision_entries(
                t.grammar,
                t.grammar.basis.rule,
                t.kernels@,
                raws,
                items(row),
                row[n - 1]@,
                looks_of(t.follow@, lr1, row[n - 1]@),
            ),
        );
    }
}

/// In a built table, the action of state `i` on symbol `x` is the one action that all
/// the entries of its items for `x` agree on, and a conflict where two of them differ;
/// a symbol that no entry names has no action.
pub proof fn law_actions_agree_or_conflict(t: Tabler, lr1: bool, raws: Option<Seq<(State, State)>>, i: int, x: usize)
    requires
        actions_match(t, lr1, raws),
        0 <= i < t.states@.len(),
    ensures
        ({
            let e = row_entries(t, lr1, raws, t.states@[i]@, t.states@[i]@.len() as int);
            let r = rmap(t.actions@[i]@);
            &&& r.contains_key(x) == exists|k: int| 0 <= k < e.len() && #[trigger] e[k].0 == x
            &&& forall|a: ActionView| #[trigger] all_agree(Map::empty(), e, x, a) && r.contains_key(x) ==> r[x] == a
            &&& disagree(Map::empty(), e, x) ==> r.contains_key(x) && r[x] is Conflict
        }),
{
    let row = t.states@[i]@;
    let e = row_entries(t, lr1, raws, row, row.len() as int);
    lemma_row_actions_fold(t, lr1, raws, row, row.len() as int);
    if exists|k: int| 0 <= k < e.len() && #[trigger] e[k].0 == x {
        let k = choose|k: int| 0 <= k < e.len() && #[trigger] e[k].0 == x;
        if !disagree(Map::empty(), e, x) {
            assert(all_agree(Map::empty(), e, x, e[k].1));
            lemma_fold_agree(Map::empty(), e, x, e[k].1);
        }
    } else {
        lemma_fold_agree(Map::empty(), e, x, ActionView::Acc);
    }
    assert forall|a: ActionView| #[trigger] all_agree(Map::empty(), e, x, a) && rmap(t.actions@[i]@).contains_key(x)
        implies rmap(t.actions@[i]@)[x] == a by {
        lemma_fold_agree(Map::empty(), e, x, a);
    }
    if disagree(Map::empty(), e, x) {
        lemma_fold_disagree(Map::empty(), e, x);
    }
}

/// Matching actions have rows with increasing symbols.
pub proof fn lemma_actions_rows_wf(t: Tabler, lr1: bool, raws: Option<Seq<(State, State)>>)
    requires
        actions_match(t, lr1, raws),
    ensures
        crate::dfa::rows_wf(t.actions@),
{
}

/// Row actions read only the grammar, the kernels and FOLLOW of a table.
pub proof fn lemma_row_actions_same(
    t1: Tabler,
    t2: Tabler,
    lr1: bool,
    raws: Option<Seq<(State, State)>>,
    row: Seq<Position>,
    n: int,
)
    requires
        t1.grammar == t2.grammar,
        t1.kernels@ == t2.kernels@,
        t1.follow@ == t2.follow@,
    ensures
        row_actions(t1, lr1, raws, row, n) == row_actions(t2, lr1, raws, row, n),
    decreases n,
{
    if n > 0 {
        lemma_row_actions_same(t1, t2, lr1, raws, row, n - 1);
    }
}

/// A symbol of a production of the grammar is one of its symbols.
pub proof fn lemma_item_syms(g: Grammar, v: PositionView, q: int)
    requires
        g.wf(),
        item_ok(g, v),
        0 <= q < v.body.len(),
    ensures
        g.symbols@.contains(v.body[q]),
{
    let j = choose|j: int| 0 <= j < g.rule(v.rule).prods@.len() && #[trigger] body_of(g.rule(v.rule), j) == v.body;
    let i = rule_index(g.rules@, v.rule);
    let x = v.body[q];
    assert(body_of(g.rules@[i], j).contains(x)) by {
        assert(body_of(g.rules@[i], j)[q] == x);
    }
    assert(occurs_in(g.rules@[i], x));
    assert(occurs(g.rules@, x));
    if !has_rule(g.rules@, x) {
        assert(g.terminals@.contains(x));
    }
}

/// The FOLLOW edges of one production give an entry to each non-terminal that stands
/// before another symbol in it, or last when it is not the production's own rule; and
/// keep the entries already there.
proof fn lemma_body_keys(
    g: Grammar,
    f: Map<usize, Set<usize>>,
    m: Map<usize, Set<usize>>,
    name: usize,
    b: Seq<usize>,
)
    ensures
        m.dom().subset_of(add_body_map(g, f, m, name, b).dom()),
        forall|q: int|
            0 <= q < b.len() && g.nonterminal(#[trigger] b[q]) && (q + 1 < b.len() || name != b[q])
                ==> add_body_map(g, f, m, name, b).contains_key(b[q]),
{
    assert forall|q: int|
        0 <= q < b.len() && g.nonterminal(#[trigger] b[q]) && (q + 1 < b.len() || name != b[q])
        implies add_body_map(g, f, m, name, b).contains_key(b[q]) by {
        if q + 1 < b.len() {
            assert(inner_key(g, b, b[q], b.len() as int));
        } else {
            assert(last_key(g, name, b, b[q]));
        }
    }
}

/// As [`lemma_body_keys`], for the first `j` productions of a rule.
proof fn lemma_prods_keys(g: Grammar, f: Map<usize, Set<usize>>, m: Map<usize, Set<usize>>, r: Rule, j: int)
    ensures
        m.dom().subset_of(add_prods_map(g, f, m, r, j).dom()),
        forall|j2: int, q: int|
            0 <= j2 < j && j2 < r.prods@.len() && 0 <= q < body_of(r, j2).len() && g.nonterminal(
                #[trigger] body_of(r, j2)[q],
            ) && (q + 1 < body_of(r, j2).len() || r.name != body_of(r, j2)[q])
                ==> add_prods_map(g, f, m, r, j).contains_key(body_of(r, j2)[q]),
    decreases j,
{
    if j > 0 {
        let prev = add_prods_map(g, f, m, r, j - 1);
        lemma_prods_keys(g, f, m, r, j - 1);
        lemma_body_keys(g, f, prev, r.name, body_of(r, j - 1));
        assert forall|j2: int, q: int|
            0 <= j2 < j && j2 < r.prods@.len() && 0 <= q < body_of(r, j2).len() && g.nonterminal(
                #[trigger] body_of(r, j2)[q],
            ) && (q + 1 < body_of(r, j2).len() || r.name != body_of(r, j2)[q])
            implies add_prods_map(g, f, m, r, j).contains_key(body_of(r, j2)[q]) by {
            if j2 < j - 1 {
                assert(prev.contains_key(body_of(r, j2)[q]));
            }
        }
    }
}

/// As [`lemma_body_keys`], for the first `i` rules; the start symbol has an entry.
proof fn lemma_rules_keys(g: Grammar, f: Map<usize, Set<usize>>, i: int)
    requires
        0 <= i <= g.rules@.len(),
    ensures
        add_rules_map(g, f, i).contains_key(g.basis.rule),
        forall|i2: int, j2: int, q: int|
            0 <= i2 < i && 0 <= j2 < g.rules@[i2].prods@.len() && 0 <= q < body_of(g.rules@[i2], j2).len()
                && g.nonterminal(#[trigger] body_of(g.rules@[i2], j2)[q]) && (q + 1 < body_of(
                g.rules@[i2],
                j2,
            ).len() || g.rules@[i2].name != body_of(g.rules@[i2], j2)[q])
                ==> add_rules_map(g, f, i).contains_key(body_of(g.rules@[i2], j2)[q]),
    decreases i,
{
    if i > 0 {
        let r = g.rules@[i - 1];
        let prev = add_rules_map(g, f, i - 1);
        lemma_rules_keys(g, f, i - 1);
        lemma_prods_keys(g, f, prev, r, r.prods@.len() as int);
        assert forall|i2: int, j2: int, q: int|
            0 <= i2 < i && 0 <= j2 < g.rules@[i2].prods@.len() && 0 <= q < body_of(g.rules@[i2], j2).len()
                && g.nonterminal(#[trigger] body_of(g.rules@[i2], j2)[q]) && (q + 1 < body_of(
                g.rules@[i2],
                j2,
            ).len() || g.rules@[i2].name != body_of(g.rules@[i2], j2)[q])
            implies add_rules_map(g, f, i).contains_key(body_of(g.rules@[i2], j2)[q]) by {
            if i2 < i - 1 {
                assert(prev.contains_key(body_of(g.rules@[i2], j2)[q]));
            }
        }
    }
}

/// The rule of a grammar item has a FOLLOW entry.
pub proof fn lemma_item_followed(t: Tabler, v: PositionView)
    requires
        t.grammar.wf(),
        t.follow_ok(),
        item_ok(t.grammar, v),
    ensures
        has_key(t.follow@, v.rule),
{
    let g = t.grammar;
    let f = tview(t.first@);
    lemma_rules_keys(g, f, g.rules@.len() as int);
    if v.rule != g.basis.rule {
        let (i, j, q) = choose|i: int, j: int, q: int|
            0 <= i < g.rules@.len() && 0 <= j < g.rules@[i].prods@.len() && 0 <= q < body_of(
                g.rules@[i],
                j,
            ).len() && #[trigger] body_of(g.rules@[i], j)[q] == v.rule && (q + 1 < body_of(g.rules@[i], j).len()
                || g.rules@[i].name != v.rule);
        assert(follow_graph(g, f).contains_key(body_of(g.rules@[i], j)[q]));
    }
    assert(follow_graph(g, f).contains_key(v.rule));
    assert(saturated(g, follow_graph(g, f)).contains_key(v.rule));
    assert(tview(t.follow@).contains_key(v.rule));
}

/// In a complete automaton every item with a symbol after the point moves to a known
/// kernel.
pub proof fn lemma_decision_ready(
    g: Grammar,
    f: Map<usize, Set<usize>>,
    lr1: bool,
    states: Seq<State>,
    kernels: Seq<(State, usize)>,
    i: int,
    v: PositionView,
    top: usize,
)
    requires
        g.wf(),
        automaton(g, f, lr1, states, kernels),
        0 <= i < states.len(),
        items(states[i]@).contains(v),
        peek_spec(v, 0) == Some(top),
    ensures
        has_kernel(kernels, goto_set(items(states[i]@), top)),
{
    let par = choose|par: Seq<(int, int)>|
        #[trigger] derived_ok(g, f, lr1, states, kernels, par) && complete_before(
            g,
            states,
            kernels,
            par,
            (states.len() as int, 0),
        );
    assert(set_ok(g, items(states[i]@)));
    lemma_item_syms(g, v, v.point as int);
    let k = choose|k: int| 0 <= k < g.symbols@.len() && g.symbols@[k] == top;
    assert(lex_lt((i, k), (states.len() as int, 0)));
    assert(goto_set(items(states[i]@), g.symbols@[k]) == goto_set(items(states[i]@), top));
}

/// Every move from every item of every state reaches a known state.
pub open spec fn ready_all(
    states: Seq<State>,
    kernels: Seq<(State, usize)>,
    raws: Option<Seq<(State, State)>>,
) -> bool {
    forall|i: int, v: PositionView|
        0 <= i < states.len() && #[trigger] items(states[i]@).contains(v) && peek_spec(v, 0) is Some
            ==> target_ready(kernels, raws, goto_set(items(states[i]@), peek_spec(v, 0)->0))
}

/// A complete automaton is ready for its decisions.
pub proof fn lemma_automaton_ready(
    g: Grammar,
    f: Map<usize, Set<usize>>,
    lr1: bool,
    states: Seq<State>,
    kernels: Seq<(State, usize)>,
)
    requires
        g.wf(),
        automaton(g, f, lr1, states, kernels),
    ensures
        ready_all(states, kernels, None),
        states_ok(g, states),
        kernels_wf(kernels),
{
    assert forall|i: int, v: PositionView|
        0 <= i < states.len() && #[trigger] items(states[i]@).contains(v) && peek_spec(v, 0) is Some
        implies target_ready(kernels, None, goto_set(items(states[i]@), peek_spec(v, 0)->0)) by {
        lemma_decision_ready(g, f, lr1, states, kernels, i, v, peek_spec(v, 0)->0);
    }
}

/// Appends to the action table one row per state: the actions of its items, in order,
/// each folded in as [`combine`] says.
pub fn build_actions(t: &mut Tabler, lr1: bool, raws: Option<&Vec<(State, State)>>)
    requires
        old(t).grammar.wf(),
        states_ok(old(t).grammar, old(t).states@),
        kernels_wf(old(t).kernels@),
        raws_wf(raws_view(raws)),
        ready_all(old(t).states@, old(t).kernels@, raws_view(raws)),
        !lr1 ==> old(t).follow_ok(),
    ensures
        final(t).grammar == old(t).grammar,
        final(t).first == old(t).first,
        final(t).follow == old(t).follow,
        final(t).states == old(t).states,
        final(t).kernels == old(t).kernels,
        final(t).actions@.len() == old(t).actions@.len() + old(t).states@.len(),
        forall|i: int| 0 <= i < old(t).actions@.len() ==> #[trigger] final(t).actions@[i] == old(t).actions@[i],
        forall|i: int|
            0 <= i < old(t).states@.len() ==> row_wf(#[trigger] final(t).actions@[old(t).actions@.len() + i]@)
                && rmap(final(t).actions@[old(t).actions@.len() + i]@) == row_actions(
                *old(t),
                lr1,
                raws_view(raws),
                old(t).states@[i]@,
                old(t).states@[i]@.len() as int,
            ),
{
    let ghost t0 = *t;
    let ghost g = t.grammar;
    let ghost f = tview(t.first@);
    let ghost a0 = t.actions@;
    let start = t.basis_pos().rule;
    let mut i: usize = 0;
    while i < t.states.len()
        invariant
            t.grammar == t0.grammar,
            t.first == t0.first,
            t.follow == t0.follow,
            t.states == t0.states,
            t.kernels == t0.kernels,
            g == t0.grammar,
            f == tview(t0.first@),
            a0 == t0.actions@,
            start == g.basis.rule,
            g.wf(),
            states_ok(g, t0.states@),
            kernels_wf(t0.kernels@),
            raws_wf(raws_view(raws)),
            ready_all(t0.states@, t0.kernels@, raws_view(raws)),
            !lr1 ==> t0.follow_ok(),
            i <= t.states@.len(),
            t.actions@.len() == a0.len() + i,
            forall|k: int| 0 <= k < a0.len() ==> #[trigger] t.actions@[k] == a0[k],
            forall|k: int|
                0 <= k < i ==> row_wf(#[trigger] t.actions@[a0.len() + k]@) && rmap(
                    t.actions@[a0.len() + k]@,
                ) == row_actions(t0, lr1, raws_view(raws), t0.states@[k]@, t0.states@[k]@.len() as int),
        decreases t.states@.len() - i,
    {
        let mut map: Row = Vec::new();
        let mut q: usize = 0;
        assert(rmap(map@) =~= Map::<usize, ActionView>::empty());
        while q < t.states[i].len()
            invariant
                t.grammar == t0.grammar,
                t.first == t0.first,
                t.follow == t0.follow,
                t.states == t0.states,
                t.kernels == t0.kernels,
                g == t0.grammar,
                f == tview(t0.first@),
                start == g.basis.rule,
                g.wf(),
                states_ok(g, t0.states@),
                kernels_wf(t0.kernels@),
                raws_wf(raws_view(raws)),
                ready_all(t0.states@, t0.kernels@, raws_view(raws)),
                !lr1 ==> t0.follow_ok(),
                i < t.states@.len(),
                q <= t.states@[i as int]@.len(),
                row_wf(map@),
                rmap(map@) == row_actions(t0, lr1, raws_view(raws), t0.states@[i as int]@, q as int),
            decreases t.states@[i as int]@.len() - q,
        {
            let ghost row = t0.states@[i as int]@;
            let ghost v = row[q as int]@;
            proof {
                assert(views(row)[q as int] == v);
                assert(items(row).contains(v));
                assert(set_ok(g, items(t0.states@[i as int]@)));
                assert(item_ok(g, v));
            }
            let looks: Vec<usize> = if lr1 {
                copy_syms(&t.states[i][q].look)
            } else if t.states[i][q].finished() {
                proof {
                    lemma_item_followed(t0, v);
                }
                match table_find(&t.follow, t.states[i][q].rule) {
                    Some(fi) => copy_syms(&t.follow[fi].1),
                    None => Vec::new(),
                }
            } else {
                Vec::new()
            };
            proof {
                if peek_spec(v, 0) is None {
                    assert(looks@ == looks_of(t0.follow@, lr1, v));
                }
                assert forall|top: usize| peek_spec(v, 0) == Some(top) implies target_ready(
                    t.kernels@,
                    raws_view(raws),
                    goto_set(items(row), top),
                ) by {
                    assert(items(t0.states@[i as int]@).contains(v));
                }
            }
            let entries = decision_row(&*t, start, &t.states[i][q], &t.states[i], &looks, raws);
            let ghost de = rview(entries);
            let ghost acc0 = row_actions(t0, lr1, raws_view(raws), row, q as int);
            proof {
                assert(de == decision_entries(g, start, t0.kernels@, raws_view(raws), items(row), v, looks_of(t0.follow@, lr1, v)));
            }
            let mut e: usize = 0;
            assert(de.subrange(0, 0) =~= Seq::<(usize, ActionView)>::empty());
            while e < entries.len()
                invariant
                    e <= entries@.len(),
                    de == rview(entries),
                    row_wf(map@),
                    rmap(map@) == fold_entries(acc0, de.subrange(0, e as int)),
                decreases entries@.len() - e,
            {
                let ghost before = rmap(map@);
                let sym = entries[e].0;
                let act = entries[e].1.copy();
                row_combine(&mut map, sym, act);
                proof {
                    assert(de[e as int] == (sym, act@));
                    assert(de.subrange(0, e + 1).drop_last() =~= de.subrange(0, e as int));
                }
                e = e + 1;
            }
            proof {
                assert(de.subrange(0, de.len() as int) =~= de);
            }
            q = q + 1;
        }
        t.actions.push(map);
        proof {
            assert forall|k: int| 0 <= k < a0.len() implies #[trigger] t.actions@[k] == a0[k] by {}
        }
        i = i + 1;
    }
}

/// Every entry that an item of a state gives is among the entries of the state.
proof fn lemma_entry_listed(
    t: Tabler,
    lr1: bool,
    raws: Option<Seq<(State, State)>>,
    row: Seq<Position>,
    n: int,
    j: int,
    en: (usize, ActionView),
)
    requires
        0 <= j < n <= row.len(),
        decision_entries(
            t.grammar,
            t.grammar.basis.rule,
            t.kernels@,
            raws,
            items(row),
            row[j]@,
            looks_of(t.follow@, lr1, row[j]@),
        ).contains(en),
    ensures
        exists|k: int| 0 <= k < row_entries(t, lr1, raws, row, n).len() && #[trigger] row_entries(t, lr1, raws, row, n)[k] == en,
    decreases n,
{
    let pre = row_entries(t, lr1, raws, row, n - 1);
    let de = decision_entries(
        t.grammar,
        t.grammar.basis.rule,
        t.kernels@,
        raws,
        items(row),
        row[n - 1]@,
        looks_of(t.follow@, lr1, row[n - 1]@),
    );
    let e = row_entries(t, lr1, raws, row, n);
    assert(e == pre + de);
    if j < n - 1 {
        lemma_entry_listed(t, lr1, raws, row, n - 1, j, en);
        let k = choose|k: int| 0 <= k < pre.len() && #[trigger] pre[k] == en;
        assert(e[k] == en);
    } else {
        let m = choose|m: int| 0 <= m < de.len() && de[m] == en;
        assert(e[pre.len() + m] == en);
    }
}

/// An entry `(x, a)` of a state of a built table makes the row act on `x`: by `a`, or by
/// a conflict where the state's entries for `x` differ.
proof fn lemma_entry_acts(t: Tabler, lr1: bool, raws: Option<Seq<(State, State)>>, i: int, j: int, en: (usize, ActionView))
    requires
        actions_match(t, lr1, raws),
        0 <= i < t.states@.len(),
        0 <= j < t.states@[i]@.len(),
        decision_entries(
            t.grammar,
            t.grammar.basis.rule,
            t.kernels@,
            raws,
            items(t.states@[i]@),
            t.states@[i]@[j]@,
            looks_of(t.follow@, lr1, t.states@[i]@[j]@),
        ).contains(en),
    ensures
        rmap(t.actions@[i]@).contains_key(en.0),
        rmap(t.actions@[i]@)[en.0] == en.1 || rmap(t.actions@[i]@)[en.0] is Conflict,
{
    let row = t.states@[i]@;
    let e = row_entries(t, lr1, raws, row, row.len() as int);
    lemma_entry_listed(t, lr1, raws, row, row.len() as int, j, en);
    let k = choose|k: int| 0 <= k < e.len() && #[trigger] e[k] == en;
    assert(e[k].0 == en.0);
    law_actions_agree_or_conflict(t, lr1, raws, i, en.0);
    if !disagree(Map::empty(), e, en.0) {
        assert forall|m: int| 0 <= m < e.len() && #[trigger] e[m].0 == en.0 implies e[m].1 == en.1 by {
            if e[m].1 != en.1 {
                assert(e[k].0 == en.0 && e[m].0 == en.0 && e[k].1 != e[m].1);
            }
        }
        assert(all_agree(Map::empty(), e, en.0, en.1));
    }
}

/// A finished item of a state makes the row act on each of its lookahead symbols (its
/// own lookaheads in an LR(1) table, the FOLLOW set of its rule in an SLR(1) one): by
/// reducing its production (accepting, for the start rule), or by a conflict.
pub proof fn law_finished_item_acts(t: Tabler, lr1: bool, raws: Option<Seq<(State, State)>>, i: int, j: int, x: usize)
    requires
        actions_match(t, lr1, raws),
        0 <= i < t.states@.len(),
        0 <= j < t.states@[i]@.len(),
        peek_spec(t.states@[i]@[j]@, 0) is None,
        looks_of(t.follow@, lr1, t.states@[i]@[j]@).contains(x),
    ensures
        rmap(t.actions@[i]@).contains_key(x),
        rmap(t.actions@[i]@)[x] == reduce_action(t.grammar.basis.rule, t.states@[i]@[j]@) || rmap(t.actions@[i]@)[x] is Conflict,
{
    let v = t.states@[i]@[j]@;
    let looks = looks_of(t.follow@, lr1, v);
    let en = (x, reduce_action(t.grammar.basis.rule, v));
    let de = looks.map_values(|l: usize| (l, reduce_action(t.grammar.basis.rule, v)));
    let m = choose|m: int| 0 <= m < looks.len() && looks[m] == x;
    assert(de[m] == en);
    lemma_entry_acts(t, lr1, raws, i, j, en);
}

/// In an SLR(1) table, a finished item makes the row act on every symbol of the FOLLOW
/// set of its rule: by reducing its production (accepting, for the start rule), or by a
/// conflict.
pub proof fn law_slr_reduces_on_follow(t: Tabler, i: int, j: int, x: usize)
    requires
        actions_match(t, false, None),
        0 <= i < t.states@.len(),
        0 <= j < t.states@[i]@.len(),
        peek_spec(t.states@[i]@[j]@, 0) is None,
        tview(t.follow@).contains_key(t.states@[i]@[j]@.rule),
        tview(t.follow@)[t.states@[i]@[j]@.rule].contains(x),
    ensures
        rmap(t.actions@[i]@).contains_key(x),
        rmap(t.actions@[i]@)[x] == reduce_action(t.grammar.basis.rule, t.states@[i]@[j]@) || rmap(t.actions@[i]@)[x] is Conflict,
{
    let v = t.states@[i]@[j]@;
    let fs = t.follow@[key_index(t.follow@, v.rule)].1@;
    assert(fs.to_set().contains(x));
    assert(looks_of(t.follow@, false, v) == fs);
    law_finished_item_acts(t, false, None, i, j, x);
}

/// An item of a state with a symbol after its point makes the row act on that symbol: by
/// moving to the state its kernel reaches (a shift for a terminal, a goto for a
/// non-terminal), or by a conflict.
pub proof fn law_moving_item_acts(t: Tabler, lr1: bool, raws: Option<Seq<(State, State)>>, i: int, j: int, top: usize)
    requires
        actions_match(t, lr1, raws),
        0 <= i < t.states@.len(),
        0 <= j < t.states@[i]@.len(),
        peek_spec(t.states@[i]@[j]@, 0) == Some(top),
    ensures
        rmap(t.actions@[i]@).contains_key(top),
        rmap(t.actions@[i]@)[top] == move_action(t.grammar, t.kernels@, raws, items(t.states@[i]@), top) || rmap(
            t.actions@[i]@,
        )[top] is Conflict,
{
    let en = (top, move_action(t.grammar, t.kernels@, raws, items(t.states@[i]@), top));
    let de = seq![en];
    assert(de[0] == en);
    lemma_entry_acts(t, lr1, raws, i, j, en);
}

/// Every entry of the state comes from one of its items.
proof fn lemma_entry_source(t: Tabler, lr1: bool, raws: Option<Seq<(State, State)>>, row: Seq<Position>, n: int, k: int)
    requires
        0 <= n <= row.len(),
        0 <= k < row_entries(t, lr1, raws, row, n).len(),
    ensures
        exists|j: int|
            0 <= j < n && #[trigger] decision_entries(
                t.grammar,
                t.grammar.basis.rule,
                t.kernels@,
                raws,
                items(row),
                row[j]@,
                looks_of(t.follow@, lr1, row[j]@),
            ).contains(row_entries(t, lr1, raws, row, n)[k]),
    decreases n,
{
    let pre = row_entries(t, lr1, raws, row, n - 1);
    let de = decision_entries(
        t.grammar,
        t.grammar.basis.rule,
        t.kernels@,
        raws,
        items(row),
        row[n - 1]@,
        looks_of(t.follow@, lr1, row[n - 1]@),
    );
    let e = row_entries(t, lr1, raws, row, n);
    assert(e == pre + de);
    if k < pre.len() {
        lemma_entry_source(t, lr1, raws, row, n - 1, k);
        assert(e[k] == pre[k]);
    } else {
        assert(e[k] == de[k - pre.len()]);
        assert(de.contains(e[k]));
    }
}

/// A row of a built table acts only where one of its state's items calls for it: on a
/// lookahead symbol of a finished item, or on the symbol after an item's point.
pub proof fn law_row_acts_only(t: Tabler, lr1: bool, raws: Option<Seq<(State, State)>>, i: int, x: usize)
    requires
        actions_match(t, lr1, raws),
        0 <= i < t.states@.len(),
        rmap(t.actions@[i]@).contains_key(x),
    ensures
        exists|j: int|
            0 <= j < t.states@[i]@.len() && ((peek_spec(#[trigger] t.states@[i]@[j]@, 0) is None && looks_of(
                t.follow@,
                lr1,
                t.states@[i]@[j]@,
            ).contains(x)) || peek_spec(t.states@[i]@[j]@, 0) == Some(x)),
{
    let row = t.states@[i]@;
    let e = row_entries(t, lr1, raws, row, row.len() as int);
    law_actions_agree_or_conflict(t, lr1, raws, i, x);
    let k = choose|k: int| 0 <= k < e.len() && #[trigger] e[k].0 == x;
    lemma_entry_source(t, lr1, raws, row, row.len() as int, k);
    let j = choose|j: int|
        0 <= j < row.len() && #[trigger] decision_entries(
            t.grammar,
            t.grammar.basis.rule,
            t.kernels@,
            raws,
            items(row),
            row[j]@,
            looks_of(t.follow@, lr1, row[j]@),
        ).contains(e[k]);
    let v = row[j]@;
    let looks = looks_of(t.follow@, lr1, v);
    let de = decision_entries(t.grammar, t.grammar.basis.rule, t.kernels@, raws, items(row), v, looks);
    let m = choose|m: int| 0 <= m < de.len() && de[m] == e[k];
    match peek_spec(v, 0) {
        None => {
            assert(de[m].0 == looks[m]);
            assert(looks.contains(x));
        },
        Some(top) => {
            assert(de[m].0 == top);
        },
    }
}

} // verus!
