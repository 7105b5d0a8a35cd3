//! The canonical LR(1) and the LALR(1) parser are at least as strong as the SLR(1)
//! parser: where the SLR(1) table of a grammar has no conflict, neither has theirs.
use vstd::prelude::*;

use crate::action::{ActionView, Row, is_conflict, row_get, row_has, row_wf};
use crate::clr::{Clr, clr_built};
use crate::cores::{law_clr_cores_are_lr0_states, law_lalr_cores_are_lr0_states};
use crate::decide::{actions_match, combine, decision_entries, fold_entries, lemma_row_get, looks_of, move_action,
    reduce_action, rmap, row_actions};
use crate::lalr::{Lalr, lalr_built};
use crate::looks::{law_clr_looks_followed, law_lalr_looks_followed};
use crate::slr::{Slr, slr_built};
use crate::tabler::{row_conflicts, table_conflicts};
use crate::decide::lemma_item_followed;
use crate::looks::{look_followed, set_followed};
use crate::lr::{core_set, items, set_ok, strip};
use crate::pos::{Position, PositionView, peek_spec, views};
use crate::table::{key_index, tview};
use crate::state::State;
use crate::tabler::Tabler;

verus! {

/// Two entries of `e` on symbol `x` have different actions.
pub open spec fn clash(e: Seq<(usize, ActionView)>, x: usize) -> bool {
    exists|i: int, j: int|
        0 <= i < e.len() && 0 <= j < e.len() && #[trigger] e[i].0 == x && #[trigger] e[j].0 == x && e[i].1
            != e[j].1
}

/// No entry of `e` is a conflict.
pub open spec fn plain(e: Seq<(usize, ActionView)>) -> bool {
    forall|i: int| 0 <= i < e.len() ==> !(#[trigger] e[i].1 is Conflict)
}

/// Folding plain entries from nothing gives a map with an entry for each symbol of them:
/// a conflict where two of them differ, and their common action otherwise.
proof fn lemma_fold_shape(e: Seq<(usize, ActionView)>)
    requires
        plain(e),
    ensures
        forall|x: usize|
            fold_entries(Map::empty(), e).contains_key(x) <==> exists|i: int| 0 <= i < e.len() && #[trigger] e[i].0 == x,
        forall|x: usize|
            #[trigger] fold_entries(Map::empty(), e).contains_key(x) ==> (fold_entries(Map::empty(), e)[x] is Conflict
                <==> clash(e, x)),
        forall|i: int|
            #![trigger e[i]]
            0 <= i < e.len() && !clash(e, e[i].0) ==> fold_entries(Map::empty(), e)[e[i].0] == e[i].1,
    decreases e.len(),
{
    if e.len() > 0 {
        let e0 = e.drop_last();
        let last = e[e.len() - 1];
        assert forall|i: int| 0 <= i < e0.len() implies !(#[trigger] e0[i].1 is Conflict) by {
            assert(e0[i] == e[i]);
        }
        lemma_fold_shape(e0);
        let m0 = fold_entries(Map::<usize, ActionView>::empty(), e0);
        let m = fold_entries(Map::<usize, ActionView>::empty(), e);
        assert(m == combine(m0, last.0, last.1));
        assert(!(last.1 is Conflict));
        assert forall|x: usize| m.contains_key(x) <==> exists|i: int| 0 <= i < e.len() && #[trigger] e[i].0 == x by {
            if m.contains_key(x) && x != last.0 {
                let i = choose|i: int| 0 <= i < e0.len() && #[trigger] e0[i].0 == x;
                assert(e[i] == e0[i]);
            }
            if exists|i: int| 0 <= i < e.len() && #[trigger] e[i].0 == x {
                let i = choose|i: int| 0 <= i < e.len() && #[trigger] e[i].0 == x;
                if i < e.len() - 1 {
                    assert(e0[i] == e[i]);
                }
            }
        }
        assert forall|x: usize| x != last.0 implies clash(e, x) == clash(e0, x) by {
            if clash(e, x) {
                let (i, j) = choose|i: int, j: int|
                    0 <= i < e.len() && 0 <= j < e.len() && #[trigger] e[i].0 == x && #[trigger] e[j].0 == x && e[i].1
                        != e[j].1;
                assert(e0[i] == e[i] && e0[j] == e[j]);
            }
            if clash(e0, x) {
                let (i, j) = choose|i: int, j: int|
                    0 <= i < e0.len() && 0 <= j < e0.len() && #[trigger] e0[i].0 == x && #[trigger] e0[j].0 == x && e0[i].1
                        != e0[j].1;
                assert(e0[i] == e[i] && e0[j] == e[j]);
            }
        }
        let x = last.0;
        let n = e.len() - 1;
        assert(e[n].0 == x);
        if m0.contains_key(x) {
            let k = choose|i: int| 0 <= i < e0.len() && #[trigger] e0[i].0 == x;
            assert(e[k] == e0[k]);
            if clash(e0, x) {
                let (i, j) = choose|i: int, j: int|
                    0 <= i < e0.len() && 0 <= j < e0.len() && #[trigger] e0[i].0 == x && #[trigger] e0[j].0 == x && e0[i].1
                        != e0[j].1;
                assert(e0[i] == e[i] && e0[j] == e[j]);
                assert(clash(e, x));
            } else {
                assert(m0[x] == e0[k].1);
                if m0[x] != last.1 {
                    assert(clash(e, x));
                } else {
                    assert forall|i: int, j: int|
                        0 <= i < e.len() && 0 <= j < e.len() && #[trigger] e[i].0 == x && #[trigger] e[j].0 == x
                        implies e[i].1 == e[j].1 by {
                        if i < n {
                            assert(e0[i] == e[i]);
                            assert(e0[i].1 == m0[x]);
                        }
                        if j < n {
                            assert(e0[j] == e[j]);
                            assert(e0[j].1 == m0[x]);
                        }
                    }
                }
            }
            assert forall|i: int| #![trigger e[i]] 0 <= i < e.len() && e[i].0 == x && !clash(e, x) implies m[x] == e[i].1 by {
                if i < n {
                    assert(e0[i] == e[i]);
                    assert(e0[k].1 == e0[i].1) by {
                        if e0[k].1 != e0[i].1 {
                            assert(clash(e0, x));
                            assert(clash(e, x)) by {
                                assert(e[k].1 != e[i].1);
                            }
                        }
                    }
                }
            }
        } else {
            assert forall|i: int, j: int|
                0 <= i < e.len() && 0 <= j < e.len() && #[trigger] e[i].0 == x && #[trigger] e[j].0 == x implies e[i].1
                == e[j].1 by {
                if i < n {
                    assert(e0[i] == e[i]);
                }
                if j < n {
                    assert(e0[j] == e[j]);
                }
            }
        }
        assert forall|i: int| #![trigger e[i]] 0 <= i < e.len() && !clash(e, e[i].0) implies m[e[i].0] == e[i].1 by {
            if e[i].0 != x {
                assert(i < n);
                assert(e0[i] == e[i]);
            } else if !m0.contains_key(x) {
                if i < n {
                    assert(e0[i] == e[i]);
                }
            }
        }
    }
}

/// Folding `a` and then `b` is folding `a` followed by `b`.
proof fn lemma_fold_append(m: Map<usize, ActionView>, a: Seq<(usize, ActionView)>, b: Seq<(usize, ActionView)>)
    ensures
        fold_entries(fold_entries(m, a), b) == fold_entries(m, a + b),
    decreases b.len(),
{
    if b.len() == 0 {
        assert(a + b =~= a);
    } else {
        let b0 = b.drop_last();
        lemma_fold_append(m, a, b0);
        assert((a + b).drop_last() =~= a + b0);
        assert((a + b).last() == b.last());
    }
}

/// The entries of the first `n` items of state `row` of table `t`, in order.
pub open spec fn flat(t: Tabler, lr1: bool, raws: Option<Seq<(State, State)>>, row: Seq<Position>, n: int) -> Seq<
    (usize, ActionView),
>
    decreases n,
{
    if n <= 0 {
        Seq::empty()
    } else {
        flat(t, lr1, raws, row, n - 1) + decision_entries(
            t.grammar,
            t.grammar.basis.rule,
            t.kernels@,
            raws,
            items(row),
            row[n - 1]@,
            looks_of(t.follow@, lr1, row[n - 1]@),
        )
    }
}

/// The actions of a row are its flattened entries folded from nothing.
proof fn lemma_row_actions_flat(t: Tabler, lr1: bool, raws: Option<Seq<(State, State)>>, row: Seq<Position>, n: int)
    ensures
        row_actions(t, lr1, raws, row, n) == fold_entries(Map::empty(), flat(t, lr1, raws, row, n)),
    decreases n,
{
    if n > 0 {
        lemma_row_actions_flat(t, lr1, raws, row, n - 1);
        let de = decision_entries(
            t.grammar,
            t.grammar.basis.rule,
            t.kernels@,
            raws,
            items(row),
            row[n - 1]@,
            looks_of(t.follow@, lr1, row[n - 1]@),
        );
        lemma_fold_append(Map::empty(), flat(t, lr1, raws, row, n - 1), de);
    }
}

/// Where an entry of the flattened row comes from: a finished item of the row whose
/// lookaheads (under `looks_of`) hold its symbol, reducing; or an item of the row whose
/// next symbol it is, moving. No entry is a conflict.
proof fn lemma_flat_origin(t: Tabler, lr1: bool, raws: Option<Seq<(State, State)>>, row: Seq<Position>, n: int, i: int)
    requires
        0 <= n <= row.len(),
        0 <= i < flat(t, lr1, raws, row, n).len(),
    ensures
        ({
            let e = flat(t, lr1, raws, row, n)[i];
            &&& !(e.1 is Conflict)
            &&& exists|v: PositionView|
                #[trigger] items(row).contains(v) && ((peek_spec(v, 0) is None && looks_of(t.follow@, lr1, v).contains(e.0)
                    && e.1 == reduce_action(t.grammar.basis.rule, v)) || (peek_spec(v, 0) == Some(e.0) && e.1
                    == move_action(t.grammar, t.kernels@, raws, items(row), e.0)))
        }),
    decreases n,
{
    let prev = flat(t, lr1, raws, row, n - 1);
    let v = row[n - 1]@;
    let looks = looks_of(t.follow@, lr1, v);
    let de = decision_entries(t.grammar, t.grammar.basis.rule, t.kernels@, raws, items(row), v, looks);
    let fl = flat(t, lr1, raws, row, n);
    assert(fl == prev + de);
    if i < prev.len() {
        assert(fl[i] == prev[i]);
        lemma_flat_origin(t, lr1, raws, row, n - 1, i);
    } else {
        let k = i - prev.len();
        assert(fl[i] == de[k]);
        assert(views(row)[n - 1] == v);
        assert(items(row).contains(v));
        match peek_spec(v, 0) {
            None => {
                assert(de[k] == (looks[k], reduce_action(t.grammar.basis.rule, v)));
                assert(looks.contains(looks[k]));
            },
            Some(top) => {
                assert(de[k] == (top, move_action(t.grammar, t.kernels@, raws, items(row), top)));
            },
        }
    }
}

/// Every entry that an item of the row gives is in the flattened row.
proof fn lemma_flat_has(
    t: Tabler,
    lr1: bool,
    raws: Option<Seq<(State, State)>>,
    row: Seq<Position>,
    v: PositionView,
    x: usize,
    a: ActionView,
)
    requires
        items(row).contains(v),
        (peek_spec(v, 0) is None && looks_of(t.follow@, lr1, v).contains(x) && a == reduce_action(t.grammar.basis.rule, v))
            || (peek_spec(v, 0) == Some(x) && a == move_action(t.grammar, t.kernels@, raws, items(row), x)),
    ensures
        exists|i: int|
            0 <= i < flat(t, lr1, raws, row, row.len() as int).len() && #[trigger] flat(t, lr1, raws, row, row.len() as int)[i]
                == (x, a),
{
    assert(views(row).contains(v));
    let q = choose|q: int| 0 <= q < views(row).len() && views(row)[q] == v;
    assert(row[q]@ == v);
    lemma_flat_has_at(t, lr1, raws, row, row.len() as int, q, x, a);
}

/// As [`lemma_flat_has`], for item `q` among the first `n`.
proof fn lemma_flat_has_at(
    t: Tabler,
    lr1: bool,
    raws: Option<Seq<(State, State)>>,
    row: Seq<Position>,
    n: int,
    q: int,
    x: usize,
    a: ActionView,
)
    requires
        0 <= q < n <= row.len(),
        (peek_spec(row[q]@, 0) is None && looks_of(t.follow@, lr1, row[q]@).contains(x) && a == reduce_action(
            t.grammar.basis.rule,
            row[q]@,
        )) || (peek_spec(row[q]@, 0) == Some(x) && a == move_action(t.grammar, t.kernels@, raws, items(row), x)),
    ensures
        exists|i: int| 0 <= i < flat(t, lr1, raws, row, n).len() && #[trigger] flat(t, lr1, raws, row, n)[i] == (x, a),
    decreases n,
{
    let prev = flat(t, lr1, raws, row, n - 1);
    let fl = flat(t, lr1, raws, row, n);
    let v = row[n - 1]@;
    let looks = looks_of(t.follow@, lr1, v);
    let de = decision_entries(t.grammar, t.grammar.basis.rule, t.kernels@, raws, items(row), v, looks);
    assert(fl == prev + de);
    if q < n - 1 {
        lemma_flat_has_at(t, lr1, raws, row, n - 1, q, x, a);
        let i = choose|i: int| 0 <= i < prev.len() && #[trigger] prev[i] == (x, a);
        assert(fl[i] == prev[i]);
    } else {
        match peek_spec(v, 0) {
            None => {
                let k = choose|k: int| 0 <= k < looks.len() && looks[k] == x;
                assert(de[k] == (looks[k], reduce_action(t.grammar.basis.rule, v)));
                assert(fl[prev.len() + k] == de[k]);
            },
            Some(top) => {
                assert(de[0] == (top, move_action(t.grammar, t.kernels@, raws, items(row), top)));
                assert(fl[prev.len() as int] == de[0]);
            },
        }
    }
}

/// A finished item of a state with lookaheads within FOLLOW has, in the SLR(1) state of
/// the same cores, an item that reduces the same way on the same symbol.
proof fn lemma_reduce_in_slr(
    ta: Tabler,
    raws: Option<Seq<(State, State)>>,
    row_a: Seq<Position>,
    tb: Tabler,
    row_b: Seq<Position>,
    v: PositionView,
    x: usize,
)
    requires
        ta.grammar == tb.grammar,
        tb.grammar.wf(),
        tb.follow_ok(),
        core_set(items(row_a)) == core_set(items(row_b)),
        set_ok(tb.grammar, items(row_b)),
        items(row_a).contains(v),
        look_followed(tview(tb.follow@), v),
        peek_spec(v, 0) is None,
        v.look.contains(x),
    ensures
        exists|i: int|
            0 <= i < flat(tb, false, None, row_b, row_b.len() as int).len() && #[trigger] flat(
                tb,
                false,
                None,
                row_b,
                row_b.len() as int,
            )[i] == (x, reduce_action(ta.grammar.basis.rule, v)),
{
    assert(core_set(items(row_a)).contains(strip(v)));
    let u = choose|u: PositionView| items(row_b).contains(u) && strip(v) == #[trigger] strip(u);
    assert(peek_spec(u, 0) is None);
    assert(reduce_action(tb.grammar.basis.rule, u) == reduce_action(ta.grammar.basis.rule, v));
    lemma_item_followed(tb, u);
    let fo = tb.follow@;
    assert(tview(fo)[v.rule].contains(x));
    assert(fo[key_index(fo, u.rule)].1@.to_set().contains(x));
    assert(looks_of(fo, false, u).contains(x));
    lemma_flat_has(tb, false, None, row_b, u, x, reduce_action(tb.grammar.basis.rule, u));
}

/// An item of a state that moves over `x` has, in the SLR(1) state of the same cores,
/// an item that moves over `x`.
proof fn lemma_move_in_slr(
    ta: Tabler,
    row_a: Seq<Position>,
    tb: Tabler,
    row_b: Seq<Position>,
    v: PositionView,
    x: usize,
)
    requires
        core_set(items(row_a)) == core_set(items(row_b)),
        items(row_a).contains(v),
        peek_spec(v, 0) == Some(x),
    ensures
        exists|i: int|
            0 <= i < flat(tb, false, None, row_b, row_b.len() as int).len() && #[trigger] flat(
                tb,
                false,
                None,
                row_b,
                row_b.len() as int,
            )[i] == (x, move_action(tb.grammar, tb.kernels@, None, items(row_b), x)),
{
    assert(core_set(items(row_a)).contains(strip(v)));
    let u = choose|u: PositionView| items(row_b).contains(u) && strip(v) == #[trigger] strip(u);
    assert(peek_spec(u, 0) == Some(x));
    lemma_flat_has(tb, false, None, row_b, u, x, move_action(tb.grammar, tb.kernels@, None, items(row_b), x));
}

/// Two different actions on a symbol in a state with lookaheads within FOLLOW give two
/// different actions on it in the SLR(1) state of the same cores: two moves over one
/// symbol are one action, so one of them reduces, and the SLR(1) state reduces the same
/// way on every symbol of FOLLOW.
proof fn lemma_clash_in_slr(
    ta: Tabler,
    raws: Option<Seq<(State, State)>>,
    row_a: Seq<Position>,
    tb: Tabler,
    row_b: Seq<Position>,
    x: usize,
)
    requires
        ta.grammar == tb.grammar,
        tb.grammar.wf(),
        tb.follow_ok(),
        core_set(items(row_a)) == core_set(items(row_b)),
        set_ok(tb.grammar, items(row_b)),
        set_followed(tview(tb.follow@), items(row_a)),
        clash(flat(ta, true, raws, row_a, row_a.len() as int), x),
    ensures
        clash(flat(tb, false, None, row_b, row_b.len() as int), x),
{
    let fa = flat(ta, true, raws, row_a, row_a.len() as int);
    let fb = flat(tb, false, None, row_b, row_b.len() as int);
    let start = ta.grammar.basis.rule;
    let (i, j) = choose|i: int, j: int|
        0 <= i < fa.len() && 0 <= j < fa.len() && #[trigger] fa[i].0 == x && #[trigger] fa[j].0 == x && fa[i].1 != fa[j].1;
    lemma_flat_origin(ta, true, raws, row_a, row_a.len() as int, i);
    lemma_flat_origin(ta, true, raws, row_a, row_a.len() as int, j);
    let mv = move_action(ta.grammar, ta.kernels@, raws, items(row_a), x);
    let v1 = choose|v: PositionView|
        #[trigger] items(row_a).contains(v) && ((peek_spec(v, 0) is None && looks_of(ta.follow@, true, v).contains(x)
            && fa[i].1 == reduce_action(start, v)) || (peek_spec(v, 0) == Some(x) && fa[i].1 == mv));
    let v2 = choose|v: PositionView|
        #[trigger] items(row_a).contains(v) && ((peek_spec(v, 0) is None && looks_of(ta.follow@, true, v).contains(x)
            && fa[j].1 == reduce_action(start, v)) || (peek_spec(v, 0) == Some(x) && fa[j].1 == mv));
    assert(look_followed(tview(tb.follow@), v1));
    assert(look_followed(tview(tb.follow@), v2));
    let mb = move_action(tb.grammar, tb.kernels@, None, items(row_b), x);
    if peek_spec(v1, 0) is None {
        lemma_reduce_in_slr(ta, raws, row_a, tb, row_b, v1, x);
        let i1 = choose|k: int| 0 <= k < fb.len() && #[trigger] fb[k] == (x, reduce_action(start, v1));
        if peek_spec(v2, 0) is None {
            lemma_reduce_in_slr(ta, raws, row_a, tb, row_b, v2, x);
            let j1 = choose|k: int| 0 <= k < fb.len() && #[trigger] fb[k] == (x, reduce_action(start, v2));
            assert(fb[i1].0 == x && fb[j1].0 == x && fb[i1].1 != fb[j1].1);
        } else {
            lemma_move_in_slr(ta, row_a, tb, row_b, v2, x);
            let j1 = choose|k: int| 0 <= k < fb.len() && #[trigger] fb[k] == (x, mb);
            assert(fb[i1].0 == x && fb[j1].0 == x && fb[i1].1 != fb[j1].1);
        }
    } else {
        assert(peek_spec(v2, 0) is None);
        lemma_reduce_in_slr(ta, raws, row_a, tb, row_b, v2, x);
        let j1 = choose|k: int| 0 <= k < fb.len() && #[trigger] fb[k] == (x, reduce_action(start, v2));
        lemma_move_in_slr(ta, row_a, tb, row_b, v1, x);
        let i1 = choose|k: int| 0 <= k < fb.len() && #[trigger] fb[k] == (x, mb);
        assert(fb[i1].0 == x && fb[j1].0 == x && fb[i1].1 != fb[j1].1);
    }
}

/// The flattened entries of a row are plain.
proof fn lemma_flat_plain(t: Tabler, lr1: bool, raws: Option<Seq<(State, State)>>, row: Seq<Position>)
    ensures
        plain(flat(t, lr1, raws, row, row.len() as int)),
{
    let fl = flat(t, lr1, raws, row, row.len() as int);
    assert forall|i: int| 0 <= i < fl.len() implies !(#[trigger] fl[i].1 is Conflict) by {
        lemma_flat_origin(t, lr1, raws, row, row.len() as int, i);
    }
}

/// A conflict in row `i` of a table whose actions are those of its states comes from two
/// different actions of its items on the conflict's symbol.
proof fn lemma_conflict_clash(t: Tabler, lr1: bool, raws: Option<Seq<(State, State)>>, i: int, c: int)
    requires
        actions_match(t, lr1, raws),
        0 <= i < t.actions@.len(),
        0 <= c < t.actions@[i]@.len(),
        is_conflict(t.actions@[i]@[c].1@),
    ensures
        clash(flat(t, lr1, raws, t.states@[i]@, t.states@[i]@.len() as int), t.actions@[i]@[c].0),
{
    let r = t.actions@[i]@;
    let row = t.states@[i]@;
    let x = r[c].0;
    lemma_row_actions_flat(t, lr1, raws, row, row.len() as int);
    lemma_row_get(r, c);
    lemma_flat_plain(t, lr1, raws, row);
    lemma_fold_shape(flat(t, lr1, raws, row, row.len() as int));
    assert(rmap(r).contains_key(x));
}

/// Two different actions of the items of state `j` on a symbol make a conflict in row
/// `j` of a table whose actions are those of its states.
proof fn lemma_clash_conflict(t: Tabler, lr1: bool, raws: Option<Seq<(State, State)>>, j: int, x: usize)
    requires
        actions_match(t, lr1, raws),
        0 <= j < t.states@.len(),
        clash(flat(t, lr1, raws, t.states@[j]@, t.states@[j]@.len() as int), x),
    ensures
        exists|c: int| 0 <= c < t.actions@[j]@.len() && is_conflict(#[trigger] t.actions@[j]@[c].1@),
{
    let r = t.actions@[j]@;
    let row = t.states@[j]@;
    let fl = flat(t, lr1, raws, row, row.len() as int);
    lemma_row_actions_flat(t, lr1, raws, row, row.len() as int);
    lemma_flat_plain(t, lr1, raws, row);
    lemma_fold_shape(fl);
    let (a, b) = choose|a: int, b: int|
        0 <= a < fl.len() && 0 <= b < fl.len() && #[trigger] fl[a].0 == x && #[trigger] fl[b].0 == x && fl[a].1 != fl[b].1;
    assert(fold_entries(Map::empty(), fl).contains_key(x));
    assert(rmap(r).contains_key(x));
    assert(row_has(r, x));
    let c = choose|c: int| 0 <= c < r.len() && #[trigger] r[c].0 == x;
    assert(row_get(r, x) == r[c].1@);
}

/// A conflicting entry among the first `k` of a row is listed among its conflicts.
proof fn lemma_row_conflicts_found(r: Seq<(usize, crate::action::Action)>, k: int, c: int)
    requires
        0 <= c < k <= r.len(),
        is_conflict(r[c].1@),
    ensures
        row_conflicts(r, k).len() > 0,
    decreases k,
{
    if c < k - 1 {
        lemma_row_conflicts_found(r, k - 1, c);
    }
}

/// A conflicting entry of one of the first `n` rows is listed among the table's conflicts.
proof fn lemma_table_conflicts_found(t: Seq<Row>, n: int, i: int, c: int)
    requires
        0 <= i < n <= t.len(),
        0 <= c < t[i]@.len(),
        is_conflict(t[i]@[c].1@),
    ensures
        table_conflicts(t, n).len() > 0,
    decreases n,
{
    if i < n - 1 {
        lemma_table_conflicts_found(t, n - 1, i, c);
    } else {
        lemma_row_conflicts_found(t[i]@, t[i]@.len() as int, c);
    }
}

/// Every conflict listed comes from a conflicting entry of a row.
proof fn lemma_row_conflicts_from(r: Seq<(usize, crate::action::Action)>, k: int)
    requires
        0 <= k <= r.len(),
        row_conflicts(r, k).len() > 0,
    ensures
        exists|c: int| 0 <= c < k && is_conflict(#[trigger] r[c].1@),
    decreases k,
{
    if !is_conflict(r[k - 1].1@) {
        lemma_row_conflicts_from(r, k - 1);
    }
}

/// As [`lemma_row_conflicts_from`], for the first `n` rows of a table.
proof fn lemma_table_conflicts_from(t: Seq<Row>, n: int)
    requires
        0 <= n <= t.len(),
        table_conflicts(t, n).len() > 0,
    ensures
        exists|i: int, c: int| 0 <= i < n && 0 <= c < t[i]@.len() && is_conflict(#[trigger] t[i]@[c].1@),
    decreases n,
{
    if row_conflicts(t[n - 1]@, t[n - 1]@.len() as int).len() > 0 {
        lemma_row_conflicts_from(t[n - 1]@, t[n - 1]@.len() as int);
    } else {
        lemma_table_conflicts_from(t, n - 1);
    }
}

/// The canonical LR(1) parser of a grammar is at least as strong as its SLR(1) parser:
/// where the SLR(1) table has no conflict, neither has the LR(1) table.
pub proof fn law_clr_no_more_conflicts(c: Clr, q: Slr)
    requires
        clr_built(c.table),
        slr_built(q.table),
        c.table.grammar == q.table.grammar,
        !c.table.grammar.nonterminal(c.table.grammar.eof()),
    ensures
        table_conflicts(q.table.actions@, q.table.actions@.len() as int).len() == 0 ==> table_conflicts(
            c.table.actions@,
            c.table.actions@.len() as int,
        ).len() == 0,
{
    let ca = c.table.actions@;
    let qa = q.table.actions@;
    if table_conflicts(ca, ca.len() as int).len() > 0 {
        lemma_table_conflicts_from(ca, ca.len() as int);
        let (i, e) = choose|i: int, e: int| 0 <= i < ca.len() && 0 <= e < ca[i]@.len() && is_conflict(#[trigger] ca[i]@[e].1@);
        let x = ca[i]@[e].0;
        lemma_conflict_clash(c.table, true, None, i, e);
        law_clr_cores_are_lr0_states(c, q);
        assert(c.table.states@[i] == c.table.states@[i]);
        let j = choose|j: int|
            0 <= j < q.table.states@.len() && #[trigger] core_set(items(q.table.states@[j]@)) == core_set(
                items(c.table.states@[i]@),
            );
        law_clr_looks_followed(c);
        assert(tview(q.table.follow@) == tview(c.table.follow@));
        assert forall|v: PositionView| #[trigger] items(c.table.states@[i]@).contains(v) implies look_followed(
            tview(q.table.follow@),
            v,
        ) by {}
        assert(set_ok(q.table.grammar, items(q.table.states@[j]@)));
        lemma_clash_in_slr(c.table, None, c.table.states@[i]@, q.table, q.table.states@[j]@, x);
        lemma_clash_conflict(q.table, false, None, j, x);
        let k = choose|k: int| 0 <= k < qa[j]@.len() && is_conflict(#[trigger] qa[j]@[k].1@);
        lemma_table_conflicts_found(qa, qa.len() as int, j, k);
    }
}

/// The LALR(1) parser of a grammar is at least as strong as its SLR(1) parser: where the
/// SLR(1) table has no conflict, neither has the LALR(1) table.
pub proof fn law_lalr_no_more_conflicts(p: Lalr, q: Slr)
    requires
        lalr_built(p),
        slr_built(q.table),
        p.table.grammar == q.table.grammar,
        !p.table.grammar.nonterminal(p.table.grammar.eof()),
    ensures
        table_conflicts(q.table.actions@, q.table.actions@.len() as int).len() == 0 ==> table_conflicts(
            p.table.actions@,
            p.table.actions@.len() as int,
        ).len() == 0,
{
    let pa = p.table.actions@;
    let qa = q.table.actions@;
    if table_conflicts(pa, pa.len() as int).len() > 0 {
        lemma_table_conflicts_from(pa, pa.len() as int);
        let (i, e) = choose|i: int, e: int| 0 <= i < pa.len() && 0 <= e < pa[i]@.len() && is_conflict(#[trigger] pa[i]@[e].1@);
        let x = pa[i]@[e].0;
        lemma_conflict_clash(p.table, true, Some(p.raws@), i, e);
        law_lalr_cores_are_lr0_states(p, q);
        assert(p.table.states@[i] == p.table.states@[i]);
        let j = choose|j: int|
            0 <= j < q.table.states@.len() && #[trigger] core_set(items(q.table.states@[j]@)) == core_set(
                items(p.table.states@[i]@),
            );
        law_lalr_looks_followed(p);
        assert(tview(q.table.follow@) == tview(p.table.follow@));
        assert forall|v: PositionView| #[trigger] items(p.table.states@[i]@).contains(v) implies look_followed(
            tview(q.table.follow@),
            v,
        ) by {}
        assert(set_ok(q.table.grammar, items(q.table.states@[j]@)));
        lemma_clash_in_slr(p.table, Some(p.raws@), p.table.states@[i]@, q.table, q.table.states@[j]@, x);
        lemma_clash_conflict(q.table, false, None, j, x);
        let k = choose|k: int| 0 <= k < qa[j]@.len() && is_conflict(#[trigger] qa[j]@[k].1@);
        lemma_table_conflicts_found(qa, qa.len() as int, j, k);
    }
}

} // verus!
