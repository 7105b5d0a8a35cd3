//! The lookaheads of LR(1) items may follow their rules: every lookahead of an item of
//! a canonical LR(1) or LALR(1) state is in the FOLLOW set of the item's rule.
use vstd::prelude::*;

use crate::grammar::{Grammar, Rule, body_of, rule_index};
use crate::clr::{Clr, clr_built};
use crate::lr::{automaton, closes, closure_iter, closure_step, complete_before, derived_ok, goto_set, item_ok,
    items, lemma_basis_ok, lemma_goto_ok, lemma_iter_ok, set_ok, spawn_of};
use crate::lalr::{Lalr, lalr_built, merged_ok};
use crate::pos::same_core;
use crate::state::State;
use crate::table::tview;
use crate::tabler::Tabler;
use crate::pos::{PositionView, advanced, peek_spec};
use crate::reach::{derives, is_path, lemma_path_step, saturated};
use crate::table::entry_of;
use crate::tabler::{add_body_map, add_prods_map, add_rules_map, first_contrib, first_graph,
    first_of_set, follow_graph, inner_edge, last_key, next_follows};

verus! {

/// `m` has an edge from `x` to `y`.
pub open spec fn has_edge(m: Map<usize, Set<usize>>, x: usize, y: usize) -> bool {
    m.contains_key(x) && m[x].contains(y)
}

/// Every edge of `m` is an edge of `n`.
pub open spec fn edges_kept(m: Map<usize, Set<usize>>, n: Map<usize, Set<usize>>) -> bool {
    forall|x: usize, y: usize| #[trigger] has_edge(m, x, y) ==> has_edge(n, x, y)
}

/// The FOLLOW edges that production `name -> b` gives: from a non-terminal inside `b` to
/// what may come after it, and from a last non-terminal other than `name` to `name`.
pub open spec fn body_edges(g: Grammar, f: Map<usize, Set<usize>>, m: Map<usize, Set<usize>>, name: usize, b: Seq<usize>) -> bool {
    &&& forall|k: int, y: usize|
        0 <= k && k + 1 < b.len() && g.nonterminal(#[trigger] b[k]) && next_follows(g, f, b[k + 1], y)
            ==> #[trigger] has_edge(m, b[k], y)
    &&& (b.len() > 0 && g.nonterminal(b[b.len() - 1]) && b[b.len() - 1] != name) ==> has_edge(
        m,
        b[b.len() - 1],
        name,
    )
}

/// Adding the edges of one production keeps the edges there were and adds its own.
proof fn lemma_body_edges(g: Grammar, f: Map<usize, Set<usize>>, m: Map<usize, Set<usize>>, name: usize, b: Seq<usize>)
    ensures
        edges_kept(m, add_body_map(g, f, m, name, b)),
        body_edges(g, f, add_body_map(g, f, m, name, b), name, b),
{
    let n = add_body_map(g, f, m, name, b);
    assert forall|x: usize, y: usize| #[trigger] has_edge(m, x, y) implies has_edge(n, x, y) by {
        assert(entry_of(m, x).contains(y));
    }
    assert forall|k: int, y: usize|
        0 <= k && k + 1 < b.len() && g.nonterminal(#[trigger] b[k]) && next_follows(g, f, b[k + 1], y)
        implies #[trigger] has_edge(n, b[k], y) by {
        assert(inner_edge(g, f, b, b[k], y, b.len() as int));
    }
    if b.len() > 0 && g.nonterminal(b[b.len() - 1]) && b[b.len() - 1] != name {
        assert(last_key(g, name, b, b[b.len() - 1]));
    }
}

/// Edges are kept along a chain of maps.
proof fn lemma_kept_trans(a: Map<usize, Set<usize>>, b: Map<usize, Set<usize>>, c: Map<usize, Set<usize>>)
    requires
        edges_kept(a, b),
        edges_kept(b, c),
    ensures
        edges_kept(a, c),
{
    assert forall|x: usize, y: usize| #[trigger] has_edge(a, x, y) implies has_edge(c, x, y) by {
        assert(has_edge(b, x, y));
    }
}

/// The edges of one production stay when more edges are added.
proof fn lemma_body_edges_kept(
    g: Grammar,
    f: Map<usize, Set<usize>>,
    m: Map<usize, Set<usize>>,
    n: Map<usize, Set<usize>>,
    name: usize,
    b: Seq<usize>,
)
    requires
        body_edges(g, f, m, name, b),
        edges_kept(m, n),
    ensures
        body_edges(g, f, n, name, b),
{
    assert forall|k: int, y: usize|
        0 <= k && k + 1 < b.len() && g.nonterminal(#[trigger] b[k]) && next_follows(g, f, b[k + 1], y)
        implies #[trigger] has_edge(n, b[k], y) by {
        assert(has_edge(m, b[k], y));
    }
    if b.len() > 0 && g.nonterminal(b[b.len() - 1]) && b[b.len() - 1] != name {
        assert(has_edge(m, b[b.len() - 1], name));
    }
}

/// The first `j` productions of rule `r` add their edges and keep those there were.
proof fn lemma_prods_edges(g: Grammar, f: Map<usize, Set<usize>>, m: Map<usize, Set<usize>>, r: Rule, j: int)
    ensures
        edges_kept(m, add_prods_map(g, f, m, r, j)),
        forall|j2: int|
            0 <= j2 < j && j2 < r.prods@.len() ==> #[trigger] body_edges(
                g,
                f,
                add_prods_map(g, f, m, r, j),
                r.name,
                body_of(r, j2),
            ),
    decreases j,
{
    if j > 0 {
        let prev = add_prods_map(g, f, m, r, j - 1);
        let cur = add_prods_map(g, f, m, r, j);
        lemma_prods_edges(g, f, m, r, j - 1);
        lemma_body_edges(g, f, prev, r.name, body_of(r, j - 1));
        lemma_kept_trans(m, prev, cur);
        assert forall|j2: int| 0 <= j2 < j && j2 < r.prods@.len() implies #[trigger] body_edges(
            g,
            f,
            cur,
            r.name,
            body_of(r, j2),
        ) by {
            if j2 < j - 1 {
                lemma_body_edges_kept(g, f, prev, cur, r.name, body_of(r, j2));
            }
        }
    } else {
        assert(edges_kept(m, add_prods_map(g, f, m, r, j)));
    }
}

/// The first `i` rules add the edges of all their productions, and the start symbol has
/// an edge to the end symbol.
proof fn lemma_rules_edges(g: Grammar, f: Map<usize, Set<usize>>, i: int)
    requires
        0 <= i <= g.rules@.len(),
    ensures
        has_edge(add_rules_map(g, f, i), g.basis.rule, g.eof()),
        forall|i2: int, j2: int|
            0 <= i2 < i && 0 <= j2 < g.rules@[i2].prods@.len() ==> #[trigger] body_edges(
                g,
                f,
                add_rules_map(g, f, i),
                g.rules@[i2].name,
                body_of(g.rules@[i2], j2),
            ),
    decreases i,
{
    if i > 0 {
        let r = g.rules@[i - 1];
        let prev = add_rules_map(g, f, i - 1);
        let cur = add_rules_map(g, f, i);
        lemma_rules_edges(g, f, i - 1);
        lemma_prods_edges(g, f, prev, r, r.prods@.len() as int);
        assert(has_edge(prev, g.basis.rule, g.eof()));
        assert forall|i2: int, j2: int| 0 <= i2 < i && 0 <= j2 < g.rules@[i2].prods@.len() implies #[trigger] body_edges(
            g,
            f,
            cur,
            g.rules@[i2].name,
            body_of(g.rules@[i2], j2),
        ) by {
            if i2 < i - 1 {
                lemma_body_edges_kept(g, f, prev, cur, g.rules@[i2].name, body_of(g.rules@[i2], j2));
            }
        }
    } else {
        assert(add_rules_map(g, f, 0)[g.basis.rule] == set![g.eof()]);
    }
}

/// A step before a path is a path.
proof fn lemma_path_prepend(m: Map<usize, Set<usize>>, w: usize, x: usize, y: usize)
    requires
        has_edge(m, w, x),
        derives(m, x, y),
    ensures
        derives(m, w, y),
{
    let p = choose|p: Seq<usize>| #[trigger] is_path(m, p) && p[0] == x && p[p.len() - 1] == y;
    let q = seq![w] + p;
    assert(is_path(m, q)) by {
        assert forall|i: int| #![trigger q[i]] 0 <= i < q.len() - 1 implies m.contains_key(q[i]) && m[q[i]].contains(
            q[i + 1],
        ) by {
            if i == 0 {
                assert(q[0] == w && q[1] == p[0]);
            } else {
                assert(q[i] == p[i - 1] && q[i + 1] == p[i]);
            }
        }
    }
    assert(q[0] == w && q[q.len() - 1] == y);
}

/// Every lookahead of item `v` is in the FOLLOW entry `fo` of its rule.
pub open spec fn look_followed(fo: Map<usize, Set<usize>>, v: PositionView) -> bool {
    forall|y: usize| #[trigger] v.look.contains(y) ==> fo.contains_key(v.rule) && fo[v.rule].contains(y)
}

/// Every item of `s` has its lookaheads in the FOLLOW entry `fo` of its rule.
pub open spec fn set_followed(fo: Map<usize, Set<usize>>, s: Set<PositionView>) -> bool {
    forall|v: PositionView| #[trigger] s.contains(v) ==> look_followed(fo, v)
}

/// The FOLLOW sets of `g`, given its FIRST sets `f`.
pub open spec fn follow_of(g: Grammar, f: Map<usize, Set<usize>>) -> Map<usize, Set<usize>> {
    saturated(g, follow_graph(g, f))
}

/// An item that a grammar item with followed lookaheads spawns has followed lookaheads:
/// a FIRST symbol of what comes after the non-terminal, or, at the end of the body, a
/// lookahead of the spawning item, which may follow its rule and so the non-terminal.
proof fn lemma_spawn_followed(g: Grammar, f: Map<usize, Set<usize>>, p: PositionView, j: int, v: PositionView)
    requires
        g.wf(),
        f == saturated(g, first_graph(g)),
        item_ok(g, p),
        look_followed(follow_of(g, f), p),
        spawn_of(g, f, true, p, j, v),
    ensures
        look_followed(follow_of(g, f), v),
{
    let fg = follow_graph(g, f);
    let fo = follow_of(g, f);
    let top = peek_spec(p, 0)->0;
    let i = rule_index(g.rules@, p.rule);
    let jj = choose|jj: int| 0 <= jj < g.rule(p.rule).prods@.len() && #[trigger] body_of(g.rule(p.rule), jj) == p.body;
    lemma_rules_edges(g, f, g.rules@.len() as int);
    assert(body_edges(g, f, fg, g.rules@[i].name, body_of(g.rules@[i], jj)));
    assert(g.rules@[i].name == p.rule);
    let b = p.body;
    let k = p.point as int;
    assert(b[k] == top);
    match peek_spec(p, 1) {
        Some(l) => {
            assert(b[k + 1] == l);
            assert forall|y: usize| #[trigger] v.look.contains(y) implies fo.contains_key(v.rule) && fo[v.rule].contains(y) by {
                assert(v.look.to_set().contains(y));
                assert(first_of_set(f, seq![l]).contains(y));
                let x = choose|x: usize| #[trigger] seq![l].contains(x) && first_contrib(f, x, y);
                assert(seq![l][0] == l);
                assert(x == l);
                if g.nonterminal(l) {
                    assert(f.contains_key(l));
                    assert(entry_of(f, l).contains(y));
                } else {
                    assert(!first_graph(g).contains_key(l));
                }
                assert(next_follows(g, f, b[k + 1], y));
                assert(has_edge(fg, b[k], y));
                lemma_path_step(fg, top, y);
            }
        },
        None => {
            assert(k == b.len() - 1);
            if top != p.rule {
                assert(has_edge(fg, top, p.rule));
                assert forall|y: usize| #[trigger] v.look.contains(y) implies fo.contains_key(v.rule) && fo[v.rule].contains(y) by {
                    assert(p.look.contains(y));
                    lemma_path_prepend(fg, top, p.rule, y);
                }
            }
        },
    }
}

/// A merge of items with followed lookaheads has followed lookaheads: each lookahead of
/// a merged item is one of an item of the same core, so of the same rule.
pub proof fn lemma_merged_followed(fo: Map<usize, Set<usize>>, s: Set<PositionView>, r: Set<PositionView>)
    requires
        merged_ok(s, r),
        set_followed(fo, s),
    ensures
        set_followed(fo, r),
{
    assert forall|v: PositionView| #[trigger] r.contains(v) implies look_followed(fo, v) by {
        assert forall|y: usize| #[trigger] v.look.contains(y) implies fo.contains_key(v.rule) && fo[v.rule].contains(y) by {
            let p = choose|p: PositionView| s.contains(p) && same_core(p, v) && #[trigger] p.look.contains(y);
            assert(look_followed(fo, p));
        }
    }
}

/// The tables give lookaheads the FOLLOW sets bound: FIRST is computed and the end symbol
/// is not a non-terminal.
pub open spec fn looks_ready(t: Tabler) -> bool {
    &&& t.first_ok()
    &&& !t.grammar.nonterminal(t.grammar.eof())
}

/// Every item of every state, of every kernel and of every kernel that `raws` maps a core
/// to has its lookaheads in the FOLLOW set of its rule.
pub open spec fn lalr_looks(
    g: Grammar,
    f: Map<usize, Set<usize>>,
    states: Seq<State>,
    kernels: Seq<(State, usize)>,
    raws: Seq<(State, State)>,
) -> bool {
    &&& forall|j: int| 0 <= j < states.len() ==> set_followed(follow_of(g, f), #[trigger] items(states[j]@))
    &&& forall|a: int| 0 <= a < kernels.len() ==> set_followed(follow_of(g, f), #[trigger] items(kernels[a].0@))
    &&& forall|b: int| 0 <= b < raws.len() ==> set_followed(follow_of(g, f), #[trigger] items(raws[b].1@))
}

/// [`lalr_looks`] of the tables of `p`.
pub open spec fn lalr_looks_of(p: Lalr) -> bool {
    lalr_looks(p.table.grammar, tview(p.table.first@), p.table.states@, p.table.kernels@, p.raws@)
}

/// Every item of `s` has its lookaheads in the FOLLOW set of its rule, for the grammar
/// and FIRST sets of `p`.
pub open spec fn followed_in(p: Lalr, s: Set<PositionView>) -> bool {
    set_followed(follow_of(p.table.grammar, tview(p.table.first@)), s)
}

/// The closure iterates of grammar items with followed lookaheads hold such items only.
proof fn lemma_iter_followed(g: Grammar, f: Map<usize, Set<usize>>, s: Set<PositionView>, n: nat)
    requires
        g.wf(),
        f == saturated(g, first_graph(g)),
        set_ok(g, s),
        set_followed(follow_of(g, f), s),
    ensures
        set_followed(follow_of(g, f), closure_iter(g, f, true, s, n)),
    decreases n,
{
    if n > 0 {
        let prev = closure_iter(g, f, true, s, (n - 1) as nat);
        lemma_iter_followed(g, f, s, (n - 1) as nat);
        lemma_iter_ok(g, f, true, s, (n - 1) as nat);
        assert forall|v: PositionView| #[trigger] closure_step(g, f, true, prev).contains(v) implies look_followed(
            follow_of(g, f),
            v,
        ) by {
            if !prev.contains(v) {
                let (p, j) = choose|p: PositionView, j: int| prev.contains(p) && #[trigger] spawn_of(g, f, true, p, j, v);
                lemma_spawn_followed(g, f, p, j, v);
            }
        }
    }
}

/// The propagated closure of grammar items with followed lookaheads holds such items
/// only.
pub proof fn lemma_closes_followed(g: Grammar, f: Map<usize, Set<usize>>, seed: Set<PositionView>, r: Set<PositionView>)
    requires
        g.wf(),
        f == saturated(g, first_graph(g)),
        set_ok(g, seed),
        set_followed(follow_of(g, f), seed),
        closes(g, f, true, seed, r),
    ensures
        set_followed(follow_of(g, f), r),
{
    let n = choose|n: nat| #[trigger] closure_iter(g, f, true, seed, n) == r && closure_step(g, f, true, r) == r;
    lemma_iter_followed(g, f, seed, n);
}

/// A move keeps the rules and the lookaheads of the items it advances.
pub proof fn lemma_goto_followed(fo: Map<usize, Set<usize>>, s: Set<PositionView>, sym: usize)
    requires
        set_followed(fo, s),
    ensures
        set_followed(fo, goto_set(s, sym)),
{
    assert forall|v: PositionView| #[trigger] goto_set(s, sym).contains(v) implies look_followed(fo, v) by {
        let p = choose|p: PositionView| s.contains(p) && peek_spec(p, 0) == Some(sym) && v == #[trigger] advanced(p);
        assert(look_followed(fo, p));
    }
}

/// The start item's lookahead, the end symbol, may follow the start symbol, when it is
/// not a non-terminal itself.
pub proof fn lemma_basis_followed(g: Grammar, f: Map<usize, Set<usize>>)
    requires
        g.wf(),
        !g.nonterminal(g.eof()),
    ensures
        set_followed(follow_of(g, f), set![g.basis@]),
{
    let fg = follow_graph(g, f);
    lemma_rules_edges(g, f, g.rules@.len() as int);
    lemma_path_step(fg, g.basis.rule, g.eof());
    assert forall|v: PositionView| #[trigger] set![g.basis@].contains(v) implies look_followed(follow_of(g, f), v) by {
        assert(v == g.basis@);
        assert forall|y: usize| #[trigger] v.look.contains(y) implies follow_of(g, f).contains_key(v.rule)
            && follow_of(g, f)[v.rule].contains(y) by {
            assert(g.basis.look@.len() == 1);
            assert(y == g.basis.look@[0]);
        }
    }
}

/// Every state of a complete LR(1) automaton holds items whose lookaheads may follow
/// their rules.
proof fn lemma_automaton_followed(
    g: Grammar,
    f: Map<usize, Set<usize>>,
    states: Seq<State>,
    kernels: Seq<(State, usize)>,
    k: int,
)
    requires
        g.wf(),
        f == saturated(g, first_graph(g)),
        !g.nonterminal(g.eof()),
        automaton(g, f, true, states, kernels),
        0 <= k < states.len(),
    ensures
        set_followed(follow_of(g, f), items(states[k]@)),
    decreases k,
{
    if k == 0 {
        lemma_basis_ok(g);
        assert(set_ok(g, set![g.basis@]));
        lemma_basis_followed(g, f);
        lemma_closes_followed(g, f, set![g.basis@], items(states[0]@));
    } else {
        let par = choose|par: Seq<(int, int)>|
            #[trigger] derived_ok(g, f, true, states, kernels, par) && complete_before(g, states, kernels, par, (states.len() as int, 0));
        let (i, si) = par[k];
        let x = g.symbols@[si];
        let kg = items(kernels[k].0@);
        assert(kg == goto_set(items(states[i]@), x));
        assert(closes(g, f, true, kg, items(states[k]@)));
        lemma_automaton_followed(g, f, states, kernels, i);
        assert(set_ok(g, items(states[i]@)));
        lemma_goto_ok(g, items(states[i]@), x);
        lemma_goto_followed(follow_of(g, f), items(states[i]@), x);
        lemma_closes_followed(g, f, kg, items(states[k]@));
    }
}

/// Every lookahead of every item of a canonical LR(1) parser's states may follow the
/// item's rule: it is in the rule's FOLLOW set. The LR(1) lookaheads refine FOLLOW.
pub proof fn law_clr_looks_followed(c: Clr)
    requires
        clr_built(c.table),
        !c.table.grammar.nonterminal(c.table.grammar.eof()),
    ensures
        forall|k: int, v: PositionView|
            0 <= k < c.table.states@.len() && #[trigger] items(c.table.states@[k]@).contains(v) ==> look_followed(
                tview(c.table.follow@),
                v,
            ),
{
    let g = c.table.grammar;
    let f = tview(c.table.first@);
    assert forall|k: int, v: PositionView|
        0 <= k < c.table.states@.len() && #[trigger] items(c.table.states@[k]@).contains(v) implies look_followed(
        tview(c.table.follow@),
        v,
    ) by {
        lemma_automaton_followed(g, f, c.table.states@, c.table.kernels@, k);
    }
}

/// Every lookahead of every item of an LALR(1) parser's states may follow the item's
/// rule: it is in the rule's FOLLOW set. Merging LR(1) states keeps the lookaheads within
/// FOLLOW.
pub proof fn law_lalr_looks_followed(p: Lalr)
    requires
        lalr_built(p),
        !p.table.grammar.nonterminal(p.table.grammar.eof()),
    ensures
        forall|k: int, v: PositionView|
            0 <= k < p.table.states@.len() && #[trigger] items(p.table.states@[k]@).contains(v) ==> look_followed(
                tview(p.table.follow@),
                v,
            ),
{
    assert forall|k: int, v: PositionView|
        0 <= k < p.table.states@.len() && #[trigger] items(p.table.states@[k]@).contains(v) implies look_followed(
        tview(p.table.follow@),
        v,
    ) by {
        assert(set_followed(follow_of(p.table.grammar, tview(p.table.first@)), items(p.table.states@[k]@)));
    }
}

} // verus!
