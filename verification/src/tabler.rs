//! The tables an LR parser is built from: FIRST and FOLLOW sets, the states of the
//! automaton, their kernels and the action table.
use vstd::prelude::*;

use crate::action::{ActTable, Action, ActionView, Row, is_conflict, refs_below, remap, row_copy,
    row_eq, rview};
use crate::grammar::{Grammar, Rule, body_of, has_rule, lemma_rule_at, rule_index};
use crate::pos::{Position, PositionView, advanced, peek_spec};
use crate::reach::{derives, is_path, saturate, saturated, values_in};
use crate::state::{State, holds, state_insert, wf_state};
use crate::symset::{set_extend, set_insert, set_remove, sorted_set};
use crate::table::{Table, entry_of, key_index, lemma_key_unique, table_extend, table_find,
    table_insert, table_put, table_touch, table_wf, tview};

verus! {

/// The tables of an LR parser for a grammar.
#[derive(Debug)]
pub struct Tabler {
    pub grammar: Grammar,
    pub first: Table,
    pub follow: Table,
    pub actions: ActTable,
    pub states: Vec<State>,
    pub kernels: Vec<(State, usize)>,
}

/// Every action of the table names one of its states, conflicts included.
pub open spec fn table_closed(actions: Seq<Row>) -> bool {
    forall|i: int, k: int|
        0 <= i < actions.len() && 0 <= k < actions[i]@.len() ==> refs_below(
            #[trigger] actions[i]@[k].1@,
            actions.len() as int,
        )
}

/// Every production body is non-empty.
pub open spec fn bodies_nonempty(g: Grammar) -> bool {
    forall|i: int, j: int|
        0 <= i < g.rules@.len() && 0 <= j < g.rules@[i].prods@.len() ==> #[trigger] body_of(
            g.rules@[i],
            j,
        ).len() > 0
}

/// A production of `x` starts with `y`, and `y` is not `x` itself.
pub open spec fn first_edge(g: Grammar, x: usize, y: usize) -> bool {
    exists|j: int|
        0 <= j < g.rule(x).prods@.len() && body_of(g.rule(x), j).len() > 0 && #[trigger] body_of(g.rule(x), j)[0]
            == y && y != x
}

/// The first FIRST iteration: each non-terminal with the first symbols of its productions.
pub open spec fn first_graph(g: Grammar) -> Map<usize, Set<usize>> {
    Map::new(|x: usize| g.nonterminal(x), |x: usize| Set::new(|y: usize| first_edge(g, x, y)))
}

/// What may come after a non-terminal that `z` follows: `z` itself if it is a terminal,
/// else the symbols of its entry in `f`.
pub open spec fn next_follows(g: Grammar, f: Map<usize, Set<usize>>, z: usize, y: usize) -> bool {
    if g.nonterminal(z) {
        entry_of(f, z).contains(y)
    } else {
        y == z
    }
}

/// Non-terminal `x` stands in `b` at an index below `n`, with another symbol after it.
pub open spec fn inner_key(g: Grammar, b: Seq<usize>, x: usize, n: int) -> bool {
    exists|k: int| 0 <= k < n && k + 1 < b.len() && #[trigger] b[k] == x && g.nonterminal(x)
}

/// As [`inner_key`], and `y` may follow that occurrence.
pub open spec fn inner_edge(
    g: Grammar,
    f: Map<usize, Set<usize>>,
    b: Seq<usize>,
    x: usize,
    y: usize,
    n: int,
) -> bool {
    exists|k: int|
        0 <= k < n && k + 1 < b.len() && #[trigger] b[k] == x && g.nonterminal(x) && next_follows(
            g,
            f,
            b[k + 1],
            y,
        )
}

/// Non-terminal `x`, other than `name`, ends `b`.
pub open spec fn last_key(g: Grammar, name: usize, b: Seq<usize>, x: usize) -> bool {
    b.len() > 0 && b[b.len() - 1] == x && g.nonterminal(x) && x != name
}

/// The FOLLOW edges one production `name -> b` adds to `m`.
pub open spec fn add_body_map(
    g: Grammar,
    f: Map<usize, Set<usize>>,
    m: Map<usize, Set<usize>>,
    name: usize,
    b: Seq<usize>,
) -> Map<usize, Set<usize>> {
    Map::new(
        |x: usize| m.contains_key(x) || inner_key(g, b, x, b.len() as int) || last_key(g, name, b, x),
        |x: usize|
            entry_of(m, x).union(
                Set::new(
                    |y: usize|
                        inner_edge(g, f, b, x, y, b.len() as int) || (last_key(g, name, b, x) && y
                            == name),
                ),
            ),
    )
}

/// The FOLLOW edges of the first `j` productions of `r` added to `m`.
pub open spec fn add_prods_map(
    g: Grammar,
    f: Map<usize, Set<usize>>,
    m: Map<usize, Set<usize>>,
    r: Rule,
    j: int,
) -> Map<usize, Set<usize>>
    decreases j,
{
    if j <= 0 {
        m
    } else {
        add_body_map(g, f, add_prods_map(g, f, m, r, j - 1), r.name, body_of(r, j - 1))
    }
}

/// The FOLLOW edges of the first `i` rules, after the start symbol's `{eof}`.
pub open spec fn add_rules_map(g: Grammar, f: Map<usize, Set<usize>>, i: int) -> Map<
    usize,
    Set<usize>,
>
    decreases i,
{
    if i <= 0 {
        map![g.basis.rule => set![g.eof()]]
    } else {
        let r = g.rules@[i - 1];
        add_prods_map(g, f, add_rules_map(g, f, i - 1), r, r.prods@.len() as int)
    }
}

/// The first FOLLOW iteration, given the FIRST table `f`: `x -> y` when `y` may come
/// right after `x` in a production (a terminal, or the FIRST set of a non-terminal), or
/// when `x` ends a production of `y` (FOLLOW(x) includes FOLLOW(y)); and the start symbol
/// is followed by the end of input.
pub open spec fn follow_graph(g: Grammar, f: Map<usize, Set<usize>>) -> Map<usize, Set<usize>> {
    add_rules_map(g, f, g.rules@.len() as int)
}

/// One substitution step over table `m`: the terminals of each entry, plus the entries of
/// its non-terminals, without the key itself.
pub open spec fn step_set(g: Grammar, m: Map<usize, Set<usize>>, x: usize) -> Set<usize> {
    Set::new(|y: usize| y != x && exists|z: usize| #[trigger] m[x].contains(z) && step_contrib(g, m, z, y))
}

/// What symbol `z` brings to a substitution step: itself if it is a terminal, else its
/// entry in `m`, if it has one.
pub open spec fn step_contrib(g: Grammar, m: Map<usize, Set<usize>>, z: usize, y: usize) -> bool {
    (!g.nonterminal(z) && y == z) || (g.nonterminal(z) && m.contains_key(z) && m[z].contains(y))
}

/// [`step_set`] for every key.
pub open spec fn step_map(g: Grammar, m: Map<usize, Set<usize>>) -> Map<usize, Set<usize>> {
    Map::new(|x: usize| m.contains_key(x), |x: usize| step_set(g, m, x))
}

/// The FIRST set of a sequence of single symbols, as `first_of` computes it: the entry of
/// each symbol that has one, and the symbol itself otherwise.
pub open spec fn first_of_set(f: Map<usize, Set<usize>>, items: Seq<usize>) -> Set<usize> {
    Set::new(|y: usize| exists|x: usize| #[trigger] items.contains(x) && first_contrib(f, x, y))
}

/// What symbol `x` brings to a FIRST set: its entry in `f`, or itself if it has none.
pub open spec fn first_contrib(f: Map<usize, Set<usize>>, x: usize, y: usize) -> bool {
    (f.contains_key(x) && f[x].contains(y)) || (!f.contains_key(x) && y == x)
}

/// The items of `s` with `sym` after the point, each advanced past it.
pub open spec fn filtered(s: Seq<Position>, sym: usize, v: PositionView) -> bool {
    exists|p: PositionView| holds(s, p) && peek_spec(p, 0) == Some(sym) && v == #[trigger] advanced(p)
}

/// The conflicting actions among the first `k` entries of a row.
pub open spec fn row_conflicts(r: Seq<(usize, Action)>, k: int) -> Seq<ActionView>
    decreases k,
{
    if k <= 0 {
        Seq::empty()
    } else if is_conflict(r[k - 1].1@) {
        row_conflicts(r, k - 1).push(r[k - 1].1@)
    } else {
        row_conflicts(r, k - 1)
    }
}

/// The conflicting actions of the first `i` rows.
pub open spec fn table_conflicts(t: Seq<Row>, i: int) -> Seq<ActionView>
    decreases i,
{
    if i <= 0 {
        Seq::empty()
    } else {
        table_conflicts(t, i - 1) + row_conflicts(t[i - 1]@, t[i - 1]@.len() as int)
    }
}

/// A row with every state it names renamed through `travel`.
pub open spec fn remap_row(r: Seq<(usize, ActionView)>, travel: Seq<usize>) -> Seq<(usize, ActionView)> {
    r.map_values(|e: (usize, ActionView)| (e.0, remap(e.1, travel)))
}

/// Row `a` of `old` is kept as row `travel[a]` of `new`.
pub open spec fn dedup_maps(old: Seq<Row>, travel: Seq<usize>, new: Seq<Row>) -> bool {
    &&& travel.len() == old.len()
    &&& forall|a: int|
        0 <= a < old.len() ==> #[trigger] travel[a] < new.len() && rview(new[travel[a] as int])
            == rview(old[a])
}

/// The kept rows are pairwise different.
pub open spec fn dedup_distinct(new: Seq<Row>) -> bool {
    forall|j1: int, j2: int|
        0 <= j1 < j2 < new.len() ==> rview(#[trigger] new[j1]) != rview(#[trigger] new[j2])
}

/// Every kept row is the copy of some row.
#[verifier::opaque]
pub open spec fn dedup_onto(travel: Seq<usize>, n: int) -> bool {
    forall|b: int| 0 <= b < n ==> #[trigger] hit(travel, b)
}

/// Some entry of `travel` is `b`.
pub open spec fn hit(travel: Seq<usize>, b: int) -> bool {
    exists|a: int| 0 <= a < travel.len() && #[trigger] travel[a] == b
}

/// Kept rows are numbered in order of first appearance.
#[verifier::opaque]
pub open spec fn dedup_ordered(travel: Seq<usize>) -> bool {
    forall|a: int|
        #![trigger travel[a]]
        0 <= a < travel.len() && (forall|k: int| 0 <= k < a ==> #[trigger] travel[k] != travel[a])
            ==> (forall|k: int| 0 <= k < a ==> #[trigger] travel[k] < travel[a])
}

/// `new` holds the distinct rows of `old` in order of first appearance, and `travel[i]`
/// is the index in `new` of row `i` of `old`.
pub open spec fn dedup(old: Seq<Row>, travel: Seq<usize>, new: Seq<Row>) -> bool {
    &&& dedup_maps(old, travel, new)
    &&& dedup_distinct(new)
    &&& dedup_onto(travel, new.len() as int)
    &&& dedup_ordered(travel)
}

/// `new` is `old` with equal rows merged (as [`dedup`] says) and states renamed.
pub open spec fn reduced(old: Seq<Row>, travel: Seq<usize>, new: Seq<Row>) -> bool {
    exists|d: Seq<Row>|
        #[trigger] dedup(old, travel, d) && d.len() == new.len() && forall|j: int|
            0 <= j < new.len() ==> #[trigger] rview(new[j]) == remap_row(rview(d[j]), travel)
}

/// Merging equal rows leaves no more rows than there were: every kept row is the copy
/// of at least one old row.
pub proof fn law_dedup_no_more_rows(old: Seq<Row>, travel: Seq<usize>, new: Seq<Row>)
    requires
        dedup(old, travel, new),
    ensures
        new.len() <= old.len(),
{
    reveal(dedup_onto);
    let tv = travel.map_values(|x: usize| x as int);
    let range = vstd::set_lib::set_int_range(0, new.len() as int);
    assert forall|b: int| range.contains(b) implies tv.to_set().contains(b) by {
        assert(hit(travel, b));
        let a = choose|a: int| 0 <= a < travel.len() && #[trigger] travel[a] == b;
        assert(tv[a] == b);
        assert(tv.contains(b));
    }
    tv.lemma_cardinality_of_set();
    vstd::set_lib::lemma_int_range(0, new.len() as int);
    vstd::seq_lib::seq_to_set_is_finite(tv);
    vstd::set_lib::lemma_len_subset(range, tv.to_set());
}

/// Some entry of `travel` before `a` is `b`.
pub open spec fn hit_before(travel: Seq<usize>, a: int, b: int) -> bool {
    exists|k: int| 0 <= k < a && #[trigger] travel[k] == b
}

/// Some entry at or before `a0` of `travel` is `b`, and there is a first one.
proof fn lemma_first_hit(travel: Seq<usize>, b: usize, a0: int) -> (f: int)
    requires
        0 <= a0 < travel.len(),
        travel[a0] == b,
    ensures
        0 <= f <= a0,
        travel[f] == b,
        forall|k: int| 0 <= k < f ==> #[trigger] travel[k] != b,
    decreases a0,
{
    if exists|k: int| 0 <= k < a0 && #[trigger] travel[k] == b {
        let k = choose|k: int| 0 <= k < a0 && #[trigger] travel[k] == b;
        lemma_first_hit(travel, b, k)
    } else {
        a0
    }
}

/// Where row `a` differs from every earlier row, the kept rows numbered below
/// `travel[a]` are exactly those that the earlier rows went to.
proof fn lemma_first_row_values(old: Seq<Row>, travel: Seq<usize>, new: Seq<Row>, a: int)
    requires
        dedup(old, travel, new),
        0 <= a < old.len(),
        forall|k: int| 0 <= k < a ==> rview(#[trigger] old[k]) != rview(old[a]),
    ensures
        forall|b: int| 0 <= b < travel[a] <==> #[trigger] hit_before(travel, a, b),
{
    reveal(dedup_onto);
    reveal(dedup_ordered);
    assert forall|k: int| 0 <= k < a implies #[trigger] travel[k] != travel[a] by {
        if travel[k] == travel[a] {
            assert(rview(old[k]) == rview(new[travel[k] as int]));
        }
    }
    assert forall|b: int| 0 <= b < travel[a] <==> #[trigger] hit_before(travel, a, b) by {
        if 0 <= b < travel[a] {
            assert(hit(travel, b));
            let a1 = choose|a1: int| 0 <= a1 < travel.len() && #[trigger] travel[a1] == b;
            let f = lemma_first_hit(travel, b as usize, a1);
            if f >= a {
                assert(f != a);
                assert(travel[a] < travel[f]);
            }
            assert(travel[f] == b);
        }
        if exists|k: int| 0 <= k < a && #[trigger] travel[k] == b {
            let k = choose|k: int| 0 <= k < a && #[trigger] travel[k] == b;
            assert(travel[k] < travel[a]);
        }
    }
}

/// Two equal rows go to the same kept row.
proof fn lemma_equal_rows_same_row(old: Seq<Row>, t: Seq<usize>, n: Seq<Row>, j: int, a: int)
    requires
        dedup(old, t, n),
        0 <= j < old.len(),
        0 <= a < old.len(),
        rview(old[j]) == rview(old[a]),
    ensures
        t[j] == t[a],
{
    let x = t[j] as int;
    let y = t[a] as int;
    if x < y {
        assert(rview(n[x]) != rview(n[y]));
    } else if y < x {
        assert(rview(n[y]) != rview(n[x]));
    }
}

/// Two deduplications of the same rows number them alike, up to row `a`.
proof fn lemma_dedup_unique_upto(old: Seq<Row>, t1: Seq<usize>, n1: Seq<Row>, t2: Seq<usize>, n2: Seq<Row>, a: int)
    requires
        dedup(old, t1, n1),
        dedup(old, t2, n2),
        0 <= a < old.len(),
    ensures
        forall|k: int| 0 <= k <= a ==> #[trigger] t1[k] == t2[k],
    decreases a,
{
    if a > 0 {
        lemma_dedup_unique_upto(old, t1, n1, t2, n2, a - 1);
    }
    assert forall|k: int| 0 <= k <= a implies #[trigger] t1[k] == t2[k] by {
        if k == a {
            if exists|j: int| 0 <= j < a && rview(#[trigger] old[j]) == rview(old[a]) {
                let j = choose|j: int| 0 <= j < a && rview(#[trigger] old[j]) == rview(old[a]);
                lemma_equal_rows_same_row(old, t1, n1, j, a);
                lemma_equal_rows_same_row(old, t2, n2, j, a);
                assert(t1[j] == t2[j]);
            } else {
                lemma_first_row_values(old, t1, n1, a);
                lemma_first_row_values(old, t2, n2, a);
                if t1[a] < t2[a] {
                    let b = t1[a] as int;
                    assert(hit_before(t2, a, b));
                    let k = choose|k: int| 0 <= k < a && #[trigger] t2[k] == b;
                    assert(t1[k] == b);
                } else if t2[a] < t1[a] {
                    let b = t2[a] as int;
                    assert(hit_before(t1, a, b));
                    let k = choose|k: int| 0 <= k < a && #[trigger] t1[k] == b;
                    assert(t2[k] == b);
                }
            }
        }
    }
}

/// Merging equal rows has one outcome: two merges of the same rows number them alike
/// and keep the same rows, renamed alike.
pub proof fn law_reduced_unique(old: Seq<Row>, t1: Seq<usize>, n1: Seq<Row>, t2: Seq<usize>, n2: Seq<Row>)
    requires
        reduced(old, t1, n1),
        reduced(old, t2, n2),
    ensures
        t1 == t2,
        n1.len() == n2.len(),
        forall|j: int| 0 <= j < n1.len() ==> rview(#[trigger] n1[j]) == rview(n2[j]),
{
    reveal(dedup_onto);
    let d1 = choose|d: Seq<Row>|
        #[trigger] dedup(old, t1, d) && d.len() == n1.len() && forall|j: int|
            0 <= j < n1.len() ==> #[trigger] rview(n1[j]) == remap_row(rview(d[j]), t1);
    let d2 = choose|d: Seq<Row>|
        #[trigger] dedup(old, t2, d) && d.len() == n2.len() && forall|j: int|
            0 <= j < n2.len() ==> #[trigger] rview(n2[j]) == remap_row(rview(d[j]), t2);
    if old.len() > 0 {
        lemma_dedup_unique_upto(old, t1, d1, t2, d2, old.len() - 1);
    }
    assert(t1 =~= t2);
    if d1.len() < d2.len() {
        assert(hit(t2, d1.len() as int));
        let a = choose|a: int| 0 <= a < t2.len() && #[trigger] t2[a] == d1.len();
        assert(t1[a] < d1.len());
    } else if d2.len() < d1.len() {
        assert(hit(t1, d2.len() as int));
        let a = choose|a: int| 0 <= a < t1.len() && #[trigger] t1[a] == d2.len();
        assert(t2[a] < d2.len());
    }
    assert forall|j: int| 0 <= j < n1.len() implies rview(#[trigger] n1[j]) == rview(n2[j]) by {
        assert(hit(t1, j));
        let a = choose|a: int| 0 <= a < t1.len() && #[trigger] t1[a] == j;
        assert(rview(d1[j]) == rview(old[a]));
        assert(rview(d2[j]) == rview(old[a]));
    }
}

/// Merging equal rows merges exactly the equal rows: each old row becomes the kept row
/// `travel[a]`, renamed; every kept row stands for some old row; and two old rows go to
/// the same kept row exactly when they are equal, so the kept rows are pairwise
/// different before renaming.
pub proof fn law_reduced_merges_equal_rows(old: Seq<Row>, travel: Seq<usize>, new: Seq<Row>)
    requires
        reduced(old, travel, new),
    ensures
        travel.len() == old.len(),
        forall|a: int|
            0 <= a < old.len() ==> #[trigger] travel[a] < new.len() && rview(new[travel[a] as int])
                == remap_row(rview(old[a]), travel),
        forall|j: int| 0 <= j < new.len() ==> #[trigger] hit(travel, j),
        forall|a1: int, a2: int|
            0 <= a1 < old.len() && 0 <= a2 < old.len() ==> (#[trigger] travel[a1] == #[trigger] travel[a2]
                <==> rview(old[a1]) == rview(old[a2])),
{
    reveal(dedup_onto);
    let d = choose|d: Seq<Row>|
        #[trigger] dedup(old, travel, d) && d.len() == new.len() && forall|j: int|
            0 <= j < new.len() ==> #[trigger] rview(new[j]) == remap_row(rview(d[j]), travel);
    assert forall|a1: int, a2: int|
        0 <= a1 < old.len() && 0 <= a2 < old.len() implies (#[trigger] travel[a1] == #[trigger] travel[a2]
            <==> rview(old[a1]) == rview(old[a2])) by {
        let j1 = travel[a1] as int;
        let j2 = travel[a2] as int;
        if rview(old[a1]) == rview(old[a2]) && j1 != j2 {
            if j1 < j2 {
                assert(rview(d[j1]) != rview(d[j2]));
            } else {
                assert(rview(d[j2]) != rview(d[j1]));
            }
        }
    }
}

/// Adding a row that equals the kept row `j` keeps the deduplication.
pub proof fn lemma_dedup_push_old(old: Seq<Row>, travel: Seq<usize>, new: Seq<Row>, row: Row, j: int)
    requires
        dedup(old, travel, new),
        0 <= j < new.len(),
        j <= usize::MAX,
        rview(new[j]) == rview(row),
    ensures
        dedup(old.push(row), travel.push(j as usize), new),
{
    let o2 = old.push(row);
    let t2 = travel.push(j as usize);
    assert forall|a: int| 0 <= a < o2.len() implies #[trigger] t2[a] < new.len() && rview(
        new[t2[a] as int],
    ) == rview(o2[a]) by {
        if a < old.len() {
            assert(t2[a] == travel[a]);
            assert(o2[a] == old[a]);
        }
    }
    lemma_onto_push(travel, new.len() as int, j);
    reveal(dedup_onto);
    assert(hit(travel, j));
    let k = choose|k: int| 0 <= k < travel.len() && #[trigger] travel[k] == j;
    lemma_ordered_push_old(travel, j as usize, k);
}

/// Adding a row that differs from every kept row keeps the deduplication, with a copy
/// of it kept last.
pub proof fn lemma_dedup_push_new(old: Seq<Row>, travel: Seq<usize>, new: Seq<Row>, row: Row, c: Row)
    requires
        dedup(old, travel, new),
        new.len() <= usize::MAX,
        forall|j2: int| 0 <= j2 < new.len() ==> rview(#[trigger] new[j2]) != rview(row),
        rview(c) == rview(row),
    ensures
        dedup(old.push(row), travel.push(new.len() as usize), new.push(c)),
{
    let o2 = old.push(row);
    let t2 = travel.push(new.len() as usize);
    let n2 = new.push(c);
    assert forall|a: int| 0 <= a < o2.len() implies #[trigger] t2[a] < n2.len() && rview(
        n2[t2[a] as int],
    ) == rview(o2[a]) by {
        if a < old.len() {
            assert(t2[a] == travel[a]);
            assert(o2[a] == old[a]);
            assert(n2[travel[a] as int] == new[travel[a] as int]);
        }
    }
    assert forall|j1: int, j2: int|
        0 <= j1 < j2 < n2.len() implies rview(#[trigger] n2[j1]) != rview(#[trigger] n2[j2]) by {
        assert(n2[j1] == new[j1]);
        if j2 < new.len() {
            assert(n2[j2] == new[j2]);
        }
    }
    lemma_onto_push(travel, new.len() as int, new.len() as int);
    lemma_ordered_push_new(travel, new.len() as usize);
}

proof fn lemma_onto_push(travel: Seq<usize>, n: int, j: int)
    requires
        dedup_onto(travel, n),
        0 <= j <= n,
        j <= usize::MAX,
    ensures
        dedup_onto(travel.push(j as usize), if j == n { n + 1 } else { n }),
{
    reveal(dedup_onto);
    let t2 = travel.push(j as usize);
    let n2 = if j == n { n + 1 } else { n };
    assert forall|b: int| 0 <= b < n2 implies #[trigger] hit(t2, b) by {
        if b < n {
            assert(hit(travel, b));
            let a = choose|a: int| 0 <= a < travel.len() && #[trigger] travel[a] == b;
            assert(t2[a] == travel[a]);
        } else {
            assert(t2[travel.len() as int] == b);
        }
    }
}

proof fn lemma_ordered_push_old(travel: Seq<usize>, j: usize, k: int)
    requires
        dedup_ordered(travel),
        0 <= k < travel.len(),
        travel[k] == j,
    ensures
        dedup_ordered(travel.push(j)),
{
    reveal(dedup_ordered);
    let t2 = travel.push(j);
    assert forall|a: int|
        #![trigger t2[a]]
        0 <= a < t2.len() && (forall|k2: int| 0 <= k2 < a ==> #[trigger] t2[k2] != t2[a]) implies (
        forall|k2: int| 0 <= k2 < a ==> #[trigger] t2[k2] < t2[a]) by {
        if a < travel.len() {
            assert forall|k2: int| 0 <= k2 < a implies #[trigger] travel[k2] != travel[a] by {
                assert(t2[k2] == travel[k2]);
                assert(t2[a] == travel[a]);
            }
            assert forall|k2: int| 0 <= k2 < a implies #[trigger] t2[k2] < t2[a] by {
                assert(t2[k2] == travel[k2]);
                assert(t2[a] == travel[a]);
                assert(travel[k2] < travel[a]);
            }
        } else {
            assert(t2[k] == travel[k]);
            assert(t2[k] == t2[a]);
        }
    }
}

proof fn lemma_ordered_push_new(travel: Seq<usize>, n: usize)
    requires
        dedup_ordered(travel),
        forall|a: int| 0 <= a < travel.len() ==> #[trigger] travel[a] < n,
    ensures
        dedup_ordered(travel.push(n)),
{
    reveal(dedup_ordered);
    let t2 = travel.push(n);
    assert forall|a: int|
        #![trigger t2[a]]
        0 <= a < t2.len() && (forall|k2: int| 0 <= k2 < a ==> #[trigger] t2[k2] != t2[a]) implies (
        forall|k2: int| 0 <= k2 < a ==> #[trigger] t2[k2] < t2[a]) by {
        if a < travel.len() {
            assert forall|k2: int| 0 <= k2 < a implies #[trigger] travel[k2] != travel[a] by {
                assert(t2[k2] == travel[k2]);
                assert(t2[a] == travel[a]);
            }
            assert forall|k2: int| 0 <= k2 < a implies #[trigger] t2[k2] < t2[a] by {
                assert(t2[k2] == travel[k2]);
                assert(t2[a] == travel[a]);
                assert(travel[k2] < travel[a]);
            }
        } else {
            assert forall|k2: int| 0 <= k2 < a implies #[trigger] t2[k2] < t2[a] by {
                assert(t2[k2] == travel[k2]);
            }
        }
    }
}

impl Tabler {
    /// FIRST, as its documentation defines it: for each non-terminal, the terminals
    /// that begin one of its derivations.
    pub open spec fn first_ok(&self) -> bool {
        &&& table_wf(self.first@)
        &&& tview(self.first@) == saturated(self.grammar, first_graph(self.grammar))
    }

    /// FOLLOW: for each non-terminal that has an entry, the terminals that may follow it.
    pub open spec fn follow_ok(&self) -> bool {
        &&& table_wf(self.follow@)
        &&& tview(self.follow@) == saturated(
            self.grammar,
            follow_graph(self.grammar, tview(self.first@)),
        )
    }

    /// Builds FIRST and FOLLOW for `grammar`; the automaton and its actions start empty.
    pub fn new(grammar: Grammar) -> (t: Self)
        requires
            grammar.wf(),
        ensures
            t.grammar == grammar,
            t.first_ok(),
            t.follow_ok(),
            t.actions@.len() == 0,
            t.states@.len() == 0,
            t.kernels@.len() == 0,
    {
        let mut buf = Tabler {
            grammar,
            first: Vec::new(),
            follow: Vec::new(),
            actions: Vec::new(),
            states: Vec::new(),
            kernels: Vec::new(),
        };
        buf.first = buf.gen_first();
        proof {
            lemma_first_values(buf.grammar);
        }
        buf.proc_first();
        proof {
            lemma_saturated_values(buf.grammar, first_graph(buf.grammar), buf.grammar.symbols@);
            lemma_follow_values(buf.grammar, tview(buf.first@), buf.grammar.rules@.len() as int);
        }
        buf.follow = buf.gen_follow();
        buf.proc_follow();
        buf
    }

    /// The first FIRST iteration: the first symbol of each production (other than the
    /// rule's own name).
    pub fn gen_first(&self) -> (t: Table)
        requires
            self.grammar.wf(),
        ensures
            table_wf(t@),
            tview(t@) == first_graph(self.grammar),
    {
        let g = &self.grammar;
        let mut t: Table = Vec::new();
        let mut i: usize = 0;
        while i < g.rules.len()
            invariant
                i <= g.rules@.len(),
                g.wf(),
                table_wf(t@),
                tview(t@) == Map::new(
                    |x: usize| exists|i2: int| 0 <= i2 < i && #[trigger] g.rules@[i2].name == x,
                    |x: usize| Set::new(|y: usize| first_edge(*g, x, y)),
                ),
            decreases g.rules@.len() - i,
        {
            let rule = &g.rules[i];
            proof {
                lemma_rule_at(g.rules@, i as int);
            }
            let mut firsts: Vec<usize> = Vec::new();
            let mut j: usize = 0;
            while j < rule.prods.len()
                invariant
                    j <= rule.prods@.len(),
                    g.wf(),
                    *rule == g.rules@[i as int],
                    i < g.rules@.len(),
                    sorted_set(firsts@),
                    forall|y: usize|
                        #[trigger] firsts@.contains(y) <==> exists|j2: int|
                            0 <= j2 < j && body_of(*rule, j2).len() > 0 && #[trigger] body_of(*rule, j2)[0] == y
                                && y != rule.name,
                decreases rule.prods@.len() - j,
            {
                if rule.prods[j].0.len() > 0 {
                    let b0 = rule.prods[j].0[0];
                    if b0 != rule.name {
                        set_insert(&mut firsts, b0);
                    }
                    assert forall|y: usize|
                        #[trigger] firsts@.contains(y) <==> exists|j2: int|
                            0 <= j2 < j + 1 && body_of(*rule, j2).len() > 0 && #[trigger] body_of(*rule, j2)[0]
                                == y && y != rule.name by {
                        assert(body_of(*rule, j as int)[0] == b0);
                        if exists|j2: int|
                            0 <= j2 < j + 1 && body_of(*rule, j2).len() > 0 && #[trigger] body_of(*rule, j2)[0]
                                == y && y != rule.name {
                            let j2 = choose|j2: int|
                                0 <= j2 < j + 1 && body_of(*rule, j2).len() > 0 && #[trigger] body_of(
                                    *rule,
                                    j2,
                                )[0] == y && y != rule.name;
                            if j2 < j {
                                assert(body_of(*rule, j2)[0] == y);
                            }
                        }
                    }
                } else {
                    assert forall|y: usize|
                        #[trigger] firsts@.contains(y) <==> exists|j2: int|
                            0 <= j2 < j + 1 && body_of(*rule, j2).len() > 0 && #[trigger] body_of(*rule, j2)[0]
                                == y && y != rule.name by {
                        if exists|j2: int|
                            0 <= j2 < j + 1 && body_of(*rule, j2).len() > 0 && #[trigger] body_of(*rule, j2)[0]
                                == y && y != rule.name {
                            let j2 = choose|j2: int|
                                0 <= j2 < j + 1 && body_of(*rule, j2).len() > 0 && #[trigger] body_of(
                                    *rule,
                                    j2,
                                )[0] == y && y != rule.name;
                            assert(j2 < j);
                        }
                    }
                }
                j = j + 1;
            }
            let ghost fs = firsts@;
            let ghost name = rule.name;
            table_put(&mut t, rule.name, firsts);
            assert(tview(t@) =~= Map::new(
                |x: usize| exists|i2: int| 0 <= i2 < i + 1 && #[trigger] g.rules@[i2].name == x,
                |x: usize| Set::new(|y: usize| first_edge(*g, x, y)),
            )) by {
                assert forall|x: usize|
                    #[trigger] tview(t@).contains_key(x) <==> exists|i2: int|
                        0 <= i2 < i + 1 && #[trigger] g.rules@[i2].name == x by {
                    if x == name {
                        assert(g.rules@[i as int].name == x);
                    }
                    if exists|i2: int| 0 <= i2 < i + 1 && #[trigger] g.rules@[i2].name == x {
                        let i2 = choose|i2: int| 0 <= i2 < i + 1 && #[trigger] g.rules@[i2].name == x;
                        if i2 < i {
                            assert(g.rules@[i2].name == x);
                        }
                    }
                }
                assert(g.rule(name) == *rule);
                assert forall|y: usize| fs.to_set().contains(y) <==> first_edge(*g, name, y) by {
                    if fs.to_set().contains(y) {
                        assert(fs.contains(y));
                        let j2 = choose|j2: int|
                            0 <= j2 < rule.prods@.len() && body_of(*rule, j2).len() > 0 && #[trigger] body_of(
                                *rule,
                                j2,
                            )[0] == y && y != rule.name;
                        assert(body_of(g.rule(name), j2)[0] == y);
                    }
                    if first_edge(*g, name, y) {
                        let j2 = choose|j2: int|
                            0 <= j2 < g.rule(name).prods@.len() && body_of(g.rule(name), j2).len() > 0
                                && #[trigger] body_of(g.rule(name), j2)[0] == y && y != name;
                        assert(body_of(*rule, j2)[0] == y);
                        assert(fs.contains(y));
                    }
                }
                assert(fs.to_set() =~= Set::new(|y: usize| first_edge(*g, name, y)));
            }
            i = i + 1;
        }
        assert(tview(t@) =~= first_graph(*g)) by {
            assert forall|x: usize|
                #[trigger] tview(t@).contains_key(x) <==> g.nonterminal(x) by {
                if g.nonterminal(x) {
                    let k = rule_index(g.rules@, x);
                    assert(g.rules@[k].name == x);
                }
            }
        }
        t
    }

    /// Replaces FIRST by its least fixpoint: every terminal reachable through first
    /// symbols of productions.
    pub fn proc_first(&mut self)
        requires
            old(self).grammar.wf(),
            table_wf(old(self).first@),
            values_in(tview(old(self).first@), old(self).grammar.symbols@),
        ensures
            final(self).grammar == old(self).grammar,
            final(self).follow == old(self).follow,
            final(self).actions == old(self).actions,
            final(self).states == old(self).states,
            final(self).kernels == old(self).kernels,
            table_wf(final(self).first@),
            tview(final(self).first@) == saturated(old(self).grammar, tview(old(self).first@)),
    {
        self.first = saturate(&self.grammar, &self.first);
    }

    /// Replaces FOLLOW by its least fixpoint: every terminal reachable through the
    /// follow edges.
    pub fn proc_follow(&mut self)
        requires
            old(self).grammar.wf(),
            table_wf(old(self).follow@),
            values_in(tview(old(self).follow@), old(self).grammar.symbols@),
        ensures
            final(self).grammar == old(self).grammar,
            final(self).first == old(self).first,
            final(self).actions == old(self).actions,
            final(self).states == old(self).states,
            final(self).kernels == old(self).kernels,
            table_wf(final(self).follow@),
            tview(final(self).follow@) == saturated(old(self).grammar, tview(old(self).follow@)),
    {
        self.follow = saturate(&self.grammar, &self.follow);
    }

    /// The first FOLLOW iteration: see [`follow_graph`].
    pub fn gen_follow(&self) -> (t: Table)
        requires
            self.grammar.wf(),
            table_wf(self.first@),
        ensures
            table_wf(t@),
            tview(t@) == follow_graph(self.grammar, tview(self.first@)),
    {
        let g = &self.grammar;
        let ghost f = tview(self.first@);
        let basis = self.basis_pos();
        let mut t: Table = Vec::new();
        let look = crate::pos::copy_syms(&basis.look);
        assert(look@ =~= seq![g.eof()]);
        assert(sorted_set(look@));
        table_put(&mut t, basis.rule, look);
        assert(tview(t@) =~= add_rules_map(*g, f, 0)) by {
            assert(seq![g.eof()].to_set() =~= set![g.eof()]);
        }
        let mut i: usize = 0;
        while i < g.rules.len()
            invariant
                i <= g.rules@.len(),
                g.wf(),
                table_wf(self.first@),
                f == tview(self.first@),
                table_wf(t@),
                tview(t@) == add_rules_map(*g, f, i as int),
            decreases g.rules@.len() - i,
        {
            add_rule_follow(g, &self.first, &g.rules[i], &mut t);
            i = i + 1;
        }
        t
    }

    /// One substitution step of the FIRST iteration: each key gets the terminals of its
    /// set and the sets of its non-terminals, without itself. Every non-terminal of a
    /// set must have an entry.
    pub fn first_step(&self, input: &Table) -> (t: Table)
        requires
            self.grammar.wf(),
            table_wf(input@),
            forall|x: usize, z: usize|
                tview(input@).contains_key(x) && #[trigger] tview(input@)[x].contains(z)
                    && self.grammar.nonterminal(z) ==> tview(input@).contains_key(z),
        ensures
            table_wf(t@),
            tview(t@) == step_map(self.grammar, tview(input@)),
    {
        step_table(&self.grammar, input)
    }

    /// One substitution step of the FOLLOW iteration: as [`Tabler::first_step`], except
    /// that a non-terminal without an entry adds nothing.
    pub fn follow_step(&self, input: &Table) -> (t: Table)
        requires
            self.grammar.wf(),
            table_wf(input@),
        ensures
            table_wf(t@),
            tview(t@) == step_map(self.grammar, tview(input@)),
    {
        step_table(&self.grammar, input)
    }

    /// The FIRST set of `items`: the FIRST entry of each item that has one, the item
    /// itself otherwise.
    pub fn first_of(&self, items: &Vec<usize>) -> (r: Vec<usize>)
        requires
            table_wf(self.first@),
        ensures
            sorted_set(r@),
            r@.to_set() == first_of_set(tview(self.first@), items@),
    {
        let ghost f = tview(self.first@);
        let mut firsts: Vec<usize> = Vec::new();
        let mut k: usize = 0;
        while k < items.len()
            invariant
                k <= items@.len(),
                table_wf(self.first@),
                f == tview(self.first@),
                sorted_set(firsts@),
                forall|y: usize|
                    #[trigger] firsts@.contains(y) <==> first_of_set(
                        f,
                        items@.subrange(0, k as int),
                    ).contains(y),
            decreases items@.len() - k,
        {
            let ghost pre = items@.subrange(0, k as int);
            let ghost post = items@.subrange(0, k + 1);
            assert(post =~= pre.push(items@[k as int]));
            let x = items[k];
            let ghost before = firsts@;
            match table_find(&self.first, x) {
                Some(j) => {
                    proof {
                        lemma_key_unique(self.first@, j as int);
                    }
                    set_extend(&mut firsts, &self.first[j].1);
                    assert forall|y: usize| #[trigger] firsts@.contains(y) <==> (before.contains(y)
                        || first_contrib(f, x, y)) by {
                        assert(f[x] == self.first@[j as int].1@.to_set());
                        if self.first@[j as int].1@.contains(y) {
                            assert(self.first@[j as int].1@.to_set().contains(y));
                        }
                        if f[x].contains(y) {
                            assert(self.first@[j as int].1@.to_set().contains(y));
                        }
                    }
                },
                None => {
                    set_insert(&mut firsts, x);
                },
            }
            assert(forall|y: usize| #[trigger] firsts@.contains(y) <==> (before.contains(y)
                || first_contrib(f, x, y)));
            assert forall|y: usize|
                #[trigger] firsts@.contains(y) <==> first_of_set(f, post).contains(y) by {
                assert(post[k as int] == x);
                assert(post.contains(x));
                if first_of_set(f, post).contains(y) {
                    let w = choose|w: usize| #[trigger] post.contains(w) && first_contrib(f, w, y);
                    let q = choose|q: int| 0 <= q < post.len() && post[q] == w;
                    if q < k {
                        assert(pre[q] == w);
                        assert(pre.contains(w));
                        assert(first_of_set(f, pre).contains(y));
                    }
                }
                if first_of_set(f, pre).contains(y) {
                    let w = choose|w: usize| #[trigger] pre.contains(w) && first_contrib(f, w, y);
                    let q = choose|q: int| 0 <= q < pre.len() && pre[q] == w;
                    assert(post[q] == w);
                    assert(post.contains(w));
                }
            }
            k = k + 1;
        }
        assert(items@.subrange(0, items@.len() as int) =~= items@);
        assert(firsts@.to_set() =~= first_of_set(f, items@));
        firsts
    }

    /// The kernel that moving over `sym` from `state` gives: its items with `sym` after
    /// the point, each advanced past it.
    pub fn sym_filter(state: &State, sym: usize) -> (r: State)
        ensures
            wf_state(r@),
            forall|v: PositionView| holds(r@, v) <==> filtered(state@, sym, v),
    {
        let mut r: State = Vec::new();
        let mut k: usize = 0;
        while k < state.len()
            invariant
                k <= state@.len(),
                wf_state(r@),
                forall|v: PositionView|
                    holds(r@, v) <==> filtered(state@.subrange(0, k as int), sym, v),
            decreases state@.len() - k,
        {
            let ghost pre = state@.subrange(0, k as int);
            let ghost post = state@.subrange(0, k + 1);
            assert(post =~= pre.push(state@[k as int]));
            let ghost pk = state@[k as int]@;
            let ghost r0 = r@;
            let mut added = false;
            if state[k].top() == Some(sym) {
                match state[k].clone_next() {
                    Some(p) => {
                        state_insert(&mut r, p);
                        added = true;
                    },
                    None => {},
                }
            }
            assert forall|v: PositionView| holds(r@, v) <==> filtered(post, sym, v) by {
                assert(crate::pos::views(post)[k as int] == pk);
                if filtered(post, sym, v) {
                    let p = choose|p: PositionView|
                        holds(post, p) && peek_spec(p, 0) == Some(sym) && v == #[trigger] advanced(p);
                    let q = choose|q: int| 0 <= q < crate::pos::views(post).len() && crate::pos::views(post)[q] == p;
                    if q < k {
                        assert(crate::pos::views(pre)[q] == p);
                        assert(filtered(pre, sym, v));
                    }
                }
                if filtered(pre, sym, v) {
                    let p = choose|p: PositionView|
                        holds(pre, p) && peek_spec(p, 0) == Some(sym) && v == #[trigger] advanced(p);
                    let q = choose|q: int| 0 <= q < crate::pos::views(pre).len() && crate::pos::views(pre)[q] == p;
                    assert(crate::pos::views(post)[q] == p);
                    assert(filtered(post, sym, v));
                }
                if added && v == advanced(pk) {
                    assert(holds(post, pk));
                    assert(filtered(post, sym, v));
                }
            }
            k = k + 1;
        }
        assert(state@.subrange(0, state@.len() as int) =~= state@);
        r
    }

    /// Copies of the conflicting actions of the table, row by row.
    pub fn conflicts(&self) -> (r: Vec<Action>)
        ensures
            r@.map_values(|a: Action| a@) == table_conflicts(self.actions@, self.actions@.len() as int),
    {
        let mut r: Vec<Action> = Vec::new();
        let mut i: usize = 0;
        while i < self.actions.len()
            invariant
                i <= self.actions@.len(),
                r@.map_values(|a: Action| a@) == table_conflicts(self.actions@, i as int),
            decreases self.actions@.len() - i,
        {
            let row = &self.actions[i];
            let ghost before = r@.map_values(|a: Action| a@);
            let mut k: usize = 0;
            while k < row.len()
                invariant
                    k <= row@.len(),
                    *row == self.actions@[i as int],
                    r@.map_values(|a: Action| a@) == before + row_conflicts(row@, k as int),
                decreases row@.len() - k,
            {
                let ghost rb = r@;
                if row[k].1.is_conflict() {
                    r.push(row[k].1.copy());
                    assert(r@.map_values(|a: Action| a@) =~= rb.map_values(|a: Action| a@).push(row@[k as int].1@));
                }
                assert(before + row_conflicts(row@, k + 1) =~= if is_conflict(row@[k as int].1@) {
                    (before + row_conflicts(row@, k as int)).push(row@[k as int].1@)
                } else {
                    before + row_conflicts(row@, k as int)
                });
                k = k + 1;
            }
            i = i + 1;
        }
        r
    }

    /// Merges equal rows of the action table and renames the states they name.
    pub fn reduce_equals(&mut self)
        requires
            table_closed(old(self).actions@),
        ensures
            final(self).grammar == old(self).grammar,
            final(self).first == old(self).first,
            final(self).follow == old(self).follow,
            final(self).states == old(self).states,
            final(self).kernels == old(self).kernels,
            final(self).actions@.len() <= old(self).actions@.len(),
            exists|travel: Seq<usize>|
                #[trigger] travel.len() == old(self).actions@.len() && reduced(
                    old(self).actions@,
                    travel,
                    final(self).actions@,
                ),
    {
        let (travel, new_actions) = self.reduced_actions();
        let ghost old_actions = self.actions@;
        let mut out: ActTable = Vec::new();
        let mut i: usize = 0;
        while i < new_actions.len()
            invariant
                i <= new_actions@.len(),
                travel@.len() == old_actions.len(),
                dedup(old_actions, travel@, new_actions@),
                forall|a: int, k: int|
                    0 <= a < old_actions.len() && 0 <= k < old_actions[a]@.len() ==> refs_below(
                        #[trigger] old_actions[a]@[k].1@,
                        old_actions.len() as int,
                    ),
                out@.len() == i,
                forall|a: int|
                    0 <= a < i ==> #[trigger] rview(out@[a]) == remap_row(
                        rview(new_actions@[a]),
                        travel@,
                    ),
            decreases new_actions@.len() - i,
        {
            let row = &new_actions[i];
            proof {
                reveal(dedup_onto);
                assert(hit(travel@, i as int));
            }
            let ghost src = choose|a: int| 0 <= a < travel@.len() && #[trigger] travel@[a] == i;
            assert(rview(*row) == rview(old_actions[src]));
            let mut nrow: Row = Vec::new();
            let mut k: usize = 0;
            while k < row.len()
                invariant
                    k <= row@.len(),
                    travel@.len() == old_actions.len(),
                    0 <= src < old_actions.len(),
                    rview(*row) == rview(old_actions[src]),
                    forall|k2: int|
                        0 <= k2 < old_actions[src]@.len() ==> refs_below(
                            #[trigger] old_actions[src]@[k2].1@,
                            old_actions.len() as int,
                        ),
                    nrow@.len() == k,
                    forall|k2: int|
                        0 <= k2 < k ==> #[trigger] rview(nrow)[k2] == (
                            rview(*row)[k2].0,
                            remap(rview(*row)[k2].1, travel@),
                        ),
                decreases row@.len() - k,
            {
                assert(rview(*row).len() == row@.len());
                assert(rview(old_actions[src]).len() == old_actions[src]@.len());
                assert(rview(*row)[k as int] == (row@[k as int].0, row@[k as int].1@));
                assert(rview(old_actions[src])[k as int] == (
                    old_actions[src]@[k as int].0,
                    old_actions[src]@[k as int].1@,
                ));
                assert(rview(*row)[k as int] == rview(old_actions[src])[k as int]);
                assert(refs_below(old_actions[src]@[k as int].1@, old_actions.len() as int));
                let entry = row[k].1.remapped(&travel);
                let ghost nbv = nrow;
                let ghost ev = entry@;
                let sym = row[k].0;
                nrow.push((sym, entry));
                assert(nrow@[k as int].0 == sym && nrow@[k as int].1@ == ev);
                assert(ev == remap(row@[k as int].1@, travel@));
                assert forall|k2: int|
                    0 <= k2 < k + 1 implies #[trigger] rview(nrow)[k2] == (
                        rview(*row)[k2].0,
                        remap(rview(*row)[k2].1, travel@),
                    ) by {
                    assert(rview(nrow)[k2] == (nrow@[k2].0, nrow@[k2].1@));
                    if k2 < k {
                        assert(nrow@[k2] == nbv@[k2]);
                        assert(rview(nbv)[k2] == (nbv@[k2].0, nbv@[k2].1@));
                        assert(rview(nbv)[k2] == (
                            rview(*row)[k2].0,
                            remap(rview(*row)[k2].1, travel@),
                        ));
                    } else {
                        assert(k2 == k);
                        assert(rview(*row)[k2] == (row@[k2].0, row@[k2].1@));
                    }
                }
                k = k + 1;
            }
            assert(rview(nrow) =~= remap_row(rview(*row), travel@));
            out.push(nrow);
            i = i + 1;
        }
        self.actions = out;
        assert(reduced(old_actions, travel@, self.actions@));
    }

    /// The distinct rows of the action table, in order of first appearance, and for
    /// every old row the index of its copy among them.
    pub fn reduced_actions(&self) -> (r: (Vec<usize>, ActTable))
        ensures
            r.0@.len() == self.actions@.len(),
            dedup(self.actions@, r.0@, r.1@),
            r.1@.len() <= self.actions@.len(),
    {
        let mut travel: Vec<usize> = Vec::new();
        let mut actions: ActTable = Vec::new();
        let mut i: usize = 0;
        proof {
            reveal(dedup_onto);
            reveal(dedup_ordered);
            assert(self.actions@.subrange(0, 0) =~= Seq::<Row>::empty());
        }
        while i < self.actions.len()
            invariant
                i <= self.actions@.len(),
                travel@.len() == i,
                dedup(self.actions@.subrange(0, i as int), travel@, actions@),
            decreases self.actions@.len() - i,
        {
            let ghost pre = self.actions@.subrange(0, i as int);
            let ghost post = self.actions@.subrange(0, i + 1);
            assert(post =~= pre.push(self.actions@[i as int]));
            let row = &self.actions[i];
            let mut j: usize = 0;
            while j < actions.len() && !row_eq(&actions[j], row)
                invariant
                    j <= actions@.len(),
                    forall|j2: int| 0 <= j2 < j ==> rview(#[trigger] actions@[j2]) != rview(*row),
                decreases actions@.len() - j,
            {
                j = j + 1;
            }
            let ghost t0 = travel@;
            let ghost a0 = actions@;
            if j == actions.len() {
                actions.push(row_copy(row));
                proof {
                    lemma_dedup_push_new(pre, t0, a0, *row, actions@[j as int]);
                }
            } else {
                proof {
                    lemma_dedup_push_old(pre, t0, a0, *row, j as int);
                }
            }
            travel.push(j);
            assert(post == pre.push(*row));
            i = i + 1;
        }
        assert(self.actions@.subrange(0, self.actions@.len() as int) =~= self.actions@);
        proof {
            law_dedup_no_more_rows(self.actions@, travel@, actions@);
        }
        (travel, actions)
    }

    /// An action with every state `k` it names renamed to `travel[k]`.
    pub fn update_entry(entry: &mut Action, travel: &Vec<usize>)
        requires
            refs_below(old(entry)@, travel@.len() as int),
        ensures
            final(entry)@ == remap(old(entry)@, travel@),
    {
        let new = entry.remapped(travel);
        *entry = new;
    }

    /// A copy of the start item.
    pub fn basis_pos(&self) -> (p: Position)
        ensures
            p@ == self.grammar.basis@,
    {
        self.grammar.basis()
    }
}

/// A table read as reachability to terminals is left unchanged by one more
/// substitution step, when all its keys are non-terminals.
pub proof fn lemma_saturated_step_fixed(g: Grammar, m: Map<usize, Set<usize>>)
    requires
        forall|x: usize| #[trigger] m.contains_key(x) ==> g.nonterminal(x),
    ensures
        step_map(g, saturated(g, m)) == saturated(g, m),
{
    let sm = saturated(g, m);
    assert forall|x: usize| #[trigger] sm.contains_key(x) implies step_set(g, sm, x) == sm[x] by {
        assert forall|y: usize| step_set(g, sm, x).contains(y) <==> sm[x].contains(y) by {
            if sm[x].contains(y) {
                assert(sm[x].contains(y) && step_contrib(g, sm, y, y));
            }
        }
        assert(step_set(g, sm, x) =~= sm[x]);
    }
    assert(step_map(g, sm) =~= sm);
}

/// The FOLLOW edges only give entries to non-terminals.
proof fn lemma_follow_keys(g: Grammar, f: Map<usize, Set<usize>>, i: int)
    requires
        g.wf(),
        i <= g.rules@.len(),
    ensures
        forall|x: usize| #[trigger] add_rules_map(g, f, i).contains_key(x) ==> g.nonterminal(x),
    decreases i,
{
    if i > 0 {
        lemma_follow_keys(g, f, i - 1);
        let r = g.rules@[i - 1];
        lemma_follow_prods_keys(g, f, add_rules_map(g, f, i - 1), r, r.prods@.len() as int);
    }
}

proof fn lemma_follow_prods_keys(g: Grammar, f: Map<usize, Set<usize>>, m: Map<usize, Set<usize>>, r: Rule, j: int)
    requires
        forall|x: usize| #[trigger] m.contains_key(x) ==> g.nonterminal(x),
    ensures
        forall|x: usize| #[trigger] add_prods_map(g, f, m, r, j).contains_key(x) ==> g.nonterminal(x),
    decreases j,
{
    if j > 0 {
        lemma_follow_prods_keys(g, f, m, r, j - 1);
        let prev = add_prods_map(g, f, m, r, j - 1);
        let b = body_of(r, j - 1);
        assert forall|x: usize| #[trigger] add_body_map(g, f, prev, r.name, b).contains_key(x) implies g.nonterminal(x) by {
            if !prev.contains_key(x) {
                if inner_key(g, b, x, b.len() as int) {
                    let k = choose|k: int| 0 <= k < b.len() && k + 1 < b.len() && #[trigger] b[k] == x && g.nonterminal(x);
                }
            }
        }
    }
}

/// Every symbol that FIRST or FOLLOW holds is a terminal of the grammar.
pub proof fn law_first_follow_terminals(t: Tabler)
    requires
        t.grammar.wf(),
        t.first_ok(),
        t.follow_ok(),
    ensures
        forall|x: usize, y: usize|
            tview(t.first@).contains_key(x) && #[trigger] tview(t.first@)[x].contains(y)
                ==> t.grammar.terminals@.contains(y),
        forall|x: usize, y: usize|
            tview(t.follow@).contains_key(x) && #[trigger] tview(t.follow@)[x].contains(y)
                ==> t.grammar.terminals@.contains(y),
{
    let g = t.grammar;
    lemma_first_values(g);
    lemma_saturated_values(g, first_graph(g), g.symbols@);
    lemma_follow_values(g, tview(t.first@), g.rules@.len() as int);
    lemma_saturated_values(g, follow_graph(g, tview(t.first@)), g.symbols@);
}

/// FIRST and FOLLOW are left unchanged by one more substitution step: they are the
/// tables at which iterating [`Tabler::first_step`] and [`Tabler::follow_step`] stops.
pub proof fn law_steps_fixed(t: Tabler)
    requires
        t.grammar.wf(),
        t.first_ok(),
        t.follow_ok(),
    ensures
        step_map(t.grammar, tview(t.first@)) == tview(t.first@),
        step_map(t.grammar, tview(t.follow@)) == tview(t.follow@),
{
    let g = t.grammar;
    lemma_saturated_step_fixed(g, first_graph(g));
    lemma_follow_keys(g, tview(t.first@), g.rules@.len() as int);
    lemma_saturated_step_fixed(g, follow_graph(g, tview(t.first@)));
}

/// One substitution step over every entry of `input`.
fn step_table(g: &Grammar, input: &Table) -> (t: Table)
    requires
        g.wf(),
        table_wf(input@),
    ensures
        table_wf(t@),
        tview(t@) == step_map(*g, tview(input@)),
{
    let ghost m = tview(input@);
    let mut t: Table = Vec::new();
    let mut i: usize = 0;
    while i < input.len()
        invariant
            i <= input@.len(),
            g.wf(),
            table_wf(input@),
            m == tview(input@),
            table_wf(t@),
            tview(t@) == Map::new(
                |x: usize| crate::reach::key_among(input@, i as int, x),
                |x: usize| step_set(*g, m, x),
            ),
        decreases input@.len() - i,
    {
        let name = input[i].0;
        proof {
            lemma_key_unique(input@, i as int);
        }
        let set = &input[i].1;
        let mut out: Vec<usize> = Vec::new();
        let mut k: usize = 0;
        while k < set.len()
            invariant
                k <= set@.len(),
                g.wf(),
                table_wf(input@),
                m == tview(input@),
                *set == input@[i as int].1,
                sorted_set(out@),
                forall|y: usize|
                    #[trigger] out@.contains(y) <==> exists|z: usize|
                        #[trigger] set@.subrange(0, k as int).contains(z) && step_contrib(*g, m, z, y),
            decreases set@.len() - k,
        {
            let ghost pre = set@.subrange(0, k as int);
            let ghost post = set@.subrange(0, k + 1);
            assert(post =~= pre.push(set@[k as int]));
            let z = set[k];
            let ghost before = out@;
            if g.is_terminal(z) {
                set_insert(&mut out, z);
            } else {
                match table_find(input, z) {
                    Some(j) => {
                        proof {
                            lemma_key_unique(input@, j as int);
                        }
                        set_extend(&mut out, &input[j].1);
                        assert forall|y: usize| #[trigger] out@.contains(y) <==> (before.contains(y)
                            || step_contrib(*g, m, z, y)) by {
                            assert(m[z] == input@[j as int].1@.to_set());
                            if input@[j as int].1@.contains(y) {
                                assert(input@[j as int].1@.to_set().contains(y));
                            }
                            if m[z].contains(y) {
                                assert(input@[j as int].1@.to_set().contains(y));
                            }
                        }
                    },
                    None => {},
                }
            }
            assert(forall|y: usize| #[trigger] out@.contains(y) <==> (before.contains(y)
                || step_contrib(*g, m, z, y)));
            assert forall|y: usize|
                #[trigger] out@.contains(y) <==> exists|z2: usize|
                    #[trigger] post.contains(z2) && step_contrib(*g, m, z2, y) by {
                assert(post[k as int] == z);
                assert(post.contains(z));
                if exists|z2: usize| #[trigger] post.contains(z2) && step_contrib(*g, m, z2, y) {
                    let z2 = choose|z2: usize| #[trigger] post.contains(z2) && step_contrib(*g, m, z2, y);
                    let q = choose|q: int| 0 <= q < post.len() && post[q] == z2;
                    if q < k {
                        assert(pre[q] == z2);
                        assert(pre.contains(z2));
                    }
                }
                if exists|z2: usize| #[trigger] pre.contains(z2) && step_contrib(*g, m, z2, y) {
                    let z2 = choose|z2: usize| #[trigger] pre.contains(z2) && step_contrib(*g, m, z2, y);
                    let q = choose|q: int| 0 <= q < pre.len() && pre[q] == z2;
                    assert(post[q] == z2);
                    assert(post.contains(z2));
                }
            }
            k = k + 1;
        }
        assert(set@.subrange(0, set@.len() as int) =~= set@);
        set_remove(&mut out, name);
        let ghost os = out@;
        table_put(&mut t, name, out);
        assert(tview(t@) =~= Map::new(
            |x: usize| crate::reach::key_among(input@, i + 1, x),
            |x: usize| step_set(*g, m, x),
        )) by {
            assert forall|x: usize|
                #[trigger] crate::reach::key_among(input@, i + 1, x) <==> (crate::reach::key_among(
                    input@,
                    i as int,
                    x,
                ) || x == name) by {
                if x == name {
                    assert(input@[i as int].0 == x);
                }
                if crate::reach::key_among(input@, i + 1, x) {
                    let i2 = choose|i2: int| 0 <= i2 < i + 1 && #[trigger] input@[i2].0 == x;
                    if i2 < i {
                        assert(input@[i2].0 == x);
                    }
                }
            }
            assert forall|y: usize| os.to_set().contains(y) <==> step_set(*g, m, name).contains(y) by {
                assert(m[name] == set@.to_set());
                if os.to_set().contains(y) {
                    assert(os.contains(y));
                    let z2 = choose|z2: usize| #[trigger] set@.contains(z2) && step_contrib(*g, m, z2, y);
                    assert(set@.to_set().contains(z2));
                    assert(m[name].contains(z2));
                }
                if step_set(*g, m, name).contains(y) {
                    let z2 = choose|z2: usize| #[trigger] m[name].contains(z2) && step_contrib(*g, m, z2, y);
                    assert(set@.to_set().contains(z2));
                    assert(set@.contains(z2));
                }
            }
            assert(os.to_set() =~= step_set(*g, m, name));
        }
        i = i + 1;
    }
    assert(tview(t@) =~= step_map(*g, m)) by {
        assert forall|x: usize|
            #[trigger] crate::reach::key_among(input@, input@.len() as int, x) <==> m.contains_key(x) by {
            if m.contains_key(x) {
                let i2 = key_index(input@, x);
                assert(input@[i2].0 == x);
            }
        }
    }
    t
}

/// Every symbol of a production body is a symbol of the grammar.
pub proof fn lemma_body_symbol(g: Grammar, i: int, j: int, k: int)
    requires
        g.wf(),
        0 <= i < g.rules@.len(),
        0 <= j < g.rules@[i].prods@.len(),
        0 <= k < body_of(g.rules@[i], j).len(),
    ensures
        g.symbols@.contains(body_of(g.rules@[i], j)[k]),
{
    let y = body_of(g.rules@[i], j)[k];
    assert(body_of(g.rules@[i], j).contains(y));
    assert(crate::grammar::occurs_in(g.rules@[i], y));
    assert(crate::grammar::occurs(g.rules@, y));
    if !has_rule(g.rules@, y) {
        assert(g.terminals@.contains(y));
    }
}

/// The first FIRST iteration only holds symbols of the grammar.
pub proof fn lemma_first_values(g: Grammar)
    requires
        g.wf(),
    ensures
        values_in(first_graph(g), g.symbols@),
{
    assert forall|w: usize, y: usize|
        first_graph(g).contains_key(w) && #[trigger] first_graph(g)[w].contains(y) implies g.symbols@.contains(
        y,
    ) by {
        let i = rule_index(g.rules@, w);
        let j = choose|j: int|
            0 <= j < g.rule(w).prods@.len() && body_of(g.rule(w), j).len() > 0 && #[trigger] body_of(
                g.rule(w),
                j,
            )[0] == y && y != w;
        assert(body_of(g.rules@[i], j).len() > 0);
        lemma_body_symbol(g, i, j, 0);
    }
}

/// A saturated table only holds symbols of the table it was computed from.
pub proof fn lemma_saturated_values(g: Grammar, m: Map<usize, Set<usize>>, u: Seq<usize>)
    requires
        values_in(m, u),
    ensures
        values_in(saturated(g, m), u),
{
    assert forall|w: usize, y: usize|
        saturated(g, m).contains_key(w) && #[trigger] saturated(g, m)[w].contains(y) implies u.contains(y) by {
        let p = choose|p: Seq<usize>|
            #[trigger] crate::reach::is_path(m, p) && p[0] == w && p[p.len() - 1] == y;
        let k = p.len() - 2;
        assert(m[p[k]].contains(p[k + 1]));
    }
}

/// The FOLLOW edges only lead to symbols of the grammar.
pub proof fn lemma_follow_values(g: Grammar, f: Map<usize, Set<usize>>, i: int)
    requires
        g.wf(),
        values_in(f, g.symbols@),
        i <= g.rules@.len(),
    ensures
        values_in(add_rules_map(g, f, i), g.symbols@),
    decreases i,
{
    if i <= 0 {
        assert(g.terminals@.contains(g.eof()));
    } else {
        lemma_follow_values(g, f, i - 1);
        let r = g.rules@[i - 1];
        lemma_prods_values(g, f, add_rules_map(g, f, i - 1), i - 1, r.prods@.len() as int);
    }
}

proof fn lemma_prods_values(g: Grammar, f: Map<usize, Set<usize>>, m: Map<usize, Set<usize>>, i: int, j: int)
    requires
        g.wf(),
        values_in(f, g.symbols@),
        values_in(m, g.symbols@),
        0 <= i < g.rules@.len(),
        j <= g.rules@[i].prods@.len(),
    ensures
        values_in(add_prods_map(g, f, m, g.rules@[i], j), g.symbols@),
    decreases j,
{
    if j > 0 {
        lemma_prods_values(g, f, m, i, j - 1);
        let r = g.rules@[i];
        let m1 = add_prods_map(g, f, m, r, j - 1);
        let b = body_of(r, j - 1);
        let mb = add_body_map(g, f, m1, r.name, b);
        lemma_rule_at(g.rules@, i);
        assert forall|w: usize, y: usize| mb.contains_key(w) && #[trigger] mb[w].contains(y) implies g.symbols@.contains(
            y,
        ) by {
            if entry_of(m1, w).contains(y) {
            } else if inner_edge(g, f, b, w, y, b.len() as int) {
                let k = choose|k: int|
                    0 <= k < b.len() && k + 1 < b.len() && #[trigger] b[k] == w && g.nonterminal(w)
                        && next_follows(g, f, b[k + 1], y);
                if !g.nonterminal(b[k + 1]) {
                    lemma_body_symbol(g, i, j - 1, k + 1);
                }
            } else {
                assert(y == r.name);
                assert(g.symbols@.contains(r.name));
            }
        }
    }
}

/// Adds the FOLLOW edges of the productions of `r` to `t`.
fn add_rule_follow(g: &Grammar, first: &Table, r: &Rule, t: &mut Table)
    requires
        g.wf(),
        table_wf(first@),
        table_wf(old(t)@),
    ensures
        table_wf(final(t)@),
        tview(final(t)@) == add_prods_map(
            *g,
            tview(first@),
            tview(old(t)@),
            *r,
            r.prods@.len() as int,
        ),
{
    let ghost m0 = tview(t@);
    let mut j: usize = 0;
    while j < r.prods.len()
        invariant
            j <= r.prods@.len(),
            g.wf(),
            table_wf(first@),
            table_wf(t@),
            m0 == tview(old(t)@),
            tview(t@) == add_prods_map(*g, tview(first@), m0, *r, j as int),
        decreases r.prods@.len() - j,
    {
        add_body_follow(g, first, r.name, &r.prods[j].0, t);
        j = j + 1;
    }
}

/// Adds the FOLLOW edges of production `name -> body` to `t`.
fn add_body_follow(g: &Grammar, first: &Table, name: usize, body: &Vec<usize>, t: &mut Table)
    requires
        g.wf(),
        table_wf(first@),
        table_wf(old(t)@),
    ensures
        table_wf(final(t)@),
        tview(final(t)@) == add_body_map(*g, tview(first@), tview(old(t)@), name, body@),
{
    let ghost m0 = tview(t@);
    let ghost f = tview(first@);
    let ghost b = body@;
    let mut k: usize = 0;
    assert(tview(t@) =~= Map::new(
        |x: usize| m0.contains_key(x) || inner_key(*g, b, x, 0),
        |x: usize| entry_of(m0, x).union(Set::new(|y: usize| inner_edge(*g, f, b, x, y, 0))),
    )) by {
        assert forall|x: usize| #[trigger] m0.contains_key(x) implies m0[x] =~= entry_of(m0, x).union(
            Set::new(|y: usize| inner_edge(*g, f, b, x, y, 0)),
        ) by {}
    }
    while body.len() > 0 && k < body.len() - 1
        invariant
            g.wf(),
            table_wf(first@),
            f == tview(first@),
            b == body@,
            table_wf(t@),
            k < body@.len() || body@.len() == 0,
            k == 0 || k < body@.len(),
            tview(t@) == Map::new(
                |x: usize| m0.contains_key(x) || inner_key(*g, b, x, k as int),
                |x: usize|
                    entry_of(m0, x).union(Set::new(|y: usize| inner_edge(*g, f, b, x, y, k as int))),
            ),
        decreases body@.len() - k,
    {
        let ghost mk = tview(t@);
        let x = body[k];
        let z = body[k + 1];
        let ghost add: Set<usize> = Set::new(|y: usize| next_follows(*g, f, z, y));
        if !g.is_terminal(x) {
            if g.is_terminal(z) {
                table_insert(t, x, z);
                assert(entry_of(mk, x).insert(z) =~= entry_of(mk, x).union(add));
            } else {
                match table_find(first, z) {
                    Some(j) => {
                        proof {
                            lemma_key_unique(first@, j as int);
                        }
                        table_extend(t, x, &first[j].1);
                        assert(first@[j as int].1@.to_set() =~= add);
                    },
                    None => {
                        table_touch(t, x);
                        assert(entry_of(mk, x) =~= entry_of(mk, x).union(add));
                    },
                }
            }
            assert(tview(t@) == mk.insert(x, entry_of(mk, x).union(add)));
        }
        assert(tview(t@) =~= Map::new(
            |x2: usize| m0.contains_key(x2) || inner_key(*g, b, x2, k + 1),
            |x2: usize|
                entry_of(m0, x2).union(Set::new(|y: usize| inner_edge(*g, f, b, x2, y, k + 1))),
        )) by {
            assert(b[k as int] == x);
            assert(b[k + 1] == z);
            assert forall|x2: usize|
                inner_key(*g, b, x2, k + 1) <==> (inner_key(*g, b, x2, k as int) || (x2 == x
                    && g.nonterminal(x))) by {
                if inner_key(*g, b, x2, k + 1) {
                    let k2 = choose|k2: int|
                        0 <= k2 < k + 1 && k2 + 1 < b.len() && #[trigger] b[k2] == x2
                            && g.nonterminal(x2);
                    if k2 < k {
                        assert(b[k2] == x2);
                    }
                }
                if inner_key(*g, b, x2, k as int) {
                    let k2 = choose|k2: int|
                        0 <= k2 < k && k2 + 1 < b.len() && #[trigger] b[k2] == x2 && g.nonterminal(
                            x2,
                        );
                    assert(b[k2] == x2);
                }
            }
            assert forall|x2: usize, y: usize|
                inner_edge(*g, f, b, x2, y, k + 1) <==> (inner_edge(*g, f, b, x2, y, k as int) || (
                x2 == x && g.nonterminal(x) && next_follows(*g, f, z, y))) by {
                if inner_edge(*g, f, b, x2, y, k + 1) {
                    let k2 = choose|k2: int|
                        0 <= k2 < k + 1 && k2 + 1 < b.len() && #[trigger] b[k2] == x2
                            && g.nonterminal(x2) && next_follows(*g, f, b[k2 + 1], y);
                    if k2 < k {
                        assert(b[k2] == x2);
                    }
                }
                if inner_edge(*g, f, b, x2, y, k as int) {
                    let k2 = choose|k2: int|
                        0 <= k2 < k && k2 + 1 < b.len() && #[trigger] b[k2] == x2 && g.nonterminal(
                            x2,
                        ) && next_follows(*g, f, b[k2 + 1], y);
                    assert(b[k2] == x2);
                }
            }
            assert forall|x2: usize|
                #[trigger] tview(t@).contains_key(x2) implies tview(t@)[x2] =~= entry_of(
                m0,
                x2,
            ).union(Set::new(|y: usize| inner_edge(*g, f, b, x2, y, k + 1))) by {
                if x2 == x && g.nonterminal(x) {
                    assert(tview(t@)[x2] == entry_of(mk, x).union(add));
                } else {
                    assert(mk.contains_key(x2));
                }
            }
        }
        k = k + 1;
    }
    let ghost mk = tview(t@);
    assert forall|x: usize| inner_key(*g, b, x, k as int) <==> inner_key(*g, b, x, b.len() as int) by {
        if inner_key(*g, b, x, b.len() as int) {
            let k2 = choose|k2: int|
                0 <= k2 < b.len() && k2 + 1 < b.len() && #[trigger] b[k2] == x && g.nonterminal(x);
            assert(b[k2] == x);
        }
        if inner_key(*g, b, x, k as int) {
            let k2 = choose|k2: int|
                0 <= k2 < k && k2 + 1 < b.len() && #[trigger] b[k2] == x && g.nonterminal(x);
            assert(b[k2] == x);
        }
    }
    assert forall|x: usize, y: usize|
        inner_edge(*g, f, b, x, y, k as int) <==> inner_edge(*g, f, b, x, y, b.len() as int) by {
        if inner_edge(*g, f, b, x, y, b.len() as int) {
            let k2 = choose|k2: int|
                0 <= k2 < b.len() && k2 + 1 < b.len() && #[trigger] b[k2] == x && g.nonterminal(x)
                    && next_follows(*g, f, b[k2 + 1], y);
            assert(b[k2] == x);
        }
        if inner_edge(*g, f, b, x, y, k as int) {
            let k2 = choose|k2: int|
                0 <= k2 < k && k2 + 1 < b.len() && #[trigger] b[k2] == x && g.nonterminal(x)
                    && next_follows(*g, f, b[k2 + 1], y);
            assert(b[k2] == x);
        }
    }
    if body.len() > 0 {
        let last = body[body.len() - 1];
        if !g.is_terminal(last) && last != name {
            table_insert(t, last, name);
        }
    }
    assert(tview(t@) =~= add_body_map(*g, f, m0, name, b)) by {
        assert forall|x: usize| #[trigger]
            tview(t@).contains_key(x) implies tview(t@)[x] =~= add_body_map(
            *g,
            f,
            m0,
            name,
            b,
        )[x] by {
            if last_key(*g, name, b, x) {
                assert(tview(t@)[x] == entry_of(mk, x).insert(name));
            } else {
                assert(mk.contains_key(x));
            }
        }
    }
}

/// A substitution step never puts a key into its own entry: the FIRST and FOLLOW
/// iterations never keep a non-terminal in its own set.
pub proof fn law_step_drops_key(g: Grammar, m: Map<usize, Set<usize>>, x: usize)
    requires
        m.contains_key(x),
    ensures
        step_map(g, m).contains_key(x),
        !step_map(g, m)[x].contains(x),
{
}

/// A substitution step keeps the terminals of each entry, and brings in the entry of
/// each of its non-terminals that has one; the key itself aside.
pub proof fn law_step_takes_in(g: Grammar, m: Map<usize, Set<usize>>, x: usize, z: usize, y: usize)
    requires
        m.contains_key(x),
        m[x].contains(z),
        y != x,
        (!g.nonterminal(z) && y == z) || (g.nonterminal(z) && m.contains_key(z) && m[z].contains(y)),
    ensures
        step_map(g, m)[x].contains(y),
{
}

/// A substitution step brings in nothing else: what an entry gets is a terminal of the
/// entry, or a value of the entry of one of its non-terminals.
pub proof fn law_step_only(g: Grammar, m: Map<usize, Set<usize>>, x: usize, y: usize)
    requires
        m.contains_key(x),
        step_map(g, m)[x].contains(y),
    ensures
        y != x,
        (m[x].contains(y) && !g.nonterminal(y)) || exists|z: usize|
            #[trigger] m[x].contains(z) && g.nonterminal(z) && m.contains_key(z) && m[z].contains(y),
{
}

/// The conflicts of a row are its conflicting actions, each once, in order.
proof fn lemma_row_conflicts(r: Seq<(usize, Action)>, k: int)
    requires
        0 <= k <= r.len(),
    ensures
        row_conflicts(r, k) == r.subrange(0, k).map_values(|e: (usize, Action)| e.1@).filter(|a: ActionView| is_conflict(a)),
    decreases k,
{
    let v = |e: (usize, Action)| e.1@;
    let pred = |a: ActionView| is_conflict(a);
    let s = r.subrange(0, k).map_values(v);
    if k == 0 {
        assert(s =~= Seq::<ActionView>::empty());
        assert(s.filter(pred) == s) by {
            reveal_with_fuel(Seq::filter, 1);
        }
    } else {
        lemma_row_conflicts(r, k - 1);
        assert(s.drop_last() =~= r.subrange(0, k - 1).map_values(v));
        assert(s.last() == r[k - 1].1@);
        assert(s.filter(pred) == if pred(s.last()) { s.drop_last().filter(pred).push(s.last()) } else { s.drop_last().filter(pred) }) by {
            reveal_with_fuel(Seq::filter, 1);
        }
    }
}

/// What [`Tabler::conflicts`] lists: the conflicting actions of the table, row by row and
/// within a row in the order of its entries, each conflicting entry exactly once.
pub proof fn law_conflicts_listed(t: Seq<Row>)
    ensures
        table_conflicts(t, t.len() as int) == t.map_values(
            |row: Row| row@.map_values(|e: (usize, Action)| e.1@).filter(|a: ActionView| is_conflict(a)),
        ).flatten(),
{
    lemma_table_conflicts(t, t.len() as int);
    assert(t.subrange(0, t.len() as int) =~= t);
}

/// The conflicts of the first `i` rows, as [`law_conflicts_listed`] says.
proof fn lemma_table_conflicts(t: Seq<Row>, i: int)
    requires
        0 <= i <= t.len(),
    ensures
        table_conflicts(t, i) == t.subrange(0, i).map_values(
            |row: Row| row@.map_values(|e: (usize, Action)| e.1@).filter(|a: ActionView| is_conflict(a)),
        ).flatten(),
    decreases i,
{
    let g = |row: Row| row@.map_values(|e: (usize, Action)| e.1@).filter(|a: ActionView| is_conflict(a));
    let s = t.subrange(0, i);
    if i == 0 {
        assert(s.map_values(g) =~= Seq::<Seq<ActionView>>::empty());
    } else {
        lemma_table_conflicts(t, i - 1);
        let r = t[i - 1]@;
        lemma_row_conflicts(r, r.len() as int);
        assert(r.subrange(0, r.len() as int) =~= r);
        assert(s.map_values(g) =~= t.subrange(0, i - 1).map_values(g).push(g(t[i - 1])));
        t.subrange(0, i - 1).map_values(g).lemma_flatten_push(g(t[i - 1]));
    }
}

/// A step into a path: where `x` has an entry holding `z`, and `z` reaches `y`, `x`
/// reaches `y`.
proof fn lemma_path_prepend(m: Map<usize, Set<usize>>, x: usize, z: usize, y: usize)
    requires
        m.contains_key(x),
        m[x].contains(z),
        derives(m, z, y),
    ensures
        derives(m, x, y),
{
    let p = choose|p: Seq<usize>| #[trigger] is_path(m, p) && p[0] == z && p[p.len() - 1] == y;
    let q = seq![x] + p;
    assert(is_path(m, q)) by {
        assert forall|i: int| #![trigger q[i]] 0 <= i < q.len() - 1 implies m.contains_key(q[i]) && m[q[i]].contains(
            q[i + 1],
        ) by {
            if i > 0 {
                assert(q[i] == p[i - 1]);
                assert(q[i + 1] == p[i]);
            } else {
                assert(q[1] == p[0]);
            }
        }
    }
    assert(q[0] == x && q[q.len() - 1] == y);
}

/// FIRST holds the terminal that starts a production: where a production of `x` begins
/// with terminal `y`, `y` is in FIRST(`x`).
pub proof fn law_first_takes_leading_terminal(t: Tabler, x: usize, j: int, y: usize)
    requires
        t.first_ok(),
        t.grammar.nonterminal(x),
        0 <= j < t.grammar.rule(x).prods@.len(),
        body_of(t.grammar.rule(x), j).len() > 0,
        body_of(t.grammar.rule(x), j)[0] == y,
        !t.grammar.nonterminal(y),
    ensures
        tview(t.first@).contains_key(x),
        tview(t.first@)[x].contains(y),
{
    let m = first_graph(t.grammar);
    assert(first_edge(t.grammar, x, y));
    assert(m[x].contains(y));
    crate::reach::lemma_path_step(m, x, y);
}

/// FIRST takes in the FIRST set of a non-terminal that starts a production: where a
/// production of `x` begins with another non-terminal `z`, FIRST(`z`) is within
/// FIRST(`x`).
pub proof fn law_first_takes_leading_nonterminal(t: Tabler, x: usize, j: int, z: usize, y: usize)
    requires
        t.first_ok(),
        t.grammar.nonterminal(x),
        0 <= j < t.grammar.rule(x).prods@.len(),
        body_of(t.grammar.rule(x), j).len() > 0,
        body_of(t.grammar.rule(x), j)[0] == z,
        z != x,
        t.grammar.nonterminal(z),
        tview(t.first@)[z].contains(y),
    ensures
        tview(t.first@)[x].contains(y),
{
    let m = first_graph(t.grammar);
    assert(first_edge(t.grammar, x, z));
    assert(m[x].contains(z));
    lemma_path_prepend(m, x, z, y);
}

/// FIRST holds terminals only.
pub proof fn law_first_terminals(t: Tabler, x: usize, y: usize)
    requires
        t.first_ok(),
        tview(t.first@).contains_key(x),
        tview(t.first@)[x].contains(y),
    ensures
        !t.grammar.nonterminal(y),
{
}

/// The edges of `m` stay when the FOLLOW edges of a production are added.
proof fn lemma_body_keeps(g: Grammar, f: Map<usize, Set<usize>>, m: Map<usize, Set<usize>>, name: usize, b: Seq<usize>, x: usize, y: usize)
    requires
        m.contains_key(x),
        m[x].contains(y),
    ensures
        add_body_map(g, f, m, name, b).contains_key(x),
        add_body_map(g, f, m, name, b)[x].contains(y),
{
}

/// The edges of `m` stay when the FOLLOW edges of productions `j0..j` of `r` are added.
proof fn lemma_prods_keep(g: Grammar, f: Map<usize, Set<usize>>, m: Map<usize, Set<usize>>, r: Rule, j0: int, j: int, x: usize, y: usize)
    requires
        0 <= j0 <= j,
        add_prods_map(g, f, m, r, j0).contains_key(x),
        add_prods_map(g, f, m, r, j0)[x].contains(y),
    ensures
        add_prods_map(g, f, m, r, j).contains_key(x),
        add_prods_map(g, f, m, r, j)[x].contains(y),
    decreases j - j0,
{
    if j > j0 {
        lemma_prods_keep(g, f, m, r, j0, j - 1, x, y);
        lemma_body_keeps(g, f, add_prods_map(g, f, m, r, j - 1), r.name, body_of(r, j - 1), x, y);
    }
}

/// The edges of the first `i0` rules stay when those of later rules are added.
proof fn lemma_rules_keep(g: Grammar, f: Map<usize, Set<usize>>, i0: int, i: int, x: usize, y: usize)
    requires
        0 <= i0 <= i,
        add_rules_map(g, f, i0).contains_key(x),
        add_rules_map(g, f, i0)[x].contains(y),
    ensures
        add_rules_map(g, f, i).contains_key(x),
        add_rules_map(g, f, i)[x].contains(y),
    decreases i - i0,
{
    if i > i0 {
        lemma_rules_keep(g, f, i0, i - 1, x, y);
        let r = g.rules@[i - 1];
        lemma_prods_keep(g, f, add_rules_map(g, f, i - 1), r, 0, r.prods@.len() as int, x, y);
    }
}

/// An edge that production `j` of rule number `ri` adds is in the FOLLOW graph.
proof fn lemma_body_edge(g: Grammar, f: Map<usize, Set<usize>>, ri: int, j: int, x: usize, y: usize)
    requires
        0 <= ri < g.rules@.len(),
        0 <= j < g.rules@[ri].prods@.len(),
        ({
            let r = g.rules@[ri];
            let m = add_prods_map(g, f, add_rules_map(g, f, ri), r, j);
            let b = body_of(r, j);
            inner_edge(g, f, b, x, y, b.len() as int) || (last_key(g, r.name, b, x) && y == r.name)
        }),
    ensures
        follow_graph(g, f).contains_key(x),
        follow_graph(g, f)[x].contains(y),
{
    let r = g.rules@[ri];
    let m0 = add_rules_map(g, f, ri);
    assert(add_prods_map(g, f, m0, r, j + 1).contains_key(x));
    assert(add_prods_map(g, f, m0, r, j + 1)[x].contains(y));
    lemma_prods_keep(g, f, m0, r, j + 1, r.prods@.len() as int, x, y);
    lemma_rules_keep(g, f, ri + 1, g.rules@.len() as int, x, y);
}

/// The end of input follows the start symbol.
pub proof fn law_follow_start(t: Tabler)
    requires
        t.follow_ok(),
        !t.grammar.nonterminal(t.grammar.eof()),
    ensures
        tview(t.follow@).contains_key(t.grammar.basis.rule),
        tview(t.follow@)[t.grammar.basis.rule].contains(t.grammar.eof()),
{
    let g = t.grammar;
    let f = tview(t.first@);
    let s = g.basis.rule;
    assert(add_rules_map(g, f, 0)[s].contains(g.eof()));
    lemma_rules_keep(g, f, 0, g.rules@.len() as int, s, g.eof());
    crate::reach::lemma_path_step(follow_graph(g, f), s, g.eof());
}

/// A terminal right after a non-terminal in a production follows it.
pub proof fn law_follow_next_terminal(t: Tabler, ri: int, j: int, k: int)
    requires
        t.follow_ok(),
        0 <= ri < t.grammar.rules@.len(),
        0 <= j < t.grammar.rules@[ri].prods@.len(),
        0 <= k,
        k + 1 < body_of(t.grammar.rules@[ri], j).len(),
        t.grammar.nonterminal(body_of(t.grammar.rules@[ri], j)[k]),
        !t.grammar.nonterminal(body_of(t.grammar.rules@[ri], j)[k + 1]),
    ensures
        tview(t.follow@)[body_of(t.grammar.rules@[ri], j)[k]].contains(body_of(t.grammar.rules@[ri], j)[k + 1]),
{
    let g = t.grammar;
    let f = tview(t.first@);
    let b = body_of(g.rules@[ri], j);
    let x = b[k];
    let y = b[k + 1];
    assert(inner_edge(g, f, b, x, y, b.len() as int));
    lemma_body_edge(g, f, ri, j, x, y);
    crate::reach::lemma_path_step(follow_graph(g, f), x, y);
}

/// The FIRST set of a non-terminal right after another in a production follows that
/// other.
pub proof fn law_follow_next_first(t: Tabler, ri: int, j: int, k: int, y: usize)
    requires
        t.follow_ok(),
        t.first_ok(),
        0 <= ri < t.grammar.rules@.len(),
        0 <= j < t.grammar.rules@[ri].prods@.len(),
        0 <= k,
        k + 1 < body_of(t.grammar.rules@[ri], j).len(),
        t.grammar.nonterminal(body_of(t.grammar.rules@[ri], j)[k]),
        t.grammar.nonterminal(body_of(t.grammar.rules@[ri], j)[k + 1]),
        tview(t.first@)[body_of(t.grammar.rules@[ri], j)[k + 1]].contains(y),
    ensures
        tview(t.follow@)[body_of(t.grammar.rules@[ri], j)[k]].contains(y),
{
    let g = t.grammar;
    let f = tview(t.first@);
    let b = body_of(g.rules@[ri], j);
    let x = b[k];
    assert(f.contains_key(b[k + 1]));
    assert(next_follows(g, f, b[k + 1], y));
    assert(inner_edge(g, f, b, x, y, b.len() as int));
    lemma_body_edge(g, f, ri, j, x, y);
    crate::reach::lemma_path_step(follow_graph(g, f), x, y);
}

/// What follows a rule follows the non-terminal that ends one of its productions.
pub proof fn law_follow_last(t: Tabler, ri: int, j: int, y: usize)
    requires
        t.follow_ok(),
        0 <= ri < t.grammar.rules@.len(),
        0 <= j < t.grammar.rules@[ri].prods@.len(),
        body_of(t.grammar.rules@[ri], j).len() > 0,
        t.grammar.nonterminal(body_of(t.grammar.rules@[ri], j).last()),
        body_of(t.grammar.rules@[ri], j).last() != t.grammar.rules@[ri].name,
        tview(t.follow@).contains_key(t.grammar.rules@[ri].name),
        tview(t.follow@)[t.grammar.rules@[ri].name].contains(y),
    ensures
        tview(t.follow@)[body_of(t.grammar.rules@[ri], j).last()].contains(y),
{
    let g = t.grammar;
    let f = tview(t.first@);
    let r = g.rules@[ri];
    let b = body_of(r, j);
    let x = b.last();
    assert(last_key(g, r.name, b, x));
    lemma_body_edge(g, f, ri, j, x, r.name);
    lemma_path_prepend(follow_graph(g, f), x, r.name, y);
}

} // verus!
