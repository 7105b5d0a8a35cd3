//! Reachability in a table read as a graph (an entry `x -> {y, ..}` is a set of
//! edges), and its computation: the least fixpoint behind FIRST and FOLLOW.
use vstd::prelude::*;

use crate::grammar::Grammar;
use crate::symset::{lemma_sorted_no_dup, lemma_sorted_set_is_sorted_by, lemma_subset_len,
    lemma_usize_lt_total, set_contains, set_insert, sorted_set, usize_lt};
use crate::table::{Table, has_key, key_index, lemma_key_unique, table_find, table_put, table_value,
    table_wf, tview};

verus! {

/// `p` is a path of at least one step along the entries of `m`: each symbol but the
/// last has an entry that holds the next one.
pub open spec fn is_path(m: Map<usize, Set<usize>>, p: Seq<usize>) -> bool {
    &&& p.len() >= 2
    &&& forall|i: int|
        #![trigger p[i]]
        0 <= i < p.len() - 1 ==> m.contains_key(p[i]) && m[p[i]].contains(p[i + 1])
}

/// `y` can be reached from `x` in one or more steps.
pub open spec fn derives(m: Map<usize, Set<usize>>, x: usize, y: usize) -> bool {
    exists|p: Seq<usize>| #[trigger] is_path(m, p) && p[0] == x && p[p.len() - 1] == y
}

/// Whether one of the first `n` entries of `t` has key `x`.
pub open spec fn key_among(t: Seq<(usize, Vec<usize>)>, n: int, x: usize) -> bool {
    exists|i2: int| 0 <= i2 < n && #[trigger] t[i2].0 == x
}

/// For every key of `m`, the terminals of `g` that can be reached from it.
pub open spec fn saturated(g: Grammar, m: Map<usize, Set<usize>>) -> Map<usize, Set<usize>> {
    Map::new(
        |x: usize| m.contains_key(x),
        |x: usize| Set::new(|y: usize| derives(m, x, y) && !g.nonterminal(y)),
    )
}

/// Every symbol in the sets of `m` belongs to `u`.
pub open spec fn values_in(m: Map<usize, Set<usize>>, u: Seq<usize>) -> bool {
    forall|w: usize, y: usize| m.contains_key(w) && #[trigger] m[w].contains(y) ==> u.contains(y)
}

/// A single step is a path.
pub proof fn lemma_path_step(m: Map<usize, Set<usize>>, x: usize, y: usize)
    requires
        m.contains_key(x),
        m[x].contains(y),
    ensures
        derives(m, x, y),
{
    let p = seq![x, y];
    assert(is_path(m, p)) by {
        assert forall|i: int| #![trigger p[i]] 0 <= i < p.len() - 1 implies m.contains_key(p[i]) && m[p[i]].contains(
            p[i + 1],
        ) by {
            assert(i == 0);
        }
    }
}

/// One more step after a path is a path.
pub proof fn lemma_path_extend(m: Map<usize, Set<usize>>, x: usize, y: usize, z: usize)
    requires
        derives(m, x, y),
        m.contains_key(y),
        m[y].contains(z),
    ensures
        derives(m, x, z),
{
    let p = choose|p: Seq<usize>| #[trigger] is_path(m, p) && p[0] == x && p[p.len() - 1] == y;
    let q = p.push(z);
    assert(is_path(m, q)) by {
        assert forall|i: int| #![trigger q[i]] 0 <= i < q.len() - 1 implies m.contains_key(q[i]) && m[q[i]].contains(
            q[i + 1],
        ) by {
            if i < p.len() - 1 {
                assert(q[i] == p[i]);
                assert(q[i + 1] == p[i + 1]);
            } else {
                assert(q[i] == y);
                assert(q[i + 1] == z);
            }
        }
    }
    assert(q[0] == x && q[q.len() - 1] == z);
}

/// A set that holds the successors of `x` and is closed under successors holds
/// the end of every path from `x`.
pub proof fn lemma_path_closed(m: Map<usize, Set<usize>>, v: Set<usize>, x: usize, p: Seq<usize>)
    requires
        m[x].subset_of(v),
        forall|a: usize, b: usize|
            v.contains(a) && m.contains_key(a) && #[trigger] m[a].contains(b) ==> v.contains(b),
        is_path(m, p),
        p[0] == x,
    ensures
        v.contains(p[p.len() - 1]),
    decreases p.len(),
{
    if p.len() == 2 {
        assert(p[0] == x);
        assert(m[p[0]].contains(p[1]));
    } else {
        let q = p.drop_last();
        assert(is_path(m, q)) by {
            assert forall|i: int| #![trigger q[i]] 0 <= i < q.len() - 1 implies m.contains_key(q[i]) && m[q[i]].contains(
                q[i + 1],
            ) by {
                assert(q[i] == p[i]);
                assert(q[i + 1] == p[i + 1]);
            }
        }
        lemma_path_closed(m, v, x, q);
        let k = p.len() - 2;
        assert(p[k] == q[q.len() - 1]);
        assert(m[p[k]].contains(p[k + 1]));
        assert(k + 1 == p.len() - 1);
    }
}

/// The symbols reachable from the key of entry `i`.
pub fn reach_set(t: &Table, i: usize, u: &Vec<usize>) -> (r: Vec<usize>)
    requires
        table_wf(t@),
        i < t@.len(),
        sorted_set(u@),
        values_in(tview(t@), u@),
    ensures
        sorted_set(r@),
        forall|y: usize| #[trigger] r@.contains(y) <==> derives(tview(t@), t@[i as int].0, y),
{
    let ghost m = tview(t@);
    let x = t[i].0;
    proof {
        lemma_key_unique(t@, i as int);
    }
    let mut visited = table_value(t, i);
    let mut frontier = table_value(t, i);
    proof {
        lemma_usize_lt_total();
        lemma_sorted_set_is_sorted_by(frontier@);
        lemma_sorted_no_dup(frontier@, |a: usize, b: usize| usize_lt(a, b));
        assert forall|y: usize| #[trigger] visited@.contains(y) implies u@.contains(y) by {
            assert(visited@.to_set().contains(y));
        }
        assert forall|y: usize| m[x].contains(y) implies #[trigger] visited@.contains(y) by {
            assert(visited@.to_set().contains(y));
        }
        assert forall|y: usize| visited@.contains(y) implies derives(m, x, y) by {
            assert(visited@.to_set().contains(y));
            lemma_path_step(m, x, y);
        }
    }
    while frontier.len() > 0
        invariant
            table_wf(t@),
            m == tview(t@),
            m.contains_key(x),
            sorted_set(u@),
            values_in(m, u@),
            sorted_set(visited@),
            frontier@.no_duplicates(),
            forall|y: usize| #[trigger] visited@.contains(y) ==> derives(m, x, y),
            forall|y: usize| m[x].contains(y) ==> #[trigger] visited@.contains(y),
            forall|y: usize| #[trigger] frontier@.contains(y) ==> visited@.contains(y),
            forall|y: usize| #[trigger] visited@.contains(y) ==> u@.contains(y),
            forall|a: usize, b: usize|
                visited@.contains(a) && !frontier@.contains(a) && m.contains_key(a)
                    && #[trigger] m[a].contains(b) ==> visited@.contains(b),
        decreases u@.len() - visited@.len(), frontier@.len(),
    {
        proof {
            lemma_usize_lt_total();
            lemma_sorted_set_is_sorted_by(visited@);
            lemma_sorted_no_dup(visited@, |a: usize, b: usize| usize_lt(a, b));
            lemma_sorted_set_is_sorted_by(u@);
            lemma_sorted_no_dup(u@, |a: usize, b: usize| usize_lt(a, b));
            lemma_subset_len(visited@, u@);
        }
        let ghost fr0 = frontier@;
        let ghost vis0 = visited@;
        let y = frontier.pop().unwrap();
        assert(fr0 =~= frontier@.push(y));
        assert(forall|a: usize| #[trigger] frontier@.contains(a) ==> fr0.contains(a));
        assert(!frontier@.contains(y)) by {
            if frontier@.contains(y) {
                let k = choose|k: int| 0 <= k < frontier@.len() && frontier@[k] == y;
                assert(fr0[k] == fr0[fr0.len() - 1]);
            }
        }
        assert(fr0.contains(y)) by {
            assert(fr0[fr0.len() - 1] == y);
        }
        match table_find(t, y) {
            None => {
                assert(!m.contains_key(y));
            },
            Some(j) => {
                proof {
                    lemma_key_unique(t@, j as int);
                }
                let succ = table_value(t, j);
                let mut k: usize = 0;
                while k < succ.len()
                    invariant
                        table_wf(t@),
                        m == tview(t@),
                        m.contains_key(x),
                        m.contains_key(y),
                        succ@.to_set() == m[y],
                        derives(m, x, y),
                        k <= succ@.len(),
                        sorted_set(u@),
                        values_in(m, u@),
                        sorted_set(visited@),
                        vis0.contains(y),
                        !frontier@.contains(y),
                        frontier@.no_duplicates(),
                        forall|a: usize| #[trigger] vis0.contains(a) ==> visited@.contains(a),
                        visited@.len() >= vis0.len(),
                        visited@.len() == vis0.len() ==> frontier@.len() < fr0.len(),
                        forall|a: usize| #[trigger] visited@.contains(a) ==> derives(m, x, a),
                        forall|a: usize| m[x].contains(a) ==> #[trigger] visited@.contains(a),
                        forall|a: usize| #[trigger] frontier@.contains(a) ==> visited@.contains(a),
                        forall|a: usize| #[trigger] visited@.contains(a) ==> u@.contains(a),
                        forall|q: int| 0 <= q < k ==> visited@.contains(#[trigger] succ@[q]),
                        forall|a: usize, b: usize|
                            visited@.contains(a) && !frontier@.contains(a) && a != y
                                && m.contains_key(a) && #[trigger] m[a].contains(b)
                                ==> visited@.contains(b),
                    decreases succ@.len() - k,
                {
                    let z = succ[k];
                    assert(m[y].contains(z));
                    if !set_contains(&visited, z) {
                        let ghost vb = visited@;
                        set_insert(&mut visited, z);
                        proof {
                            lemma_usize_lt_total();
                            lemma_sorted_set_is_sorted_by(visited@);
                            lemma_sorted_no_dup(visited@, |a: usize, b: usize| usize_lt(a, b));
                            lemma_sorted_set_is_sorted_by(vb);
                            lemma_sorted_no_dup(vb, |a: usize, b: usize| usize_lt(a, b));
                            crate::symset::lemma_strict_superset_longer(visited@, vb);
                            lemma_path_extend(m, x, y, z);
                        }
                        let ghost fb = frontier@;
                        frontier.push(z);
                        assert forall|a: usize| #[trigger] frontier@.contains(a) implies (fb.contains(a)
                            || a == z) by {
                            if frontier@.contains(a) {
                                let q = choose|q: int| 0 <= q < frontier@.len() && frontier@[q] == a;
                                if q < fb.len() {
                                    assert(fb[q] == a);
                                }
                            }
                        }
                        assert forall|a: usize| #[trigger] fb.contains(a) implies frontier@.contains(a) by {
                            if fb.contains(a) {
                                let q = choose|q: int| 0 <= q < fb.len() && fb[q] == a;
                                assert(frontier@[q] == a);
                            }
                        }
                        assert forall|a: usize, b: usize|
                            visited@.contains(a) && !frontier@.contains(a) && a != y
                                && m.contains_key(a) && #[trigger] m[a].contains(b)
                                implies visited@.contains(b) by {
                            assert(frontier@[frontier@.len() - 1] == z);
                            assert(frontier@.contains(z));
                            assert(vb.contains(a));
                            assert(!fb.contains(a));
                        }
                        assert(frontier@.no_duplicates()) by {
                            assert(!fb.contains(z));
                            assert forall|p: int, q: int|
                                0 <= p < frontier@.len() && 0 <= q < frontier@.len() && p != q
                                    implies frontier@[p] != frontier@[q] by {
                                if p < fb.len() && q < fb.len() {
                                    assert(fb[p] != fb[q]);
                                } else if p < fb.len() {
                                    assert(fb.contains(fb[p]));
                                } else if q < fb.len() {
                                    assert(fb.contains(fb[q]));
                                }
                            }
                        }
                    }
                    k = k + 1;
                }
                assert forall|b: usize| #[trigger] m[y].contains(b) implies visited@.contains(b) by {
                    assert(succ@.to_set().contains(b));
                    let q = choose|q: int| 0 <= q < succ@.len() && succ@[q] == b;
                }
            },
        }
        proof {
            lemma_usize_lt_total();
            lemma_sorted_set_is_sorted_by(visited@);
            lemma_sorted_no_dup(visited@, |a: usize, b: usize| usize_lt(a, b));
            lemma_subset_len(visited@, u@);
        }
    }
    proof {
        let vs = visited@.to_set();
        assert forall|y: usize| derives(m, x, y) implies #[trigger] visited@.contains(y) by {
            let p = choose|p: Seq<usize>| #[trigger] is_path(m, p) && p[0] == x && p[p.len() - 1] == y;
            assert forall|a: usize, b: usize|
                vs.contains(a) && m.contains_key(a) && #[trigger] m[a].contains(b) implies vs.contains(b) by {
                assert(visited@.contains(a));
            }
            assert(m[x].subset_of(vs)) by {
                assert forall|a: usize| m[x].contains(a) implies vs.contains(a) by {
                    assert(visited@.contains(a));
                }
            }
            lemma_path_closed(m, vs, x, p);
        }
    }
    visited
}

/// The table that maps every key of `t` to the terminals of `g` reachable from it.
pub fn saturate(g: &Grammar, t: &Table) -> (r: Table)
    requires
        g.wf(),
        table_wf(t@),
        values_in(tview(t@), g.symbols@),
    ensures
        table_wf(r@),
        tview(r@) == saturated(*g, tview(t@)),
{
    let ghost m = tview(t@);
    let mut r: Table = Vec::new();
    let mut i: usize = 0;
    while i < t.len()
        invariant
            i <= t.len(),
            g.wf(),
            table_wf(t@),
            m == tview(t@),
            values_in(m, g.symbols@),
            table_wf(r@),
            tview(r@) == Map::new(
                |x: usize| key_among(t@, i as int, x),
                |x: usize| Set::new(|y: usize| derives(m, x, y) && !g.nonterminal(y)),
            ),
        decreases t.len() - i,
    {
        let reach = reach_set(t, i, &g.symbols);
        let mut terms: Vec<usize> = Vec::new();
        let mut k: usize = 0;
        while k < reach.len()
            invariant
                k <= reach.len(),
                g.wf(),
                sorted_set(terms@),
                forall|y: usize|
                    #[trigger] terms@.contains(y) <==> (reach@.subrange(0, k as int).contains(y)
                        && !g.nonterminal(y)),
            decreases reach.len() - k,
        {
            let ghost pre = reach@.subrange(0, k as int);
            let ghost post = reach@.subrange(0, k + 1);
            assert(post =~= pre.push(reach@[k as int]));
            if g.is_terminal(reach[k]) {
                set_insert(&mut terms, reach[k]);
            }
            assert forall|y: usize|
                #[trigger] terms@.contains(y) <==> (post.contains(y) && !g.nonterminal(y)) by {
                assert(post[k as int] == reach@[k as int]);
                if pre.contains(y) {
                    let q = choose|q: int| 0 <= q < pre.len() && pre[q] == y;
                    assert(post[q] == y);
                }
                if post.contains(y) {
                    let q = choose|q: int| 0 <= q < post.len() && post[q] == y;
                    if q < k {
                        assert(pre[q] == y);
                    }
                }
            }
            k = k + 1;
        }
        assert(reach@.subrange(0, reach@.len() as int) =~= reach@);
        let ghost ts = terms@;
        let key = t[i].0;
        table_put(&mut r, key, terms);
        proof {
            lemma_key_unique(t@, i as int);
        }
        assert(tview(r@) =~= Map::new(
            |x: usize| key_among(t@, i + 1, x),
            |x: usize| Set::new(|y: usize| derives(m, x, y) && !g.nonterminal(y)),
        )) by {
            assert forall|x: usize|
                #[trigger] key_among(t@, i + 1, x) <==> (key_among(t@, i as int, x) || x == key) by {
                if x == key {
                    assert(t@[i as int].0 == x);
                }
                if key_among(t@, i + 1, x) {
                    let i2 = choose|i2: int| 0 <= i2 < i + 1 && #[trigger] t@[i2].0 == x;
                    if i2 < i {
                        assert(t@[i2].0 == x);
                    }
                }
            }
            assert(ts.to_set() =~= Set::new(|y: usize| derives(m, key, y) && !g.nonterminal(y)));
        }
        i = i + 1;
    }
    assert(tview(r@) =~= saturated(*g, m)) by {
        assert forall|x: usize| #[trigger] key_among(t@, t@.len() as int, x) <==> m.contains_key(x) by {
            if m.contains_key(x) {
                assert(has_key(t@, x));
                let i2 = key_index(t@, x);
                assert(t@[i2].0 == x);
            }
        }
    }
    r
}

} // verus!
