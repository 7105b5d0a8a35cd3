//! Merging the equal rows of an action table, as `reduce_equals` does, renames states
//! without changing what a run of the table does.
use vstd::prelude::*;

use crate::action::{ActionView, Row, refs_below, remap, row_wf, rview};
use crate::dfa::{DfaView, ErrorView, StepOut, accepts, act_view, next_sym, rows_wf, run_spec,
    start_cfg, travel_spec, tstep, vget, vhas};
use crate::tabler::{dedup, dedup_onto, dedup_ordered, hit, reduced, remap_row, table_closed};

verus! {

/// No two entries of the row have the same symbol.
pub open spec fn keys_distinct(r: Seq<(usize, ActionView)>) -> bool {
    forall|a: int, b: int| 0 <= a < b < r.len() ==> #[trigger] r[a].0 != #[trigger] r[b].0
}

/// In a row whose symbols are distinct, the action found for the symbol of entry `i`
/// is the action of that entry.
proof fn lemma_vget_at(r: Seq<(usize, ActionView)>, i: int)
    requires
        keys_distinct(r),
        0 <= i < r.len(),
    ensures
        vhas(r, r[i].0),
        vget(r, r[i].0) == r[i].1,
{
    let x = r[i].0;
    assert(r[i].0 == x);
    let c = choose|c: int| 0 <= c < r.len() && #[trigger] r[c].0 == x;
    if c < i {
        assert(r[c].0 != r[i].0);
    } else if c > i {
        assert(r[i].0 != r[c].0);
    }
}

/// Renaming the states of a row keeps its symbols, and the action found for a symbol is
/// the renamed action.
proof fn lemma_remap_row(r: Seq<(usize, ActionView)>, travel: Seq<usize>, x: usize)
    requires
        keys_distinct(r),
    ensures
        keys_distinct(remap_row(r, travel)),
        vhas(remap_row(r, travel), x) == vhas(r, x),
        remap_row(r, travel).map_values(|e: (usize, ActionView)| e.0) == r.map_values(|e: (usize, ActionView)| e.0),
        vhas(r, x) ==> vget(remap_row(r, travel), x) == remap(vget(r, x), travel),
{
    let s = remap_row(r, travel);
    assert forall|a: int, b: int| 0 <= a < b < s.len() implies #[trigger] s[a].0 != #[trigger] s[b].0 by {
        assert(s[a].0 == r[a].0 && s[b].0 == r[b].0);
    }
    if vhas(r, x) {
        let i = choose|i: int| 0 <= i < r.len() && #[trigger] r[i].0 == x;
        assert(s[i].0 == x);
        lemma_vget_at(r, i);
        lemma_vget_at(s, i);
    } else if vhas(s, x) {
        let i = choose|i: int| 0 <= i < s.len() && #[trigger] s[i].0 == x;
        assert(r[i].0 == x);
    }
    assert(s.map_values(|e: (usize, ActionView)| e.0) =~= r.map_values(|e: (usize, ActionView)| e.0));
}

/// An error with the states its actions name renamed.
pub open spec fn remap_err(e: ErrorView, travel: Seq<usize>) -> ErrorView {
    match e {
        ErrorView::Conflict(a, b) => ErrorView::Conflict(remap(a, travel), remap(b, travel)),
        _ => e,
    }
}

/// A run outcome with the states its error names renamed.
pub open spec fn remap_res(r: Result<(), ErrorView>, travel: Seq<usize>) -> Result<(), ErrorView> {
    match r {
        Ok(()) => Ok(()),
        Err(e) => Err(remap_err(e, travel)),
    }
}

/// `c2` is configuration `c` of the old table with its states renamed; the states of
/// `c` are states of the old table.
pub open spec fn renamed(c: DfaView, c2: DfaView, travel: Seq<usize>, n: int) -> bool {
    &&& c.top < n
    &&& forall|i: int| 0 <= i < c.states.len() ==> #[trigger] c.states[i] < n
    &&& c2.states == c.states.map_values(|s: usize| travel[s as int])
    &&& c2.top == travel[c.top as int]
    &&& c2.input == c.input
    &&& c2.tys == c.tys
    &&& c2.finished == c.finished
}

/// Row `j` of the new table is row `j` of the old one's copy, renamed; the rows of the
/// old table have distinct symbols and name its own states.
pub open spec fn tables_renamed(t: Seq<Seq<(usize, ActionView)>>, u: Seq<Seq<(usize, ActionView)>>, travel: Seq<usize>) -> bool {
    &&& travel.len() == t.len()
    &&& forall|j: int| 0 <= j < t.len() ==> #[trigger] travel[j] < u.len() && u[travel[j] as int] == remap_row(t[j], travel)
    &&& forall|j: int| 0 <= j < t.len() ==> keys_distinct(#[trigger] t[j])
    &&& forall|j: int, e: int| #![trigger t[j][e]] 0 <= j < t.len() && 0 <= e < t[j].len() ==> refs_below(t[j][e].1, t.len() as int)
}

/// One action of the new table from a renamed configuration is the renamed action of the
/// old table, and leaves a renamed configuration.
proof fn lemma_step_renamed(
    t: Seq<Seq<(usize, ActionView)>>,
    u: Seq<Seq<(usize, ActionView)>>,
    travel: Seq<usize>,
    c: DfaView,
    c2: DfaView,
    sym: usize,
)
    requires
        tables_renamed(t, u, travel),
        renamed(c, c2, travel, t.len() as int),
    ensures
        ({
            let (c1, o) = tstep(t, c, sym);
            let (d1, o2) = tstep(u, c2, sym);
            &&& o2 == (match o {
                StepOut::Fail(e) => StepOut::Fail(remap_err(e, travel)),
                _ => o,
            })
            &&& !(o is Fail) ==> renamed(c1, d1, travel, t.len() as int)
        }),
{
    let top = c.top as int;
    let r = t[top];
    lemma_remap_row(r, travel, sym);
    assert(u[c2.top as int] == remap_row(r, travel));
    let (c1, o) = tstep(t, c, sym);
    let (d1, o2) = tstep(u, c2, sym);
    if vhas(r, sym) {
        let i = choose|i: int| 0 <= i < r.len() && #[trigger] r[i].0 == sym;
        lemma_vget_at(r, i);
        assert(refs_below(t[top][i].1, t.len() as int));
        let len = c.states.len() as int;
        match vget(r, sym) {
            ActionView::Shift(k) => {
                if c.input.len() > 0 {
                    assert(c1.states.map_values(|s: usize| travel[s as int]) =~= d1.states);
                }
            },
            ActionView::Goto(k) => {
                assert(c1.states.map_values(|s: usize| travel[s as int]) =~= d1.states);
            },
            ActionView::Reduce(name, body, index) => {
                let n = body.len() as int;
                if !(c.tys.len() < n || c.states.len() < n + 1) {
                    assert(c1.states.map_values(|s: usize| travel[s as int]) =~= d1.states);
                    assert(c.states[len - n - 1] < t.len());
                }
            },
            _ => {},
        }
    }
}

/// Travelling over the new table from a renamed configuration ends as travelling over
/// the old one does, renamed.
proof fn lemma_travel_renamed(
    t: Seq<Seq<(usize, ActionView)>>,
    u: Seq<Seq<(usize, ActionView)>>,
    travel: Seq<usize>,
    c: DfaView,
    c2: DfaView,
    sym: usize,
    fuel: nat,
)
    requires
        tables_renamed(t, u, travel),
        renamed(c, c2, travel, t.len() as int),
    ensures
        ({
            let (c1, r) = travel_spec(t, c, sym, fuel);
            let (d1, r2) = travel_spec(u, c2, sym, fuel);
            &&& r2 == remap_res(r, travel)
            &&& r is Ok ==> renamed(c1, d1, travel, t.len() as int)
        }),
    decreases fuel,
{
    lemma_step_renamed(t, u, travel, c, c2, sym);
    let (c1, o) = tstep(t, c, sym);
    let (d1, o2) = tstep(u, c2, sym);
    if let StepOut::Again(name) = o {
        if fuel > 0 {
            lemma_travel_renamed(t, u, travel, c1, d1, name, (fuel - 1) as nat);
        }
    }
}

/// A run over the new table from a renamed configuration ends as a run over the old one
/// does, renamed: same outcome up to renaming, same items and input left.
proof fn lemma_run_renamed(
    t: Seq<Seq<(usize, ActionView)>>,
    u: Seq<Seq<(usize, ActionView)>>,
    travel: Seq<usize>,
    eof: usize,
    c: DfaView,
    c2: DfaView,
    fuel: nat,
)
    requires
        tables_renamed(t, u, travel),
        renamed(c, c2, travel, t.len() as int),
    ensures
        ({
            let (c1, r) = run_spec(t, eof, c, fuel);
            let (d1, r2) = run_spec(u, eof, c2, fuel);
            &&& r2 == remap_res(r, travel)
            &&& d1.tys == c1.tys
            &&& d1.input == c1.input
            &&& d1.finished == c1.finished
        }),
    decreases fuel,
{
    if !c.finished && fuel > 0 {
        let sym = next_sym(c, eof);
        assert(next_sym(c2, eof) == sym);
        lemma_travel_renamed(t, u, travel, c, c2, sym, usize::MAX as nat);
        let (c1, r) = travel_spec(t, c, sym, usize::MAX as nat);
        let (d1, r2) = travel_spec(u, c2, sym, usize::MAX as nat);
        if r is Ok {
            lemma_run_renamed(t, u, travel, eof, c1, d1, (fuel - 1) as nat);
        } else {
            lemma_step_renamed(t, u, travel, c, c2, sym);
            lemma_travel_fail_keeps(t, u, travel, c, c2, sym, usize::MAX as nat);
        }
    }
}

/// A travel that fails over the old table leaves the items and the input as the one over
/// the new table does.
proof fn lemma_travel_fail_keeps(
    t: Seq<Seq<(usize, ActionView)>>,
    u: Seq<Seq<(usize, ActionView)>>,
    travel: Seq<usize>,
    c: DfaView,
    c2: DfaView,
    sym: usize,
    fuel: nat,
)
    requires
        tables_renamed(t, u, travel),
        renamed(c, c2, travel, t.len() as int),
    ensures
        ({
            let (c1, r) = travel_spec(t, c, sym, fuel);
            let (d1, r2) = travel_spec(u, c2, sym, fuel);
            &&& d1.tys == c1.tys
            &&& d1.input == c1.input
            &&& d1.finished == c1.finished
        }),
    decreases fuel,
{
    lemma_step_renamed(t, u, travel, c, c2, sym);
    let (c1, o) = tstep(t, c, sym);
    if let StepOut::Again(name) = o {
        let (d1, o2) = tstep(u, c2, sym);
        if fuel > 0 {
            lemma_travel_fail_keeps(t, u, travel, c1, d1, name, (fuel - 1) as nat);
        }
    }
}

/// The first row of the old table is kept first.
proof fn lemma_travel_first(travel: Seq<usize>, n: int)
    requires
        travel.len() > 0,
        n > 0,
        forall|a: int| 0 <= a < travel.len() ==> #[trigger] travel[a] < n,
        dedup_onto(travel, n),
        dedup_ordered(travel),
    ensures
        travel[0] == 0,
{
    reveal(dedup_onto);
    reveal(dedup_ordered);
    if travel[0] != 0 {
        assert(hit(travel, 0));
        let a = choose|a: int| 0 <= a < travel.len() && #[trigger] travel[a] == 0;
        lemma_no_later_zero(travel, a);
    }
}

/// With rows numbered in order of first appearance and a first row other than 0, no
/// later row is numbered 0.
proof fn lemma_no_later_zero(travel: Seq<usize>, a: int)
    requires
        0 < a < travel.len(),
        travel[0] != 0,
        forall|x: int|
            #![trigger travel[x]]
            0 <= x < travel.len() && (forall|k: int| 0 <= k < x ==> #[trigger] travel[k] != travel[x])
                ==> (forall|k: int| 0 <= k < x ==> #[trigger] travel[k] < travel[x]),
    ensures
        travel[a] != 0,
    decreases a,
{
    if travel[a] == 0 {
        if exists|k: int| 0 <= k < a && #[trigger] travel[k] == travel[a] {
            let k = choose|k: int| 0 <= k < a && #[trigger] travel[k] == travel[a];
            lemma_no_later_zero(travel, k);
        } else {
            assert(travel[0] < travel[a]);
        }
    }
}

/// Merging the equal rows of a table whose rows have increasing symbols and name its own
/// states, as [`reduced`] says, changes no run: a run of the new table over any input
/// ends as that of the old table does, with the states that an error names renamed, the
/// same items and the same input left. So both tables accept the same inputs.
pub proof fn law_merged_rows_run_alike(old: Seq<Row>, travel: Seq<usize>, new: Seq<Row>, eof: usize, input: Seq<usize>)
    requires
        reduced(old, travel, new),
        rows_wf(old),
        table_closed(old),
    ensures
        ({
            let (c, r) = run_spec(act_view(old), eof, start_cfg(input), usize::MAX as nat);
            let (c2, r2) = run_spec(act_view(new), eof, start_cfg(input), usize::MAX as nat);
            &&& r2 == remap_res(r, travel)
            &&& c2.tys == c.tys
            &&& c2.input == c.input
        }),
        accepts(act_view(new), eof, input) == accepts(act_view(old), eof, input),
{
    let d = choose|d: Seq<Row>|
        #[trigger] dedup(old, travel, d) && d.len() == new.len() && forall|j: int|
            0 <= j < new.len() ==> #[trigger] rview(new[j]) == remap_row(rview(d[j]), travel);
    let t = act_view(old);
    let u = act_view(new);
    let c0 = start_cfg(input);
    if old.len() == 0 {
        crate::tabler::law_dedup_no_more_rows(old, travel, d);
        assert(tstep(t, c0, next_sym(c0, eof)).1 == StepOut::Fail(ErrorView::StateNotSpecified));
        assert(tstep(u, c0, next_sym(c0, eof)).1 == StepOut::Fail(ErrorView::StateNotSpecified));
    } else {
        assert forall|j: int| 0 <= j < t.len() implies #[trigger] travel[j] < u.len() && u[travel[j] as int] == remap_row(
            t[j],
            travel,
        ) by {
            assert(travel[j] < d.len() && rview(d[travel[j] as int]) == rview(old[j]));
        }
        assert forall|j: int| 0 <= j < t.len() implies keys_distinct(#[trigger] t[j]) by {
            assert(row_wf(old[j]@));
        }
        assert forall|j: int, e: int| #![trigger t[j][e]] 0 <= j < t.len() && 0 <= e < t[j].len() implies refs_below(
            t[j][e].1,
            t.len() as int,
        ) by {
            assert(refs_below(old[j]@[e].1@, old.len() as int));
        }
        assert forall|a: int| 0 <= a < travel.len() implies #[trigger] travel[a] < d.len() by {}
        assert(travel[0] < d.len());
        lemma_travel_first(travel, d.len() as int);
        assert(c0.states.map_values(|s: usize| travel[s as int]) =~= c0.states);
        lemma_run_renamed(t, u, travel, eof, c0, c0, usize::MAX as nat);
    }
}

} // verus!
