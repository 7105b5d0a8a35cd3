//! Canonical LR(1) parsers: every item carries its own lookaheads, and states are
//! never merged.
use vstd::prelude::*;

use crate::Token;
use crate::action::{Row, row_wf, rview};
use crate::decide::{actions_match, build_actions, decision_entries, decision_row,
    lemma_actions_rows_wf, lemma_automaton_ready, lemma_row_actions_same, looks_of, rmap,
    row_actions};
use crate::dfa::{Dfa, Empty, Error, ErrorView, Reductor, accepts, act_view, parsed_value, rows_wf, run_spec,
    start_cfg, tys_of};
use crate::grammar::Grammar;
use crate::lr::{automaton, build_states, closes, closure_items, closure_step, first_row,
    goto_items, goto_set, has_kernel, items, kernel_at, kernel_find, kernel_state, kernels_wf,
    lemma_kernel_at_unique, prop_closure_items};
use crate::parser::{queue_of, table_dfa, table_parse, table_validate};
use crate::pos::{Position, PositionView, copy_syms, peek_spec, views};
use crate::state::{State, wf_state};
use crate::symset::sorted_set;
use crate::table::{table_wf, tview};
use crate::tabler::Tabler;
use std::collections::VecDeque;

verus! {

/// A canonical LR(1) parser: its tables.
#[derive(Debug)]
pub struct Clr {
    pub table: Tabler,
}

/// The LR(1) tables of a grammar are complete: FIRST and FOLLOW, the canonical
/// collection of LR(1) item sets, and one action row per state.
pub open spec fn clr_built(t: Tabler) -> bool {
    &&& t.grammar.wf()
    &&& t.first_ok()
    &&& t.follow_ok()
    &&& automaton(t.grammar, tview(t.first@), true, t.states@, t.kernels@)
    &&& actions_match(t, true, None)
}

impl Clr {
    /// The parser of `grammar`.
    pub fn new(grammar: Grammar) -> (p: Self)
        requires
            grammar.wf(),
        ensures
            p.table.grammar == grammar,
            clr_built(p.table),
    {
        Self::with_table(Tabler::new(grammar))
    }

    /// The parser whose FIRST and FOLLOW sets are those of `table`, with its
    /// automaton and actions built.
    pub fn with_table(table: Tabler) -> (p: Self)
        requires
            table.grammar.wf(),
            table.first_ok(),
            table.follow_ok(),
            table.states@.len() == 0,
            table.kernels@.len() == 0,
            table.actions@.len() == 0,
        ensures
            p.table.grammar == table.grammar,
            p.table.first == table.first,
            p.table.follow == table.follow,
            clr_built(p.table),
    {
        let mut parser = Self::uninit(table);
        parser.proc_actions();
        parser
    }

    /// The parser holding `table` as it is.
    pub fn uninit(table: Tabler) -> (p: Self)
        ensures
            p.table == table,
    {
        Clr { table }
    }

    /// Merges equal rows of the parser's action table and renames the states they name,
    /// as [`Tabler::reduce_equals`] does.
    pub fn reduce_equals(&mut self)
        requires
            crate::tabler::table_closed(old(self).table.actions@),
        ensures
            final(self).table.grammar == old(self).table.grammar,
            final(self).table.first == old(self).table.first,
            final(self).table.follow == old(self).table.follow,
            final(self).table.states == old(self).table.states,
            final(self).table.kernels == old(self).table.kernels,
            final(self).table.actions@.len() <= old(self).table.actions@.len(),
            exists|travel: Seq<usize>|
                #[trigger] travel.len() == old(self).table.actions@.len() && crate::tabler::reduced(
                    old(self).table.actions@,
                    travel,
                    final(self).table.actions@,
                ),
    {
        self.table.reduce_equals();
    }

    /// The parser's tables.
    pub fn tables(&self) -> (t: &Tabler)
        ensures
            *t == self.table,
    {
        &self.table
    }

    /// Pushes the start state and maps the empty kernel to state 0.
    pub fn proc_closures_first_row(&mut self)
        requires
            old(self).table.grammar.wf(),
            table_wf(old(self).table.first@),
            kernels_wf(old(self).table.kernels@),
        ensures
            final(self).table.grammar == old(self).table.grammar,
            final(self).table.first == old(self).table.first,
            final(self).table.follow == old(self).table.follow,
            final(self).table.actions == old(self).table.actions,
            final(self).table.states@.len() == old(self).table.states@.len() + 1,
            forall|j: int|
                0 <= j < old(self).table.states@.len() ==> #[trigger] final(self).table.states@[j]
                    == old(self).table.states@[j],
            closes(
                old(self).table.grammar,
                tview(old(self).table.first@),
                true,
                set![old(self).table.grammar.basis@],
                items(final(self).table.states@[old(self).table.states@.len() as int]@),
            ),
            !has_kernel(old(self).table.kernels@, Set::<PositionView>::empty()) ==> final(self).table.kernels@.len() == old(self).table.kernels@.len() + 1 && items(
                final(self).table.kernels@[old(self).table.kernels@.len() as int].0@,
            ) == Set::<PositionView>::empty() && final(self).table.kernels@[old(self).table.kernels@.len() as int].1 == 0 && forall|j: int|
                0 <= j < old(self).table.kernels@.len() ==> #[trigger] final(self).table.kernels@[j]
                    == old(self).table.kernels@[j],
            has_kernel(old(self).table.kernels@, Set::<PositionView>::empty()) ==> exists|e: int|
                kernel_at(old(self).table.kernels@, Set::<PositionView>::empty(), e) && final(self).table.kernels@ == old(self).table.kernels@.update(
                    e,
                    (old(self).table.kernels@[e].0, 0usize),
                ),
    {
        first_row(&mut self.table, true);
    }

    /// Builds the states, then the action table.
    pub fn proc_actions(&mut self)
        requires
            old(self).table.grammar.wf(),
            table_wf(old(self).table.first@),
            old(self).table.states@.len() == 0,
            old(self).table.kernels@.len() == 0,
        ensures
            final(self).table.grammar == old(self).table.grammar,
            final(self).table.first == old(self).table.first,
            final(self).table.follow == old(self).table.follow,
            automaton(
                final(self).table.grammar,
                tview(final(self).table.first@),
                true,
                final(self).table.states@,
                final(self).table.kernels@,
            ),
            final(self).table.actions@.len() == old(self).table.actions@.len()
                + final(self).table.states@.len(),
            forall|i: int|
                0 <= i < old(self).table.actions@.len() ==> #[trigger] final(self).table.actions@[i]
                    == old(self).table.actions@[i],
            forall|i: int|
                0 <= i < final(self).table.states@.len() ==> row_wf(
                    #[trigger] final(self).table.actions@[old(self).table.actions@.len() + i]@,
                ) && rmap(final(self).table.actions@[old(self).table.actions@.len() + i]@)
                    == row_actions(
                    final(self).table,
                    true,
                    None,
                    final(self).table.states@[i]@,
                    final(self).table.states@[i]@.len() as int,
                ),
            old(self).table.actions@.len() == 0 ==> actions_match(final(self).table, true, None),
    {
        self.proc_closures();
        let ghost t1 = self.table;
        proof {
            lemma_automaton_ready(
                self.table.grammar,
                tview(self.table.first@),
                true,
                self.table.states@,
                self.table.kernels@,
            );
        }
        build_actions(&mut self.table, true, None);
        proof {
            let t2 = self.table;
            assert forall|i: int| 0 <= i < t2.states@.len() implies row_actions(
                t1,
                true,
                None,
                t2.states@[i]@,
                t2.states@[i]@.len() as int,
            ) == row_actions(t2, true, None, t2.states@[i]@, t2.states@[i]@.len() as int) by {
                lemma_row_actions_same(t1, t2, true, None, t2.states@[i]@, t2.states@[i]@.len() as int);
            }
            if old(self).table.actions@.len() == 0 {
                assert forall|i: int| 0 <= i < t2.states@.len() implies row_wf(#[trigger] t2.actions@[i]@)
                    && rmap(t2.actions@[i]@) == row_actions(
                    t2,
                    true,
                    None,
                    t2.states@[i]@,
                    t2.states@[i]@.len() as int,
                ) by {
                    assert(t2.actions@[0 + i] == t2.actions@[i]);
                }
            }
        }
    }

    /// One closure step on `state`: the items its items spawn, with their lookaheads,
    /// and its own items.
    pub fn closure(&self, state: State) -> (r: State)
        requires
            self.table.grammar.wf(),
            table_wf(self.table.first@),
        ensures
            wf_state(r@),
            items(r@) == closure_step(self.table.grammar, tview(self.table.first@), true, items(state@)),
    {
        closure_items(&self.table, &state, true)
    }

    /// Builds the canonical collection of LR(1) item sets of a table that has none yet.
    pub fn proc_closures(&mut self)
        requires
            old(self).table.grammar.wf(),
            table_wf(old(self).table.first@),
            old(self).table.states@.len() == 0,
            old(self).table.kernels@.len() == 0,
        ensures
            final(self).table.grammar == old(self).table.grammar,
            final(self).table.first == old(self).table.first,
            final(self).table.follow == old(self).table.follow,
            final(self).table.actions == old(self).table.actions,
            automaton(
                final(self).table.grammar,
                tview(final(self).table.first@),
                true,
                final(self).table.states@,
                final(self).table.kernels@,
            ),
    {
        build_states(&mut self.table, true);
    }

    /// The kernel of moving over `sym` from `kernels`, and its propagated closure,
    /// unless that kernel is already known or empty.
    pub fn goto(&self, kernels: &State, sym: usize) -> (r: Option<(State, State)>)
        requires
            self.table.grammar.wf(),
            table_wf(self.table.first@),
            kernels_wf(self.table.kernels@),
        ensures
            r is None <==> (has_kernel(self.table.kernels@, goto_set(items(kernels@), sym)) || goto_set(
                items(kernels@),
                sym,
            ) == Set::<PositionView>::empty()),
            match r {
                Some((k, c)) => {
                    &&& wf_state(k@)
                    &&& wf_state(c@)
                    &&& items(k@) == goto_set(items(kernels@), sym)
                    &&& closes(self.table.grammar, tview(self.table.first@), true, items(k@), items(c@))
                },
                None => true,
            },
    {
        goto_items(&self.table, kernels, sym, true)
    }

    /// The actions of item `pos` of state `row`: its reduction (or acceptance, for the
    /// rule `entry_point`) on each of its lookaheads when it is finished, else the move
    /// over its next symbol.
    pub fn decision(&self, entry_point: usize, pos: &Position, row: &State) -> (r: Row)
        requires
            self.table.grammar.wf(),
            kernels_wf(self.table.kernels@),
            peek_spec(pos@, 0) is None ==> sorted_set(pos@.look),
            forall|top: usize|
                peek_spec(pos@, 0) == Some(top) ==> has_kernel(self.table.kernels@, goto_set(items(row@), top)),
        ensures
            row_wf(r@),
            rview(r) == decision_entries(
                self.table.grammar,
                entry_point,
                self.table.kernels@,
                None,
                items(row@),
                pos@,
                looks_of(self.table.follow@, true, pos@),
            ),
    {
        let looks = copy_syms(&pos.look);
        decision_row(&self.table, entry_point, pos, row, &looks, None)
    }

    /// Applies closure steps to `seed` until one changes nothing.
    pub fn prop_closure(&self, seed: State) -> (r: State)
        requires
            self.table.grammar.wf(),
            table_wf(self.table.first@),
            wf_state(seed@),
        ensures
            wf_state(r@),
            closes(self.table.grammar, tview(self.table.first@), true, items(seed@), items(r@)),
    {
        prop_closure_items(&self.table, seed, true)
    }

    /// The kernel that stands for `kernel` in the table: `kernel` itself, as this
    /// parser keeps every kernel it finds.
    pub fn final_kernel(&self, kernel: &State) -> (r: Option<State>)
        ensures
            r matches Some(k) && views(k@) == views(kernel@),
    {
        Some(crate::state::state_copy(kernel))
    }

    /// The state whose kernel holds the items of `kernel`, if there is one.
    pub fn state_from_kernel(&self, kernel: &State) -> (r: Option<usize>)
        requires
            kernels_wf(self.table.kernels@),
            wf_state(kernel@),
        ensures
            r == (if has_kernel(self.table.kernels@, items(kernel@)) {
                Some(kernel_state(self.table.kernels@, items(kernel@)))
            } else {
                None
            }),
    {
        match kernel_find(&self.table.kernels, kernel) {
            Some(j) => {
                proof {
                    lemma_kernel_at_unique(self.table.kernels@, items(kernel@), j as int);
                }
                Some(self.table.kernels[j].1)
            },
            None => None,
        }
    }
    /// An automaton running this parser's action table over `buffer`.
    pub fn dfa<T, R: Reductor<T>>(&self, buffer: VecDeque<Token<T, usize>>, maps: R) -> (d: Dfa<T, R>)
        requires
            self.table.grammar.wf(),
        ensures
            d.cfg() == start_cfg(tys_of(buffer@)),
            d.buffer@ == buffer@,
            act_view(d.table@) == act_view(self.table.actions@),
            rows_wf(self.table.actions@) ==> rows_wf(d.table@),
            d.eof == self.table.grammar.eof(),
            d.reductors == maps,
    {
        table_dfa(&self.table, buffer, maps)
    }

    /// An automaton over symbol-only tokens.
    pub fn simple_dfa(&self, buffer: Vec<Token<(), usize>>) -> (d: Dfa<(), Empty>)
        requires
            self.table.grammar.wf(),
        ensures
            d.cfg() == start_cfg(tys_of(buffer@)),
            act_view(d.table@) == act_view(self.table.actions@),
            rows_wf(self.table.actions@) ==> rows_wf(d.table@),
            d.eof == self.table.grammar.eof(),
    {
        table_dfa(&self.table, queue_of(buffer), Empty)
    }

    /// Parses `buffer`, with `maps` giving reduced items their values, and returns the
    /// value of the item left on top when the input is accepted.
    pub fn parse<T, R: Reductor<T>>(&self, buffer: Vec<Token<T, usize>>, maps: R) -> (r: Result<T, Error>)
        requires
            clr_built(self.table),
        ensures
            ({
                let (c, res) = run_spec(
                    act_view(self.table.actions@),
                    self.table.grammar.eof(),
                    start_cfg(tys_of(buffer@)),
                    usize::MAX as nat,
                );
                match res {
                    Err(e) => r matches Err(x) && x@ == e,
                    Ok(()) => if c.tys.len() == 0 {
                        r matches Err(x) && x@ == ErrorView::MissingPreviousState
                    } else {
                        r matches Ok(v) && parsed_value(act_view(self.table.actions@), maps, self.table.grammar.eof(), buffer@, v)
                    },
                }
            }),
    {
        proof {
            lemma_actions_rows_wf(self.table, true, None);
        }
        table_parse(&self.table, buffer, maps)
    }

    /// Whether the parser accepts the symbols of `buffer`.
    pub fn validate(&self, buffer: Vec<Token<(), usize>>) -> (r: bool)
        requires
            clr_built(self.table),
        ensures
            r == accepts(act_view(self.table.actions@), self.table.grammar.eof(), tys_of(buffer@)),
    {
        proof {
            lemma_actions_rows_wf(self.table, true, None);
        }
        table_validate(&self.table, buffer)
    }
}

} // verus!
