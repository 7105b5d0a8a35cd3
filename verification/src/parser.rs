//! Running the action table of a parser: the automaton over an input, a parse that
//! returns the value of the accepted item, and a check that accepts or rejects.
use vstd::prelude::*;

use std::collections::VecDeque;

use crate::Token;
use crate::dfa::{Dfa, Empty, Error, ErrorView, Reductor, accepts, act_table_copy, act_view, parsed_value, rows_wf, run_vals,
    run_spec, start_cfg, tys_of};
use crate::tabler::Tabler;

verus! {

/// The tokens of `v`, in order, as a queue.
pub fn queue_of<T>(v: Vec<Token<T, usize>>) -> (q: VecDeque<Token<T, usize>>)
    ensures
        q@ == v@,
{
    let ghost v0 = v@;
    let mut v = v;
    let mut q: VecDeque<Token<T, usize>> = VecDeque::new();
    while v.len() > 0
        invariant
            v0 == v@ + q@,
        decreases v.len(),
    {
        let ghost vb = v@;
        let ghost qb = q@;
        match v.pop() {
            Some(x) => {
                q.push_front(x);
                assert(vb == v@.push(x));
                assert(v0 =~= v@ + q@);
            },
            None => {},
        }
    }
    assert(v0 =~= q@);
    q
}

/// An automaton running the action table of `t` over `buffer`, ending on the grammar's
/// end-of-input symbol.
pub fn table_dfa<T, R: Reductor<T>>(t: &Tabler, buffer: VecDeque<Token<T, usize>>, maps: R) -> (d: Dfa<T, R>)
    requires
        t.grammar.wf(),
    ensures
        d.cfg() == start_cfg(tys_of(buffer@)),
        d.buffer@ == buffer@,
        d.items@ == Seq::<Token<T, usize>>::empty(),
        act_view(d.table@) == act_view(t.actions@),
        rows_wf(t.actions@) ==> rows_wf(d.table@),
        d.eof == t.grammar.eof(),
        d.reductors == maps,
{
    Dfa::new(buffer, act_table_copy(&t.actions), maps, t.grammar.basis.look[0])
}

/// Runs the action table of `t` over `buffer`, with `maps` giving reduced items their
/// values, and returns the value of the item left on top when the input is accepted.
pub fn table_parse<T, R: Reductor<T>>(t: &Tabler, buffer: Vec<Token<T, usize>>, maps: R) -> (r: Result<T, Error>)
    requires
        t.grammar.wf(),
        rows_wf(t.actions@),
    ensures
        ({
            let (c, res) = run_spec(
                act_view(t.actions@),
                t.grammar.eof(),
                start_cfg(tys_of(buffer@)),
                usize::MAX as nat,
            );
            match res {
                Err(e) => r matches Err(x) && x@ == e,
                Ok(()) => if c.tys.len() == 0 {
                    r matches Err(x) && x@ == ErrorView::MissingPreviousState
                } else {
                    r matches Ok(v) && parsed_value(act_view(t.actions@), maps, t.grammar.eof(), buffer@, v)
                },
            }
        }),
{
    let mut dfa = table_dfa(t, queue_of(buffer), maps);
    match dfa.start() {
        Ok(()) => {},
        Err(e) => {
            return Err(e);
        },
    }
    let ghost items2 = dfa.items@;
    let ghost buf2 = dfa.buffer@;
    match dfa.items.pop() {
        Some(item) => {
            proof {
                let trace = choose|trace: Seq<(Seq<T>, Seq<Token<T, usize>>, Seq<Token<T, usize>>)>|
                    run_vals(
                        act_view(t.actions@),
                        maps,
                        t.grammar.eof(),
                        start_cfg(tys_of(buffer@)),
                        usize::MAX as nat,
                        Seq::empty(),
                        buffer@,
                        trace,
                        items2,
                        buf2,
                    );
                assert(run_vals(
                    act_view(t.actions@),
                    maps,
                    t.grammar.eof(),
                    start_cfg(tys_of(buffer@)),
                    usize::MAX as nat,
                    Seq::empty(),
                    buffer@,
                    trace,
                    items2,
                    buf2,
                ));
            }
            Ok(item.item)
        },
        None => Err(Error::MissingPreviousState),
    }
}

/// Whether the action table of `t` accepts the symbols of `buffer`.
pub fn table_validate(t: &Tabler, buffer: Vec<Token<(), usize>>) -> (r: bool)
    requires
        t.grammar.wf(),
        rows_wf(t.actions@),
    ensures
        r == accepts(act_view(t.actions@), t.grammar.eof(), tys_of(buffer@)),
{
    table_parse(t, buffer, Empty).is_ok()
}

} // verus!
