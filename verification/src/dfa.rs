//! The pushdown automaton that runs an action table over a stream of tokens.
use vstd::prelude::*;

use crate::Token;
use crate::action::{ActTable, Action, ActionView, Row, row_copy, row_find, row_has, row_wf, rview};
use crate::codegen::{dec, dec_v};
use crate::pos::Production;
use std::collections::VecDeque;

verus! {

/// Why a run stopped.
#[derive(Debug)]
pub enum Error {
    /// The current state has no action for the symbol; the symbols it has actions for.
    UnexpectedToken(usize, Vec<usize>),
    /// A shift found the input exhausted.
    UnexpectedEof,
    /// The current state holds two actions for the symbol.
    Conflict(Action, Action),
    /// A reduction found fewer states or items on the stacks than its production needs.
    MissingPreviousState,
    /// The current state has no row in the action table.
    StateNotSpecified,
    /// The input was accepted before its end.
    IncompleteExec,
    /// The run took more steps than a `usize` counts.
    StepLimit,
}

/// The mathematical value of an [`Error`].
pub enum ErrorView {
    UnexpectedToken(usize, Seq<usize>),
    UnexpectedEof,
    Conflict(ActionView, ActionView),
    MissingPreviousState,
    StateNotSpecified,
    IncompleteExec,
    StepLimit,
}

impl View for Error {
    type V = ErrorView;

    open spec fn view(&self) -> ErrorView {
        match self {
            Error::UnexpectedToken(x, v) => ErrorView::UnexpectedToken(*x, v@),
            Error::UnexpectedEof => ErrorView::UnexpectedEof,
            Error::Conflict(a, b) => ErrorView::Conflict(a@, b@),
            Error::MissingPreviousState => ErrorView::MissingPreviousState,
            Error::StateNotSpecified => ErrorView::StateNotSpecified,
            Error::IncompleteExec => ErrorView::IncompleteExec,
            Error::StepLimit => ErrorView::StepLimit,
        }
    }
}

/// The outcome of a run, viewed.
pub open spec fn res_view(r: Result<(), Error>) -> Result<(), ErrorView> {
    match r {
        Ok(()) => Ok(()),
        Err(e) => Err(e@),
    }
}

/// Builds the value of a reduced item from the items of its production's body. The
/// user of the automaton says what values the items hold.
pub trait Reductor<T> {
    /// Whether `value` is what production `index` of rule `name` gives from the items
    /// `toks`. A reductor that says nothing of its values leaves this `true`.
    open spec fn yields(&self, name: usize, index: usize, toks: Seq<Token<T, usize>>, value: T) -> bool {
        true
    }

    /// Computes the value that production `index` of rule `name` gives from `toks`.
    fn reduce(&self, name: usize, index: usize, toks: &Vec<Token<T, usize>>) -> (r: T)
        ensures
            self.yields(name, index, toks@, r),
    ;
}

/// The reductor of items that hold no value.
pub struct Empty;

impl Reductor<()> for Empty {
    open spec fn yields(&self, name: usize, index: usize, toks: Seq<Token<(), usize>>, value: ()) -> bool {
        true
    }

    fn reduce(&self, name: usize, index: usize, toks: &Vec<Token<(), usize>>) {
    }
}

/// The reductor of items that hold a symbol: a reduced item holds the symbol of the
/// first item of its production's body (the rule's name for an empty body).
pub struct Cloned;

impl Cloned {
    /// The symbol a reduced item of rule `name` holds, given the items of its body.
    pub fn first_symbol(name: usize, toks: &Vec<Token<usize, usize>>) -> (r: usize)
        ensures
            r == (if toks@.len() > 0 {
                toks@[0].ty
            } else {
                name
            }),
    {
        if toks.len() > 0 {
            toks[0].ty
        } else {
            name
        }
    }
}

impl Reductor<usize> for Cloned {
    open spec fn yields(&self, name: usize, index: usize, toks: Seq<Token<usize, usize>>, value: usize) -> bool {
        value == if toks.len() > 0 {
            toks[0].ty
        } else {
            name
        }
    }

    fn reduce(&self, name: usize, index: usize, toks: &Vec<Token<usize, usize>>) -> (r: usize)
        ensures
            r == (if toks@.len() > 0 {
                toks@[0].ty
            } else {
                name
            }),
    {
        Cloned::first_symbol(name, toks)
    }
}

/// The automaton: the rest of the input, the state and item stacks, the table it runs
/// and the reductor that gives reduced items their values.
pub struct Dfa<T, R> {
    pub buffer: VecDeque<Token<T, usize>>,
    pub states: Vec<usize>,
    pub items: Vec<Token<T, usize>>,
    pub table: ActTable,
    pub top: usize,
    pub finished: bool,
    pub reductors: R,
    pub eof: usize,
}

/// The symbols of a sequence of tokens.
pub open spec fn tys_of<T>(s: Seq<Token<T, usize>>) -> Seq<usize> {
    s.map_values(|t: Token<T, usize>| t.ty)
}

/// What a run reads of the automaton: the symbols of the rest of the input, the state
/// stack, the symbols of the item stack, the current state and whether it accepted.
pub struct DfaView {
    pub input: Seq<usize>,
    pub states: Seq<usize>,
    pub tys: Seq<usize>,
    pub top: usize,
    pub finished: bool,
}

/// The action table, viewed.
pub open spec fn act_view(t: Seq<Row>) -> Seq<Seq<(usize, ActionView)>> {
    t.map_values(|r: Row| rview(r))
}

/// Whether viewed row `r` has an action for `x`.
pub open spec fn vhas(r: Seq<(usize, ActionView)>, x: usize) -> bool {
    exists|i: int| 0 <= i < r.len() && #[trigger] r[i].0 == x
}

/// The action of viewed row `r` for `x`.
pub open spec fn vget(r: Seq<(usize, ActionView)>, x: usize) -> ActionView {
    r[choose|i: int| 0 <= i < r.len() && #[trigger] r[i].0 == x].1
}

/// Every row of the table has increasing symbols.
pub open spec fn rows_wf(t: Seq<Row>) -> bool {
    forall|i: int| 0 <= i < t.len() ==> row_wf(#[trigger] t[i]@)
}

/// What one action does: finishes the call (`Done`), continues it with the symbol of
/// a reduced rule (`Again`), or stops the run (`Fail`).
pub enum StepOut {
    Done,
    Again(usize),
    Fail(ErrorView),
}

/// One action of the automaton in configuration `c` on symbol `sym`.
pub open spec fn tstep(t: Seq<Seq<(usize, ActionView)>>, c: DfaView, sym: usize) -> (DfaView, StepOut) {
    if c.top >= t.len() {
        (c, StepOut::Fail(ErrorView::StateNotSpecified))
    } else if !vhas(t[c.top as int], sym) {
        (
            c,
            StepOut::Fail(
                ErrorView::UnexpectedToken(sym, t[c.top as int].map_values(|e: (usize, ActionView)| e.0)),
            ),
        )
    } else {
        match vget(t[c.top as int], sym) {
            ActionView::Shift(to) => if c.input.len() == 0 {
                (c, StepOut::Fail(ErrorView::UnexpectedEof))
            } else {
                (
                    DfaView {
                        input: c.input.drop_first(),
                        tys: c.tys.push(c.input[0]),
                        states: c.states.push(to),
                        top: to,
                        ..c
                    },
                    StepOut::Done,
                )
            },
            ActionView::Goto(to) => (DfaView { states: c.states.push(to), top: to, ..c }, StepOut::Done),
            ActionView::Reduce(name, body, index) => {
                let n = body.len();
                if c.tys.len() < n {
                    (c, StepOut::Fail(ErrorView::UnexpectedEof))
                } else if c.states.len() < n + 1 {
                    (c, StepOut::Fail(ErrorView::MissingPreviousState))
                } else {
                    (
                        DfaView {
                            tys: c.tys.subrange(0, c.tys.len() - n).push(name),
                            states: c.states.subrange(0, c.states.len() - n),
                            top: c.states[c.states.len() - n - 1],
                            ..c
                        },
                        StepOut::Again(name),
                    )
                }
            },
            ActionView::Acc => (
                DfaView { finished: true, ..c },
                if c.input.len() == 0 {
                    StepOut::Done
                } else {
                    StepOut::Fail(ErrorView::IncompleteExec)
                },
            ),
            ActionView::Conflict(a, b) => (c, StepOut::Fail(ErrorView::Conflict(*a, *b))),
        }
    }
}

/// Travelling over `sym`: actions until one that is not a reduction, each reduction
/// continuing with its rule, at most `fuel` reductions.
pub open spec fn travel_spec(
    t: Seq<Seq<(usize, ActionView)>>,
    c: DfaView,
    sym: usize,
    fuel: nat,
) -> (DfaView, Result<(), ErrorView>)
    decreases fuel,
{
    let (c1, o) = tstep(t, c, sym);
    match o {
        StepOut::Done => (c1, Ok(())),
        StepOut::Fail(e) => (c1, Err(e)),
        StepOut::Again(name) => if fuel == 0 {
            (c1, Err(ErrorView::StepLimit))
        } else {
            travel_spec(t, c1, name, (fuel - 1) as nat)
        },
    }
}

/// The symbol a run reads next: that of the next token, or `eof` at the end.
pub open spec fn next_sym(c: DfaView, eof: usize) -> usize {
    if c.input.len() > 0 {
        c.input[0]
    } else {
        eof
    }
}

/// A run: travelling over the next symbol until the automaton accepts or fails, at
/// most `fuel` times.
pub open spec fn run_spec(
    t: Seq<Seq<(usize, ActionView)>>,
    eof: usize,
    c: DfaView,
    fuel: nat,
) -> (DfaView, Result<(), ErrorView>)
    decreases fuel,
{
    if c.finished {
        (c, Ok(()))
    } else if fuel == 0 {
        (c, Err(ErrorView::StepLimit))
    } else {
        let (c1, r) = travel_spec(t, c, next_sym(c, eof), usize::MAX as nat);
        match r {
            Ok(()) => run_spec(t, eof, c1, (fuel - 1) as nat),
            Err(e) => (c1, Err(e)),
        }
    }
}

/// The configuration a fresh automaton starts from on `input`.
pub open spec fn start_cfg(input: Seq<usize>) -> DfaView {
    DfaView { input, states: seq![0usize], tys: Seq::empty(), top: 0, finished: false }
}

/// The table accepts `input`: a run from the start ends accepting, with an item left.
pub open spec fn accepts(t: Seq<Seq<(usize, ActionView)>>, eof: usize, input: Seq<usize>) -> bool {
    let (c, r) = run_spec(t, eof, start_cfg(input), usize::MAX as nat);
    r is Ok && c.tys.len() > 0
}

/// Travelling from a configuration that has not accepted ends accepted only where an
/// accept action found the input consumed.
pub proof fn lemma_travel_accepts(t: Seq<Seq<(usize, ActionView)>>, c: DfaView, sym: usize, fuel: nat)
    requires
        !c.finished,
    ensures
        ({
            let (c1, r) = travel_spec(t, c, sym, fuel);
            r is Ok && c1.finished ==> c1.input.len() == 0
        }),
    decreases fuel,
{
    let (c1, o) = tstep(t, c, sym);
    if let StepOut::Again(name) = o {
        if fuel > 0 {
            lemma_travel_accepts(t, c1, name, (fuel - 1) as nat);
        }
    }
}

/// A run that succeeds from a configuration that has not accepted ends accepted, with
/// the whole input consumed.
pub proof fn lemma_run_accepts(t: Seq<Seq<(usize, ActionView)>>, eof: usize, c: DfaView, fuel: nat)
    requires
        !c.finished,
    ensures
        ({
            let (c1, r) = run_spec(t, eof, c, fuel);
            r is Ok ==> c1.finished && c1.input.len() == 0
        }),
    decreases fuel,
{
    if fuel > 0 {
        let (c1, r) = travel_spec(t, c, next_sym(c, eof), usize::MAX as nat);
        lemma_travel_accepts(t, c, next_sym(c, eof), usize::MAX as nat);
        if r is Ok && !c1.finished {
            lemma_run_accepts(t, eof, c1, (fuel - 1) as nat);
        }
    }
}

/// The automaton accepts an input only once it has consumed all of it: a successful
/// run from the start ends in the accepting configuration with no input left.
pub proof fn law_accepted_input_consumed(t: Seq<Seq<(usize, ActionView)>>, eof: usize, input: Seq<usize>)
    ensures
        ({
            let (c, r) = run_spec(t, eof, start_cfg(input), usize::MAX as nat);
            r is Ok ==> c.finished && c.input.len() == 0
        }),
{
    lemma_run_accepts(t, eof, start_cfg(input), usize::MAX as nat);
}

/// In a row with increasing symbols, the action found for the symbol of entry `i` is
/// the action of that entry.
pub proof fn lemma_vget(r: Row, i: int)
    requires
        row_wf(r@),
        0 <= i < r@.len(),
    ensures
        vhas(rview(r), r@[i].0),
        vget(rview(r), r@[i].0) == r@[i].1@,
{
    let v = rview(r);
    let x = r@[i].0;
    assert(v[i].0 == x);
    let c = choose|c: int| 0 <= c < v.len() && #[trigger] v[c].0 == x;
    assert(v[c].0 == r@[c].0);
    if c < i {
        assert(r@[c].0 < r@[i].0);
    } else if c > i {
        assert(r@[i].0 < r@[c].0);
    }
}

/// A copy of an action table.
pub fn act_table_copy(t: &ActTable) -> (c: ActTable)
    ensures
        act_view(c@) == act_view(t@),
        rows_wf(t@) ==> rows_wf(c@),
{
    let mut c: ActTable = Vec::new();
    let mut i: usize = 0;
    while i < t.len()
        invariant
            i <= t@.len(),
            c@.len() == i,
            forall|k: int| 0 <= k < i ==> #[trigger] rview(c@[k]) == rview(t@[k]),
            forall|k: int| 0 <= k < i ==> row_wf(t@[k]@) ==> row_wf(#[trigger] c@[k]@),
        decreases t@.len() - i,
    {
        let r = row_copy(&t[i]);
        proof {
            if row_wf(t@[i as int]@) {
                assert forall|a: int, b: int| 0 <= a < b < r@.len() implies r@[a].0 < r@[b].0 by {
                    assert(r@[a].0 == t@[i as int]@[a].0);
                    assert(r@[b].0 == t@[i as int]@[b].0);
                }
            }
        }
        c.push(r);
        i = i + 1;
    }
    assert(act_view(c@) =~= act_view(t@));
    c
}

/// Whether `after` is the item stack `items` after the reduction of a body of `n` items
/// of production `index` of rule `name`: those items replaced by one item of `name`
/// holding a value that `red` yields from them.
pub open spec fn reduced_items<T, R: Reductor<T>>(
    red: R,
    items: Seq<Token<T, usize>>,
    name: usize,
    n: nat,
    index: usize,
    after: Seq<Token<T, usize>>,
) -> bool {
    &&& after.len() == items.len() - n + 1
    &&& after.subrange(0, items.len() - n) == items.subrange(0, items.len() - n)
    &&& after.last().ty == name
    &&& red.yields(name, index, items.subrange(items.len() - n, items.len() as int), after.last().item)
}

/// Whether one action of configuration `c` on `sym` takes the item stack `items` and the
/// input `buf` to `items1` and `buf1`: a shift moves the next token onto the items, a
/// reduction replaces the items of its body by one that `red` yields from them, and
/// every other action, or a failed one, leaves both as they are.
pub open spec fn vstep<T, R: Reductor<T>>(
    t: Seq<Seq<(usize, ActionView)>>,
    red: R,
    c: DfaView,
    sym: usize,
    items: Seq<Token<T, usize>>,
    buf: Seq<Token<T, usize>>,
    items1: Seq<Token<T, usize>>,
    buf1: Seq<Token<T, usize>>,
) -> bool {
    let unchanged = items1 == items && buf1 == buf;
    if c.top >= t.len() || !vhas(t[c.top as int], sym) {
        unchanged
    } else {
        match vget(t[c.top as int], sym) {
            ActionView::Shift(_) => if buf.len() == 0 {
                unchanged
            } else {
                items1 == items.push(buf[0]) && buf1 == buf.drop_first()
            },
            ActionView::Reduce(name, body, index) => if c.tys.len() < body.len() || c.states.len()
                < body.len() + 1 {
                unchanged
            } else {
                reduced_items(red, items, name, body.len(), index, items1) && buf1 == buf
            },
            _ => unchanged,
        }
    }
}

/// The item stack `items` with its last `n` items replaced by one item of `name` holding
/// `v`.
pub open spec fn push_reduced<T>(items: Seq<Token<T, usize>>, name: usize, n: nat, v: T) -> Seq<Token<T, usize>> {
    items.subrange(0, items.len() - n).push(Token { item: v, ty: name })
}

/// Whether travelling over `sym` from configuration `c`, as [`travel_spec`] does, takes the
/// item stack `items` and the input `buf` to `items2` and `buf2`, the reductions on the
/// way giving their items the values `vals` in turn, each one that `red` yields.
pub open spec fn travel_vals<T, R: Reductor<T>>(
    t: Seq<Seq<(usize, ActionView)>>,
    red: R,
    c: DfaView,
    sym: usize,
    fuel: nat,
    items: Seq<Token<T, usize>>,
    buf: Seq<Token<T, usize>>,
    vals: Seq<T>,
    items2: Seq<Token<T, usize>>,
    buf2: Seq<Token<T, usize>>,
) -> bool
    decreases fuel,
{
    let (c1, o) = tstep(t, c, sym);
    match o {
        StepOut::Again(name) => match vget(t[c.top as int], sym) {
            ActionView::Reduce(_, body, index) => {
                let n = body.len();
                let mi = push_reduced(items, name, n, vals[0]);
                &&& vals.len() > 0
                &&& red.yields(name, index, items.subrange(items.len() - n, items.len() as int), vals[0])
                &&& if fuel == 0 {
                    vals.len() == 1 && items2 == mi && buf2 == buf
                } else {
                    travel_vals(t, red, c1, name, (fuel - 1) as nat, mi, buf, vals.drop_first(), items2, buf2)
                }
            },
            _ => false,
        },
        _ => vals.len() == 0 && vstep(t, red, c, sym, items, buf, items2, buf2),
    }
}

/// A reduction followed by travelling over the reduced rule is a travel.
pub proof fn lemma_travel_vals_again<T, R: Reductor<T>>(
    t: Seq<Seq<(usize, ActionView)>>,
    red: R,
    c: DfaView,
    sym: usize,
    name: usize,
    fuel: nat,
    items: Seq<Token<T, usize>>,
    buf: Seq<Token<T, usize>>,
    v: T,
    vals: Seq<T>,
    items2: Seq<Token<T, usize>>,
    buf2: Seq<Token<T, usize>>,
)
    requires
        tstep(t, c, sym).1 == StepOut::Again(name),
        fuel > 0,
        vget(t[c.top as int], sym) is Reduce,
        red.yields(
            name,
            vget(t[c.top as int], sym)->Reduce_2,
            items.subrange(items.len() - vget(t[c.top as int], sym)->Reduce_1.len(), items.len() as int),
            v,
        ),
        travel_vals(
            t,
            red,
            tstep(t, c, sym).0,
            name,
            (fuel - 1) as nat,
            push_reduced(items, name, vget(t[c.top as int], sym)->Reduce_1.len(), v),
            buf,
            vals,
            items2,
            buf2,
        ),
    ensures
        travel_vals(t, red, c, sym, fuel, items, buf, seq![v] + vals, items2, buf2),
{
    assert((seq![v] + vals).drop_first() =~= vals);
}

/// Whether a run from configuration `c`, as [`run_spec`] does, takes the item stack
/// `items` and the input `buf` to `items2` and `buf2`, the reductions giving their items
/// values in turn: `trace` holds, for each travel, the values its reductions give and the
/// item stack and input it leaves.
pub open spec fn run_vals<T, R: Reductor<T>>(
    t: Seq<Seq<(usize, ActionView)>>,
    red: R,
    eof: usize,
    c: DfaView,
    fuel: nat,
    items: Seq<Token<T, usize>>,
    buf: Seq<Token<T, usize>>,
    trace: Seq<(Seq<T>, Seq<Token<T, usize>>, Seq<Token<T, usize>>)>,
    items2: Seq<Token<T, usize>>,
    buf2: Seq<Token<T, usize>>,
) -> bool
    decreases fuel,
{
    if c.finished || fuel == 0 {
        trace.len() == 0 && items2 == items && buf2 == buf
    } else {
        let (c1, r) = travel_spec(t, c, next_sym(c, eof), usize::MAX as nat);
        &&& trace.len() > 0
        &&& travel_vals(t, red, c, next_sym(c, eof), usize::MAX as nat, items, buf, trace[0].0, trace[0].1, trace[0].2)
        &&& match r {
            Ok(()) => run_vals(t, red, eof, c1, (fuel - 1) as nat, trace[0].1, trace[0].2, trace.drop_first(), items2, buf2),
            Err(_) => trace.len() == 1 && items2 == trace[0].1 && buf2 == trace[0].2,
        }
    }
}

/// Whether `v` is a value that parsing `input` with table `t` and reductor `red` leaves on
/// top of the item stack: the value of the last item after a run from the start.
pub open spec fn parsed_value<T, R: Reductor<T>>(
    t: Seq<Seq<(usize, ActionView)>>,
    red: R,
    eof: usize,
    input: Seq<Token<T, usize>>,
    v: T,
) -> bool {
    exists|
        trace: Seq<(Seq<T>, Seq<Token<T, usize>>, Seq<Token<T, usize>>)>,
        items2: Seq<Token<T, usize>>,
        buf2: Seq<Token<T, usize>>,
    |
        #[trigger] run_vals(
            t,
            red,
            eof,
            start_cfg(tys_of(input)),
            usize::MAX as nat,
            Seq::empty(),
            input,
            trace,
            items2,
            buf2,
        ) && items2.len() > 0 && v == items2.last().item
}

/// The result of one action: the call is over (with its outcome), or it continues with
/// the symbol of a reduced rule.
pub enum Stepped {
    Over(Result<(), Error>),
    Again(usize),
}

impl<T, R: Reductor<T>> Dfa<T, R> {
    /// What a run reads of this automaton.
    pub open spec fn cfg(&self) -> DfaView {
        DfaView {
            input: tys_of(self.buffer@),
            states: self.states@,
            tys: tys_of(self.items@),
            top: self.top,
            finished: self.finished,
        }
    }

    /// An automaton at state 0 over `buffer`.
    pub fn new(buffer: VecDeque<Token<T, usize>>, table: ActTable, reductors: R, eof: usize) -> (d: Self)
        ensures
            d.cfg() == start_cfg(tys_of(buffer@)),
            d.buffer@ == buffer@,
            d.items@ == Seq::<Token<T, usize>>::empty(),
            d.table == table,
            d.reductors == reductors,
            d.eof == eof,
    {
        let d = Dfa {
            states: vec![0],
            items: Vec::new(),
            buffer,
            top: 0,
            table,
            reductors,
            finished: false,
            eof,
        };
        assert(d.cfg().states =~= seq![0usize]);
        assert(d.cfg().tys =~= Seq::<usize>::empty());
        assert(d.items@ =~= Seq::<Token<T, usize>>::empty());
        d
    }

    /// Moves the next token onto the item stack and `to` onto the state stack; fails
    /// at the end of the input.
    pub fn shift(&mut self, to: usize) -> (r: Result<(), Error>)
        ensures
            final(self).table == old(self).table,
            final(self).eof == old(self).eof,
            final(self).reductors == old(self).reductors,
            old(self).buffer@.len() == 0 ==> final(self).items@ == old(self).items@ && final(self).buffer@
                == old(self).buffer@,
            old(self).buffer@.len() > 0 ==> final(self).items@ == old(self).items@.push(old(self).buffer@[0])
                && final(self).buffer@ == old(self).buffer@.drop_first(),
            old(self).buffer@.len() == 0 ==> r is Err && r->Err_0 is UnexpectedEof && final(self).cfg()
                == old(self).cfg(),
            old(self).buffer@.len() > 0 ==> r is Ok && final(self).cfg() == (DfaView {
                input: old(self).cfg().input.drop_first(),
                tys: old(self).cfg().tys.push(old(self).cfg().input[0]),
                states: old(self).cfg().states.push(to),
                top: to,
                ..old(self).cfg()
            }),
    {
        let ghost c = self.cfg();
        match self.buffer.pop_front() {
            Some(item) => {
                let ghost b0 = old(self).buffer@;
                self.items.push(item);
                self.top = to;
                self.states.push(self.top);
                assert(self.cfg().input =~= c.input.drop_first());
                assert(self.cfg().tys =~= c.tys.push(c.input[0]));
                Ok(())
            },
            None => Err(Error::UnexpectedEof),
        }
    }

    /// Marks the run accepted; fails when input is left.
    pub fn accept(&mut self) -> (r: Result<(), Error>)
        ensures
            final(self).table == old(self).table,
            final(self).eof == old(self).eof,
            final(self).reductors == old(self).reductors,
            final(self).items@ == old(self).items@,
            final(self).buffer@ == old(self).buffer@,
            final(self).cfg() == (DfaView { finished: true, ..old(self).cfg() }),
            res_view(r) == if old(self).buffer@.len() == 0 {
                Ok(())
            } else {
                Err(ErrorView::IncompleteExec)
            },
    {
        self.finished = true;
        if self.buffer.len() == 0 {
            Ok(())
        } else {
            Err(Error::IncompleteExec)
        }
    }

    /// Pushes state `to` and makes it current.
    pub fn goto(&mut self, to: usize) -> (r: Result<(), Error>)
        ensures
            final(self).table == old(self).table,
            final(self).eof == old(self).eof,
            final(self).reductors == old(self).reductors,
            final(self).items@ == old(self).items@,
            final(self).buffer@ == old(self).buffer@,
            r is Ok,
            final(self).cfg() == (DfaView {
                states: old(self).cfg().states.push(to),
                top: to,
                ..old(self).cfg()
            }),
    {
        self.states.push(to);
        self.top = to;
        Ok(())
    }

    /// The reduction of production `prod` of rule `name` on the stacks: its items are
    /// replaced by one item of `name` holding the value the reductor gives them, its
    /// states removed, and the state below them made current. Fails with
    /// `UnexpectedEof` when the item stack lacks the body's items, and with
    /// `MissingPreviousState` when no state stands below the body's states.
    fn reduce_stacks(&mut self, name: usize, prod: &Production) -> (r: Result<(), Error>)
        ensures
            final(self).table == old(self).table,
            final(self).eof == old(self).eof,
            final(self).reductors == old(self).reductors,
            final(self).buffer@ == old(self).buffer@,
            r is Err ==> final(self).items@ == old(self).items@,
            r is Ok ==> reduced_items(old(self).reductors, old(self).items@, name, prod.0@.len(), prod.1, final(self).items@),
            ({
                let c = old(self).cfg();
                let n = prod.0@.len();
                if c.tys.len() < n {
                    r is Err && r->Err_0 is UnexpectedEof && final(self).cfg() == c
                } else if c.states.len() < n + 1 {
                    r is Err && r->Err_0 is MissingPreviousState && final(self).cfg() == c
                } else {
                    r is Ok && final(self).cfg() == (DfaView {
                        tys: c.tys.subrange(0, c.tys.len() - n).push(name),
                        states: c.states.subrange(0, c.states.len() - n),
                        top: c.states[c.states.len() - n - 1],
                        ..c
                    })
                }
            }),
    {
        let ghost c = self.cfg();
        let n = prod.0.len();
        if self.items.len() < n {
            return Err(Error::UnexpectedEof);
        }
        if self.states.len() <= n {
            return Err(Error::MissingPreviousState);
        }
        let ghost i0 = self.items@;
        let toks = self.items.split_off(self.items.len() - n);
        let value = self.reductors.reduce(name, prod.1, &toks);
        self.items.push(Token::new(value, name));
        let len = self.states.len();
        self.top = self.states[len - n - 1];
        self.states.truncate(len - n);
        assert(self.cfg().tys =~= c.tys.subrange(0, c.tys.len() - n).push(name));
        assert(toks@ =~= i0.subrange(i0.len() - n, i0.len() as int));
        assert(self.items@.subrange(0, i0.len() - n) =~= i0.subrange(0, i0.len() - n));
        Ok(())
    }

    /// One action of the current state on `symbol`, as [`tstep`] says.
    fn step(&mut self, symbol: usize) -> (r: Stepped)
        requires
            rows_wf(old(self).table@),
        ensures
            final(self).table == old(self).table,
            final(self).eof == old(self).eof,
            final(self).reductors == old(self).reductors,
            vstep(
                act_view(old(self).table@),
                old(self).reductors,
                old(self).cfg(),
                symbol,
                old(self).items@,
                old(self).buffer@,
                final(self).items@,
                final(self).buffer@,
            ),
            ({
                let (c1, o) = tstep(act_view(old(self).table@), old(self).cfg(), symbol);
                &&& final(self).cfg() == c1
                &&& match o {
                    StepOut::Done => r matches Stepped::Over(x) && x is Ok,
                    StepOut::Fail(e) => r matches Stepped::Over(x) && res_view(x) == Err::<(), ErrorView>(e),
                    StepOut::Again(name) => r == Stepped::Again(name),
                }
            }),
    {
        let ghost t = act_view(self.table@);
        if self.top >= self.table.len() {
            return Stepped::Over(Err(Error::StateNotSpecified));
        }
        let ghost row = t[self.top as int];
        assert(row == rview(self.table@[self.top as int]));
        match row_find(&self.table[self.top], symbol) {
            None => {
                let r = &self.table[self.top];
                let mut keys: Vec<usize> = Vec::new();
                let mut i: usize = 0;
                while i < r.len()
                    invariant
                        i <= r@.len(),
                        keys@ == r@.subrange(0, i as int).map_values(|e: (usize, Action)| e.0),
                    decreases r@.len() - i,
                {
                    keys.push(r[i].0);
                    assert(r@.subrange(0, i + 1).map_values(|e: (usize, Action)| e.0) =~= r@.subrange(
                        0,
                        i as int,
                    ).map_values(|e: (usize, Action)| e.0).push(r@[i as int].0));
                    i = i + 1;
                }
                proof {
                    assert(r@.subrange(0, r@.len() as int) =~= r@);
                    assert(keys@ =~= row.map_values(|e: (usize, ActionView)| e.0));
                    if vhas(row, symbol) {
                        let k = choose|k: int| 0 <= k < row.len() && #[trigger] row[k].0 == symbol;
                        assert(r@[k].0 == symbol);
                        assert(row_has(r@, symbol));
                    }
                }
                Stepped::Over(Err(Error::UnexpectedToken(symbol, keys)))
            },
            Some(k) => {
                proof {
                    lemma_vget(self.table@[self.top as int], k as int);
                }
                let act = self.table[self.top][k].1.copy();
                match act {
                    Action::Shift(to) => Stepped::Over(self.shift(to)),
                    Action::Goto(to) => Stepped::Over(self.goto(to)),
                    Action::Reduce(name, prod) => {
                        match self.reduce_stacks(name, &prod) {
                            Ok(()) => Stepped::Again(name),
                            Err(e) => Stepped::Over(Err(e)),
                        }
                    },
                    Action::Acc => Stepped::Over(self.accept()),
                    Action::Conflict(a, b) => Stepped::Over(Err(Error::Conflict(*a, *b))),
                }
            },
        }
    }

    /// Travels over `symbol` from the current state: takes its action, and after each
    /// reduction travels over the reduced rule, until an action that is not a
    /// reduction; as [`travel_spec`] says.
    pub fn travel(&mut self, symbol: usize) -> (r: Result<(), Error>)
        requires
            rows_wf(old(self).table@),
        ensures
            final(self).table == old(self).table,
            final(self).eof == old(self).eof,
            (final(self).cfg(), res_view(r)) == travel_spec(
                act_view(old(self).table@),
                old(self).cfg(),
                symbol,
                usize::MAX as nat,
            ),
            final(self).reductors == old(self).reductors,
            exists|vals: Seq<T>|
                travel_vals(
                    act_view(old(self).table@),
                    old(self).reductors,
                    old(self).cfg(),
                    symbol,
                    usize::MAX as nat,
                    old(self).items@,
                    old(self).buffer@,
                    vals,
                    final(self).items@,
                    final(self).buffer@,
                ),
    {
        let ghost t = act_view(self.table@);
        let ghost goal = travel_spec(t, self.cfg(), symbol, usize::MAX as nat);
        let ghost red = self.reductors;
        let ghost c0 = self.cfg();
        let ghost i0 = self.items@;
        let ghost b0 = self.buffer@;
        let ghost mut done: Seq<T> = Seq::empty();
        let mut sym = symbol;
        let mut fuel: usize = usize::MAX;
        loop
            invariant
                self.table == old(self).table,
                self.eof == old(self).eof,
                t == act_view(self.table@),
                rows_wf(self.table@),
                goal == travel_spec(t, old(self).cfg(), symbol, usize::MAX as nat),
                travel_spec(t, self.cfg(), sym, fuel as nat) == goal,
                self.reductors == red,
                red == old(self).reductors,
                c0 == old(self).cfg(),
                i0 == old(self).items@,
                b0 == old(self).buffer@,
                forall|vs: Seq<T>, i2: Seq<Token<T, usize>>, b2: Seq<Token<T, usize>>|
                    #[trigger] travel_vals(t, red, self.cfg(), sym, fuel as nat, self.items@, self.buffer@, vs, i2, b2)
                        ==> travel_vals(t, red, c0, symbol, usize::MAX as nat, i0, b0, done + vs, i2, b2),
            decreases fuel,
        {
            let ghost ib = self.items@;
            let ghost bb = self.buffer@;
            let ghost fb = fuel as nat;
            let ghost sb = sym;
            let ghost cb = self.cfg();
            let ghost out = tstep(t, cb, sym);
            assert(travel_spec(t, cb, sym, fuel as nat) == match out.1 {
                StepOut::Done => (out.0, Ok(())),
                StepOut::Fail(e) => (out.0, Err(e)),
                StepOut::Again(name) => if fuel == 0 {
                    (out.0, Err(ErrorView::StepLimit))
                } else {
                    travel_spec(t, out.0, name, (fuel - 1) as nat)
                },
            });
            match self.step(sym) {
                Stepped::Over(r) => {
                    assert(travel_vals(t, red, cb, sb, fb, ib, bb, Seq::empty(), self.items@, self.buffer@));
                    assert(done + Seq::<T>::empty() =~= done);
                    return r;
                },
                Stepped::Again(name) => {
                    let ghost v = self.items@.last().item;
                    let ghost act = vget(t[cb.top as int], sb);
                    proof {
                        assert(self.items@ =~= push_reduced(ib, name, act->Reduce_1.len(), v));
                    }
                    if fuel == 0 {
                        assert(travel_vals(t, red, cb, sb, fb, ib, bb, seq![v], self.items@, self.buffer@));
                        assert(done + seq![v] =~= done.push(v));
                        return Err(Error::StepLimit);
                    }
                    fuel = fuel - 1;
                    sym = name;
                    assert forall|vs: Seq<T>, i2: Seq<Token<T, usize>>, b2: Seq<Token<T, usize>>|
                        #[trigger] travel_vals(t, red, self.cfg(), sym, fuel as nat, self.items@, self.buffer@, vs, i2, b2)
                            implies travel_vals(t, red, c0, symbol, usize::MAX as nat, i0, b0, done.push(v) + vs, i2, b2) by {
                        assert(tstep(t, cb, sb).0 == self.cfg());
                        assert(tstep(t, cb, sb).1 == StepOut::Again(sym));
                        assert((fb - 1) as nat == fuel as nat);
                        lemma_travel_vals_again(t, red, cb, sb, sym, fb, ib, bb, v, vs, i2, b2);
                        assert(done + (seq![v] + vs) =~= done.push(v) + vs);
                    }
                    proof {
                        done = done.push(v);
                    }
                },
            }
        }
    }

    /// Reduces production `prod` of rule `name` on the stacks, then travels over `name`;
    /// fails with `UnexpectedEof` when the item stack lacks the body's items, and with
    /// `MissingPreviousState` when no state stands below the body's states.
    pub fn reduce(&mut self, name: usize, prod: &Production) -> (r: Result<(), Error>)
        requires
            rows_wf(old(self).table@),
        ensures
            final(self).table == old(self).table,
            final(self).eof == old(self).eof,
            final(self).reductors == old(self).reductors,
            ({
                let c = old(self).cfg();
                let n = prod.0@.len();
                let c1 = DfaView {
                    tys: c.tys.subrange(0, c.tys.len() - n).push(name),
                    states: c.states.subrange(0, c.states.len() - n),
                    top: c.states[c.states.len() - n - 1],
                    ..c
                };
                if c.tys.len() < n {
                    res_view(r) == Err::<(), ErrorView>(ErrorView::UnexpectedEof) && final(self).cfg() == c
                        && final(self).items@ == old(self).items@ && final(self).buffer@ == old(self).buffer@
                } else if c.states.len() < n + 1 {
                    res_view(r) == Err::<(), ErrorView>(ErrorView::MissingPreviousState) && final(self).cfg() == c
                        && final(self).items@ == old(self).items@ && final(self).buffer@ == old(self).buffer@
                } else {
                    &&& (final(self).cfg(), res_view(r)) == travel_spec(
                        act_view(old(self).table@),
                        c1,
                        name,
                        usize::MAX as nat,
                    )
                    &&& exists|mid: Seq<Token<T, usize>>, vals: Seq<T>|
                        reduced_items(old(self).reductors, old(self).items@, name, n, prod.1, mid)
                            && #[trigger] travel_vals(
                            act_view(old(self).table@),
                            old(self).reductors,
                            c1,
                            name,
                            usize::MAX as nat,
                            mid,
                            old(self).buffer@,
                            vals,
                            final(self).items@,
                            final(self).buffer@,
                        )
                }
            }),
    {
        match self.reduce_stacks(name, prod) {
            Ok(()) => {
                let ghost mid = self.items@;
                let ghost cmid = self.cfg();
                let r = self.travel(name);
                proof {
                    let vals = choose|vals: Seq<T>|
                        travel_vals(
                            act_view(self.table@),
                            self.reductors,
                            cmid,
                            name,
                            usize::MAX as nat,
                            mid,
                            old(self).buffer@,
                            vals,
                            self.items@,
                            self.buffer@,
                        );
                    assert(travel_vals(
                        act_view(self.table@),
                        self.reductors,
                        cmid,
                        name,
                        usize::MAX as nat,
                        mid,
                        old(self).buffer@,
                        vals,
                        self.items@,
                        self.buffer@,
                    ));
                }
                r
            },
            Err(e) => Err(e),
        }
    }

    /// The symbol the automaton reads next: that of the next token, or the end symbol.
    pub fn next_symbol(&self) -> (s: usize)
        ensures
            s == next_sym(self.cfg(), self.eof),
    {
        if self.buffer.len() > 0 {
            self.buffer[0].ty
        } else {
            self.eof
        }
    }

    /// Runs the automaton until it accepts or fails, as [`run_spec`] says.
    pub fn start(&mut self) -> (r: Result<(), Error>)
        requires
            rows_wf(old(self).table@),
        ensures
            final(self).table == old(self).table,
            final(self).eof == old(self).eof,
            (final(self).cfg(), res_view(r)) == run_spec(
                act_view(old(self).table@),
                old(self).eof,
                old(self).cfg(),
                usize::MAX as nat,
            ),
            final(self).reductors == old(self).reductors,
            exists|trace: Seq<(Seq<T>, Seq<Token<T, usize>>, Seq<Token<T, usize>>)>|
                run_vals(
                    act_view(old(self).table@),
                    old(self).reductors,
                    old(self).eof,
                    old(self).cfg(),
                    usize::MAX as nat,
                    old(self).items@,
                    old(self).buffer@,
                    trace,
                    final(self).items@,
                    final(self).buffer@,
                ),
    {
        let ghost t = act_view(self.table@);
        let ghost goal = run_spec(t, self.eof, self.cfg(), usize::MAX as nat);
        let ghost red = self.reductors;
        let ghost eof = self.eof;
        let ghost c0 = self.cfg();
        let ghost i0 = self.items@;
        let ghost b0 = self.buffer@;
        let ghost mut done: Seq<(Seq<T>, Seq<Token<T, usize>>, Seq<Token<T, usize>>)> = Seq::empty();
        let mut fuel: usize = usize::MAX;
        while !self.finished
            invariant
                self.table == old(self).table,
                self.eof == old(self).eof,
                t == act_view(self.table@),
                rows_wf(self.table@),
                goal == run_spec(t, old(self).eof, old(self).cfg(), usize::MAX as nat),
                run_spec(t, self.eof, self.cfg(), fuel as nat) == goal,
                self.reductors == red,
                red == old(self).reductors,
                eof == old(self).eof,
                c0 == old(self).cfg(),
                i0 == old(self).items@,
                b0 == old(self).buffer@,
                forall|tr: Seq<(Seq<T>, Seq<Token<T, usize>>, Seq<Token<T, usize>>)>, i2: Seq<Token<T, usize>>, b2: Seq<Token<T, usize>>|
                    #[trigger] run_vals(t, red, eof, self.cfg(), fuel as nat, self.items@, self.buffer@, tr, i2, b2)
                        ==> run_vals(t, red, eof, c0, usize::MAX as nat, i0, b0, done + tr, i2, b2),
            decreases fuel,
        {
            let ghost cb = self.cfg();
            let ghost ib = self.items@;
            let ghost bb = self.buffer@;
            let ghost fb = fuel as nat;
            assert(run_spec(t, self.eof, cb, fuel as nat) == if fuel == 0 {
                (cb, Err(ErrorView::StepLimit))
            } else {
                let (c1, r) = travel_spec(t, cb, next_sym(cb, self.eof), usize::MAX as nat);
                match r {
                    Ok(()) => run_spec(t, self.eof, c1, (fuel - 1) as nat),
                    Err(e) => (c1, Err(e)),
                }
            });
            if fuel == 0 {
                assert(run_vals(t, red, eof, cb, fb, ib, bb, Seq::empty(), ib, bb));
                assert(done + Seq::<(Seq<T>, Seq<Token<T, usize>>, Seq<Token<T, usize>>)>::empty() =~= done);
                return Err(Error::StepLimit);
            }
            let symbol = self.next_symbol();
            let res = self.travel(symbol);
            let ghost vals = choose|vals: Seq<T>|
                travel_vals(t, red, cb, symbol, usize::MAX as nat, ib, bb, vals, self.items@, self.buffer@);
            let ghost step = (vals, self.items@, self.buffer@);
            match res {
                Ok(()) => {},
                Err(e) => {
                    assert(run_vals(t, red, eof, cb, fb, ib, bb, seq![step], self.items@, self.buffer@));
                    assert(done + seq![step] =~= done.push(step));
                    return Err(e);
                },
            }
            fuel = fuel - 1;
            assert forall|tr: Seq<(Seq<T>, Seq<Token<T, usize>>, Seq<Token<T, usize>>)>, i2: Seq<Token<T, usize>>, b2: Seq<Token<T, usize>>|
                #[trigger] run_vals(t, red, eof, self.cfg(), fuel as nat, self.items@, self.buffer@, tr, i2, b2)
                    implies run_vals(t, red, eof, c0, usize::MAX as nat, i0, b0, done.push(step) + tr, i2, b2) by {
                assert((seq![step] + tr).drop_first() =~= tr);
                assert((seq![step] + tr)[0] == step);
                assert((fb - 1) as nat == fuel as nat);
                assert(run_vals(t, red, eof, cb, fb, ib, bb, seq![step] + tr, i2, b2));
                assert(done + (seq![step] + tr) =~= done.push(step) + tr);
            }
            proof {
                done = done.push(step);
            }
        }
        assert(run_vals(t, red, eof, self.cfg(), fuel as nat, self.items@, self.buffer@, Seq::empty(), self.items@, self.buffer@));
        assert(done + Seq::<(Seq<T>, Seq<Token<T, usize>>, Seq<Token<T, usize>>)>::empty() =~= done);
        Ok(())
    }

    /// Clears the stacks and the accepted mark, and makes state 0 current.
    pub fn reset(&mut self)
        ensures
            final(self).table == old(self).table,
            final(self).eof == old(self).eof,
            final(self).reductors == old(self).reductors,
            final(self).buffer@ == old(self).buffer@,
            final(self).cfg() == (DfaView {
                input: old(self).cfg().input,
                states: Seq::empty(),
                tys: Seq::empty(),
                top: 0,
                finished: false,
            }),
    {
        self.finished = false;
        self.states.clear();
        self.items.clear();
        self.top = 0;
        assert(self.cfg().tys =~= Seq::<usize>::empty());
    }

    /// Runs the automaton over `input` from state 0 with an empty item stack, returns the
    /// value of the item left on top, and clears the stacks again.
    pub fn parse(&mut self, input: VecDeque<Token<T, usize>>) -> (r: Result<T, Error>)
        requires
            rows_wf(old(self).table@),
        ensures
            final(self).table == old(self).table,
            final(self).eof == old(self).eof,
            ({
                let c0 = start_cfg(tys_of(input@));
                let (c1, res) = run_spec(act_view(old(self).table@), old(self).eof, c0, usize::MAX as nat);
                match res {
                    Err(e) => r matches Err(x) && x@ == e && final(self).cfg() == c1,
                    Ok(()) => if c1.tys.len() == 0 {
                        r matches Err(x) && x@ == ErrorView::MissingPreviousState
                    } else {
                        r matches Ok(v) && parsed_value(
                            act_view(old(self).table@),
                            old(self).reductors,
                            old(self).eof,
                            input@,
                            v,
                        ) && final(self).cfg() == (DfaView {
                            input: c1.input,
                            states: Seq::empty(),
                            tys: Seq::empty(),
                            top: 0,
                            finished: false,
                        })
                    },
                }
            }),
    {
        self.reset();
        self.states.push(0);
        self.buffer = input;
        assert(self.cfg().states =~= seq![0usize]);
        assert(self.cfg() == start_cfg(tys_of(input@)));
        assert(self.items@ =~= Seq::<Token<T, usize>>::empty());
        let ghost red = self.reductors;
        match self.start() {
            Ok(()) => {},
            Err(e) => {
                return Err(e);
            },
        }
        let ghost items2 = self.items@;
        let ghost buf2 = self.buffer@;
        match self.items.pop() {
            Some(res) => {
                self.reset();
                proof {
                    let trace = choose|trace: Seq<(Seq<T>, Seq<Token<T, usize>>, Seq<Token<T, usize>>)>|
                        run_vals(
                            act_view(self.table@),
                            red,
                            self.eof,
                            start_cfg(tys_of(input@)),
                            usize::MAX as nat,
                            Seq::empty(),
                            input@,
                            trace,
                            items2,
                            buf2,
                        );
                    assert(run_vals(
                        act_view(self.table@),
                        red,
                        self.eof,
                        start_cfg(tys_of(input@)),
                        usize::MAX as nat,
                        Seq::empty(),
                        input@,
                        trace,
                        items2,
                        buf2,
                    ));
                }
                Ok(res.item)
            },
            None => Err(Error::MissingPreviousState),
        }
    }
}

/// Whether every row of the table has increasing symbols, as [`rows_wf`] says.
pub fn rows_ok(t: &ActTable) -> (r: bool)
    ensures
        r == rows_wf(t@),
{
    let mut i: usize = 0;
    while i < t.len()
        invariant
            i <= t@.len(),
            forall|a: int| 0 <= a < i ==> row_wf(#[trigger] t@[a]@),
        decreases t@.len() - i,
    {
        let row = &t[i];
        let mut j: usize = 1;
        while j < row.len()
            invariant
                1 <= j,
                i < t@.len(),
                row@ == t@[i as int]@,
                forall|a: int| 0 <= a < i ==> row_wf(#[trigger] t@[a]@),
                forall|a: int, b: int| 0 <= a < b < j && b < row@.len() ==> row@[a].0 < row@[b].0,
            decreases row@.len() - j,
        {
            if row[j - 1].0 >= row[j].0 {
                assert(!row_wf(t@[i as int]@));
                return false;
            }
            assert forall|a: int, b: int| 0 <= a < b < j + 1 && b < row@.len() implies row@[a].0 < row@[b].0 by {
                if b == j && a < j - 1 {
                    assert(row@[a].0 < row@[j - 1].0);
                }
            }
            j = j + 1;
        }
        assert(row_wf(t@[i as int]@));
        i = i + 1;
    }
    true
}

/// The words of the stacks up to place `n`: at each place the state there, in decimal,
/// then the name of the symbol of the item there, where there is one.
pub open spec fn stack_words(states: Seq<usize>, tys: Seq<usize>, names: Seq<Seq<u8>>, n: nat) -> Seq<Seq<u8>>
    decreases n,
{
    if n == 0 {
        Seq::empty()
    } else {
        let i = n - 1;
        let w = stack_words(states, tys, names, (n - 1) as nat);
        let w1 = if i < states.len() { w.push(dec(states[i] as nat)) } else { w };
        if i < tys.len() { w1.push(names[tys[i] as int]) } else { w1 }
    }
}

/// The words `ws` joined by single spaces.
pub open spec fn spaced(ws: Seq<Seq<u8>>) -> Seq<u8>
    decreases ws.len(),
{
    if ws.len() == 0 {
        Seq::empty()
    } else if ws.len() == 1 {
        ws[0]
    } else {
        spaced(ws.drop_last()) + seq![32u8] + ws.last()
    }
}

/// Appends word `w` to the text of `ws`, a space between where `ws` has words.
proof fn lemma_spaced_push(ws: Seq<Seq<u8>>, w: Seq<u8>)
    ensures
        spaced(ws.push(w)) == if ws.len() == 0 { w } else { spaced(ws) + seq![32u8] + w },
{
    assert(ws.push(w).drop_last() =~= ws);
    if ws.len() == 0 {
        assert(ws.push(w)[0] == w);
    }
}

/// Appends word `w` to `out`, after a space where `out` already holds words.
fn put_word(out: &mut Vec<u8>, w: Vec<u8>, any: bool, ws: Ghost<Seq<Seq<u8>>>)
    requires
        old(out)@ == spaced(ws@),
        any == (ws@.len() > 0),
    ensures
        final(out)@ == spaced(ws@.push(w@)),
{
    proof {
        lemma_spaced_push(ws@, w@);
    }
    let ghost wv = w@;
    if any {
        out.push(32u8);
    }
    let mut w = w;
    out.append(&mut w);
    proof {
        if !any {
            assert(old(out)@ =~= Seq::<u8>::empty());
            assert(out@ =~= wv);
        }
    }
}

impl<T, R: Reductor<T>> Dfa<T, R> {
    /// The stacks as text: at each place the state there, in decimal, then the name in
    /// `names` of the symbol of the item there, the words separated by spaces.
    pub fn stack_fmt(&self, names: &Vec<Vec<u8>>) -> (r: Vec<u8>)
        requires
            forall|i: int| 0 <= i < self.items@.len() ==> (#[trigger] self.items@[i]).ty < names@.len(),
        ensures
            r@ == spaced(
                stack_words(
                    self.states@,
                    tys_of(self.items@),
                    names@.map_values(|n: Vec<u8>| n@),
                    if self.states@.len() >= self.items@.len() { self.states@.len() } else { self.items@.len() },
                ),
            ),
    {
        let ghost tys = tys_of(self.items@);
        let ghost nm = names@.map_values(|n: Vec<u8>| n@);
        let n = if self.states.len() >= self.items.len() { self.states.len() } else { self.items.len() };
        let mut out: Vec<u8> = Vec::new();
        let mut any = false;
        let mut i: usize = 0;
        while i < n
            invariant
                i <= n,
                any == (stack_words(self.states@, tys, nm, i as nat).len() > 0),
                n == if self.states@.len() >= self.items@.len() { self.states@.len() } else { self.items@.len() },
                tys == tys_of(self.items@),
                nm == names@.map_values(|n: Vec<u8>| n@),
                forall|a: int| 0 <= a < self.items@.len() ==> (#[trigger] self.items@[a]).ty < names@.len(),
                out@ == spaced(stack_words(self.states@, tys, nm, i as nat)),
            decreases n - i,
        {
            let ghost w0 = stack_words(self.states@, tys, nm, i as nat);
            let ghost mut w1 = w0;
            if i < self.states.len() {
                put_word(&mut out, dec_v(self.states[i]), any, Ghost(w0));
                any = true;
                proof {
                    w1 = w0.push(dec(self.states@[i as int] as nat));
                }
            }
            if i < self.items.len() {
                let ty = self.items[i].ty;
                let mut w: Vec<u8> = Vec::new();
                let nmw = &names[ty];
                let mut k: usize = 0;
                while k < nmw.len()
                    invariant
                        k <= nmw@.len(),
                        w@ == nmw@.subrange(0, k as int),
                    decreases nmw@.len() - k,
                {
                    w.push(nmw[k]);
                    assert(w@ =~= nmw@.subrange(0, k + 1));
                    k = k + 1;
                }
                assert(w@ =~= nm[ty as int]);
                assert(tys[i as int] == ty);
                put_word(&mut out, w, any, Ghost(w1));
                any = true;
                proof {
                    w1 = w1.push(nm[tys[i as int] as int]);
                }
            }
            assert(w1 == stack_words(self.states@, tys, nm, (i + 1) as nat));
            i = i + 1;
        }
        out
    }
}

/// A travel reads at most one token, at its end, and only by shifting it: the input is
/// left as it was, or without its first token, which is then the symbol of the top
/// item.
pub proof fn law_travel_reads_one(t: Seq<Seq<(usize, ActionView)>>, c: DfaView, sym: usize, fuel: nat)
    ensures
        ({
            let c1 = travel_spec(t, c, sym, fuel).0;
            ||| c1.input == c.input
            ||| (c.input.len() > 0 && c1.input == c.input.drop_first() && c1.tys.len() > 0 && c1.tys.last() == c.input[0])
        }),
    decreases fuel,
{
    let (c1, o) = tstep(t, c, sym);
    match o {
        StepOut::Again(name) => {
            if fuel > 0 {
                assert(c1.input == c.input);
                law_travel_reads_one(t, c1, name, (fuel - 1) as nat);
            }
        },
        _ => {},
    }
}

/// A run reads the input from the front: what it leaves unread is a suffix of it.
pub proof fn law_run_reads_prefix(t: Seq<Seq<(usize, ActionView)>>, eof: usize, c: DfaView, fuel: nat)
    ensures
        exists|k: int|
            0 <= k <= c.input.len() && #[trigger] c.input.subrange(k, c.input.len() as int) == run_spec(t, eof, c, fuel).0.input,
    decreases fuel,
{
    if c.finished || fuel == 0 {
        assert(c.input.subrange(0, c.input.len() as int) == c.input);
    } else {
        let (c1, r) = travel_spec(t, c, next_sym(c, eof), usize::MAX as nat);
        law_travel_reads_one(t, c, next_sym(c, eof), usize::MAX as nat);
        match r {
            Ok(()) => {
                law_run_reads_prefix(t, eof, c1, (fuel - 1) as nat);
                let k1 = choose|k: int|
                    0 <= k <= c1.input.len() && #[trigger] c1.input.subrange(k, c1.input.len() as int) == run_spec(
                        t,
                        eof,
                        c1,
                        (fuel - 1) as nat,
                    ).0.input;
                if c1.input == c.input {
                    assert(c.input.subrange(k1, c.input.len() as int) == run_spec(t, eof, c, fuel).0.input);
                } else {
                    assert(c.input.subrange(k1 + 1, c.input.len() as int) =~= c1.input.subrange(k1, c1.input.len() as int));
                    assert(c.input.subrange(k1 + 1, c.input.len() as int) == run_spec(t, eof, c, fuel).0.input);
                }
            },
            Err(_) => {
                if c1.input == c.input {
                    assert(c.input.subrange(0, c.input.len() as int) =~= c.input);
                } else {
                    assert(c.input.subrange(1, c.input.len() as int) =~= c1.input);
                }
            },
        }
    }
}

} // verus!
