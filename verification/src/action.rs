//! Parser actions and action tables.
use vstd::prelude::*;

use crate::pos::{Production, copy_syms};
use crate::symset::seq_eq;

verus! {

/// What the automaton does in a state on a symbol.
#[derive(Debug)]
pub enum Action {
    Shift(usize),
    Goto(usize),
    Reduce(usize, Production),
    Acc,
    Conflict(Box<Action>, Box<Action>),
}

/// The mathematical value of an [`Action`].
pub enum ActionView {
    Shift(usize),
    Goto(usize),
    Reduce(usize, Seq<usize>, usize),
    Acc,
    Conflict(Box<ActionView>, Box<ActionView>),
}

pub open spec fn action_view(a: Action) -> ActionView
    decreases a,
{
    match a {
        Action::Shift(n) => ActionView::Shift(n),
        Action::Goto(n) => ActionView::Goto(n),
        Action::Reduce(r, p) => ActionView::Reduce(r, p.0@, p.1),
        Action::Acc => ActionView::Acc,
        Action::Conflict(x, y) => ActionView::Conflict(
            Box::new(action_view(*x)),
            Box::new(action_view(*y)),
        ),
    }
}

impl View for Action {
    type V = ActionView;

    open spec fn view(&self) -> ActionView {
        action_view(*self)
    }
}

/// A row of the action table: entries `(symbol, action)` with increasing symbols.
pub type Row = Vec<(usize, Action)>;

/// The action table: one row per state.
pub type ActTable = Vec<Row>;

/// The row's entries, viewed.
pub open spec fn row_view(r: Seq<(usize, Action)>) -> Seq<(usize, ActionView)> {
    r.map_values(|e: (usize, Action)| (e.0, e.1@))
}

/// A row's entries, viewed.
pub open spec fn rview(r: Row) -> Seq<(usize, ActionView)> {
    row_view(r@)
}

/// The symbols of a row strictly increase.
pub open spec fn row_wf(r: Seq<(usize, Action)>) -> bool {
    forall|i: int, j: int| 0 <= i < j < r.len() ==> r[i].0 < r[j].0
}

/// Whether the row has an action for `x`.
pub open spec fn row_has(r: Seq<(usize, Action)>, x: usize) -> bool {
    exists|i: int| 0 <= i < r.len() && #[trigger] r[i].0 == x
}

/// The action of the row for `x`.
pub open spec fn row_get(r: Seq<(usize, Action)>, x: usize) -> ActionView {
    r[choose|i: int| 0 <= i < r.len() && #[trigger] r[i].0 == x].1@
}

/// Every state that `a` names is below `n`.
pub open spec fn refs_below(a: ActionView, n: int) -> bool
    decreases a,
{
    match a {
        ActionView::Shift(k) => k < n,
        ActionView::Goto(k) => k < n,
        ActionView::Conflict(x, y) => refs_below(*x, n) && refs_below(*y, n),
        _ => true,
    }
}

/// `a` with every state `k` it names renamed to `travel[k]`.
pub open spec fn remap(a: ActionView, travel: Seq<usize>) -> ActionView
    decreases a,
{
    match a {
        ActionView::Shift(k) => ActionView::Shift(travel[k as int]),
        ActionView::Goto(k) => ActionView::Goto(travel[k as int]),
        ActionView::Conflict(x, y) => ActionView::Conflict(
            Box::new(remap(*x, travel)),
            Box::new(remap(*y, travel)),
        ),
        _ => a,
    }
}

/// Whether `a` is a conflict.
pub open spec fn is_conflict(a: ActionView) -> bool {
    a is Conflict
}

impl Action {
    /// A copy of this action.
    pub fn copy(&self) -> (r: Self)
        ensures
            r@ == self@,
        decreases self,
    {
        match self {
            Action::Shift(n) => Action::Shift(*n),
            Action::Goto(n) => Action::Goto(*n),
            Action::Reduce(r, p) => Action::Reduce(*r, (copy_syms(&p.0), p.1)),
            Action::Acc => Action::Acc,
            Action::Conflict(a, b) => {
                let x = (**a).copy();
                let y = (**b).copy();
                Action::Conflict(Box::new(x), Box::new(y))
            },
        }
    }

    /// Whether both actions are the same.
    pub fn equal(&self, other: &Action) -> (r: bool)
        ensures
            r == (self@ == other@),
        decreases self,
    {
        match (self, other) {
            (Action::Shift(a), Action::Shift(b)) => *a == *b,
            (Action::Goto(a), Action::Goto(b)) => *a == *b,
            (Action::Reduce(r1, p1), Action::Reduce(r2, p2)) => *r1 == *r2 && p1.1 == p2.1
                && seq_eq(&p1.0, &p2.0),
            (Action::Acc, Action::Acc) => true,
            (Action::Conflict(a1, b1), Action::Conflict(a2, b2)) => (**a1).equal(&**a2) && (
            **b1).equal(&**b2),
            _ => false,
        }
    }

    /// This action with every state `k` it names renamed to `travel[k]`.
    pub fn remapped(&self, travel: &Vec<usize>) -> (r: Self)
        requires
            refs_below(self@, travel@.len() as int),
        ensures
            r@ == remap(self@, travel@),
        decreases self,
    {
        match self {
            Action::Shift(n) => Action::Shift(travel[*n]),
            Action::Goto(n) => Action::Goto(travel[*n]),
            Action::Reduce(r, p) => Action::Reduce(*r, (copy_syms(&p.0), p.1)),
            Action::Acc => Action::Acc,
            Action::Conflict(a, b) => {
                let x = (**a).remapped(travel);
                let y = (**b).remapped(travel);
                Action::Conflict(Box::new(x), Box::new(y))
            },
        }
    }

    /// Whether this action is a conflict.
    pub fn is_conflict(&self) -> (r: bool)
        ensures
            r == is_conflict(self@),
    {
        match self {
            Action::Conflict(..) => true,
            _ => false,
        }
    }
}

/// The index of the entry for `x` in a row.
pub fn row_find(r: &Row, x: usize) -> (res: Option<usize>)
    requires
        row_wf(r@),
    ensures
        match res {
            Some(i) => i < r@.len() && r@[i as int].0 == x && row_get(r@, x) == r@[i as int].1@,
            None => !row_has(r@, x),
        },
{
    let mut i: usize = 0;
    while i < r.len()
        invariant
            i <= r.len(),
            row_wf(r@),
            forall|k: int| 0 <= k < i ==> r@[k].0 != x,
        decreases r.len() - i,
    {
        if r[i].0 == x {
            assert(r@[i as int].0 == x);
            let ghost k = choose|k: int| 0 <= k < r@.len() && #[trigger] r@[k].0 == x;
            assert(k == i) by {
                if k < i {
                } else if k > i {
                    assert(r@[i as int].0 < r@[k].0);
                }
            }
            return Some(i);
        }
        i = i + 1;
    }
    None
}

/// A copy of a row.
pub fn row_copy(r: &Row) -> (c: Row)
    ensures
        row_view(c@) == row_view(r@),
        c@.len() == r@.len(),
        forall|i: int| 0 <= i < r@.len() ==> #[trigger] c@[i].0 == r@[i].0,
{
    let mut c: Row = Vec::new();
    let mut i: usize = 0;
    while i < r.len()
        invariant
            i <= r.len(),
            c@.len() == i,
            forall|k: int| 0 <= k < i ==> #[trigger] c@[k].0 == r@[k].0 && c@[k].1@ == r@[k].1@,
        decreases r.len() - i,
    {
        c.push((r[i].0, r[i].1.copy()));
        i = i + 1;
    }
    assert(row_view(c@) =~= row_view(r@));
    c
}

/// Whether two rows hold the same entries.
pub fn row_eq(a: &Row, b: &Row) -> (res: bool)
    ensures
        res == (row_view(a@) == row_view(b@)),
{
    if a.len() != b.len() {
        assert(row_view(a@).len() != row_view(b@).len());
        return false;
    }
    let mut i: usize = 0;
    while i < a.len()
        invariant
            i <= a.len(),
            a.len() == b.len(),
            forall|k: int| 0 <= k < i ==> #[trigger] row_view(a@)[k] == row_view(b@)[k],
        decreases a.len() - i,
    {
        if a[i].0 != b[i].0 || !a[i].1.equal(&b[i].1) {
            assert(row_view(a@)[i as int] != row_view(b@)[i as int]);
            return false;
        }
        assert(row_view(a@)[i as int] == row_view(b@)[i as int]);
        i = i + 1;
    }
    assert(row_view(a@) =~= row_view(b@));
    true
}

} // verus!
