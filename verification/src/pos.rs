//! LR items ("positions"): a production of a rule with a point inside it and a
//! set of lookahead symbols, together with the order in which sets of them are kept.
use vstd::prelude::*;

use crate::symset::{seq_eq, sorted_by_lt, strict_total};

verus! {

/// A production: its body and its index among the productions of its rule.
pub type Production = (Vec<usize>, usize);

/// An LR item: `rule -> body` with the point before `body[point]`, and its lookaheads.
#[derive(Debug)]
pub struct Position {
    pub rule: usize,
    pub seq: Production,
    pub point: usize,
    pub look: Vec<usize>,
}

/// The mathematical value of a [`Position`].
pub struct PositionView {
    pub rule: usize,
    pub body: Seq<usize>,
    pub index: usize,
    pub point: usize,
    pub look: Seq<usize>,
}

impl View for Position {
    type V = PositionView;

    open spec fn view(&self) -> PositionView {
        PositionView {
            rule: self.rule,
            body: self.seq.0@,
            index: self.seq.1,
            point: self.point,
            look: self.look@,
        }
    }
}

/// Lexicographic order on symbol sequences (a proper prefix comes first), as `Vec` orders them.
pub open spec fn seq_lt(a: Seq<usize>, b: Seq<usize>) -> bool
    decreases a.len(),
{
    if a.len() == 0 {
        b.len() > 0
    } else if b.len() == 0 {
        false
    } else if a[0] < b[0] {
        true
    } else if a[0] > b[0] {
        false
    } else {
        seq_lt(a.drop_first(), b.drop_first())
    }
}

/// The order on items: by rule, then body, then production index, then point, then lookaheads.
pub open spec fn pos_lt(a: PositionView, b: PositionView) -> bool {
    if a.rule != b.rule {
        a.rule < b.rule
    } else if a.body != b.body {
        seq_lt(a.body, b.body)
    } else if a.index != b.index {
        a.index < b.index
    } else if a.point != b.point {
        a.point < b.point
    } else {
        seq_lt(a.look, b.look)
    }
}

pub proof fn lemma_seq_lt_irreflexive(a: Seq<usize>)
    ensures
        !seq_lt(a, a),
    decreases a.len(),
{
    if a.len() > 0 {
        lemma_seq_lt_irreflexive(a.drop_first());
    }
}

pub proof fn lemma_seq_lt_transitive(a: Seq<usize>, b: Seq<usize>, c: Seq<usize>)
    requires
        seq_lt(a, b),
        seq_lt(b, c),
    ensures
        seq_lt(a, c),
    decreases a.len(),
{
    if a.len() > 0 && b.len() > 0 && c.len() > 0 {
        if a[0] == b[0] && b[0] == c[0] {
            lemma_seq_lt_transitive(a.drop_first(), b.drop_first(), c.drop_first());
        }
    }
}

pub proof fn lemma_seq_lt_total(a: Seq<usize>, b: Seq<usize>)
    requires
        a != b,
    ensures
        seq_lt(a, b) || seq_lt(b, a),
    decreases a.len(),
{
    if a.len() == 0 {
        assert(b.len() > 0) by {
            if b.len() == 0 {
                assert(a =~= b);
            }
        }
    } else if b.len() > 0 && a[0] == b[0] {
        if a.drop_first() == b.drop_first() {
            assert(a =~= seq![a[0]] + a.drop_first());
            assert(b =~= seq![b[0]] + b.drop_first());
        }
        lemma_seq_lt_total(a.drop_first(), b.drop_first());
    }
}

/// Item order is a strict total order.
pub proof fn lemma_pos_lt_total()
    ensures
        strict_total(|a: PositionView, b: PositionView| pos_lt(a, b)),
{
    assert forall|a: PositionView| !pos_lt(a, a) by {
        lemma_seq_lt_irreflexive(a.look);
    }
    assert forall|a: PositionView, b: PositionView, c: PositionView|
        pos_lt(a, b) && pos_lt(b, c) implies pos_lt(a, c) by {
        if a.rule == b.rule && b.rule == c.rule {
            if a.body != b.body && b.body != c.body {
                lemma_seq_lt_transitive(a.body, b.body, c.body);
                if a.body == c.body {
                    lemma_seq_lt_transitive(a.body, b.body, a.body);
                    lemma_seq_lt_irreflexive(a.body);
                }
            } else if a.body == b.body && b.body == c.body {
                if a.index == b.index && b.index == c.index && a.point == b.point && b.point
                    == c.point {
                    lemma_seq_lt_transitive(a.look, b.look, c.look);
                }
            }
        }
    }
    assert forall|a: PositionView, b: PositionView|
        a != b implies #[trigger] pos_lt(a, b) || #[trigger] pos_lt(b, a) by {
        if a.rule == b.rule && a.body == b.body && a.index == b.index && a.point == b.point {
            if a.look == b.look {
                assert(a == b);
            }
            lemma_seq_lt_total(a.look, b.look);
        } else if a.rule == b.rule && a.body != b.body {
            lemma_seq_lt_total(a.body, b.body);
        }
    }
}

pub proof fn lemma_pos_lt_transitive(a: PositionView, b: PositionView, c: PositionView)
    requires
        pos_lt(a, b),
        pos_lt(b, c),
    ensures
        pos_lt(a, c),
{
    lemma_pos_lt_total();
    let lt = |x: PositionView, y: PositionView| pos_lt(x, y);
    assert(lt(a, b) && lt(b, c));
}

pub proof fn lemma_pos_lt_trichotomy(a: PositionView, b: PositionView)
    requires
        a != b,
    ensures
        pos_lt(a, b) || pos_lt(b, a),
{
    lemma_pos_lt_total();
    let lt = |x: PositionView, y: PositionView| pos_lt(x, y);
    assert(lt(a, b) || lt(b, a));
}

/// The item's views, in order.
pub open spec fn views(s: Seq<Position>) -> Seq<PositionView> {
    s.map_values(|p: Position| p@)
}

/// A set of items kept in canonical (strictly increasing) order.
pub open spec fn canonical(s: Seq<PositionView>) -> bool {
    forall|i: int, j: int| 0 <= i < j < s.len() ==> #[trigger] pos_lt(s[i], s[j])
}

pub proof fn lemma_canonical_sorted_by(s: Seq<PositionView>)
    requires
        canonical(s),
    ensures
        sorted_by_lt(s, |a: PositionView, b: PositionView| pos_lt(a, b)),
{
}

/// The symbol at `body[point + qty]`, if any.
pub open spec fn peek_spec(p: PositionView, qty: int) -> Option<usize> {
    if 0 <= p.point + qty < p.body.len() {
        Some(p.body[p.point + qty])
    } else {
        None
    }
}

/// The item with its point moved one symbol forward.
pub open spec fn advanced(p: PositionView) -> PositionView {
    PositionView { point: (p.point + 1) as usize, ..p }
}

/// Whether `a` and `b` are the same item apart from their lookaheads.
pub open spec fn same_core(a: PositionView, b: PositionView) -> bool {
    a.rule == b.rule && a.body == b.body && a.index == b.index && a.point == b.point
}

/// Exec comparison of symbol sequences in [`seq_lt`] order.
pub fn seq_less(a: &Vec<usize>, b: &Vec<usize>) -> (r: bool)
    ensures
        r == seq_lt(a@, b@),
{
    let mut i: usize = 0;
    assert(a@.skip(0) =~= a@);
    assert(b@.skip(0) =~= b@);
    while i < a.len() && i < b.len() && a[i] == b[i]
        invariant
            i <= a.len(),
            i <= b.len(),
            seq_lt(a@, b@) == seq_lt(a@.skip(i as int), b@.skip(i as int)),
        decreases a.len() - i,
    {
        assert(a@.skip(i as int).drop_first() =~= a@.skip(i + 1));
        assert(b@.skip(i as int).drop_first() =~= b@.skip(i + 1));
        i = i + 1;
    }
    if i == a.len() {
        i < b.len()
    } else if i == b.len() {
        false
    } else {
        a[i] < b[i]
    }
}

/// Exec comparison of items in [`pos_lt`] order.
pub fn pos_less(a: &Position, b: &Position) -> (r: bool)
    ensures
        r == pos_lt(a@, b@),
{
    if a.rule != b.rule {
        return a.rule < b.rule;
    }
    if !seq_eq(&a.seq.0, &b.seq.0) {
        return seq_less(&a.seq.0, &b.seq.0);
    }
    if a.seq.1 != b.seq.1 {
        return a.seq.1 < b.seq.1;
    }
    if a.point != b.point {
        return a.point < b.point;
    }
    seq_less(&a.look, &b.look)
}

/// Exec equality of items.
pub fn pos_equal(a: &Position, b: &Position) -> (r: bool)
    ensures
        r == (a@ == b@),
{
    a.rule == b.rule && a.seq.1 == b.seq.1 && a.point == b.point && seq_eq(&a.seq.0, &b.seq.0)
        && seq_eq(&a.look, &b.look)
}

/// Copies a symbol sequence.
pub fn copy_syms(v: &Vec<usize>) -> (r: Vec<usize>)
    ensures
        r@ == v@,
{
    let r = v.clone();
    assert(r@ =~= v@);
    r
}

impl Position {
    pub fn new(rule: usize, seq: Production, point: usize, look: Vec<usize>) -> (p: Self)
        ensures
            p.rule == rule,
            p.seq.0@ == seq.0@,
            p.seq.1 == seq.1,
            p.point == point,
            p.look@ == look@,
    {
        Position { rule, seq, point, look }
    }

    /// A copy of this item.
    pub fn copy(&self) -> (p: Self)
        ensures
            p@ == self@,
    {
        Position {
            rule: self.rule,
            seq: (copy_syms(&self.seq.0), self.seq.1),
            point: self.point,
            look: copy_syms(&self.look),
        }
    }

    /// The same item with `look` as its lookaheads.
    pub fn with_look(self, look: Vec<usize>) -> (p: Self)
        ensures
            p@ == (PositionView { look: look@, ..self@ }),
    {
        Position { look, ..self }
    }

    /// The symbol after the current one: `next([S -> C . D f; $]) = f`.
    pub fn next(&self) -> (r: Option<usize>)
        ensures
            r == peek_spec(self@, 1),
    {
        self.peek(1)
    }

    /// The symbol `qty` places after the point, if the body has one.
    pub fn peek(&self, qty: usize) -> (r: Option<usize>)
        ensures
            r == peek_spec(self@, qty as int),
    {
        let len = self.seq.0.len();
        if self.point < len && qty < len - self.point {
            Some(self.seq.0[self.point + qty])
        } else {
            None
        }
    }

    /// The symbol right after the point: `top([S -> C . D f; $]) = D`.
    pub fn top(&self) -> (r: Option<usize>)
        ensures
            r == peek_spec(self@, 0),
    {
        self.peek(0)
    }

    /// Whether the point is at (or past) the end of the body.
    pub fn finished(&self) -> (r: bool)
        ensures
            r == (self.point >= self.seq.0@.len()),
    {
        self.point >= self.seq.0.len()
    }

    /// Whether both items are equal apart from their lookaheads.
    pub fn body_eq(&self, rhs: &Self) -> (r: bool)
        ensures
            r == same_core(self@, rhs@),
    {
        self.point == rhs.point && self.seq.1 == rhs.seq.1 && self.rule == rhs.rule && seq_eq(
            &self.seq.0,
            &rhs.seq.0,
        )
    }

    /// Moves the point one symbol forward.
    pub fn adv(&mut self)
        requires
            old(self).point < usize::MAX,
        ensures
            final(self)@ == advanced(old(self)@),
    {
        self.point = self.point + 1;
    }

    /// The symbol at absolute index `idx` of the body, if any.
    pub fn abs_idx(&self, idx: usize) -> (r: Option<usize>)
        ensures
            r == (if idx < self.seq.0@.len() {
                Some(self.seq.0@[idx as int])
            } else {
                None
            }),
    {
        if idx < self.seq.0.len() {
            Some(self.seq.0[idx])
        } else {
            None
        }
    }

    /// The same item without lookaheads.
    pub fn no_look(&self) -> (p: Self)
        ensures
            p@ == (PositionView { look: Seq::empty(), ..self@ }),
    {
        Position::new(self.rule, (copy_syms(&self.seq.0), self.seq.1), self.point, Vec::new())
    }

    /// The item advanced by one symbol, unless it is finished.
    pub fn clone_next(&self) -> (r: Option<Self>)
        ensures
            match r {
                Some(p) => self.point < self.seq.0@.len() && p@ == advanced(self@),
                None => self.point >= self.seq.0@.len(),
            },
    {
        if self.point >= self.seq.0.len() {
            None
        } else {
            let mut next = self.copy();
            next.adv();
            Some(next)
        }
    }
}

} // verus!
