//! LR parser generation over numbered symbols: FIRST and FOLLOW sets, the canonical
//! LR(1), SLR(1) and LALR(1) automata and their action tables, and the pushdown
//! automaton that runs a table over a stream of tokens.
use vstd::prelude::*;

pub mod symset;
pub mod pos;
pub mod state;
pub mod grammar;
pub mod table;
pub mod action;
pub mod reach;
pub mod tabler;
pub mod grammars;
pub mod lr;
pub mod decide;
pub mod clr;
pub mod slr;
pub mod lalr;
pub mod dfa;
pub mod parser;
pub mod depth;
pub mod merge;
pub mod cores;
pub mod looks;
pub mod conflicts;
pub mod prodbuild;
pub mod wopast;
pub mod expand;
pub mod fixpoint;
pub mod codegen;
pub mod fromsrc;

verus! {

/// An exclusive span: `start` is where the covered range begins, `end` is where it stops.
#[derive(Debug, PartialEq, Eq, Copy, Clone)]
pub struct Span {
    pub start: usize,
    pub end: usize,
}

impl Span {
    pub fn new(start: usize, end: usize) -> (s: Self)
        ensures
            s.start == start,
            s.end == end,
    {
        Span { start, end }
    }

    /// The elements of `slice` that the span covers: `slice[start..end]`.
    pub fn from_source<T: Copy>(&self, slice: &[T]) -> (r: Vec<T>)
        requires
            self.start <= self.end <= slice@.len(),
        ensures
            r@ == slice@.subrange(self.start as int, self.end as int),
    {
        let mut r: Vec<T> = Vec::new();
        let mut i: usize = self.start;
        while i < self.end
            invariant
                self.start <= i <= self.end <= slice@.len(),
                r@ == slice@.subrange(self.start as int, i as int),
            decreases self.end - i,
        {
            r.push(slice[i]);
            assert(r@ =~= slice@.subrange(self.start as int, i + 1));
            i = i + 1;
        }
        r
    }
}

impl From<(usize, usize)> for Span {
    fn from(value: (usize, usize)) -> (s: Self) {
        Span { start: value.0, end: value.1 }
    }
}

impl vstd::std_specs::convert::FromSpecImpl<(usize, usize)> for Span {
    open spec fn obeys_from_spec() -> bool {
        true
    }

    open spec fn from_spec(v: (usize, usize)) -> Self {
        Span { start: v.0, end: v.1 }
    }
}

/// A value together with the span of source it came from.
#[derive(Debug, PartialEq, Eq, Clone)]
pub struct Meta<T> {
    pub item: T,
    pub span: Span,
}

impl<T> Meta<T> {
    pub fn new(item: T, span: Span) -> (m: Self)
        ensures
            m.item == item,
            m.span == span,
    {
        Meta { item, span }
    }
}

/// An input token: its value and its symbol.
#[derive(Debug, PartialEq, Eq, Clone)]
pub struct Token<T, M> {
    pub item: T,
    pub ty: M,
}

impl<T, M> Token<T, M> {
    pub fn new(item: T, ty: M) -> (t: Self)
        ensures
            t.item == item,
            t.ty == ty,
    {
        Token { item, ty }
    }
}

impl<M> Token<(), M> {
    /// A token that carries only its symbol.
    pub fn empty(ty: M) -> (t: Self)
        ensures
            t.ty == ty,
    {
        Token::new((), ty)
    }
}

/// A grammar symbol: a terminal or a non-terminal.
#[derive(Debug, Clone, PartialEq, Eq)]
pub enum Sym<T, U> {
    Term(T),
    NoTerm(U),
}

/// One symbol-only token for each symbol of `it`, in order.
pub fn to_tokens<T: Copy>(it: &Vec<T>) -> (r: Vec<Token<(), T>>)
    ensures
        r@.len() == it@.len(),
        forall|i: int| 0 <= i < it@.len() ==> #[trigger] r@[i].ty == it@[i],
{
    let mut r: Vec<Token<(), T>> = Vec::new();
    let mut i: usize = 0;
    while i < it.len()
        invariant
            i <= it@.len(),
            r@.len() == i,
            forall|k: int| 0 <= k < i ==> #[trigger] r@[k].ty == it@[k],
        decreases it@.len() - i,
    {
        r.push(Token::empty(it[i]));
        i = i + 1;
    }
    r
}

} // verus!
