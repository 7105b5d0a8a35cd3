//! Grammars: rules with their productions, the terminals and symbols they use,
//! and the item from which the automaton starts.
use vstd::prelude::*;

use crate::pos::{Position, Production, copy_syms};
use crate::symset::{set_insert, sorted_set};

verus! {

/// A rule: a non-terminal and its productions, each tagged with its index.
#[derive(Debug)]
pub struct Rule {
    pub name: usize,
    pub prods: Vec<Production>,
}

/// The body of production `j` of rule `r`.
pub open spec fn body_of(r: Rule, j: int) -> Seq<usize> {
    r.prods@[j].0@
}

/// Each production of `r` carries its own index.
pub open spec fn rule_wf(r: Rule) -> bool {
    forall|j: int| 0 <= j < r.prods@.len() ==> #[trigger] r.prods@[j].1 == j
}

/// The rule names of `rs` are strictly increasing.
pub open spec fn names_sorted(rs: Seq<Rule>) -> bool {
    forall|i: int, j: int| 0 <= i < j < rs.len() ==> rs[i].name < rs[j].name
}

/// Whether `rs` has a rule named `x`.
pub open spec fn has_rule(rs: Seq<Rule>, x: usize) -> bool {
    exists|i: int| 0 <= i < rs.len() && #[trigger] rs[i].name == x
}

/// The index of the rule named `x` in `rs`.
pub open spec fn rule_index(rs: Seq<Rule>, x: usize) -> int {
    choose|i: int| 0 <= i < rs.len() && #[trigger] rs[i].name == x
}

/// The rules of `rs` as a map from names to rules.
pub open spec fn rule_map(rs: Seq<Rule>) -> Map<usize, Rule> {
    Map::new(|x: usize| has_rule(rs, x), |x: usize| rs[rule_index(rs, x)])
}

/// In a list sorted by name, the rule at index `i` is the one found under its name.
pub proof fn lemma_rule_at(rs: Seq<Rule>, i: int)
    requires
        names_sorted(rs),
        0 <= i < rs.len(),
    ensures
        has_rule(rs, rs[i].name),
        rule_index(rs, rs[i].name) == i,
{
    let x = rs[i].name;
    assert(rs[i].name == x);
    let k = rule_index(rs, x);
    if k < i {
        assert(rs[k].name < rs[i].name);
    } else if k > i {
        assert(rs[i].name < rs[k].name);
    }
}

/// The map that inserting the rules of `rs` one after the other builds: a later rule
/// replaces an earlier one of the same name.
pub open spec fn inserted(rs: Seq<Rule>) -> Map<usize, Rule>
    decreases rs.len(),
{
    if rs.len() == 0 {
        Map::empty()
    } else {
        inserted(rs.drop_last()).insert(rs.last().name, rs.last())
    }
}

/// The production bodies of rule `r`, in order.
pub open spec fn bodies(r: Rule) -> Seq<Seq<usize>> {
    r.prods@.map_values(|p: Production| p.0@)
}

/// The rules of `rs` as a map from each rule name to its production bodies.
pub open spec fn rule_bodies(rs: Seq<Rule>) -> Map<usize, Seq<Seq<usize>>> {
    rule_map(rs).map_values(|r: Rule| bodies(r))
}

/// Every rule of `rs` numbers its productions in order.
pub open spec fn rules_numbered(rs: Seq<Rule>) -> bool {
    forall|x: usize| #[trigger] rule_map(rs).contains_key(x) ==> rule_wf(rule_map(rs)[x])
}

/// Whether `t` is a terminal of rules with bodies `m` and end of input `eof`: `eof`, or a
/// symbol that occurs in a body without having a rule.
pub open spec fn terminal_of(m: Map<usize, Seq<Seq<usize>>>, eof: usize, t: usize) -> bool {
    t == eof || (!m.contains_key(t) && exists|x: usize, j: int|
        #![trigger m[x][j]]
        m.contains_key(x) && 0 <= j < m[x].len() && m[x][j].contains(t))
}

/// Whether symbol `x` occurs in some production body of rule `r`.
pub open spec fn occurs_in(r: Rule, x: usize) -> bool {
    exists|j: int| 0 <= j < r.prods@.len() && #[trigger] body_of(r, j).contains(x)
}

/// Whether symbol `x` occurs in some production body of `rs`.
pub open spec fn occurs(rs: Seq<Rule>, x: usize) -> bool {
    exists|i: int| 0 <= i < rs.len() && #[trigger] occurs_in(rs[i], x)
}

/// A context-free grammar over symbol numbers.
#[derive(Debug)]
pub struct Grammar {
    pub rules: Vec<Rule>,
    pub terminals: Vec<usize>,
    pub symbols: Vec<usize>,
    pub basis: Position,
}

impl Grammar {
    /// The end-of-input symbol: the lookahead of the start item.
    pub open spec fn eof(&self) -> usize {
        self.basis.look@[0]
    }

    /// Whether `x` is a non-terminal, i.e. has a rule.
    pub open spec fn nonterminal(&self, x: usize) -> bool {
        has_rule(self.rules@, x)
    }

    /// The rule named `x`.
    pub open spec fn rule(&self, x: usize) -> Rule {
        self.rules@[rule_index(self.rules@, x)]
    }

    /// A well-formed grammar: what [`Grammar::new`] builds.
    pub open spec fn wf(&self) -> bool {
        &&& names_sorted(self.rules@)
        &&& sorted_set(self.terminals@)
        &&& sorted_set(self.symbols@)
        &&& self.basis.look@.len() == 1
        &&& forall|t: usize| #[trigger]
            self.terminals@.contains(t) <==> (t == self.eof() || (occurs(self.rules@, t)
                && !has_rule(self.rules@, t)))
        &&& forall|x: usize| #[trigger]
            self.symbols@.contains(x) <==> (has_rule(self.rules@, x) || self.terminals@.contains(
                x,
            ))
        &&& has_rule(self.rules@, self.basis.rule)
        &&& self.rule(self.basis.rule).prods@.len() > 0
        &&& self.basis@.body == body_of(self.rule(self.basis.rule), 0)
        &&& self.basis@.index == self.rule(self.basis.rule).prods@[0].1
        &&& self.basis@.point == 0
    }
}

/// The terminals of a grammar, in increasing order, are fixed by its rules and its end of
/// input: `eof` and the symbols that occur in a body without having a rule.
pub proof fn law_terminals_from_rules(g: Grammar)
    requires
        g.wf(),
    ensures
        sorted_set(g.terminals@),
        forall|t: usize| #[trigger] g.terminals@.contains(t) <==> terminal_of(rule_bodies(g.rules@), g.eof(), t),
        forall|x: usize| #[trigger] g.symbols@.contains(x) <==> (rule_bodies(g.rules@).contains_key(x) || g.terminals@.contains(x)),
{
    let rs = g.rules@;
    let m = rule_bodies(rs);
    assert forall|t: usize| #[trigger] g.terminals@.contains(t) <==> terminal_of(m, g.eof(), t) by {
        if occurs(rs, t) {
            let i = choose|i: int| 0 <= i < rs.len() && #[trigger] occurs_in(rs[i], t);
            let j = choose|j: int| 0 <= j < rs[i].prods@.len() && #[trigger] body_of(rs[i], j).contains(t);
            lemma_rule_at(rs, i);
            let x = rs[i].name;
            assert(m[x][j] == body_of(rs[i], j));
            assert(m[x][j].contains(t));
        }
        if t != g.eof() && terminal_of(m, g.eof(), t) {
            let (x, j) = choose|x: usize, j: int|
                #![trigger m[x][j]]
                m.contains_key(x) && 0 <= j < m[x].len() && m[x][j].contains(t);
            let i = rule_index(rs, x);
            assert(body_of(rs[i], j) == m[x][j]);
            assert(occurs_in(rs[i], t));
        }
    }
}

impl Grammar {
    /// Builds a grammar from its start symbol, its rules (a later rule replaces an earlier
    /// one of the same name) and its end-of-input symbol. Terminals are the symbols that
    /// occur in a body without having a rule, and `eof`.
    pub fn new(start: usize, rules: Vec<Rule>, eof: usize) -> (g: Self)
        requires
            inserted(rules@).contains_key(start),
            inserted(rules@)[start].prods@.len() > 0,
        ensures
            g.wf(),
            rule_map(g.rules@) == inserted(rules@),
            g.basis.rule == start,
            g.eof() == eof,
    {
        let ghost input = rules@;
        let mut rules = rules;
        let total = rules.len();
        let mut rs: Vec<Rule> = Vec::new();
        let mut n: usize = 0;
        assert(rule_map(rs@) =~= inserted(input.subrange(0, 0)));
        while rules.len() > 0
            invariant
                n + rules@.len() == input.len(),
                total == input.len(),
                rules@ == input.subrange(n as int, input.len() as int),
                names_sorted(rs@),
                rule_map(rs@) == inserted(input.subrange(0, n as int)),
            decreases rules.len(),
        {
            let r = rules.remove(0);
            assert(input.subrange(0, n + 1).drop_last() =~= input.subrange(0, n as int));
            assert(input.subrange(0, n + 1).last() == r);
            insert_rule(&mut rs, r);
            n = n + 1;
            assert(rules@ =~= input.subrange(n as int, input.len() as int));
        }
        assert(input.subrange(0, input.len() as int) =~= input);
        let mut terminals: Vec<usize> = Vec::new();
        let mut i: usize = 0;
        while i < rs.len()
            invariant
                i <= rs.len(),
                names_sorted(rs@),
                sorted_set(terminals@),
                forall|t: usize| #[trigger]
                    terminals@.contains(t) <==> ((exists|i2: int|
                        0 <= i2 < i && #[trigger] occurs_in(rs@[i2], t)) && !has_rule(rs@, t)),
            decreases rs.len() - i,
        {
            add_rule_terminals(&rs, &rs[i], &mut terminals);
            assert forall|t: usize| #[trigger]
                terminals@.contains(t) <==> ((exists|i2: int|
                    0 <= i2 < i + 1 && #[trigger] occurs_in(rs@[i2], t)) && !has_rule(rs@, t)) by {
                if occurs_in(rs@[i as int], t) {
                    assert(0 <= i < i + 1);
                }
                if exists|i2: int| 0 <= i2 < i + 1 && #[trigger] occurs_in(rs@[i2], t) {
                    let i2 = choose|i2: int| 0 <= i2 < i + 1 && #[trigger] occurs_in(rs@[i2], t);
                    if i2 < i {
                        assert(exists|i3: int| 0 <= i3 < i && #[trigger] occurs_in(rs@[i3], t));
                    }
                }
            }
            i = i + 1;
        }
        set_insert(&mut terminals, eof);
        let mut symbols = copy_syms(&terminals);
        let mut i: usize = 0;
        while i < rs.len()
            invariant
                i <= rs.len(),
                sorted_set(symbols@),
                forall|x: usize| #[trigger]
                    symbols@.contains(x) <==> (terminals@.contains(x) || exists|i2: int|
                        0 <= i2 < i && #[trigger] rs@[i2].name == x),
            decreases rs.len() - i,
        {
            set_insert(&mut symbols, rs[i].name);
            assert forall|x: usize| #[trigger]
                symbols@.contains(x) <==> (terminals@.contains(x) || exists|i2: int|
                    0 <= i2 < i + 1 && #[trigger] rs@[i2].name == x) by {
                if x == rs@[i as int].name {
                    assert(rs@[i as int].name == x);
                }
                if exists|i2: int| 0 <= i2 < i + 1 && #[trigger] rs@[i2].name == x {
                    let i2 = choose|i2: int| 0 <= i2 < i + 1 && #[trigger] rs@[i2].name == x;
                    if i2 < i {
                        assert(rs@[i2].name == x);
                    }
                }
            }
            i = i + 1;
        }
        assert(rule_map(rs@).contains_key(start));
        let k = find_rule(&rs, start).unwrap();
        let body = copy_syms(&rs[k].prods[0].0);
        let basis = Position::new(start, (body, rs[k].prods[0].1), 0, vec![eof]);
        let g = Grammar { rules: rs, terminals, symbols, basis };
        assert(g.basis.look@ =~= seq![eof]);
        assert(g.eof() == eof);
        assert forall|t: usize| #[trigger]
            g.terminals@.contains(t) <==> (t == g.eof() || (occurs(g.rules@, t) && !has_rule(
                g.rules@,
                t,
            ))) by {
            if occurs(g.rules@, t) {
                let i2 = choose|i2: int| 0 <= i2 < g.rules@.len() && #[trigger] occurs_in(g.rules@[i2], t);
                assert(occurs_in(g.rules@[i2], t));
            }
        }
        assert forall|x: usize| #[trigger]
            g.symbols@.contains(x) <==> (has_rule(g.rules@, x) || g.terminals@.contains(x)) by {
            if has_rule(g.rules@, x) {
                let i2 = choose|i2: int| 0 <= i2 < g.rules@.len() && #[trigger] g.rules@[i2].name == x;
                assert(g.rules@[i2].name == x);
            }
        }
        assert(g.rule(start).prods@.len() > 0);
        assert(g.basis@.body == body_of(g.rule(g.basis.rule), 0));
        assert(names_sorted(g.rules@));
        assert(sorted_set(g.terminals@));
        assert(sorted_set(g.symbols@));
        assert(g.basis.look@.len() == 1);
        assert(has_rule(g.rules@, g.basis.rule));
        assert(g.basis@.index == g.rule(g.basis.rule).prods@[0].1);
        assert(g.basis@.point == 0);
        g
    }

    /// A copy of the start item.
    pub fn basis(&self) -> (p: Position)
        ensures
            p@ == self.basis@,
    {
        self.basis.copy()
    }

    /// Whether `term` is a terminal, i.e. has no rule.
    pub fn is_terminal(&self, term: usize) -> (r: bool)
        requires
            names_sorted(self.rules@),
        ensures
            r == !self.nonterminal(term),
    {
        find_rule(&self.rules, term).is_none()
    }

    /// The rules, ordered by name.
    pub fn rules(&self) -> (r: &Vec<Rule>)
        ensures
            r == &self.rules,
    {
        &self.rules
    }

    /// The symbols, in increasing order.
    pub fn symbols(&self) -> (r: Vec<usize>)
        ensures
            r@ == self.symbols@,
    {
        copy_syms(&self.symbols)
    }
}

/// Adds to `acc` the symbols of `body` that have no rule in `rs`.
fn add_body_terminals(rs: &Vec<Rule>, body: &Vec<usize>, acc: &mut Vec<usize>)
    requires
        names_sorted(rs@),
        sorted_set(old(acc)@),
    ensures
        sorted_set(final(acc)@),
        forall|t: usize|
            #[trigger] final(acc)@.contains(t) <==> (old(acc)@.contains(t) || (body@.contains(t)
                && !has_rule(rs@, t))),
{
    let ghost a0 = acc@;
    let mut k: usize = 0;
    while k < body.len()
        invariant
            k <= body.len(),
            names_sorted(rs@),
            sorted_set(acc@),
            a0 == old(acc)@,
            forall|t: usize|
                #[trigger] acc@.contains(t) <==> (a0.contains(t) || (body@.subrange(
                    0,
                    k as int,
                ).contains(t) && !has_rule(rs@, t))),
        decreases body.len() - k,
    {
        let ghost pre = body@.subrange(0, k as int);
        let ghost post = body@.subrange(0, k + 1);
        assert(post =~= pre.push(body@[k as int]));
        let t = body[k];
        if find_rule(rs, t).is_none() {
            set_insert(acc, t);
        }
        assert forall|e: usize|
            #[trigger] acc@.contains(e) <==> (a0.contains(e) || (post.contains(e) && !has_rule(
                rs@,
                e,
            ))) by {
            assert(post[k as int] == t);
            if pre.contains(e) {
                let q = choose|q: int| 0 <= q < pre.len() && pre[q] == e;
                assert(post[q] == e);
            }
            if post.contains(e) {
                let q = choose|q: int| 0 <= q < post.len() && post[q] == e;
                if q < k {
                    assert(pre[q] == e);
                }
            }
        }
        k = k + 1;
    }
    assert(body@.subrange(0, body@.len() as int) =~= body@);
}

/// Adds to `acc` the symbols of the bodies of `r` that have no rule in `rs`.
fn add_rule_terminals(rs: &Vec<Rule>, r: &Rule, acc: &mut Vec<usize>)
    requires
        names_sorted(rs@),
        sorted_set(old(acc)@),
    ensures
        sorted_set(final(acc)@),
        forall|t: usize|
            #[trigger] final(acc)@.contains(t) <==> (old(acc)@.contains(t) || (occurs_in(*r, t)
                && !has_rule(rs@, t))),
{
    let ghost a0 = acc@;
    let mut j: usize = 0;
    while j < r.prods.len()
        invariant
            j <= r.prods.len(),
            names_sorted(rs@),
            sorted_set(acc@),
            a0 == old(acc)@,
            forall|t: usize|
                #[trigger] acc@.contains(t) <==> (a0.contains(t) || ((exists|j2: int|
                    0 <= j2 < j && #[trigger] body_of(*r, j2).contains(t)) && !has_rule(rs@, t))),
        decreases r.prods.len() - j,
    {
        add_body_terminals(rs, &r.prods[j].0, acc);
        assert forall|t: usize|
            #[trigger] acc@.contains(t) <==> (a0.contains(t) || ((exists|j2: int|
                0 <= j2 < j + 1 && #[trigger] body_of(*r, j2).contains(t)) && !has_rule(rs@, t))) by {
            if body_of(*r, j as int).contains(t) {
                assert(0 <= j < j + 1);
            }
            if exists|j2: int| 0 <= j2 < j + 1 && #[trigger] body_of(*r, j2).contains(t) {
                let j2 = choose|j2: int| 0 <= j2 < j + 1 && #[trigger] body_of(*r, j2).contains(t);
                if j2 < j {
                    assert(exists|j3: int| 0 <= j3 < j && #[trigger] body_of(*r, j3).contains(t));
                }
            }
        }
        j = j + 1;
    }
}

impl Rule {
    /// A rule with the given productions, numbered in order.
    pub fn new(name: usize, prods: Vec<Vec<usize>>) -> (r: Self)
        ensures
            r.name == name,
            r.prods@.len() == prods@.len(),
            rule_wf(r),
            forall|j: int| 0 <= j < prods@.len() ==> #[trigger] body_of(r, j) == prods@[j]@,
            bodies(r) == prods@.map_values(|p: Vec<usize>| p@),
    {
        let mut out: Vec<Production> = Vec::new();
        let mut i: usize = 0;
        while i < prods.len()
            invariant
                i <= prods.len(),
                out@.len() == i,
                forall|j: int| 0 <= j < i ==> #[trigger] out@[j].1 == j,
                forall|j: int| 0 <= j < i ==> #[trigger] out@[j].0@ == prods@[j]@,
            decreases prods.len() - i,
        {
            out.push((copy_syms(&prods[i]), i));
            i = i + 1;
        }
        let r = Rule { name, prods: out };
        assert(bodies(r) =~= prods@.map_values(|p: Vec<usize>| p@));
        r
    }

    /// A rule with one production.
    pub fn single(name: usize, prod: Vec<usize>) -> (r: Self)
        ensures
            r.name == name,
            r.prods@.len() == 1,
            rule_wf(r),
            body_of(r, 0) == prod@,
    {
        Rule::new(name, vec![prod])
    }

    /// Copies of the productions of this rule.
    pub fn prods(&self) -> (ps: Vec<Production>)
        ensures
            ps@.len() == self.prods@.len(),
            forall|j: int|
                0 <= j < ps@.len() ==> #[trigger] ps@[j].0@ == self.prods@[j].0@ && ps@[j].1
                    == self.prods@[j].1,
    {
        let mut out: Vec<Production> = Vec::new();
        let mut i: usize = 0;
        while i < self.prods.len()
            invariant
                i <= self.prods.len(),
                out@.len() == i,
                forall|j: int|
                    0 <= j < i ==> #[trigger] out@[j].0@ == self.prods@[j].0@ && out@[j].1
                        == self.prods@[j].1,
            decreases self.prods.len() - i,
        {
            out.push((copy_syms(&self.prods[i].0), self.prods[i].1));
            i = i + 1;
        }
        out
    }
}

/// The position of rule `x` in the sorted rule list, if it has one.
pub fn find_rule(rs: &Vec<Rule>, x: usize) -> (r: Option<usize>)
    requires
        names_sorted(rs@),
    ensures
        match r {
            Some(i) => i < rs@.len() && rs@[i as int].name == x && rule_index(rs@, x) == i,
            None => !has_rule(rs@, x),
        },
{
    let mut i: usize = 0;
    while i < rs.len()
        invariant
            i <= rs.len(),
            names_sorted(rs@),
            forall|k: int| 0 <= k < i ==> rs@[k].name != x,
        decreases rs.len() - i,
    {
        if rs[i].name == x {
            assert(rs@[i as int].name == x);
            assert(has_rule(rs@, x));
            let ghost j = rule_index(rs@, x);
            assert(0 <= j < rs@.len() && rs@[j].name == x);
            assert(j == i) by {
                if j < i {
                    assert(rs@[j].name < rs@[i as int].name);
                } else if j > i {
                    assert(rs@[i as int].name < rs@[j].name);
                }
            }
            return Some(i);
        }
        i = i + 1;
    }
    None
}

/// Adds rule `r` to the sorted rule list, replacing a rule of the same name.
pub fn insert_rule(rs: &mut Vec<Rule>, r: Rule)
    requires
        names_sorted(old(rs)@),
    ensures
        names_sorted(final(rs)@),
        rule_map(final(rs)@) == rule_map(old(rs)@).insert(r.name, r),
{
    let ghost rv = r;
    let mut i: usize = 0;
    while i < rs.len() && rs[i].name < r.name
        invariant
            i <= rs.len(),
            rs@ == old(rs)@,
            forall|k: int| 0 <= k < i ==> rs@[k].name < r.name,
        decreases rs.len() - i,
    {
        i = i + 1;
    }
    let ghost old_rs = rs@;
    if i < rs.len() && rs[i].name == r.name {
        rs.set(i, r);
        assert(rs@ == old_rs.update(i as int, rv));
    } else {
        rs.insert(i, r);
        assert(rs@ == old_rs.insert(i as int, rv));
    }
    assert(names_sorted(rs@)) by {
        assert forall|a: int, b: int| 0 <= a < b < rs@.len() implies rs@[a].name
            < rs@[b].name by {
            if rs@.len() == old_rs.len() {
            } else {
                if b < i {
                } else if a < i && b == i {
                } else if a < i {
                    assert(old_rs[a].name < old_rs[b - 1].name);
                } else if a == i {
                    assert(rv.name < old_rs[i as int].name);
                    assert(old_rs[i as int].name <= old_rs[b - 1].name);
                } else {
                    assert(old_rs[a - 1].name < old_rs[b - 1].name);
                }
            }
        }
    }
    assert(rule_map(rs@) =~= rule_map(old_rs).insert(rv.name, rv)) by {
        assert forall|x: usize| has_rule(rs@, x) <==> (has_rule(old_rs, x) || x == rv.name) by {
            if has_rule(rs@, x) {
                let k = rule_index(rs@, x);
                if rs@.len() == old_rs.len() {
                    if k != i {
                        assert(old_rs[k].name == x);
                    }
                } else if k < i {
                    assert(old_rs[k].name == x);
                } else if k > i {
                    assert(old_rs[k - 1].name == x);
                }
            }
            if has_rule(old_rs, x) {
                let k = rule_index(old_rs, x);
                if rs@.len() == old_rs.len() {
                    assert(rs@[k].name == x);
                } else if k < i {
                    assert(rs@[k].name == x);
                } else {
                    assert(rs@[k + 1].name == x);
                }
            }
            if x == rv.name {
                assert(rs@[i as int].name == x);
            }
        }
        assert forall|x: usize|
            rule_map(rs@).contains_key(x) <==> #[trigger] rule_map(old_rs).insert(
                rv.name,
                rv,
            ).contains_key(x) by {
            assert(rule_map(rs@).contains_key(x) == has_rule(rs@, x));
            assert(rule_map(old_rs).contains_key(x) == has_rule(old_rs, x));
        }
        assert forall|x: usize| #[trigger]
            rule_map(rs@).contains_key(x) implies rule_map(rs@)[x] == rule_map(old_rs).insert(
            rv.name,
            rv,
        )[x] by {
            let k = rule_index(rs@, x);
            if x == rv.name {
                assert(rs@[i as int].name == x);
                if k != i {
                    if k < i {
                        assert(rs@[k].name < rs@[i as int].name);
                    } else {
                        assert(rs@[i as int].name < rs@[k].name);
                    }
                }
            } else {
                let m = rule_index(old_rs, x);
                if rs@.len() == old_rs.len() {
                    assert(rs@[m].name == x);
                    if k != m {
                        if k < m {
                            assert(rs@[k].name < rs@[m].name);
                        } else {
                            assert(rs@[m].name < rs@[k].name);
                        }
                    }
                } else {
                    let m2 = if m < i {
                        m
                    } else {
                        m + 1
                    };
                    assert(rs@[m2].name == x);
                    if k != m2 {
                        if k < m2 {
                            assert(rs@[k].name < rs@[m2].name);
                        } else {
                            assert(rs@[m2].name < rs@[k].name);
                        }
                    }
                }
            }
        }
    }
}

} // verus!
