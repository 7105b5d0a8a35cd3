//! The syntax trees of grammar files, and the reductor that builds them while the
//! grammar of grammar files is parsed.
use vstd::prelude::*;

use crate::dfa::{Dfa, Reductor, act_view, rows_wf, start_cfg, tys_of};
use crate::grammars::wop;
use crate::slr::{Slr, slr_built};
use std::collections::VecDeque;
use crate::{Meta, Span, Token};

verus! {

/// A node of the syntax tree of a grammar file.
#[derive(Debug)]
pub enum Ast {
    /// A token of the file, with its symbol.
    Token(usize),
    /// The whole file.
    EntryPoint(Box<Gramem>),
    /// The declarations of the file: imports, aliases and rules.
    Program(Vec<Gramem>),
    /// A rule: its name, its type and its alternatives.
    RuleDecl(Span, Span, Vec<(Vec<Gramem>, Span)>),
    /// The alternatives of a rule, each with the span of its code block.
    Rule(Vec<(Vec<Gramem>, Span)>),
    /// The items of one alternative.
    RulePipe(Vec<Gramem>),
    /// An item: what it is, whether it is optional, and the name bound to it.
    RuleItem(Box<Gramem>, bool, Option<Span>),
    /// An import of a path.
    Import(Span),
    /// An alias: a name or string literal, and the path it stands for.
    Alias(Span, Span),
    /// A path.
    IdentPath(Span),
}

/// A node of the tree with its span, and its symbol.
pub type Gramem = Token<Meta<Ast>, usize>;

impl Ast {
    /// The span a path node refers to; `None` for any other node.
    pub fn get_src_ref(&self) -> (r: Option<Span>)
        ensures
            r == (match *self {
                Ast::IdentPath(s) => Some(s),
                _ => None,
            }),
    {
        match self {
            Ast::IdentPath(s) => Some(*s),
            _ => None,
        }
    }
}

/// The mathematical value of an [`Ast`] node.
pub enum AstV {
    Token(usize),
    EntryPoint(Box<GramemV>),
    Program(Seq<GramemV>),
    RuleDecl(Span, Span, Seq<(Seq<GramemV>, Span)>),
    Rule(Seq<(Seq<GramemV>, Span)>),
    RulePipe(Seq<GramemV>),
    RuleItem(Box<GramemV>, bool, Option<Span>),
    Import(Span),
    Alias(Span, Span),
    IdentPath(Span),
}

/// The mathematical value of a [`Gramem`]: its node, its span and its symbol.
pub struct GramemV {
    pub node: AstV,
    pub span: Span,
    pub ty: usize,
}

/// The value of node `g`.
pub open spec fn gview(g: Gramem) -> GramemV
    decreases g,
{
    let node = match g.item.item {
        Ast::Token(s) => AstV::Token(s),
        Ast::EntryPoint(b) => AstV::EntryPoint(Box::new(gview(*b))),
        Ast::Program(v) => AstV::Program(gviews(v@)),
        Ast::RuleDecl(a, b, v) => AstV::RuleDecl(a, b, pviews(v@)),
        Ast::Rule(v) => AstV::Rule(pviews(v@)),
        Ast::RulePipe(v) => AstV::RulePipe(gviews(v@)),
        Ast::RuleItem(b, o, a) => AstV::RuleItem(Box::new(gview(*b)), o, a),
        Ast::Import(s) => AstV::Import(s),
        Ast::Alias(a, b) => AstV::Alias(a, b),
        Ast::IdentPath(s) => AstV::IdentPath(s),
    };
    GramemV { node, span: g.item.span, ty: g.ty }
}

/// The values of the nodes `s`.
pub open spec fn gviews(s: Seq<Gramem>) -> Seq<GramemV>
    decreases s,
{
    if s.len() == 0 {
        Seq::empty()
    } else {
        gviews(s.drop_last()).push(gview(s.last()))
    }
}

/// The values of the alternatives `s`.
pub open spec fn pviews(s: Seq<(Vec<Gramem>, Span)>) -> Seq<(Seq<GramemV>, Span)>
    decreases s,
{
    if s.len() == 0 {
        Seq::empty()
    } else {
        pviews(s.drop_last()).push((gviews(s.last().0@), s.last().1))
    }
}

/// A copy of `g`, node for node.
pub fn copy_gramem(g: &Gramem) -> (r: Gramem)
    ensures
        gview(r) == gview(*g),
    decreases g,
{
    let item = match &g.item.item {
        Ast::Token(s) => Ast::Token(*s),
        Ast::EntryPoint(b) => Ast::EntryPoint(Box::new(copy_gramem(b))),
        Ast::Program(v) => Ast::Program(copy_gramems(v)),
        Ast::RuleDecl(a, b, v) => Ast::RuleDecl(*a, *b, copy_pipes(v)),
        Ast::Rule(v) => Ast::Rule(copy_pipes(v)),
        Ast::RulePipe(v) => Ast::RulePipe(copy_gramems(v)),
        Ast::RuleItem(b, o, a) => Ast::RuleItem(Box::new(copy_gramem(b)), *o, *a),
        Ast::Import(s) => Ast::Import(*s),
        Ast::Alias(a, b) => Ast::Alias(*a, *b),
        Ast::IdentPath(s) => Ast::IdentPath(*s),
    };
    Token { item: Meta { item, span: g.item.span }, ty: g.ty }
}

/// A copy of `v`, node for node.
pub fn copy_gramems(v: &Vec<Gramem>) -> (r: Vec<Gramem>)
    ensures
        gviews(r@) == gviews(v@),
    decreases v,
{
    let mut r: Vec<Gramem> = Vec::new();
    let mut i: usize = 0;
    while i < v.len()
        invariant
            i <= v@.len(),
            gviews(r@) == gviews(v@.subrange(0, i as int)),
        decreases v@.len() - i,
    {
        proof {
            assert(decreases_to!(v => v@[i as int]));
        }
        let x = copy_gramem(&v[i]);
        let ghost r0 = r@;
        r.push(x);
        assert(r@.drop_last() =~= r0);
        assert(v@.subrange(0, i + 1).drop_last() =~= v@.subrange(0, i as int));
        i = i + 1;
    }
    assert(v@.subrange(0, v@.len() as int) =~= v@);
    r
}

/// A copy of the alternatives `v`, node for node.
pub fn copy_pipes(v: &Vec<(Vec<Gramem>, Span)>) -> (r: Vec<(Vec<Gramem>, Span)>)
    ensures
        pviews(r@) == pviews(v@),
    decreases v,
{
    let mut r: Vec<(Vec<Gramem>, Span)> = Vec::new();
    let mut i: usize = 0;
    while i < v.len()
        invariant
            i <= v@.len(),
            pviews(r@) == pviews(v@.subrange(0, i as int)),
        decreases v@.len() - i,
    {
        proof {
            assert(decreases_to!(v => v@[i as int].0));
        }
        let x = (copy_gramems(&v[i].0), v[i].1);
        let ghost r0 = r@;
        r.push(x);
        assert(r@.drop_last() =~= r0);
        assert(v@.subrange(0, i + 1).drop_last() =~= v@.subrange(0, i as int));
        i = i + 1;
    }
    assert(v@.subrange(0, v@.len() as int) =~= v@);
    r
}

/// The value of node `a`.
pub open spec fn nview(a: Ast) -> AstV {
    gview(Token { item: Meta { item: a, span: Span { start: 0, end: 0 } }, ty: 0 }).node
}

/// The symbols of the grammar of grammar files that name its rules, numbered as
/// [`crate::grammars::wop_names`] lists them.
pub const WOP_ALIAS: usize = 0;
pub const WOP_ENTRY_POINT: usize = 6;
pub const WOP_IDENT_PATH: usize = 10;
pub const WOP_IMPORT: usize = 11;
pub const WOP_PROGRAM: usize = 16;
pub const WOP_RULE: usize = 17;
pub const WOP_RULE_DECL: usize = 18;
pub const WOP_RULE_ITEM: usize = 19;
pub const WOP_RULE_PIPE: usize = 20;
pub const WOP_STR_LIT: usize = 22;

/// The span from the start of the first of the items `t` to the end of the last.
pub open spec fn toks_span(t: Seq<GramemV>) -> Span {
    Span { start: t[0].span.start, end: t.last().span.end }
}

/// The index of the item that an alternative of an item takes its name from: `None`
/// where it binds none. `v` is the alternative among the six of each kind of item, and
/// `shift` the two extra tokens of a parenthesized rule.
pub open spec fn item_alias_at(v: int, shift: int) -> Option<int> {
    if v == 0 {
        Some(4 + shift)
    } else if v == 1 || v == 3 {
        Some(3 + shift)
    } else if v == 4 {
        Some(2 + shift)
    } else {
        None
    }
}

/// How many items production `index` of a rule item reads.
pub open spec fn item_reads(v: int, shift: int) -> int {
    if v == 0 {
        5 + shift
    } else if v == 1 || v == 3 {
        4 + shift
    } else if v == 2 {
        2 + shift
    } else if v == 4 {
        3 + shift
    } else {
        1 + shift / 2
    }
}

/// The node that production `index` of rule `name` of the grammar of grammar files
/// builds from the values `t` of its items; `None` where they are fewer than it reads or
/// not of the kinds it takes apart.
pub open spec fn wop_node(name: usize, index: usize, t: Seq<GramemV>) -> Option<AstV> {
    if name == WOP_RULE_ITEM && index < 18 {
        let grp = index / 6;
        let v = index % 6;
        let shift: int = if grp == 2 { 2 } else { 0 };
        let at: int = if grp == 2 { 1 } else { 0 };
        if t.len() < item_reads(v as int, shift) {
            None
        } else {
            Some(AstV::RuleItem(Box::new(t[at]), v <= 2, match item_alias_at(v as int, shift) {
                Some(k) => Some(t[k].span),
                None => None,
            }))
        }
    } else if name == WOP_IDENT_PATH && index == 0 {
        if t.len() < 3 { None } else { Some(AstV::IdentPath(Span { start: t[0].span.start, end: t[2].span.end })) }
    } else if name == WOP_IDENT_PATH && index == 1 {
        if t.len() < 1 { None } else { Some(AstV::IdentPath(t[0].span)) }
    } else if name == WOP_ENTRY_POINT && index == 0 {
        if t.len() < 1 { None } else { Some(AstV::EntryPoint(Box::new(t[0]))) }
    } else if name == WOP_RULE && index <= 1 {
        let reads: int = if index == 0 { 4 } else { 3 };
        if t.len() < reads {
            None
        } else {
            match (t[0].node, t[2].node) {
                (AstV::Rule(vv), AstV::RulePipe(v)) => Some(
                    AstV::Rule(vv.push((v, if index == 0 { t[3].span } else { Span { start: 0, end: 0 } }))),
                ),
                _ => None,
            }
        }
    } else if name == WOP_RULE && index <= 3 {
        let reads: int = if index == 2 { 2 } else { 1 };
        if t.len() < reads {
            None
        } else {
            match t[0].node {
                AstV::RulePipe(p) => Some(
                    AstV::Rule(seq![(p, if index == 2 { t[1].span } else { Span { start: 0, end: 0 } })]),
                ),
                _ => None,
            }
        }
    } else if name == WOP_RULE_PIPE && index == 0 {
        if t.len() < 2 {
            None
        } else {
            match t[0].node {
                AstV::RulePipe(v) => Some(AstV::RulePipe(v.push(t[1]))),
                _ => None,
            }
        }
    } else if name == WOP_RULE_PIPE && index == 1 {
        if t.len() < 1 { None } else { Some(AstV::RulePipe(seq![t[0]])) }
    } else if name == WOP_IMPORT && index <= 1 {
        if t.len() < 2 { None } else { Some(AstV::Import(Span { start: t[1].span.start, end: t.last().span.end })) }
    } else if name == WOP_ALIAS && index <= 1 {
        if t.len() < 3 { None } else { Some(AstV::Alias(t[1].span, t[2].span)) }
    } else if name == WOP_PROGRAM && index <= 2 {
        if t.len() < 2 {
            None
        } else {
            match t[0].node {
                AstV::Program(v) => Some(AstV::Program(v.push(t[1]))),
                _ => None,
            }
        }
    } else if name == WOP_PROGRAM && index <= 5 {
        if t.len() < 1 { None } else { Some(AstV::Program(seq![t[0]])) }
    } else if name == WOP_RULE_DECL && index == 0 {
        if t.len() < 5 {
            None
        } else {
            match (t[0].node, t[2].node, t[4].node) {
                (AstV::IdentPath(a), AstV::IdentPath(b), AstV::Rule(v)) => Some(AstV::RuleDecl(a, b, v)),
                _ => None,
            }
        }
    } else {
        None
    }
}

/// The value that production `index` of rule `name` gives the items `t`: its node, over
/// the span from the first item to the last; a token of the rule's symbol over an empty
/// span where the production does not apply to them.
pub open spec fn wop_value(name: usize, index: usize, t: Seq<GramemV>) -> (AstV, Span) {
    match wop_node(name, index, t) {
        Some(n) => (n, toks_span(t)),
        None => (AstV::Token(name), Span { start: 0, end: 0 }),
    }
}

/// The reductor that builds the syntax tree of a grammar file.
pub struct WopReductor;

/// The values of a sequence of nodes are the values of its nodes.
pub proof fn lemma_gviews(s: Seq<Gramem>)
    ensures
        gviews(s).len() == s.len(),
        forall|i: int| 0 <= i < s.len() ==> #[trigger] gviews(s)[i] == gview(s[i]),
    decreases s.len(),
{
    if s.len() > 0 {
        lemma_gviews(s.drop_last());
    }
}

/// The span of the items `toks`, from the first to the last.
fn span_of(toks: &Vec<Gramem>) -> (r: Span)
    requires
        toks@.len() > 0,
    ensures
        r == toks_span(gviews(toks@)),
{
    proof {
        lemma_gviews(toks@);
    }
    Span::new(toks[0].item.span.start, toks[toks.len() - 1].item.span.end)
}

/// Appends to copies of the alternatives `vv` a copy of `v` with code block `cb`.
fn push_pipe(vv: &Vec<(Vec<Gramem>, Span)>, v: &Vec<Gramem>, cb: Span) -> (r: Vec<(Vec<Gramem>, Span)>)
    ensures
        pviews(r@) == pviews(vv@).push((gviews(v@), cb)),
{
    let mut r = copy_pipes(vv);
    let ghost r0 = r@;
    r.push((copy_gramems(v), cb));
    assert(r@.drop_last() =~= r0);
    r
}

/// Appends to copies of the nodes `v` a copy of `g`.
fn push_gramem(v: &Vec<Gramem>, g: &Gramem) -> (r: Vec<Gramem>)
    ensures
        gviews(r@) == gviews(v@).push(gview(*g)),
{
    let mut r = copy_gramems(v);
    let ghost r0 = r@;
    r.push(copy_gramem(g));
    assert(r@.drop_last() =~= r0);
    r
}

/// A one-node sequence holding a copy of `g`.
fn single_gramem(g: &Gramem) -> (r: Vec<Gramem>)
    ensures
        gviews(r@) == seq![gview(*g)],
{
    let mut r: Vec<Gramem> = Vec::new();
    r.push(copy_gramem(g));
    assert(r@.drop_last() =~= Seq::<Gramem>::empty());
    assert(gviews(r@.drop_last()) =~= Seq::<GramemV>::empty());
    assert(gviews(r@) =~= seq![gview(*g)]);
    r
}

/// The node that production `index` of rule `name` builds from `toks`, as
/// [`wop_node`] says.
pub fn node_of(name: usize, index: usize, toks: &Vec<Gramem>) -> (r: Option<Ast>)
    ensures
        match r {
            Some(a) => wop_node(name, index, gviews(toks@)) == Some(nview(a)),
            None => wop_node(name, index, gviews(toks@)) is None,
        },
{
    let ghost t = gviews(toks@);
    proof {
        lemma_gviews(toks@);
    }
    let n = toks.len();
    if name == WOP_RULE_ITEM && index < 18 {
        let grp = index / 6;
        let v = index % 6;
        let shift: usize = if grp == 2 { 2 } else { 0 };
        let at: usize = if grp == 2 { 1 } else { 0 };
        let reads: usize = if v == 0 {
            5 + shift
        } else if v == 1 || v == 3 {
            4 + shift
        } else if v == 2 {
            2 + shift
        } else if v == 4 {
            3 + shift
        } else {
            1 + shift / 2
        };
        if n < reads {
            return None;
        }
        let item = copy_gramem(&toks[at]);
        let alias = if v == 0 {
            Some(toks[4 + shift].item.span)
        } else if v == 1 || v == 3 {
            Some(toks[3 + shift].item.span)
        } else if v == 4 {
            Some(toks[2 + shift].item.span)
        } else {
            None
        };
        return Some(Ast::RuleItem(Box::new(item), v <= 2, alias));
    } else if name == WOP_IDENT_PATH && index == 0 {
        if n < 3 {
            return None;
        }
        return Some(Ast::IdentPath(Span::new(toks[0].item.span.start, toks[2].item.span.end)));
    } else if name == WOP_IDENT_PATH && index == 1 {
        if n < 1 {
            return None;
        }
        return Some(Ast::IdentPath(toks[0].item.span));
    } else if name == WOP_ENTRY_POINT && index == 0 {
        if n < 1 {
            return None;
        }
        return Some(Ast::EntryPoint(Box::new(copy_gramem(&toks[0]))));
    } else if name == WOP_RULE && index <= 1 {
        let reads: usize = if index == 0 { 4 } else { 3 };
        if n < reads {
            return None;
        }
        match &toks[0].item.item {
            Ast::Rule(vv) => match &toks[2].item.item {
                Ast::RulePipe(v) => {
                    let cb = if index == 0 { toks[3].item.span } else { Span::new(0, 0) };
                    return Some(Ast::Rule(push_pipe(vv, v, cb)));
                },
                _ => {
                    return None;
                },
            },
            _ => {
                return None;
            },
        }
    } else if name == WOP_RULE && index <= 3 {
        let reads: usize = if index == 2 { 2 } else { 1 };
        if n < reads {
            return None;
        }
        match &toks[0].item.item {
            Ast::RulePipe(p) => {
                let cb = if index == 2 { toks[1].item.span } else { Span::new(0, 0) };
                let mut r: Vec<(Vec<Gramem>, Span)> = Vec::new();
                r.push((copy_gramems(p), cb));
                assert(r@.drop_last() =~= Seq::<(Vec<Gramem>, Span)>::empty());
                assert(pviews(r@.drop_last()) =~= Seq::<(Seq<GramemV>, Span)>::empty());
                assert(pviews(r@) =~= seq![(gviews(p@), cb)]);
                return Some(Ast::Rule(r));
            },
            _ => {
                return None;
            },
        }
    } else if name == WOP_RULE_PIPE && index == 0 {
        if n < 2 {
            return None;
        }
        match &toks[0].item.item {
            Ast::RulePipe(v) => {
                return Some(Ast::RulePipe(push_gramem(v, &toks[1])));
            },
            _ => {
                return None;
            },
        }
    } else if name == WOP_RULE_PIPE && index == 1 {
        if n < 1 {
            return None;
        }
        return Some(Ast::RulePipe(single_gramem(&toks[0])));
    } else if name == WOP_IMPORT && index <= 1 {
        if n < 2 {
            return None;
        }
        return Some(Ast::Import(Span::new(toks[1].item.span.start, toks[n - 1].item.span.end)));
    } else if name == WOP_ALIAS && index <= 1 {
        if n < 3 {
            return None;
        }
        return Some(Ast::Alias(toks[1].item.span, toks[2].item.span));
    } else if name == WOP_PROGRAM && index <= 2 {
        if n < 2 {
            return None;
        }
        match &toks[0].item.item {
            Ast::Program(v) => {
                return Some(Ast::Program(push_gramem(v, &toks[1])));
            },
            _ => {
                return None;
            },
        }
    } else if name == WOP_PROGRAM && index <= 5 {
        if n < 1 {
            return None;
        }
        return Some(Ast::Program(single_gramem(&toks[0])));
    } else if name == WOP_RULE_DECL && index == 0 {
        if n < 5 {
            return None;
        }
        match (&toks[0].item.item, &toks[2].item.item, &toks[4].item.item) {
            (Ast::IdentPath(a), Ast::IdentPath(b), Ast::Rule(v)) => {
                return Some(Ast::RuleDecl(*a, *b, copy_pipes(v)));
            },
            _ => {
                return None;
            },
        }
    }
    None
}

/// The mathematical value of a [`Meta`] node: its node and its span.
pub open spec fn mview(m: Meta<Ast>) -> (AstV, Span) {
    (nview(m.item), m.span)
}

impl Reductor<Meta<Ast>> for WopReductor {
    open spec fn yields(&self, name: usize, index: usize, toks: Seq<Token<Meta<Ast>, usize>>, value: Meta<Ast>) -> bool {
        mview(value) == wop_value(name, index, gviews(toks))
    }

    fn reduce(&self, name: usize, index: usize, toks: &Vec<Token<Meta<Ast>, usize>>) -> (r: Meta<Ast>) {
        match node_of(name, index, toks) {
            Some(a) => {
                proof {
                    lemma_gviews(toks@);
                }
                Meta::new(a, span_of(toks))
            },
            None => Meta::new(Ast::Token(name), Span::new(0, 0)),
        }
    }
}

/// An automaton that parses the tokens of a grammar file with the SLR(1) table of the
/// grammar of grammar files, building its syntax tree.
pub fn build_parser(buffer: VecDeque<Gramem>) -> (d: Dfa<Meta<Ast>, WopReductor>)
    ensures
        exists|p: Slr|
            #[trigger] slr_built(p.table) && p.table.grammar.basis.rule == WOP_ENTRY_POINT && act_view(d.table@)
                == act_view(p.table.actions@),
        rows_wf(d.table@),
        d.cfg() == start_cfg(tys_of(buffer@)),
        d.buffer@ == buffer@,
        d.eof == 7,
{
    let parser = Slr::new(wop());
    proof {
        crate::decide::lemma_actions_rows_wf(parser.table, false, None);
    }
    parser.dfa(buffer, WopReductor)
}

/// The bodies of the productions of a rule item in the grammar of grammar files, in
/// order (see [`crate::grammars::wop`]): a path, a string literal or a parenthesized
/// rule, then optionally `?`, then optionally `:`, `&` and a name.
pub open spec fn rule_item_bodies() -> Seq<Seq<usize>> {
    seq![
        seq![10usize, 13usize, 23usize, 3usize, 9usize], seq![10usize, 13usize, 23usize, 9usize], seq![10usize, 13usize],
        seq![10usize, 23usize, 3usize, 9usize], seq![10usize, 23usize, 9usize], seq![10usize],
        seq![22usize, 13usize, 23usize, 3usize, 9usize], seq![22usize, 13usize, 23usize, 9usize], seq![22usize, 13usize],
        seq![22usize, 23usize, 3usize, 9usize], seq![22usize, 23usize, 9usize], seq![22usize],
        seq![12usize, 17usize, 4usize, 13usize, 23usize, 3usize, 9usize], seq![12usize, 17usize, 4usize, 13usize, 23usize, 9usize],
        seq![12usize, 17usize, 4usize, 13usize], seq![12usize, 17usize, 4usize, 23usize, 3usize, 9usize],
        seq![12usize, 17usize, 4usize, 23usize, 9usize], seq![12usize, 17usize, 4usize],
    ]
}

/// A rule item node holds the item its production reads (the rule inside the
/// parentheses of a parenthesized one), is optional exactly where the production reads
/// `?`, and binds the name it ends with exactly where the production reads `:`.
pub proof fn law_rule_item_node(index: usize, t: Seq<GramemV>)
    requires
        index < 18,
        t.len() == rule_item_bodies()[index as int].len(),
    ensures
        ({
            let body = rule_item_bodies()[index as int];
            wop_node(WOP_RULE_ITEM, index, t) == Some(
                AstV::RuleItem(
                    Box::new(t[if body[0] == 12 { 1int } else { 0int }]),
                    body.contains(13),
                    if body.contains(23) { Some(t[body.len() - 1].span) } else { None },
                ),
            )
        }),
{
    let body = rule_item_bodies()[index as int];
    let v = index % 6;
    assert(body.contains(13) == (v <= 2)) by {
        if v <= 2 {
            assert(body[if index >= 12 { 3int } else { 1int }] == 13);
        } else {
            assert forall|k: int| 0 <= k < body.len() implies body[k] != 13 by {}
        }
    }
    assert(body.contains(23) == (v == 0 || v == 1 || v == 3 || v == 4)) by {
        if v == 0 || v == 1 {
            assert(body[if index >= 12 { 4int } else { 2int }] == 23);
        } else if v == 3 || v == 4 {
            assert(body[if index >= 12 { 3int } else { 1int }] == 23);
        } else {
            assert forall|k: int| 0 <= k < body.len() implies body[k] != 23 by {}
        }
    }
}

} // verus!
