//! Reading a grammar file into a builder: parsing its tokens with the grammar of grammar
//! files, and taking in its declarations where each is one the builder takes.
use vstd::prelude::*;

use std::collections::VecDeque;

use crate::dfa::{act_view, res_view, run_spec, run_vals, start_cfg, tys_of};
use crate::expand::{BuilderV, Builder, alts_ok, bview, decl_ok, has_alias_named, has_rule_named, pipe_ok,
    process_ok, processed, text_exec, text_of, within};
use crate::slr::{Slr, slr_built};
use crate::wopast::{Ast, Gramem, WopReductor, build_parser, WOP_ENTRY_POINT, WOP_IDENT_PATH, WOP_RULE, WOP_STR_LIT};
use crate::{Meta, Span};

verus! {

/// Whether `pipe` from `i` on is one [`pipe_ok`] accepts.
fn pipe_check(pipe: &Vec<Gramem>, n: usize, i: usize) -> (r: bool)
    ensures
        r == pipe_ok(pipe@, n as nat, i as int),
    decreases pipe@, pipe@.len() - i, 0int,
{
    if i >= pipe.len() {
        return true;
    }
    let here = match &pipe[i].item.item {
        Ast::RuleItem(b, _, _) => {
            if b.ty == WOP_RULE {
                match &b.item.item {
                    Ast::Rule(vs) => alts_check(vs, n, 0),
                    _ => false,
                }
            } else {
                (b.ty == WOP_STR_LIT || b.ty == WOP_IDENT_PATH) && b.item.span.start <= b.item.span.end
                    && b.item.span.end <= n
            }
        },
        _ => false,
    };
    here && pipe_check(pipe, n, i + 1)
}

/// Whether the alternatives `vs` from `j` on are ones [`alts_ok`] accepts.
fn alts_check(vs: &Vec<(Vec<Gramem>, Span)>, n: usize, j: usize) -> (r: bool)
    ensures
        r == alts_ok(vs@, n as nat, j as int),
    decreases vs@, vs@.len() - j, 0int,
{
    if j >= vs.len() {
        return true;
    }
    vs[j].1.start == 0 && vs[j].1.end == 0 && pipe_check(&vs[j].0, n, 0) && alts_check(vs, n, j + 1)
}

/// Whether the bytes `a` are the text of span `s` of `src`.
fn same_text(a: &Vec<u8>, src: &Vec<u8>, s: Span) -> (r: bool)
    requires
        within(s, src@.len()),
    ensures
        r == (a@ == text_of(src@, s)),
{
    let t = text_exec(src, s);
    if a.len() != t.len() {
        return false;
    }
    let mut i: usize = 0;
    while i < a.len()
        invariant
            a@.len() == t@.len(),
            t@ == text_of(src@, s),
            i <= a@.len(),
            forall|k: int| 0 <= k < i ==> a@[k] == t@[k],
        decreases a@.len() - i,
    {
        if a[i] != t[i] {
            assert(a@[i as int] != t@[i as int]);
            return false;
        }
        i = i + 1;
    }
    assert(a@ =~= t@);
    true
}

impl Builder {
    /// Whether the builder holds a rule named by the text of span `s`.
    fn has_rule_text(&self, src: &Vec<u8>, s: Span) -> (r: bool)
        requires
            within(s, src@.len()),
        ensures
            r == has_rule_named(bview(*self), text_of(src@, s)),
    {
        let ghost bv = bview(*self);
        let mut k: usize = 0;
        while k < self.rules.len()
            invariant
                k <= self.rules@.len(),
                within(s, src@.len()),
                bv == bview(*self),
                forall|j: int| 0 <= j < k ==> (#[trigger] bv.rules[j]).0 != text_of(src@, s),
            decreases self.rules@.len() - k,
        {
            if same_text(&self.rules[k].0, src, s) {
                assert(bv.rules[k as int].0 == text_of(src@, s));
                return true;
            }
            assert(bv.rules[k as int].0 == self.rules@[k as int].0@);
            k = k + 1;
        }
        false
    }

    /// Whether the builder holds an alias named by the text of span `s`.
    fn has_alias_text(&self, src: &Vec<u8>, s: Span) -> (r: bool)
        requires
            within(s, src@.len()),
        ensures
            r == has_alias_named(bview(*self), text_of(src@, s)),
    {
        let ghost bv = bview(*self);
        let mut k: usize = 0;
        while k < self.aliases.len()
            invariant
                k <= self.aliases@.len(),
                within(s, src@.len()),
                bv == bview(*self),
                forall|j: int| 0 <= j < k ==> (#[trigger] bv.aliases[j]).0 != text_of(src@, s),
            decreases self.aliases@.len() - k,
        {
            if same_text(&self.aliases[k].0, src, s) {
                assert(bv.aliases[k as int].0 == text_of(src@, s));
                return true;
            }
            assert(bv.aliases[k as int].0 == self.aliases@[k as int].0@);
            k = k + 1;
        }
        false
    }

    /// Whether the builder takes declaration `d`, as [`decl_ok`] says.
    #[verifier::loop_isolation(false)]
    fn decl_check(&self, d: &Gramem, src: &Vec<u8>) -> (r: bool)
        ensures
            r == decl_ok(bview(*self), src@, *d),
    {
        let n = src.len();
        match &d.item.item {
            Ast::RuleDecl(ident, _, pipes) => {
                if !(ident.start <= ident.end && ident.end <= n) {
                    return false;
                }
                if self.has_rule_text(src, *ident) {
                    return false;
                }
                let mut j: usize = 0;
                while j < pipes.len()
                    invariant
                        j <= pipes@.len(),
                        n == src@.len(),
                        forall|j2: int|
                            0 <= j2 < j ==> within(#[trigger] pipes@[j2].1, src@.len()) && pipes@[j2].1.start
                                < pipes@[j2].1.end && pipe_ok(pipes@[j2].0@, src@.len(), 0),
                    decreases pipes@.len() - j,
                {
                    let cb = pipes[j].1;
                    if !(cb.start < cb.end && cb.end <= n) || !pipe_check(&pipes[j].0, n, 0) {
                        assert(!(within(pipes@[j as int].1, src@.len()) && pipes@[j as int].1.start
                            < pipes@[j as int].1.end && pipe_ok(pipes@[j as int].0@, src@.len(), 0)));
                        return false;
                    }
                    j = j + 1;
                }
                true
            },
            Ast::Import(_) => true,
            Ast::Alias(tk, _) => {
                if !(tk.start <= tk.end && tk.end <= n) {
                    return false;
                }
                !self.has_alias_text(src, *tk)
            },
            _ => false,
        }
    }
}

/// A builder that holds nothing.
pub open spec fn empty_builder() -> BuilderV {
    BuilderV { aliases: Seq::empty(), rules: Seq::empty(), imports: Seq::empty() }
}

/// Whether `v` is a program whose declarations a builder with nothing declared takes,
/// each in turn.
pub open spec fn program_ok(src: Seq<u8>, v: Meta<Ast>) -> bool {
    v.item is Program && process_ok(empty_builder(), src, v.item->Program_0@, 0)
}

/// What reading `tokens` of a grammar file over `src` with action table `t` gives: where
/// the run from the start fails, or leaves no item, nothing; where the first item it
/// leaves is a program a builder takes, the builder after its declarations; else nothing.
pub open spec fn read_spec(
    t: Seq<Seq<(usize, crate::action::ActionView)>>,
    eof: usize,
    tokens: Seq<Gramem>,
    src: Seq<u8>,
    r: Option<Builder>,
) -> bool {
    let (c, res) = run_spec(t, eof, start_cfg(tys_of(tokens)), usize::MAX as nat);
    match r {
        Some(b) => res is Ok && exists|
            trace: Seq<(Seq<Meta<Ast>>, Seq<Gramem>, Seq<Gramem>)>,
            items2: Seq<Gramem>,
            buf2: Seq<Gramem>,
        |
            #[trigger] run_vals(t, WopReductor, eof, start_cfg(tys_of(tokens)), usize::MAX as nat, Seq::empty(), tokens, trace, items2, buf2)
                && items2.len() > 0 && program_ok(src, items2[0].item)
                && bview(b) == processed(empty_builder(), src, items2[0].item.item->Program_0@, 0),
        None => res is Err || c.tys.len() == 0 || exists|
            trace: Seq<(Seq<Meta<Ast>>, Seq<Gramem>, Seq<Gramem>)>,
            items2: Seq<Gramem>,
            buf2: Seq<Gramem>,
        |
            #[trigger] run_vals(t, WopReductor, eof, start_cfg(tys_of(tokens)), usize::MAX as nat, Seq::empty(), tokens, trace, items2, buf2)
                && items2.len() > 0 && !program_ok(src, items2[0].item),
    }
}

/// Whether `v` is a program whose declarations a builder takes, as [`program_ok`] says.
#[verifier::loop_isolation(false)]
pub fn program_check(v: &Meta<Ast>, src: &Vec<u8>) -> (r: bool)
    ensures
        r == program_ok(src@, *v),
{
    match &v.item {
        Ast::Program(ds) => {
            let mut b = Builder::new();
            assert(bview(b) == empty_builder());
            let mut k: usize = 0;
            while k < ds.len()
                invariant
                    k <= ds@.len(),
                    process_ok(empty_builder(), src@, ds@, 0) == process_ok(bview(b), src@, ds@, k as int),
                decreases ds@.len() - k,
            {
                if !b.decl_check(&ds[k], src) {
                    return false;
                }
                b.decl(&ds[k], src);
                k = k + 1;
            }
            true
        },
        _ => false,
    }
}

/// Reads the tokens of a grammar file over `src`: parses them with the automaton of
/// [`build_parser`], and takes the program it leaves first into a new builder with
/// [`Builder::process`]. `None` where the parse fails, leaves no item, or leaves a program
/// with a declaration that a builder does not take (a rule or alias declared twice, an
/// alternative without a code block, an item out of the source).
pub fn builder_of(tokens: VecDeque<Gramem>, src: &Vec<u8>) -> (r: Option<Builder>)
    ensures
        exists|p: Slr|
            #[trigger] slr_built(p.table) && p.table.grammar.basis.rule == WOP_ENTRY_POINT && read_spec(
                act_view(p.table.actions@),
                7,
                tokens@,
                src@,
                r,
            ),
{
    let ghost toks = tokens@;
    let mut d = build_parser(tokens);
    assert(d.items@.len() == tys_of(d.items@).len());
    assert(d.items@ =~= Seq::<Gramem>::empty());
    let ghost t = act_view(d.table@);
    let ghost c0 = d.cfg();
    let started = d.start();
    let ghost (c, res) = run_spec(t, 7, c0, usize::MAX as nat);
    assert(res_view(started) == res);
    if started.is_err() {
        return None;
    }
    assert(c.tys == tys_of(d.items@));
    if d.items.len() == 0 {
        return None;
    }
    if !program_check(&d.items[0].item, src) {
        return None;
    }
    let mut b = Builder::new();
    assert(bview(b) == empty_builder());
    b.process(&d.items[0], src);
    Some(b)
}

} // verus!
