//! The productions that an alternative of a grammar file stands for: each optional
//! item doubles them (with the item and without it), and each parenthesized sub-rule
//! gives one production per alternative of its own, the names bound inside it made
//! optional.
use vstd::prelude::*;

use crate::prodbuild::{ItemAlias, ProductionBuild, alias_lists, set_sub_aliases, shifted, sub_names, with_sub_aliases};
use crate::wopast::{Ast, Gramem, WOP_IDENT_PATH, WOP_RULE, WOP_STR_LIT};
use crate::Span;

verus! {

/// The mathematical value of a [`ProductionBuild`].
pub struct PBV {
    pub production: Seq<Span>,
    pub codeblock: Span,
    pub ty: Span,
    pub aliases: Seq<ItemAlias>,
}

/// The value of production `p`.
pub open spec fn pbv(p: ProductionBuild) -> PBV {
    PBV { production: p.production@, codeblock: p.codeblock, ty: p.ty, aliases: p.aliases@ }
}

/// The values of productions `ps`.
pub open spec fn pbvs(ps: Seq<ProductionBuild>) -> Seq<PBV> {
    ps.map_values(|p: ProductionBuild| pbv(p))
}

/// What the text of span `s` of `src` stands for: the span of the first alias of
/// `aliases` whose name is that text, or `s` itself.
pub open spec fn def_of(aliases: Seq<(Seq<u8>, Span)>, src: Seq<u8>, s: Span) -> Span {
    let text = src.subrange(s.start as int, s.end as int);
    if exists|k: int| 0 <= k < aliases.len() && #[trigger] aliases[k].0 == text {
        aliases[choose|k: int|
            0 <= k < aliases.len() && #[trigger] aliases[k].0 == text && forall|j: int| 0 <= j < k ==> #[trigger] aliases[j].0 != text].1
    } else {
        s
    }
}

/// The aliases `al` with their names as byte sequences.
pub open spec fn aview(al: Seq<(Vec<u8>, Span)>) -> Seq<(Seq<u8>, Span)> {
    al.map_values(|e: (Vec<u8>, Span)| (e.0@, e.1))
}

/// Production `p` with `alias`, if any, bound to its next item: marked present where
/// the item is optional.
pub open spec fn with_alias(p: PBV, alias: Option<Span>, opt: bool) -> PBV {
    match alias {
        Some(a) => PBV {
            aliases: p.aliases.push(
                shifted(ItemAlias { alias: a, optional: if opt { Some(true) } else { None }, index: 0, final_index: None }, p.production.len()),
            ),
            ..p
        },
        None => p,
    }
}

/// `a + b`, or the largest `usize` where that is larger.
pub open spec fn sat_add(a: int, b: int) -> usize {
    if a + b <= usize::MAX { (a + b) as usize } else { usize::MAX }
}

/// Production `p` with its last alias ending where a sub-rule alternative of `n` items
/// would end.
pub open spec fn set_final(p: PBV, n: nat) -> PBV {
    let k = p.aliases.len() - 1;
    PBV {
        aliases: p.aliases.update(k, ItemAlias { final_index: Some(sat_add(p.production.len() as int, n as int)), ..p.aliases[k] }),
        ..p
    }
}

/// Production `p` as it stands after the alternatives `vs` of a sub-rule: its last
/// alias, where it has one, ends where the last alternative ends.
pub open spec fn after_alts(p: PBV, named: bool, vs: Seq<(Vec<Gramem>, Span)>) -> PBV {
    if named && vs.len() > 0 {
        set_final(p, vs.last().0@.len())
    } else {
        p
    }
}

/// The productions `ps` with the names bound inside them and not in `base` made optional.
pub open spec fn sub_marked(base: PBV, ps: Seq<PBV>) -> Seq<PBV> {
    let names = sub_names(base.aliases, ps.map_values(|q: PBV| q.aliases));
    ps.map_values(|q: PBV| PBV { aliases: with_sub_aliases(q.aliases, names), ..q })
}

/// Production `p` without an optional sub-rule: the sub-rule put no item in `p`, so its
/// items stay; only the alias that the sub-rule bound, if any, goes.
pub open spec fn skip_rule(p: PBV, named: bool) -> PBV {
    PBV { aliases: if named && p.aliases.len() > 0 { p.aliases.drop_last() } else { p.aliases }, ..p }
}

/// Production `p` without its last, optional item: the item dropped, and its alias
/// marked absent.
pub open spec fn skip_item(p: PBV, named: bool) -> PBV {
    PBV {
        production: p.production.drop_last(),
        aliases: if named {
            p.aliases.update(p.aliases.len() - 1, ItemAlias { optional: Some(false), ..p.aliases.last() })
        } else {
            p.aliases
        },
        ..p
    }
}

/// The productions that `o` followed by the items of `pipe` from `i` on stands for.
pub open spec fn expansions(al: Seq<(Seq<u8>, Span)>, src: Seq<u8>, o: PBV, pipe: Seq<Gramem>, i: int) -> Seq<PBV>
    decreases pipe, pipe.len() - i, 0int,
{
    if i < 0 || i >= pipe.len() {
        seq![o]
    } else {
        match pipe[i].item.item {
            Ast::RuleItem(b, opt, alias) => {
                let p1 = with_alias(o, alias, opt);
                if b.ty == WOP_RULE {
                    match b.item.item {
                        Ast::Rule(vs) => {
                            let ps = alt_expansions(al, src, p1, alias is Some, vs@, 0);
                            let last = after_alts(p1, alias is Some, vs@);
                            let ps2 = sub_marked(last, ps);
                            let ps3 = if opt { ps2.push(skip_rule(last, alias is Some)) } else { ps2 };
                            all_expansions(al, src, ps3, pipe, i + 1, 0)
                        },
                        _ => Seq::empty(),
                    }
                } else {
                    let p2 = PBV { production: p1.production.push(def_of(al, src, b.item.span)), ..p1 };
                    if opt {
                        all_expansions(al, src, seq![p2, skip_item(p2, alias is Some)], pipe, i + 1, 0)
                    } else {
                        expansions(al, src, p2, pipe, i + 1)
                    }
                }
            },
            _ => Seq::empty(),
        }
    }
}

/// The expansions of each production of `ps` from `k` on, joined.
pub open spec fn all_expansions(al: Seq<(Seq<u8>, Span)>, src: Seq<u8>, ps: Seq<PBV>, pipe: Seq<Gramem>, i: int, k: int) -> Seq<PBV>
    decreases pipe, pipe.len() - i, ps.len() - k + 1,
{
    if k < 0 || k >= ps.len() {
        Seq::empty()
    } else {
        expansions(al, src, ps[k], pipe, i) + all_expansions(al, src, ps, pipe, i, k + 1)
    }
}

/// The expansions of `p` followed by each alternative of a sub-rule from `j` on, joined.
pub open spec fn alt_expansions(
    al: Seq<(Seq<u8>, Span)>,
    src: Seq<u8>,
    p: PBV,
    named: bool,
    vs: Seq<(Vec<Gramem>, Span)>,
    j: int,
) -> Seq<PBV>
    decreases vs, vs.len() - j, 0int,
{
    if j < 0 || j >= vs.len() {
        Seq::empty()
    } else {
        let pj = if named { set_final(p, vs[j].0@.len()) } else { p };
        expansions(al, src, pj, vs[j].0@, 0) + alt_expansions(al, src, p, named, vs, j + 1)
    }
}

/// The items of `pipe` from `i` on are ones the builder takes: each names a path or a
/// string literal within the `n` bytes of the source, or is a sub-rule whose
/// alternatives have no code block and are themselves such items.
pub open spec fn pipe_ok(pipe: Seq<Gramem>, n: nat, i: int) -> bool
    decreases pipe, pipe.len() - i, 0int,
{
    if i < 0 || i >= pipe.len() {
        true
    } else {
        &&& match pipe[i].item.item {
            Ast::RuleItem(b, _, _) => if b.ty == WOP_RULE {
                match b.item.item {
                    Ast::Rule(vs) => alts_ok(vs@, n, 0),
                    _ => false,
                }
            } else {
                (b.ty == WOP_STR_LIT || b.ty == WOP_IDENT_PATH) && b.item.span.start <= b.item.span.end <= n
            },
            _ => false,
        }
        &&& pipe_ok(pipe, n, i + 1)
    }
}

/// The alternatives `vs` of a sub-rule from `j` on have no code block and items that
/// [`pipe_ok`] accepts.
pub open spec fn alts_ok(vs: Seq<(Vec<Gramem>, Span)>, n: nat, j: int) -> bool
    decreases vs, vs.len() - j, 0int,
{
    if j < 0 || j >= vs.len() {
        true
    } else {
        vs[j].1 == Span { start: 0, end: 0 } && pipe_ok(vs[j].0@, n, 0) && alts_ok(vs, n, j + 1)
    }
}

/// Whether `a` holds the bytes of `src` from `start` to `end`.
fn bytes_at(a: &Vec<u8>, src: &Vec<u8>, start: usize, end: usize) -> (r: bool)
    requires
        start <= end <= src@.len(),
    ensures
        r == (a@ == src@.subrange(start as int, end as int)),
{
    if a.len() != end - start {
        return false;
    }
    let mut i: usize = 0;
    while i < a.len()
        invariant
            a@.len() == end - start,
            start <= end <= src@.len(),
            i <= a@.len(),
            forall|j: int| 0 <= j < i ==> a@[j] == src@[start + j],
        decreases a@.len() - i,
    {
        if a[i] != src[start + i] {
            assert(a@[i as int] != src@.subrange(start as int, end as int)[i as int]);
            return false;
        }
        i = i + 1;
    }
    assert(a@ =~= src@.subrange(start as int, end as int));
    true
}

/// What the text of span `s` stands for, as [`def_of`] says.
fn alias_def(al: &Vec<(Vec<u8>, Span)>, src: &Vec<u8>, s: Span) -> (r: Span)
    requires
        s.start <= s.end <= src@.len(),
    ensures
        r == def_of(aview(al@), src@, s),
{
    let ghost text = src@.subrange(s.start as int, s.end as int);
    let mut k: usize = 0;
    while k < al.len()
        invariant
            k <= al@.len(),
            s.start <= s.end <= src@.len(),
            text == src@.subrange(s.start as int, s.end as int),
            forall|j: int| 0 <= j < k ==> #[trigger] aview(al@)[j].0 != text,
        decreases al@.len() - k,
    {
        if bytes_at(&al[k].0, src, s.start, s.end) {
            proof {
                let av = aview(al@);
                assert(av[k as int].0 == text);
                let c = choose|c: int|
                    0 <= c < av.len() && #[trigger] av[c].0 == text && forall|j: int| 0 <= j < c ==> #[trigger] av[j].0 != text;
                if c < k {
                    assert(av[c].0 != text);
                } else if c > k {
                    assert(av[k as int].0 != text);
                }
            }
            return al[k].1;
        }
        k = k + 1;
    }
    s
}

/// A copy of production `p`.
fn copy_pb(p: &ProductionBuild) -> (r: ProductionBuild)
    ensures
        pbv(r) == pbv(*p),
{
    let mut production: Vec<Span> = Vec::new();
    let mut i: usize = 0;
    while i < p.production.len()
        invariant
            i <= p.production@.len(),
            production@ == p.production@.subrange(0, i as int),
        decreases p.production@.len() - i,
    {
        production.push(p.production[i]);
        assert(production@ =~= p.production@.subrange(0, i + 1));
        i = i + 1;
    }
    let mut aliases: Vec<ItemAlias> = Vec::new();
    let mut i: usize = 0;
    while i < p.aliases.len()
        invariant
            i <= p.aliases@.len(),
            aliases@ == p.aliases@.subrange(0, i as int),
        decreases p.aliases@.len() - i,
    {
        aliases.push(p.aliases[i]);
        assert(aliases@ =~= p.aliases@.subrange(0, i + 1));
        i = i + 1;
    }
    assert(production@ =~= p.production@);
    assert(aliases@ =~= p.aliases@);
    ProductionBuild { production, codeblock: p.codeblock, ty: p.ty, aliases }
}

/// Joining two runs of productions joins their values.
proof fn lemma_pbvs_add(a: Seq<ProductionBuild>, b: Seq<ProductionBuild>)
    ensures
        pbvs(a + b) == pbvs(a) + pbvs(b),
{
    assert(pbvs(a + b) =~= pbvs(a) + pbvs(b));
}

/// Production `p` with its last alias ending `n` items past its end, as [`set_final`]
/// says.
fn set_final_exec(p: &mut ProductionBuild, n: usize)
    requires
        old(p).aliases@.len() > 0,
    ensures
        pbv(*final(p)) == set_final(pbv(*old(p)), n as nat),
{
    let k = p.aliases.len() - 1;
    let a = p.aliases[k];
    let len = p.production.len();
    let f = if len <= usize::MAX - n { len + n } else { usize::MAX };
    p.aliases.set(k, ItemAlias { final_index: Some(f), ..a });
}

/// The productions that `o` followed by the items of `pipe` from `i` on stands for, as
/// [`expansions`] says.
fn expand(al: &Vec<(Vec<u8>, Span)>, src: &Vec<u8>, o: ProductionBuild, pipe: &Vec<Gramem>, i: usize) -> (r: Vec<ProductionBuild>)
    requires
        pipe_ok(pipe@, src@.len(), i as int),
    ensures
        pbvs(r@) == expansions(aview(al@), src@, pbv(o), pipe@, i as int),
    decreases pipe@, pipe@.len() - i, 0int,
{
    if i >= pipe.len() {
        let mut r: Vec<ProductionBuild> = Vec::new();
        r.push(o);
        assert(pbvs(r@) =~= seq![pbv(o)]);
        return r;
    }
    match &pipe[i].item.item {
        Ast::RuleItem(b, opt, alias) => {
            let opt = *opt;
            let named = alias.is_some();
            let mut p1 = o;
            match alias {
                Some(a) => {
                    let plen = p1.production.len();
                    assert(p1.production@.len() == plen);
                    p1.push_alias(ItemAlias { alias: *a, optional: if opt { Some(true) } else { None }, index: 0, final_index: None });
                },
                None => {},
            }
            if b.ty == WOP_RULE {
                match &b.item.item {
                    Ast::Rule(vs) => {
                        let mut ps = expand_alts(al, src, &p1, named, vs, 0);
                        let mut last = copy_pb(&p1);
                        if named && vs.len() > 0 {
                            set_final_exec(&mut last, vs[vs.len() - 1].0.len());
                        }
                        let ghost ps0 = ps@;
                        set_sub_aliases(&last, &mut ps);
                        proof {
                            let names = sub_names(pbv(last).aliases, pbvs(ps0).map_values(|q: PBV| q.aliases));
                            assert(pbvs(ps0).map_values(|q: PBV| q.aliases) =~= crate::prodbuild::alias_lists(ps0));
                            assert(pbvs(ps@) =~= sub_marked(pbv(last), pbvs(ps0)));
                        }
                        if opt {
                            let mut sk = copy_pb(&last);
                            if named && sk.aliases.len() > 0 {
                                sk.aliases.pop();
                            }
                            let ghost ps1 = ps@;
                            ps.push(sk);
                            assert(pbvs(ps@) =~= pbvs(ps1).push(pbv(sk)));
                        }
                        return expand_all(al, src, &ps, pipe, i + 1, 0);
                    },
                    _ => {
                        return Vec::new();
                    },
                }
            } else {
                let d = alias_def(al, src, b.item.span);
                let mut p2 = p1;
                p2.production.push(d);
                if opt {
                    let mut sk = copy_pb(&p2);
                    sk.production.pop();
                    if named {
                        let k = sk.aliases.len() - 1;
                        let a = sk.aliases[k];
                        sk.aliases.set(k, ItemAlias { optional: Some(false), ..a });
                    }
                    let mut two: Vec<ProductionBuild> = Vec::new();
                    two.push(p2);
                    two.push(sk);
                    assert(pbvs(two@) =~= seq![pbv(p2), pbv(sk)]);
                    return expand_all(al, src, &two, pipe, i + 1, 0);
                } else {
                    return expand(al, src, p2, pipe, i + 1);
                }
            }
        },
        _ => {
            return Vec::new();
        },
    }
}

/// The expansions of each production of `ps` from `k` on, joined.
fn expand_all(al: &Vec<(Vec<u8>, Span)>, src: &Vec<u8>, ps: &Vec<ProductionBuild>, pipe: &Vec<Gramem>, i: usize, k: usize) -> (r: Vec<ProductionBuild>)
    requires
        pipe_ok(pipe@, src@.len(), i as int),
    ensures
        pbvs(r@) == all_expansions(aview(al@), src@, pbvs(ps@), pipe@, i as int, k as int),
    decreases pipe@, pipe@.len() - i, ps@.len() - k + 1,
{
    if k >= ps.len() {
        return Vec::new();
    }
    let mut r = expand(al, src, copy_pb(&ps[k]), pipe, i);
    let mut rest = expand_all(al, src, ps, pipe, i, k + 1);
    let ghost a = r@;
    let ghost b = rest@;
    r.append(&mut rest);
    proof {
        lemma_pbvs_add(a, b);
    }
    r
}

/// The expansions of `p` followed by each alternative of a sub-rule from `j` on, joined.
fn expand_alts(al: &Vec<(Vec<u8>, Span)>, src: &Vec<u8>, p: &ProductionBuild, named: bool, vs: &Vec<(Vec<Gramem>, Span)>, j: usize) -> (r: Vec<ProductionBuild>)
    requires
        alts_ok(vs@, src@.len(), j as int),
        named ==> p.aliases@.len() > 0,
    ensures
        pbvs(r@) == alt_expansions(aview(al@), src@, pbv(*p), named, vs@, j as int),
    decreases vs@, vs@.len() - j, 0int,
{
    if j >= vs.len() {
        return Vec::new();
    }
    let mut pj = copy_pb(p);
    if named {
        set_final_exec(&mut pj, vs[j].0.len());
    }
    let mut r = expand(al, src, pj, &vs[j].0, 0);
    let mut rest = expand_alts(al, src, p, named, vs, j + 1);
    let ghost a = r@;
    let ghost b = rest@;
    r.append(&mut rest);
    proof {
        lemma_pbvs_add(a, b);
    }
    r
}

/// The productions that `origin` followed by the items of `pipe` stands for: each
/// optional item gives the productions with it and those without it, and each sub-rule
/// one run of productions per alternative, where the names it binds are optional, and,
/// where it is optional, one without it. Paths and string literals stand for what
/// `aliases` makes of their text in `src`.
pub fn get_from_single_production(
    aliases: &Vec<(Vec<u8>, Span)>,
    origin: &ProductionBuild,
    pipe: &Vec<Gramem>,
    src: &Vec<u8>,
) -> (r: Vec<ProductionBuild>)
    requires
        pipe_ok(pipe@, src@.len(), 0),
    ensures
        pbvs(r@) == expansions(aview(aliases@), src@, pbv(*origin), pipe@, 0),
{
    expand(aliases, src, copy_pb(origin), pipe, 0)
}

/// The productions of each of `origins` followed by the items of `pipe`, joined.
pub fn get_production(
    aliases: &Vec<(Vec<u8>, Span)>,
    origins: &Vec<ProductionBuild>,
    pipe: &Vec<Gramem>,
    src: &Vec<u8>,
) -> (r: Vec<ProductionBuild>)
    requires
        pipe_ok(pipe@, src@.len(), 0),
    ensures
        pbvs(r@) == all_expansions(aview(aliases@), src@, pbvs(origins@), pipe@, 0, 0),
{
    expand_all(aliases, src, origins, pipe, 0, 0)
}

/// The mathematical value of a [`Builder`]: the aliases by name, the rules by name
/// with their productions, and the imports, each in the order of their declarations.
pub struct BuilderV {
    pub aliases: Seq<(Seq<u8>, Span)>,
    pub rules: Seq<(Seq<u8>, Seq<PBV>)>,
    pub imports: Seq<Span>,
}

/// What grammar files declare: aliases of names and string literals, rules with their
/// productions, and imports.
pub struct Builder {
    pub aliases: Vec<(Vec<u8>, Span)>,
    pub rules: Vec<(Vec<u8>, Vec<ProductionBuild>)>,
    pub imports: Vec<Span>,
}

/// The text of span `s` of `src`.
pub open spec fn text_of(src: Seq<u8>, s: Span) -> Seq<u8> {
    src.subrange(s.start as int, s.end as int)
}

/// Whether span `s` lies within the `n` bytes of the source.
pub open spec fn within(s: Span, n: nat) -> bool {
    s.start <= s.end <= n
}

/// The value of builder `b`.
pub open spec fn bview(b: Builder) -> BuilderV {
    BuilderV {
        aliases: aview(b.aliases@),
        rules: b.rules@.map_values(|e: (Vec<u8>, Vec<ProductionBuild>)| (e.0@, pbvs(e.1@))),
        imports: b.imports@,
    }
}

/// The production a rule alternative starts from: no items, its code block and the
/// rule's type.
pub open spec fn base_of(cb: Span, ty: Span) -> PBV {
    PBV { production: Seq::empty(), codeblock: cb, ty, aliases: Seq::empty() }
}

/// The productions of the alternatives `pipes` from `j` on of a rule of type `ty`.
pub open spec fn rule_productions(
    al: Seq<(Seq<u8>, Span)>,
    src: Seq<u8>,
    ty: Span,
    pipes: Seq<(Vec<Gramem>, Span)>,
    j: int,
) -> Seq<PBV>
    decreases pipes.len() - j,
{
    if j < 0 || j >= pipes.len() {
        Seq::empty()
    } else {
        all_expansions(al, src, seq![base_of(pipes[j].1, ty)], pipes[j].0@, 0, 0) + rule_productions(al, src, ty, pipes, j + 1)
    }
}

/// Whether some alias of `b` is named `t`.
pub open spec fn has_alias_named(b: BuilderV, t: Seq<u8>) -> bool {
    exists|k: int| 0 <= k < b.aliases.len() && #[trigger] b.aliases[k].0 == t
}

/// Whether some rule of `b` is named `t`.
pub open spec fn has_rule_named(b: BuilderV, t: Seq<u8>) -> bool {
    exists|k: int| 0 <= k < b.rules.len() && #[trigger] b.rules[k].0 == t
}

/// Builder `b` after declaration `d` of a grammar file over `src`: a rule adds its productions under its name, an import its path, an
/// alias its definition under its name.
pub open spec fn after_decl(b: BuilderV, src: Seq<u8>, d: Gramem) -> BuilderV {
    match d.item.item {
        Ast::RuleDecl(ident, ty, pipes) => BuilderV {
            rules: b.rules.push((text_of(src, ident), rule_productions(b.aliases, src, ty, pipes@, 0))),
            ..b
        },
        Ast::Import(s) => BuilderV { imports: b.imports.push(s), ..b },
        Ast::Alias(tk, alias) => BuilderV { aliases: b.aliases.push((text_of(src, tk), alias)), ..b },
        _ => b,
    }
}

/// Whether declaration `d` is one a builder in state `b` takes: a rule of a new name
/// whose alternatives all have a code block and items that [`pipe_ok`] accepts, an
/// import, or an alias of a new name, their spans within the source.
pub open spec fn decl_ok(b: BuilderV, src: Seq<u8>, d: Gramem) -> bool {
    match d.item.item {
        Ast::RuleDecl(ident, ty, pipes) => {
            &&& within(ident, src.len())
            &&& !has_rule_named(b, text_of(src, ident))
            &&& forall|j: int|
                0 <= j < pipes@.len() ==> within(#[trigger] pipes@[j].1, src.len()) && pipes@[j].1.start < pipes@[j].1.end
                    && pipe_ok(pipes@[j].0@, src.len(), 0)
        },
        Ast::Import(_) => true,
        Ast::Alias(tk, _) => within(tk, src.len()) && !has_alias_named(b, text_of(src, tk)),
        _ => false,
    }
}

/// Builder `b` after the declarations `ds` from `k` on, in order.
pub open spec fn processed(b: BuilderV, src: Seq<u8>, ds: Seq<Gramem>, k: int) -> BuilderV
    decreases ds.len() - k,
{
    if k < 0 || k >= ds.len() {
        b
    } else {
        processed(after_decl(b, src, ds[k]), src, ds, k + 1)
    }
}

/// Whether the declarations `ds` from `k` on are, each in turn, ones the builder takes.
pub open spec fn process_ok(b: BuilderV, src: Seq<u8>, ds: Seq<Gramem>, k: int) -> bool
    decreases ds.len() - k,
{
    if k < 0 || k >= ds.len() {
        true
    } else {
        decl_ok(b, src, ds[k]) && process_ok(after_decl(b, src, ds[k]), src, ds, k + 1)
    }
}

/// The bytes of span `s` of `src`.
pub fn text_exec(src: &Vec<u8>, s: Span) -> (r: Vec<u8>)
    requires
        within(s, src@.len()),
    ensures
        r@ == text_of(src@, s),
{
    let mut r: Vec<u8> = Vec::new();
    let mut i: usize = s.start;
    while i < s.end
        invariant
            within(s, src@.len()),
            s.start <= i <= s.end,
            r@ == src@.subrange(s.start as int, i as int),
        decreases s.end - i,
    {
        r.push(src[i]);
        assert(r@ =~= src@.subrange(s.start as int, i + 1));
        i = i + 1;
    }
    r
}

impl Builder {
    /// A builder with nothing declared.
    pub fn new() -> (b: Self)
        ensures
            bview(b) == (BuilderV { aliases: Seq::empty(), rules: Seq::empty(), imports: Seq::empty() }),
    {
        let b = Builder { aliases: Vec::new(), rules: Vec::new(), imports: Vec::new() };
        assert(bview(b).aliases =~= Seq::<(Seq<u8>, Span)>::empty());
        assert(bview(b).rules =~= Seq::<(Seq<u8>, Seq<PBV>)>::empty());
        b
    }

    /// The productions of the alternatives `pipes` of a rule of type `ty`, from `j` on.
    fn rule_prods(&self, src: &Vec<u8>, ty: Span, pipes: &Vec<(Vec<Gramem>, Span)>, j: usize) -> (r: Vec<ProductionBuild>)
        requires
            forall|i: int| 0 <= i < pipes@.len() ==> pipe_ok(#[trigger] pipes@[i].0@, src@.len(), 0),
        ensures
            pbvs(r@) == rule_productions(aview(self.aliases@), src@, ty, pipes@, j as int),
        decreases pipes@.len() - j,
    {
        if j >= pipes.len() {
            return Vec::new();
        }
        let base = ProductionBuild { production: Vec::new(), codeblock: pipes[j].1, ty, aliases: Vec::new() };
        let mut origins: Vec<ProductionBuild> = Vec::new();
        origins.push(base);
        assert(pbvs(origins@) =~= seq![base_of(pipes@[j as int].1, ty)]);
        let mut r = get_production(&self.aliases, &origins, &pipes[j].0, src);
        let mut rest = self.rule_prods(src, ty, pipes, j + 1);
        let ghost a = r@;
        let ghost b = rest@;
        r.append(&mut rest);
        proof {
            lemma_pbvs_add(a, b);
        }
        r
    }

    /// Takes in declaration `d`, as [`after_decl`] says.
    pub(crate) fn decl(&mut self, d: &Gramem, src: &Vec<u8>)
        requires
            decl_ok(bview(*old(self)), src@, *d),
        ensures
            bview(*final(self)) == after_decl(bview(*old(self)), src@, *d),
    {
        match &d.item.item {
            Ast::RuleDecl(ident, ty, pipes) => {
                assert forall|i: int| 0 <= i < pipes@.len() implies pipe_ok(#[trigger] pipes@[i].0@, src@.len(), 0) by {
                    assert(within(pipes@[i].1, src@.len()));
                }
                let prods = self.rule_prods(src, *ty, pipes, 0);
                let name = text_exec(src, *ident);
                let ghost r0 = self.rules@;
                self.rules.push((name, prods));
                assert(bview(*self).rules =~= bview(*old(self)).rules.push((text_of(src@, *ident), pbvs(prods@))));
            },
            Ast::Import(p) => {
                self.imports.push(*p);
            },
            Ast::Alias(tk, alias) => {
                let name = text_exec(src, *tk);
                self.aliases.push((name, *alias));
                assert(bview(*self).aliases =~= bview(*old(self)).aliases.push((text_of(src@, *tk), *alias)));
            },
            _ => {},
        }
    }

    /// The declarations of the program `ast`.
    pub fn get_program_instructions(ast: &Gramem) -> (r: &Vec<Gramem>)
        requires
            ast.item.item is Program,
        ensures
            *r == ast.item.item->Program_0,
    {
        match &ast.item.item {
            Ast::Program(p) => p,
            _ => vstd::pervasive::unreached(),
        }
    }

    /// Sets the aliases of each production of `productions` as optional items, except the
    /// names that `base` binds, as [`set_sub_aliases`] does.
    pub fn set_sub_aliases(&self, base: &ProductionBuild, productions: &mut Vec<ProductionBuild>)
        ensures
            final(productions)@.len() == old(productions)@.len(),
            forall|i: int|
                0 <= i < old(productions)@.len() ==> {
                    let p = #[trigger] final(productions)@[i];
                    let q = old(productions)@[i];
                    &&& p.production@ == q.production@
                    &&& p.codeblock == q.codeblock
                    &&& p.ty == q.ty
                    &&& p.aliases@ == with_sub_aliases(q.aliases@, sub_names(base.aliases@, alias_lists(old(productions)@)))
                },
    {
        set_sub_aliases(base, productions);
    }

    /// Takes in the declarations of `program`, in order: rules with the productions
    /// their alternatives stand for, imports, and aliases.
    pub fn process(&mut self, program: &Gramem, src: &Vec<u8>)
        requires
            program.item.item is Program,
            process_ok(bview(*old(self)), src@, program.item.item->Program_0@, 0),
        ensures
            bview(*final(self)) == processed(bview(*old(self)), src@, program.item.item->Program_0@, 0),
    {
        match &program.item.item {
            Ast::Program(ds) => {
                let mut k: usize = 0;
                while k < ds.len()
                    invariant
                        k <= ds@.len(),
                        process_ok(bview(*self), src@, ds@, k as int),
                        processed(bview(*self), src@, ds@, k as int) == processed(bview(*old(self)), src@, ds@, 0),
                    decreases ds@.len() - k,
                {
                    self.decl(&ds[k], src);
                    k = k + 1;
                }
            },
            _ => {},
        }
    }
}

/// Processing one more declaration takes it in after the others.
proof fn lemma_processed_push(b: BuilderV, src: Seq<u8>, ds: Seq<Gramem>, d: Gramem, k: int)
    requires
        0 <= k <= ds.len(),
    ensures
        processed(b, src, ds.push(d), k) == after_decl(processed(b, src, ds, k), src, d),
    decreases ds.len() - k,
{
    let e = ds.push(d);
    if k == ds.len() {
        assert(e[k] == d);
        assert(processed(b, src, e, k) == processed(after_decl(b, src, d), src, e, k + 1));
    } else {
        assert(e[k] == ds[k]);
        lemma_processed_push(after_decl(b, src, ds[k]), src, ds, d, k + 1);
    }
}

/// Processing a program adds to the builder's imports, in order, exactly the paths of
/// its `use` declarations.
pub proof fn law_process_imports(b: BuilderV, src: Seq<u8>, ds: Seq<Gramem>)
    ensures
        processed(b, src, ds, 0).imports == b.imports + ds.filter(|d: Gramem| d.item.item is Import).map_values(
            |d: Gramem| d.item.item->Import_0,
        ),
    decreases ds.len(),
{
    let pred = |d: Gramem| d.item.item is Import;
    let path = |d: Gramem| d.item.item->Import_0;
    if ds.len() == 0 {
        assert(ds.filter(pred) =~= Seq::<Gramem>::empty());
        assert(b.imports + ds.filter(pred).map_values(path) =~= b.imports);
    } else {
        let q = ds.drop_last();
        let d = ds.last();
        law_process_imports(b, src, q);
        assert(q.push(d) =~= ds);
        lemma_processed_push(b, src, q, d, 0);
        assert(ds.filter(pred) == if pred(d) { q.filter(pred).push(d) } else { q.filter(pred) }) by {
            reveal_with_fuel(Seq::filter, 1);
        }
        if pred(d) {
            assert(q.filter(pred).push(d).map_values(path) =~= q.filter(pred).map_values(path).push(path(d)));
            assert(b.imports + q.filter(pred).map_values(path).push(path(d)) =~= (b.imports + q.filter(pred).map_values(
                path,
            )).push(path(d)));
        }
    }
}

/// Processing a program adds to the builder's aliases, in order, exactly its alias
/// declarations, each named by the text of its name and bound to its definition.
pub proof fn law_process_aliases(b: BuilderV, src: Seq<u8>, ds: Seq<Gramem>)
    ensures
        processed(b, src, ds, 0).aliases == b.aliases + ds.filter(|d: Gramem| d.item.item is Alias).map_values(
            |d: Gramem| (text_of(src, d.item.item->Alias_0), d.item.item->Alias_1),
        ),
    decreases ds.len(),
{
    let pred = |d: Gramem| d.item.item is Alias;
    let f = |d: Gramem| (text_of(src, d.item.item->Alias_0), d.item.item->Alias_1);
    if ds.len() == 0 {
        assert(ds.filter(pred) =~= Seq::<Gramem>::empty());
        assert(b.aliases + ds.filter(pred).map_values(f) =~= b.aliases);
    } else {
        let q = ds.drop_last();
        let d = ds.last();
        law_process_aliases(b, src, q);
        assert(q.push(d) =~= ds);
        lemma_processed_push(b, src, q, d, 0);
        assert(ds.filter(pred) == if pred(d) { q.filter(pred).push(d) } else { q.filter(pred) }) by {
            reveal_with_fuel(Seq::filter, 1);
        }
        if pred(d) {
            assert(q.filter(pred).push(d).map_values(f) =~= q.filter(pred).map_values(f).push(f(d)));
            assert(b.aliases + q.filter(pred).map_values(f).push(f(d)) =~= (b.aliases + q.filter(pred).map_values(f)).push(
                f(d),
            ));
        }
    }
}

/// Processing a program adds to the builder's rules, in order, exactly its rule
/// declarations, each named by the text of its name.
pub proof fn law_process_rule_names(b: BuilderV, src: Seq<u8>, ds: Seq<Gramem>)
    ensures
        processed(b, src, ds, 0).rules.map_values(|r: (Seq<u8>, Seq<PBV>)| r.0) == b.rules.map_values(
            |r: (Seq<u8>, Seq<PBV>)| r.0,
        ) + ds.filter(|d: Gramem| d.item.item is RuleDecl).map_values(|d: Gramem| text_of(src, d.item.item->RuleDecl_0)),
    decreases ds.len(),
{
    let pred = |d: Gramem| d.item.item is RuleDecl;
    let f = |d: Gramem| text_of(src, d.item.item->RuleDecl_0);
    let nm = |r: (Seq<u8>, Seq<PBV>)| r.0;
    if ds.len() == 0 {
        assert(ds.filter(pred) =~= Seq::<Gramem>::empty());
        assert(b.rules.map_values(nm) + ds.filter(pred).map_values(f) =~= b.rules.map_values(nm));
    } else {
        let q = ds.drop_last();
        let d = ds.last();
        law_process_rule_names(b, src, q);
        assert(q.push(d) =~= ds);
        lemma_processed_push(b, src, q, d, 0);
        let pb = processed(b, src, q, 0);
        assert(ds.filter(pred) == if pred(d) { q.filter(pred).push(d) } else { q.filter(pred) }) by {
            reveal_with_fuel(Seq::filter, 1);
        }
        if pred(d) {
            let pr = after_decl(pb, src, d).rules;
            assert(pr.map_values(nm) =~= pb.rules.map_values(nm).push(f(d)));
            assert(q.filter(pred).push(d).map_values(f) =~= q.filter(pred).map_values(f).push(f(d)));
            assert(b.rules.map_values(nm) + q.filter(pred).map_values(f).push(f(d)) =~= (b.rules.map_values(nm)
                + q.filter(pred).map_values(f)).push(f(d)));
        } else {
            assert(after_decl(pb, src, d).rules == pb.rules);
        }
    }
}

/// Whether the items of `pipe` from `i` on are plain: paths or string literals, each
/// optional or not, with no sub-rule among them.
pub open spec fn plain_from(pipe: Seq<Gramem>, i: int) -> bool {
    forall|j: int| i <= j < pipe.len() ==> (#[trigger] pipe[j]).item.item is RuleItem && pipe[j].item.item->RuleItem_0.ty
        != WOP_RULE
}

/// The number of optional items of `pipe` from `i` on.
pub open spec fn optional_count(pipe: Seq<Gramem>, i: int) -> nat
    decreases pipe.len() - i,
{
    if i < 0 || i >= pipe.len() {
        0
    } else {
        (if pipe[i].item.item->RuleItem_1 { 1nat } else { 0nat }) + optional_count(pipe, i + 1)
    }
}

/// An alternative of plain items stands for one production for each choice of its
/// optional items to keep or leave out: `2^k` productions, with `k` its optional items.
pub proof fn law_plain_expansions_count(al: Seq<(Seq<u8>, Span)>, src: Seq<u8>, o: PBV, pipe: Seq<Gramem>, i: int)
    requires
        0 <= i <= pipe.len(),
        plain_from(pipe, i),
    ensures
        expansions(al, src, o, pipe, i).len() == vstd::arithmetic::power2::pow2(optional_count(pipe, i)),
    decreases pipe.len() - i,
{
    vstd::arithmetic::power2::lemma2_to64();
    if i < pipe.len() {
        let g = pipe[i];
        let b = *g.item.item->RuleItem_0;
        let opt = g.item.item->RuleItem_1;
        let alias = g.item.item->RuleItem_2;
        let p1 = with_alias(o, alias, opt);
        let p2 = PBV { production: p1.production.push(def_of(al, src, b.item.span)), ..p1 };
        let c = optional_count(pipe, i + 1);
        assert(plain_from(pipe, i + 1));
        if opt {
            let ps = seq![p2, skip_item(p2, alias is Some)];
            law_plain_expansions_count(al, src, p2, pipe, i + 1);
            law_plain_expansions_count(al, src, skip_item(p2, alias is Some), pipe, i + 1);
            assert(all_expansions(al, src, ps, pipe, i + 1, 2) == Seq::<PBV>::empty());
            assert(all_expansions(al, src, ps, pipe, i + 1, 1) == expansions(al, src, ps[1], pipe, i + 1) + all_expansions(
                al,
                src,
                ps,
                pipe,
                i + 1,
                2,
            ));
            assert(all_expansions(al, src, ps, pipe, i + 1, 0) == expansions(al, src, ps[0], pipe, i + 1) + all_expansions(
                al,
                src,
                ps,
                pipe,
                i + 1,
                1,
            ));
            vstd::arithmetic::power2::lemma_pow2_unfold(c + 1);
        } else {
            law_plain_expansions_count(al, src, p2, pipe, i + 1);
        }
    }
}

/// The first production an alternative of plain items stands for keeps every item: its
/// items are those it started from, then what each item of the alternative stands for,
/// in order.
pub proof fn law_plain_expansions_first(al: Seq<(Seq<u8>, Span)>, src: Seq<u8>, o: PBV, pipe: Seq<Gramem>, i: int)
    requires
        0 <= i <= pipe.len(),
        plain_from(pipe, i),
    ensures
        expansions(al, src, o, pipe, i).len() > 0,
        expansions(al, src, o, pipe, i)[0].production == o.production + pipe.subrange(i, pipe.len() as int).map_values(
            |g: Gramem| def_of(al, src, g.item.item->RuleItem_0.item.span),
        ),
    decreases pipe.len() - i,
{
    let d = |g: Gramem| def_of(al, src, g.item.item->RuleItem_0.item.span);
    if i == pipe.len() {
        assert(pipe.subrange(i, pipe.len() as int).map_values(d) =~= Seq::<Span>::empty());
        assert(o.production + Seq::<Span>::empty() =~= o.production);
    } else {
        let g = pipe[i];
        let b = *g.item.item->RuleItem_0;
        let opt = g.item.item->RuleItem_1;
        let alias = g.item.item->RuleItem_2;
        let p1 = with_alias(o, alias, opt);
        let p2 = PBV { production: p1.production.push(def_of(al, src, b.item.span)), ..p1 };
        assert(plain_from(pipe, i + 1));
        assert(p1.production == o.production);
        law_plain_expansions_first(al, src, p2, pipe, i + 1);
        if opt {
            let ps = seq![p2, skip_item(p2, alias is Some)];
            assert(all_expansions(al, src, ps, pipe, i + 1, 0) == expansions(al, src, ps[0], pipe, i + 1) + all_expansions(
                al,
                src,
                ps,
                pipe,
                i + 1,
                1,
            ));
        }
        assert(pipe.subrange(i, pipe.len() as int).map_values(d) =~= seq![d(g)] + pipe.subrange(i + 1, pipe.len() as int).map_values(d));
        assert(o.production + pipe.subrange(i, pipe.len() as int).map_values(d) =~= p2.production + pipe.subrange(
            i + 1,
            pipe.len() as int,
        ).map_values(d));
    }
}

/// What the required items of `pipe` from `i` on stand for, in order.
pub open spec fn required_defs(al: Seq<(Seq<u8>, Span)>, src: Seq<u8>, pipe: Seq<Gramem>, i: int) -> Seq<Span>
    decreases pipe.len() - i,
{
    if i < 0 || i >= pipe.len() {
        Seq::empty()
    } else if pipe[i].item.item->RuleItem_1 {
        required_defs(al, src, pipe, i + 1)
    } else {
        seq![def_of(al, src, pipe[i].item.item->RuleItem_0.item.span)] + required_defs(al, src, pipe, i + 1)
    }
}

/// The last production an alternative of plain items stands for leaves out every
/// optional item: its items are those it started from, then what each required item
/// stands for, in order.
pub proof fn law_plain_expansions_last(al: Seq<(Seq<u8>, Span)>, src: Seq<u8>, o: PBV, pipe: Seq<Gramem>, i: int)
    requires
        0 <= i <= pipe.len(),
        plain_from(pipe, i),
    ensures
        expansions(al, src, o, pipe, i).len() > 0,
        expansions(al, src, o, pipe, i).last().production == o.production + required_defs(al, src, pipe, i),
    decreases pipe.len() - i,
{
    if i == pipe.len() {
        assert(o.production + Seq::<Span>::empty() =~= o.production);
    } else {
        let g = pipe[i];
        let b = *g.item.item->RuleItem_0;
        let opt = g.item.item->RuleItem_1;
        let alias = g.item.item->RuleItem_2;
        let p1 = with_alias(o, alias, opt);
        let p2 = PBV { production: p1.production.push(def_of(al, src, b.item.span)), ..p1 };
        assert(plain_from(pipe, i + 1));
        assert(p1.production == o.production);
        law_plain_expansions_last(al, src, p2, pipe, i + 1);
        if opt {
            let sk = skip_item(p2, alias is Some);
            let ps = seq![p2, sk];
            law_plain_expansions_last(al, src, sk, pipe, i + 1);
            assert(sk.production =~= o.production);
            assert(all_expansions(al, src, ps, pipe, i + 1, 2) == Seq::<PBV>::empty());
            assert(all_expansions(al, src, ps, pipe, i + 1, 1) == expansions(al, src, ps[1], pipe, i + 1) + all_expansions(
                al,
                src,
                ps,
                pipe,
                i + 1,
                2,
            ));
            assert(all_expansions(al, src, ps, pipe, i + 1, 0) == expansions(al, src, ps[0], pipe, i + 1) + all_expansions(
                al,
                src,
                ps,
                pipe,
                i + 1,
                1,
            ));
            assert(expansions(al, src, sk, pipe, i + 1) + Seq::<PBV>::empty() =~= expansions(al, src, sk, pipe, i + 1));
        } else {
            assert(o.production + required_defs(al, src, pipe, i) =~= p2.production + required_defs(al, src, pipe, i + 1));
        }
    }
}

/// Every production an alternative stands for keeps the code block and the type of the
/// production it started from.
pub proof fn law_expansions_keep_block(al: Seq<(Seq<u8>, Span)>, src: Seq<u8>, o: PBV, pipe: Seq<Gramem>, i: int)
    ensures
        forall|k: int|
            0 <= k < expansions(al, src, o, pipe, i).len() ==> (#[trigger] expansions(al, src, o, pipe, i)[k]).codeblock
                == o.codeblock && expansions(al, src, o, pipe, i)[k].ty == o.ty,
    decreases pipe, pipe.len() - i, 0int,
{
    if 0 <= i < pipe.len() {
        match pipe[i].item.item {
            Ast::RuleItem(b, opt, alias) => {
                let p1 = with_alias(o, alias, opt);
                if b.ty == WOP_RULE {
                    match b.item.item {
                        Ast::Rule(vs) => {
                            let ps = alt_expansions(al, src, p1, alias is Some, vs@, 0);
                            lemma_alts_keep_block(al, src, p1, alias is Some, vs@, 0);
                            let last = after_alts(p1, alias is Some, vs@);
                            let ps2 = sub_marked(last, ps);
                            let ps3 = if opt { ps2.push(skip_rule(last, alias is Some)) } else { ps2 };
                            assert forall|k: int| 0 <= k < ps3.len() implies (#[trigger] ps3[k]).codeblock == o.codeblock
                                && ps3[k].ty == o.ty by {
                                if k < ps2.len() {
                                    assert(ps2[k].codeblock == ps[k].codeblock);
                                }
                            }
                            lemma_all_keep_block(al, src, ps3, pipe, i + 1, 0, o.codeblock, o.ty);
                            assert(expansions(al, src, o, pipe, i) == all_expansions(al, src, ps3, pipe, i + 1, 0));
                        },
                        _ => {},
                    }
                } else {
                    let p2 = PBV { production: p1.production.push(def_of(al, src, b.item.span)), ..p1 };
                    if opt {
                        let ps = seq![p2, skip_item(p2, alias is Some)];
                        lemma_all_keep_block(al, src, ps, pipe, i + 1, 0, o.codeblock, o.ty);
                        assert(expansions(al, src, o, pipe, i) == all_expansions(al, src, ps, pipe, i + 1, 0));
                    } else {
                        law_expansions_keep_block(al, src, p2, pipe, i + 1);
                        assert(expansions(al, src, o, pipe, i) == expansions(al, src, p2, pipe, i + 1));
                    }
                }
            },
            _ => {},
        }
    } else {
        assert(expansions(al, src, o, pipe, i) == seq![o]);
    }
}

/// The expansions of productions that all have code block `c` and type `t` have them.
proof fn lemma_all_keep_block(
    al: Seq<(Seq<u8>, Span)>,
    src: Seq<u8>,
    ps: Seq<PBV>,
    pipe: Seq<Gramem>,
    i: int,
    k: int,
    c: Span,
    t: Span,
)
    requires
        forall|j: int| 0 <= j < ps.len() ==> (#[trigger] ps[j]).codeblock == c && ps[j].ty == t,
    ensures
        forall|j: int|
            0 <= j < all_expansions(al, src, ps, pipe, i, k).len() ==> (#[trigger] all_expansions(
                al,
                src,
                ps,
                pipe,
                i,
                k,
            )[j]).codeblock == c && all_expansions(al, src, ps, pipe, i, k)[j].ty == t,
    decreases pipe, pipe.len() - i, ps.len() - k + 1,
{
    if 0 <= k < ps.len() {
        law_expansions_keep_block(al, src, ps[k], pipe, i);
        lemma_all_keep_block(al, src, ps, pipe, i, k + 1, c, t);
        let a = expansions(al, src, ps[k], pipe, i);
        let r = all_expansions(al, src, ps, pipe, i, k + 1);
        assert forall|j: int| 0 <= j < (a + r).len() implies (#[trigger] (a + r)[j]).codeblock == c && (a + r)[j].ty == t by {
            if j < a.len() {
                assert((a + r)[j] == a[j]);
            } else {
                assert((a + r)[j] == r[j - a.len()]);
            }
        }
    }
}

/// The expansions of `p` followed by each alternative of a sub-rule keep the code block
/// and type of `p`.
proof fn lemma_alts_keep_block(
    al: Seq<(Seq<u8>, Span)>,
    src: Seq<u8>,
    p: PBV,
    named: bool,
    vs: Seq<(Vec<Gramem>, Span)>,
    j: int,
)
    ensures
        forall|k: int|
            0 <= k < alt_expansions(al, src, p, named, vs, j).len() ==> (#[trigger] alt_expansions(
                al,
                src,
                p,
                named,
                vs,
                j,
            )[k]).codeblock == p.codeblock && alt_expansions(al, src, p, named, vs, j)[k].ty == p.ty,
    decreases vs, vs.len() - j, 0int,
{
    if 0 <= j < vs.len() {
        let pj = if named { set_final(p, vs[j].0@.len()) } else { p };
        law_expansions_keep_block(al, src, pj, vs[j].0@, 0);
        lemma_alts_keep_block(al, src, p, named, vs, j + 1);
        let a = expansions(al, src, pj, vs[j].0@, 0);
        let r = alt_expansions(al, src, p, named, vs, j + 1);
        assert forall|k: int| 0 <= k < (a + r).len() implies (#[trigger] (a + r)[k]).codeblock == p.codeblock && (a
            + r)[k].ty == p.ty by {
            if k < a.len() {
                assert((a + r)[k] == a[k]);
            } else {
                assert((a + r)[k] == r[k - a.len()]);
            }
        }
    }
}

/// The productions of a rule are, alternative by alternative in order, those each
/// alternative stands for, starting from its code block and the rule's type.
pub proof fn law_rule_productions(al: Seq<(Seq<u8>, Span)>, src: Seq<u8>, ty: Span, pipes: Seq<(Vec<Gramem>, Span)>)
    ensures
        rule_productions(al, src, ty, pipes, 0) == pipes.map_values(
            |p: (Vec<Gramem>, Span)| expansions(al, src, base_of(p.1, ty), p.0@, 0),
        ).flatten(),
{
    lemma_rule_productions(al, src, ty, pipes, 0);
    assert(pipes.subrange(0, pipes.len() as int) =~= pipes);
}

/// [`law_rule_productions`] from alternative `j` on.
proof fn lemma_rule_productions(al: Seq<(Seq<u8>, Span)>, src: Seq<u8>, ty: Span, pipes: Seq<(Vec<Gramem>, Span)>, j: int)
    requires
        0 <= j <= pipes.len(),
    ensures
        rule_productions(al, src, ty, pipes, j) == pipes.subrange(j, pipes.len() as int).map_values(
            |p: (Vec<Gramem>, Span)| expansions(al, src, base_of(p.1, ty), p.0@, 0),
        ).flatten(),
    decreases pipes.len() - j,
{
    let g = |p: (Vec<Gramem>, Span)| expansions(al, src, base_of(p.1, ty), p.0@, 0);
    let s = pipes.subrange(j, pipes.len() as int).map_values(g);
    if j == pipes.len() {
        assert(s =~= Seq::<Seq<PBV>>::empty());
    } else {
        lemma_rule_productions(al, src, ty, pipes, j + 1);
        assert(s.drop_first() =~= pipes.subrange(j + 1, pipes.len() as int).map_values(g));
        assert(s[0] == g(pipes[j]));
        let one = seq![base_of(pipes[j].1, ty)];
        assert(all_expansions(al, src, one, pipes[j].0@, 0, 1) == Seq::<PBV>::empty());
        assert(all_expansions(al, src, one, pipes[j].0@, 0, 0) == expansions(al, src, one[0], pipes[j].0@, 0)
            + all_expansions(al, src, one, pipes[j].0@, 0, 1));
        assert(expansions(al, src, one[0], pipes[j].0@, 0) + Seq::<PBV>::empty() =~= expansions(al, src, one[0], pipes[j].0@, 0));
    }
}

/// Where some alias of `al` is named `t`, a first one is.
proof fn lemma_first_named(al: Seq<(Seq<u8>, Span)>, t: Seq<u8>)
    requires
        exists|k: int| 0 <= k < al.len() && #[trigger] al[k].0 == t,
    ensures
        exists|k: int|
            0 <= k < al.len() && #[trigger] al[k].0 == t && forall|j: int| 0 <= j < k ==> #[trigger] al[j].0 != t,
    decreases al.len(),
{
    let q = al.drop_last();
    if exists|k: int| 0 <= k < q.len() && #[trigger] q[k].0 == t {
        lemma_first_named(q, t);
        let k = choose|k: int|
            0 <= k < q.len() && #[trigger] q[k].0 == t && forall|j: int| 0 <= j < k ==> #[trigger] q[j].0 != t;
        assert(al[k].0 == t);
        assert forall|j: int| 0 <= j < k implies #[trigger] al[j].0 != t by {
            assert(al[j] == q[j]);
        }
    } else {
        let k = al.len() - 1;
        let m = choose|m: int| 0 <= m < al.len() && #[trigger] al[m].0 == t;
        if m < k {
            assert(q[m].0 == t);
        }
        assert forall|j: int| 0 <= j < k implies #[trigger] al[j].0 != t by {
            if al[j].0 == t {
                assert(q[j].0 == t);
            }
        }
        assert(al[k].0 == t);
    }
}

/// The first alias of a name wins: an alias declared after another of the same name
/// changes nothing, and one of a new name is what its name stands for from then on.
pub proof fn law_def_of_push(al: Seq<(Seq<u8>, Span)>, src: Seq<u8>, s: Span, x: (Seq<u8>, Span))
    ensures
        def_of(al.push(x), src, s) == (if exists|k: int| 0 <= k < al.len() && #[trigger] al[k].0 == text_of(src, s) {
            def_of(al, src, s)
        } else if x.0 == text_of(src, s) {
            x.1
        } else {
            s
        }),
{
    let t = src.subrange(s.start as int, s.end as int);
    let e = al.push(x);
    assert(t == text_of(src, s));
    if exists|k: int| 0 <= k < al.len() && #[trigger] al[k].0 == t {
        lemma_first_named(al, t);
        let k = choose|k: int| 0 <= k < al.len() && #[trigger] al[k].0 == t && forall|j: int| 0 <= j < k ==> #[trigger] al[j].0 != t;
        assert(e[k].0 == t);
        assert(exists|k: int| 0 <= k < e.len() && #[trigger] e[k].0 == t);
        let ke = choose|k: int| 0 <= k < e.len() && #[trigger] e[k].0 == t && forall|j: int| 0 <= j < k ==> #[trigger] e[j].0 != t;
        lemma_first_named(e, t);
        assert forall|j: int| 0 <= j < k implies #[trigger] e[j].0 != t by {
            assert(e[j] == al[j]);
        }
        if ke < k {
            assert(e[ke] == al[ke]);
        } else if ke > k {
            assert(e[k].0 != t);
        }
        assert(ke == k);
        assert(e[k] == al[k]);
    } else if x.0 == t {
        assert(e[al.len() as int].0 == t);
        lemma_first_named(e, t);
        let ke = choose|k: int| 0 <= k < e.len() && #[trigger] e[k].0 == t && forall|j: int| 0 <= j < k ==> #[trigger] e[j].0 != t;
        if ke < al.len() {
            assert(e[ke] == al[ke]);
        }
        assert(ke == al.len());
    } else {
        assert forall|k: int| 0 <= k < e.len() implies #[trigger] e[k].0 != t by {
            if k < al.len() {
                assert(e[k] == al[k]);
            }
        }
    }
}

/// Whether no two rules of `b`, and no two of its aliases, share a name.
pub open spec fn names_distinct(b: BuilderV) -> bool {
    &&& forall|i: int, j: int| 0 <= i < j < b.rules.len() ==> (#[trigger] b.rules[i]).0 != (#[trigger] b.rules[j]).0
    &&& forall|i: int, j: int| 0 <= i < j < b.aliases.len() ==> (#[trigger] b.aliases[i]).0 != (#[trigger] b.aliases[j]).0
}

/// A builder never holds two rules, or two aliases, of one name: the declarations it
/// takes in keep the names distinct.
pub proof fn law_process_names_distinct(b: BuilderV, src: Seq<u8>, ds: Seq<Gramem>, k: int)
    requires
        names_distinct(b),
        process_ok(b, src, ds, k),
    ensures
        names_distinct(processed(b, src, ds, k)),
    decreases ds.len() - k,
{
    if 0 <= k < ds.len() {
        let d = ds[k];
        let b1 = after_decl(b, src, d);
        assert(decl_ok(b, src, d));
        match d.item.item {
            Ast::RuleDecl(ident, ty, pipes) => {
                let n = text_of(src, ident);
                assert(b1.rules == b.rules.push((n, rule_productions(b.aliases, src, ty, pipes@, 0))));
                assert forall|i: int, j: int| 0 <= i < j < b1.rules.len() implies (#[trigger] b1.rules[i]).0
                    != (#[trigger] b1.rules[j]).0 by {
                    if j == b.rules.len() {
                        assert(b1.rules[i] == b.rules[i]);
                        if b.rules[i].0 == n {
                            assert(has_rule_named(b, n));
                        }
                    } else {
                        assert(b1.rules[i] == b.rules[i]);
                        assert(b1.rules[j] == b.rules[j]);
                    }
                }
            },
            Ast::Alias(tk, alias) => {
                let n = text_of(src, tk);
                assert(b1.aliases == b.aliases.push((n, alias)));
                assert forall|i: int, j: int| 0 <= i < j < b1.aliases.len() implies (#[trigger] b1.aliases[i]).0
                    != (#[trigger] b1.aliases[j]).0 by {
                    if j == b.aliases.len() {
                        assert(b1.aliases[i] == b.aliases[i]);
                        if b.aliases[i].0 == n {
                            assert(has_alias_named(b, n));
                        }
                    } else {
                        assert(b1.aliases[i] == b.aliases[i]);
                        assert(b1.aliases[j] == b.aliases[j]);
                    }
                }
            },
            _ => {},
        }
        law_process_names_distinct(b1, src, ds, k + 1);
    }
}

} // verus!
