//! Productions of grammar files while they are built: the spans of their items, of
//! their code block and of its type, and the names bound to their items.
use vstd::prelude::*;

use crate::Span;

verus! {

/// A name bound to an item of a production, or with `final_index` to the items from
/// `index` up to it: `optional` is `Some(true)` for an optional item that is there,
/// `Some(false)` for one that is left out, and `None` for an item that must be there.
#[derive(Debug, Copy, Clone)]
pub struct ItemAlias {
    pub alias: Span,
    pub optional: Option<bool>,
    pub index: usize,
    pub final_index: Option<usize>,
}

/// A production being built: the spans of its items, of its code block and of the type
/// that the code block returns, and the names bound to its items.
#[derive(Debug)]
pub struct ProductionBuild {
    pub production: Vec<Span>,
    pub codeblock: Span,
    pub ty: Span,
    pub aliases: Vec<ItemAlias>,
}

/// Alias `a` with its indices moved `n` items on.
pub open spec fn shifted(a: ItemAlias, n: nat) -> ItemAlias {
    ItemAlias {
        index: (a.index + n) as usize,
        final_index: match a.final_index {
            Some(f) => Some((f + n) as usize),
            None => None,
        },
        ..a
    }
}

impl ProductionBuild {
    /// Binds `alias` to items counted from the end of the production so far: its indices
    /// are moved past the items already there.
    pub fn push_alias(&mut self, alias: ItemAlias)
        requires
            alias.index + old(self).production@.len() <= usize::MAX,
            alias.final_index matches Some(f) ==> f + old(self).production@.len() <= usize::MAX,
        ensures
            final(self).production@ == old(self).production@,
            final(self).codeblock == old(self).codeblock,
            final(self).ty == old(self).ty,
            final(self).aliases@ == old(self).aliases@.push(shifted(alias, old(self).production@.len())),
    {
        let mut alias = alias;
        let n = self.production.len();
        alias.index = alias.index + n;
        alias.final_index = match alias.final_index {
            Some(f) => Some(f + n),
            None => None,
        };
        self.aliases.push(alias);
    }
}

/// Whether some alias of `a` binds span `n`.
pub open spec fn has_alias(a: Seq<ItemAlias>, n: Span) -> bool {
    exists|k: int| 0 <= k < a.len() && #[trigger] a[k].alias == n
}

/// The first alias of `a` that binds span `n`.
pub open spec fn first_alias(a: Seq<ItemAlias>, n: Span) -> int {
    choose|k: int| 0 <= k < a.len() && #[trigger] a[k].alias == n && forall|j: int| 0 <= j < k ==> #[trigger] a[j].alias != n
}

/// The aliases `a` with name `n` made optional: its first alias marked as present, or a
/// new alias marked as left out where `a` has none.
pub open spec fn mark_one(a: Seq<ItemAlias>, n: Span) -> Seq<ItemAlias> {
    if has_alias(a, n) {
        let k = first_alias(a, n);
        a.update(k, ItemAlias { optional: Some(true), ..a[k] })
    } else {
        a.push(ItemAlias { alias: n, optional: Some(false), index: 0, final_index: None })
    }
}

/// The aliases `a` with each name of `names` made optional in turn.
pub open spec fn with_sub_aliases(a: Seq<ItemAlias>, names: Seq<Span>) -> Seq<ItemAlias>
    decreases names.len(),
{
    if names.len() == 0 {
        a
    } else {
        mark_one(with_sub_aliases(a, names.drop_last()), names.last())
    }
}

/// The names of `acc` followed by those that aliases `xs` bind, each once, leaving out the
/// names that `base` binds.
pub open spec fn add_names(acc: Seq<Span>, base: Seq<ItemAlias>, xs: Seq<ItemAlias>) -> Seq<Span>
    decreases xs.len(),
{
    if xs.len() == 0 {
        acc
    } else {
        let acc1 = add_names(acc, base, xs.drop_last());
        let n = xs.last().alias;
        if acc1.contains(n) || has_alias(base, n) {
            acc1
        } else {
            acc1.push(n)
        }
    }
}

/// The names that the productions `ps` bind and `base` does not, each once, in order of
/// first appearance.
pub open spec fn sub_names(base: Seq<ItemAlias>, ps: Seq<Seq<ItemAlias>>) -> Seq<Span>
    decreases ps.len(),
{
    if ps.len() == 0 {
        Seq::empty()
    } else {
        add_names(sub_names(base, ps.drop_last()), base, ps.last())
    }
}

/// The alias lists of the productions `ps`.
pub open spec fn alias_lists(ps: Seq<ProductionBuild>) -> Seq<Seq<ItemAlias>> {
    ps.map_values(|p: ProductionBuild| p.aliases@)
}

/// Whether `s` holds span `n`.
fn has_span(s: &Vec<Span>, n: Span) -> (r: bool)
    ensures
        r == s@.contains(n),
{
    let mut i: usize = 0;
    while i < s.len()
        invariant
            i <= s@.len(),
            forall|j: int| 0 <= j < i ==> s@[j] != n,
        decreases s@.len() - i,
    {
        if s[i].start == n.start && s[i].end == n.end {
            assert(s@[i as int] == n);
            return true;
        }
        i = i + 1;
    }
    false
}

/// The index of the first alias of `a` that binds span `n`, if one does.
fn find_alias(a: &Vec<ItemAlias>, n: Span) -> (r: Option<usize>)
    ensures
        match r {
            Some(k) => has_alias(a@, n) && k == first_alias(a@, n) && k < a@.len() && a@[k as int].alias == n,
            None => !has_alias(a@, n),
        },
{
    let mut i: usize = 0;
    while i < a.len()
        invariant
            i <= a@.len(),
            forall|j: int| 0 <= j < i ==> #[trigger] a@[j].alias != n,
        decreases a@.len() - i,
    {
        if a[i].alias.start == n.start && a[i].alias.end == n.end {
            assert(a@[i as int].alias == n);
            proof {
                let f = first_alias(a@, n);
                assert(0 <= f < a@.len() && a@[f].alias == n);
                if f < i {
                    assert(a@[f].alias != n);
                } else if f > i {
                    assert(a@[i as int].alias != n);
                }
            }
            return Some(i);
        }
        i = i + 1;
    }
    None
}

impl ProductionBuild {
    /// Makes each name of `names` optional in this production, in turn: its first alias
    /// is marked as present, or an alias marked as left out is added.
    fn mark_names(&mut self, names: &Vec<Span>)
        ensures
            final(self).production@ == old(self).production@,
            final(self).codeblock == old(self).codeblock,
            final(self).ty == old(self).ty,
            final(self).aliases@ == with_sub_aliases(old(self).aliases@, names@),
    {
        let mut j: usize = 0;
        while j < names.len()
            invariant
                j <= names@.len(),
                self.production@ == old(self).production@,
                self.codeblock == old(self).codeblock,
                self.ty == old(self).ty,
                self.aliases@ == with_sub_aliases(old(self).aliases@, names@.subrange(0, j as int)),
            decreases names@.len() - j,
        {
            let n = names[j];
            assert(names@.subrange(0, j + 1).drop_last() =~= names@.subrange(0, j as int));
            match find_alias(&self.aliases, n) {
                Some(k) => {
                    let a = self.aliases[k];
                    self.aliases.set(k, ItemAlias { optional: Some(true), ..a });
                },
                None => {
                    self.aliases.push(ItemAlias { alias: n, optional: Some(false), index: 0, final_index: None });
                },
            }
            j = j + 1;
        }
        assert(names@.subrange(0, names@.len() as int) =~= names@);
    }
}

/// Adds to `acc` the names that aliases `xs` bind and that neither `acc` nor `base` has.
fn add_alias_names(acc: &mut Vec<Span>, base: &Vec<ItemAlias>, xs: &Vec<ItemAlias>)
    ensures
        final(acc)@ == add_names(old(acc)@, base@, xs@),
{
    let mut i: usize = 0;
    while i < xs.len()
        invariant
            i <= xs@.len(),
            acc@ == add_names(old(acc)@, base@, xs@.subrange(0, i as int)),
        decreases xs@.len() - i,
    {
        let n = xs[i].alias;
        assert(xs@.subrange(0, i + 1).drop_last() =~= xs@.subrange(0, i as int));
        if !has_span(acc, n) {
            if find_alias(base, n).is_none() {
                acc.push(n);
            }
        }
        i = i + 1;
    }
    assert(xs@.subrange(0, xs@.len() as int) =~= xs@);
}

/// Sets the aliases of each production as optional items, except the names that `base`
/// binds: where a production binds such a name, its first alias of it is marked as
/// present, and where it does not, an alias marked as left out is added. The names are
/// taken once each, in order of first appearance.
pub fn set_sub_aliases(base: &ProductionBuild, productions: &mut Vec<ProductionBuild>)
    ensures
        final(productions)@.len() == old(productions)@.len(),
        forall|i: int|
            0 <= i < old(productions)@.len() ==> {
                let p = #[trigger] final(productions)@[i];
                let q = old(productions)@[i];
                &&& p.production@ == q.production@
                &&& p.codeblock == q.codeblock
                &&& p.ty == q.ty
                &&& p.aliases@ == with_sub_aliases(q.aliases@, sub_names(base.aliases@, alias_lists(old(productions)@)))
            },
{
    let ghost ps = productions@;
    let mut names: Vec<Span> = Vec::new();
    let mut i: usize = 0;
    while i < productions.len()
        invariant
            i <= productions@.len(),
            productions@ == ps,
            names@ == sub_names(base.aliases@, alias_lists(ps.subrange(0, i as int))),
        decreases productions@.len() - i,
    {
        assert(ps.subrange(0, i + 1).drop_last() =~= ps.subrange(0, i as int));
        assert(alias_lists(ps.subrange(0, i + 1)).drop_last() =~= alias_lists(ps.subrange(0, i as int)));
        add_alias_names(&mut names, &base.aliases, &productions[i].aliases);
        i = i + 1;
    }
    assert(ps.subrange(0, ps.len() as int) =~= ps);
    let mut out: Vec<ProductionBuild> = Vec::new();
    while productions.len() > 0
        invariant
            out@.len() + productions@.len() == ps.len(),
            productions@ == ps.subrange(out@.len() as int, ps.len() as int),
            names@ == sub_names(base.aliases@, alias_lists(ps)),
            forall|k: int|
                0 <= k < out@.len() ==> {
                    let p = #[trigger] out@[k];
                    let q = ps[k];
                    &&& p.production@ == q.production@
                    &&& p.codeblock == q.codeblock
                    &&& p.ty == q.ty
                    &&& p.aliases@ == with_sub_aliases(q.aliases@, names@)
                },
        decreases productions@.len(),
    {
        let mut p = productions.remove(0);
        p.mark_names(&names);
        out.push(p);
        assert(productions@ =~= ps.subrange(out@.len() as int, ps.len() as int));
    }
    *productions = out;
}

/// Whether no span occurs twice in `s`.
pub open spec fn no_repeats(s: Seq<Span>) -> bool {
    forall|a: int, b: int| 0 <= a < b < s.len() ==> s[a] != s[b]
}

/// Taking in the names of `xs` keeps `acc` in front, adds only names that `xs` binds
/// and `base` does not, all of them, and none twice.
proof fn lemma_add_names(acc: Seq<Span>, base: Seq<ItemAlias>, xs: Seq<ItemAlias>)
    requires
        no_repeats(acc),
    ensures
        no_repeats(add_names(acc, base, xs)),
        add_names(acc, base, xs).len() >= acc.len(),
        add_names(acc, base, xs).subrange(0, acc.len() as int) == acc,
        forall|n: Span|
            #[trigger] add_names(acc, base, xs).contains(n) <==> acc.contains(n) || (has_alias(xs, n) && !has_alias(base, n)),
    decreases xs.len(),
{
    if xs.len() > 0 {
        let q = xs.drop_last();
        lemma_add_names(acc, base, q);
        let a1 = add_names(acc, base, q);
        let n0 = xs.last().alias;
        assert forall|n: Span| has_alias(xs, n) <==> has_alias(q, n) || n == n0 by {
            if has_alias(xs, n) {
                let k = choose|k: int| 0 <= k < xs.len() && #[trigger] xs[k].alias == n;
                if k < q.len() {
                    assert(q[k].alias == n);
                }
            }
            if has_alias(q, n) {
                let k = choose|k: int| 0 <= k < q.len() && #[trigger] q[k].alias == n;
                assert(xs[k].alias == n);
            }
            if n == n0 {
                assert(xs[xs.len() - 1].alias == n);
            }
        }
        if !(a1.contains(n0) || has_alias(base, n0)) {
            let a2 = a1.push(n0);
            assert(a2.subrange(0, acc.len() as int) =~= a1.subrange(0, acc.len() as int));
            assert forall|n: Span| a2.contains(n) <==> a1.contains(n) || n == n0 by {
                if a2.contains(n) {
                    let k = choose|k: int| 0 <= k < a2.len() && a2[k] == n;
                    if k < a1.len() {
                        assert(a1[k] == n);
                    }
                }
                if a1.contains(n) {
                    let k = choose|k: int| 0 <= k < a1.len() && a1[k] == n;
                    assert(a2[k] == n);
                }
                if n == n0 {
                    assert(a2[a1.len() as int] == n);
                }
            }
            assert forall|a: int, b: int| 0 <= a < b < a2.len() implies a2[a] != a2[b] by {
                if b == a1.len() {
                    assert(a2[a] == a1[a]);
                    assert(a1.contains(a1[a]));
                }
            }
        }
    }
}

/// The names that [`set_sub_aliases`] makes optional are exactly those that some
/// production binds and `base` does not, each once.
pub proof fn law_sub_names(base: Seq<ItemAlias>, ps: Seq<Seq<ItemAlias>>)
    ensures
        no_repeats(sub_names(base, ps)),
        forall|n: Span|
            #[trigger] sub_names(base, ps).contains(n) <==> !has_alias(base, n) && exists|i: int|
                0 <= i < ps.len() && has_alias(#[trigger] ps[i], n),
    decreases ps.len(),
{
    if ps.len() > 0 {
        let q = ps.drop_last();
        law_sub_names(base, q);
        lemma_add_names(sub_names(base, q), base, ps.last());
        assert forall|n: Span|
            #[trigger] sub_names(base, ps).contains(n) <==> !has_alias(base, n) && exists|i: int|
                0 <= i < ps.len() && has_alias(#[trigger] ps[i], n) by {
            if exists|i: int| 0 <= i < ps.len() && has_alias(#[trigger] ps[i], n) {
                let i = choose|i: int| 0 <= i < ps.len() && has_alias(#[trigger] ps[i], n);
                if i < q.len() {
                    assert(has_alias(q[i], n));
                }
            }
            if exists|i: int| 0 <= i < q.len() && has_alias(#[trigger] q[i], n) {
                let i = choose|i: int| 0 <= i < q.len() && has_alias(#[trigger] q[i], n);
                assert(has_alias(ps[i], n));
            }
            if has_alias(ps.last(), n) {
                assert(has_alias(ps[ps.len() - 1], n));
            }
        }
    }
}

/// Where some alias of `a` binds `n`, the first one does.
proof fn lemma_first_alias(a: Seq<ItemAlias>, n: Span)
    requires
        has_alias(a, n),
    ensures
        0 <= first_alias(a, n) < a.len(),
        a[first_alias(a, n)].alias == n,
        forall|j: int| 0 <= j < first_alias(a, n) ==> #[trigger] a[j].alias != n,
    decreases a.len(),
{
    let q = a.drop_last();
    if has_alias(q, n) {
        lemma_first_alias(q, n);
        let k = first_alias(q, n);
        assert(a[k].alias == n);
        assert forall|j: int| 0 <= j < k implies #[trigger] a[j].alias != n by {
            assert(a[j] == q[j]);
        }
    } else {
        let k = a.len() - 1;
        let m = choose|m: int| 0 <= m < a.len() && #[trigger] a[m].alias == n;
        if m < k {
            assert(q[m].alias == n);
        }
        assert forall|j: int| 0 <= j < k implies #[trigger] a[j].alias != n by {
            if a[j].alias == n {
                assert(q[j].alias == n);
            }
        }
        assert(a[k].alias == n);
    }
}

/// Making the names `names` optional binds each of them, and touches nothing else: an
/// alias of another name stays as it was; an alias of one of the names keeps its name
/// and items and is at most marked as present; and the aliases added after the others
/// are one for each name that had none, marked as left out.
#[verifier::spinoff_prover]
#[verifier::rlimit(50)]
pub proof fn law_with_sub_aliases(a: Seq<ItemAlias>, names: Seq<Span>)
    requires
        no_repeats(names),
    ensures
        with_sub_aliases(a, names).len() >= a.len(),
        forall|j: int| 0 <= j < names.len() ==> has_alias(with_sub_aliases(a, names), #[trigger] names[j]),
        forall|k: int|
            0 <= k < a.len() ==> {
                let r = #[trigger] with_sub_aliases(a, names)[k];
                &&& r.alias == a[k].alias
                &&& r.index == a[k].index
                &&& r.final_index == a[k].final_index
                &&& (r.optional == a[k].optional || (r.optional == Some(true) && names.contains(a[k].alias)))
            },
        forall|k: int|
            a.len() <= k < with_sub_aliases(a, names).len() ==> {
                let r = #[trigger] with_sub_aliases(a, names)[k];
                &&& r.optional == Some(false)
                &&& names.contains(r.alias)
                &&& !has_alias(a, r.alias)
            },
    decreases names.len(),
{
    if names.len() > 0 {
        let q = names.drop_last();
        let n = names.last();
        assert(no_repeats(q));
        law_with_sub_aliases(a, q);
        let w = with_sub_aliases(a, q);
        let r = with_sub_aliases(a, names);
        assert(r == mark_one(w, n));
        assert forall|j: int| 0 <= j < q.len() implies names.contains(#[trigger] q[j]) by {
            assert(names[j] == q[j]);
        }
        assert(names.contains(n)) by {
            assert(names[names.len() - 1] == n);
        }
        assert(!q.contains(n)) by {
            if q.contains(n) {
                let j = choose|j: int| 0 <= j < q.len() && q[j] == n;
                assert(names[j] == names[names.len() - 1]);
            }
        }
        if has_alias(w, n) {
            let k = first_alias(w, n);
            lemma_first_alias(w, n);
            if k >= a.len() {
                assert(q.contains(w[k].alias));
            }
            assert(r.len() == w.len());
            assert forall|j: int| 0 <= j < names.len() implies has_alias(r, #[trigger] names[j]) by {
                if j < q.len() {
                    assert(names[j] == q[j]);
                    let m = choose|m: int| 0 <= m < w.len() && #[trigger] w[m].alias == q[j];
                    assert(r[m].alias == q[j]);
                } else {
                    assert(r[k].alias == n);
                }
            }
        } else {
            assert forall|j: int| 0 <= j < names.len() implies has_alias(r, #[trigger] names[j]) by {
                if j < q.len() {
                    assert(names[j] == q[j]);
                    let m = choose|m: int| 0 <= m < w.len() && #[trigger] w[m].alias == q[j];
                    assert(r[m].alias == q[j]);
                } else {
                    assert(r[w.len() as int].alias == n);
                }
            }
            assert(!has_alias(a, n)) by {
                if has_alias(a, n) {
                    let m = choose|m: int| 0 <= m < a.len() && #[trigger] a[m].alias == n;
                    assert(w[m].alias == n);
                }
            }
            assert forall|k: int| a.len() <= k < r.len() implies {
                let x = #[trigger] r[k];
                &&& x.optional == Some(false)
                &&& names.contains(x.alias)
                &&& !has_alias(a, x.alias)
            } by {
                if k < w.len() {
                    assert(r[k] == w[k]);
                }
            }
        }
    }
}

} // verus!
