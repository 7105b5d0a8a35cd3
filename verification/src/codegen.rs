//! The Rust code a grammar file stands for: the expression that builds its grammar, the
//! one that builds its reductors, and the bindings of the names of each production.
use vstd::prelude::*;

use crate::expand::{Builder, BuilderV, PBV, bview, pbv, pbvs, text_exec, text_of, within};
use crate::prodbuild::{ItemAlias, ProductionBuild};
use crate::Span;

verus! {

/// The bytes of `{\n`.
pub open spec fn l_open() -> Seq<u8> {
    seq![123u8, 10u8]
}

/// The bytes of `{\n`, as a vector.
fn l_open_v() -> (r: Vec<u8>)
    ensures
        r@ == l_open(),
{
    vec![123u8, 10u8]
}

/// The bytes of `\tuse `.
pub open spec fn l_use() -> Seq<u8> {
    seq![9u8, 117u8, 115u8, 101u8, 32u8]
}

/// The bytes of `\tuse `, as a vector.
fn l_use_v() -> (r: Vec<u8>)
    ensures
        r@ == l_use(),
{
    vec![9u8, 117u8, 115u8, 101u8, 32u8]
}

/// The bytes of `;\n`.
pub open spec fn l_semi_nl() -> Seq<u8> {
    seq![59u8, 10u8]
}

/// The bytes of `;\n`, as a vector.
fn l_semi_nl_v() -> (r: Vec<u8>)
    ensures
        r@ == l_semi_nl(),
{
    vec![59u8, 10u8]
}

/// The bytes of `\tlet mut map = lrp::RuleMap::new();\n`.
pub open spec fn l_rulemap() -> Seq<u8> {
    seq![9u8, 108u8, 101u8, 116u8, 32u8, 109u8, 117u8, 116u8, 32u8, 109u8, 97u8, 112u8, 32u8, 61u8, 32u8, 108u8, 114u8, 112u8, 58u8, 58u8, 82u8, 117u8, 108u8, 101u8, 77u8, 97u8, 112u8, 58u8, 58u8, 110u8, 101u8, 119u8, 40u8, 41u8, 59u8, 10u8]
}

/// The bytes of `\tlet mut map = lrp::RuleMap::new();\n`, as a vector.
fn l_rulemap_v() -> (r: Vec<u8>)
    ensures
        r@ == l_rulemap(),
{
    vec![9u8, 108u8, 101u8, 116u8, 32u8, 109u8, 117u8, 116u8, 32u8, 109u8, 97u8, 112u8, 32u8, 61u8, 32u8, 108u8, 114u8, 112u8, 58u8, 58u8, 82u8, 117u8, 108u8, 101u8, 77u8, 97u8, 112u8, 58u8, 58u8, 110u8, 101u8, 119u8, 40u8, 41u8, 59u8, 10u8]
}

/// The bytes of `\n\tmap\n}`.
pub open spec fn l_end_g() -> Seq<u8> {
    seq![10u8, 9u8, 109u8, 97u8, 112u8, 10u8, 125u8]
}

/// The bytes of `\n\tmap\n}`, as a vector.
fn l_end_g_v() -> (r: Vec<u8>)
    ensures
        r@ == l_end_g(),
{
    vec![10u8, 9u8, 109u8, 97u8, 112u8, 10u8, 125u8]
}

/// The bytes of `\tmap.insert(`.
pub open spec fn l_insert() -> Seq<u8> {
    seq![9u8, 109u8, 97u8, 112u8, 46u8, 105u8, 110u8, 115u8, 101u8, 114u8, 116u8, 40u8]
}

/// The bytes of `\tmap.insert(`, as a vector.
fn l_insert_v() -> (r: Vec<u8>)
    ensures
        r@ == l_insert(),
{
    vec![9u8, 109u8, 97u8, 112u8, 46u8, 105u8, 110u8, 115u8, 101u8, 114u8, 116u8, 40u8]
}

/// The bytes of `, lrp::grammar::Rule::new(`.
pub open spec fn l_rule_new() -> Seq<u8> {
    seq![44u8, 32u8, 108u8, 114u8, 112u8, 58u8, 58u8, 103u8, 114u8, 97u8, 109u8, 109u8, 97u8, 114u8, 58u8, 58u8, 82u8, 117u8, 108u8, 101u8, 58u8, 58u8, 110u8, 101u8, 119u8, 40u8]
}

/// The bytes of `, lrp::grammar::Rule::new(`, as a vector.
fn l_rule_new_v() -> (r: Vec<u8>)
    ensures
        r@ == l_rule_new(),
{
    vec![44u8, 32u8, 108u8, 114u8, 112u8, 58u8, 58u8, 103u8, 114u8, 97u8, 109u8, 109u8, 97u8, 114u8, 58u8, 58u8, 82u8, 117u8, 108u8, 101u8, 58u8, 58u8, 110u8, 101u8, 119u8, 40u8]
}

/// The bytes of `, vec![\n`.
pub open spec fn l_vec_open_nl() -> Seq<u8> {
    seq![44u8, 32u8, 118u8, 101u8, 99u8, 33u8, 91u8, 10u8]
}

/// The bytes of `, vec![\n`, as a vector.
fn l_vec_open_nl_v() -> (r: Vec<u8>)
    ensures
        r@ == l_vec_open_nl(),
{
    vec![44u8, 32u8, 118u8, 101u8, 99u8, 33u8, 91u8, 10u8]
}

/// The bytes of `\t\tvec![`.
pub open spec fn l_prod_open() -> Seq<u8> {
    seq![9u8, 9u8, 118u8, 101u8, 99u8, 33u8, 91u8]
}

/// The bytes of `\t\tvec![`, as a vector.
fn l_prod_open_v() -> (r: Vec<u8>)
    ensures
        r@ == l_prod_open(),
{
    vec![9u8, 9u8, 118u8, 101u8, 99u8, 33u8, 91u8]
}

/// The bytes of `, `.
pub open spec fn l_comma_sp() -> Seq<u8> {
    seq![44u8, 32u8]
}

/// The bytes of `, `, as a vector.
fn l_comma_sp_v() -> (r: Vec<u8>)
    ensures
        r@ == l_comma_sp(),
{
    vec![44u8, 32u8]
}

/// The bytes of `],\n`.
pub open spec fn l_prod_close() -> Seq<u8> {
    seq![93u8, 44u8, 10u8]
}

/// The bytes of `],\n`, as a vector.
fn l_prod_close_v() -> (r: Vec<u8>)
    ensures
        r@ == l_prod_close(),
{
    vec![93u8, 44u8, 10u8]
}

/// The bytes of `\n\t]));\n`.
pub open spec fn l_rule_close() -> Seq<u8> {
    seq![10u8, 9u8, 93u8, 41u8, 41u8, 59u8, 10u8]
}

/// The bytes of `\n\t]));\n`, as a vector.
fn l_rule_close_v() -> (r: Vec<u8>)
    ensures
        r@ == l_rule_close(),
{
    vec![10u8, 9u8, 93u8, 41u8, 41u8, 59u8, 10u8]
}

/// The bytes of `\tlet mut map = lrp::ReductMap::new();\n\n`.
pub open spec fn l_reductmap() -> Seq<u8> {
    seq![9u8, 108u8, 101u8, 116u8, 32u8, 109u8, 117u8, 116u8, 32u8, 109u8, 97u8, 112u8, 32u8, 61u8, 32u8, 108u8, 114u8, 112u8, 58u8, 58u8, 82u8, 101u8, 100u8, 117u8, 99u8, 116u8, 77u8, 97u8, 112u8, 58u8, 58u8, 110u8, 101u8, 119u8, 40u8, 41u8, 59u8, 10u8, 10u8]
}

/// The bytes of `\tlet mut map = lrp::ReductMap::new();\n\n`, as a vector.
fn l_reductmap_v() -> (r: Vec<u8>)
    ensures
        r@ == l_reductmap(),
{
    vec![9u8, 108u8, 101u8, 116u8, 32u8, 109u8, 117u8, 116u8, 32u8, 109u8, 97u8, 112u8, 32u8, 61u8, 32u8, 108u8, 114u8, 112u8, 58u8, 58u8, 82u8, 101u8, 100u8, 117u8, 99u8, 116u8, 77u8, 97u8, 112u8, 58u8, 58u8, 110u8, 101u8, 119u8, 40u8, 41u8, 59u8, 10u8, 10u8]
}

/// The bytes of `\tmap\n}`.
pub open spec fn l_end_r() -> Seq<u8> {
    seq![9u8, 109u8, 97u8, 112u8, 10u8, 125u8]
}

/// The bytes of `\tmap\n}`, as a vector.
fn l_end_r_v() -> (r: Vec<u8>)
    ensures
        r@ == l_end_r(),
{
    vec![9u8, 109u8, 97u8, 112u8, 10u8, 125u8]
}

/// The bytes of `\tfn lrp_wop_`.
pub open spec fn l_fn() -> Seq<u8> {
    seq![9u8, 102u8, 110u8, 32u8, 108u8, 114u8, 112u8, 95u8, 119u8, 111u8, 112u8, 95u8]
}

/// The bytes of `\tfn lrp_wop_`, as a vector.
fn l_fn_v() -> (r: Vec<u8>)
    ensures
        r@ == l_fn(),
{
    vec![9u8, 102u8, 110u8, 32u8, 108u8, 114u8, 112u8, 95u8, 119u8, 111u8, 112u8, 95u8]
}

/// The bytes of `_`.
pub open spec fn l_us() -> Seq<u8> {
    seq![95u8]
}

/// The bytes of `_`, as a vector.
fn l_us_v() -> (r: Vec<u8>)
    ensures
        r@ == l_us(),
{
    vec![95u8]
}

/// The bytes of `(toks: &[Gramem]) -> lrp::Meta<`.
pub open spec fn l_fn_sig() -> Seq<u8> {
    seq![40u8, 116u8, 111u8, 107u8, 115u8, 58u8, 32u8, 38u8, 91u8, 71u8, 114u8, 97u8, 109u8, 101u8, 109u8, 93u8, 41u8, 32u8, 45u8, 62u8, 32u8, 108u8, 114u8, 112u8, 58u8, 58u8, 77u8, 101u8, 116u8, 97u8, 60u8]
}

/// The bytes of `(toks: &[Gramem]) -> lrp::Meta<`, as a vector.
fn l_fn_sig_v() -> (r: Vec<u8>)
    ensures
        r@ == l_fn_sig(),
{
    vec![40u8, 116u8, 111u8, 107u8, 115u8, 58u8, 32u8, 38u8, 91u8, 71u8, 114u8, 97u8, 109u8, 101u8, 109u8, 93u8, 41u8, 32u8, 45u8, 62u8, 32u8, 108u8, 114u8, 112u8, 58u8, 58u8, 77u8, 101u8, 116u8, 97u8, 60u8]
}

/// The bytes of `> {\n\t\tlrp::Meta::new({ `.
pub open spec fn l_fn_body() -> Seq<u8> {
    seq![62u8, 32u8, 123u8, 10u8, 9u8, 9u8, 108u8, 114u8, 112u8, 58u8, 58u8, 77u8, 101u8, 116u8, 97u8, 58u8, 58u8, 110u8, 101u8, 119u8, 40u8, 123u8, 32u8]
}

/// The bytes of `> {\n\t\tlrp::Meta::new({ `, as a vector.
fn l_fn_body_v() -> (r: Vec<u8>)
    ensures
        r@ == l_fn_body(),
{
    vec![62u8, 32u8, 123u8, 10u8, 9u8, 9u8, 108u8, 114u8, 112u8, 58u8, 58u8, 77u8, 101u8, 116u8, 97u8, 58u8, 58u8, 110u8, 101u8, 119u8, 40u8, 123u8, 32u8]
}

/// The bytes of ` `.
pub open spec fn l_sp() -> Seq<u8> {
    seq![32u8]
}

/// The bytes of ` `, as a vector.
fn l_sp_v() -> (r: Vec<u8>)
    ensures
        r@ == l_sp(),
{
    vec![32u8]
}

/// The bytes of `}, lrp::Span::new(toks[0].item.span.start, toks.last().unwrap().item.span.end))\n\t}\n`.
pub open spec fn l_fn_end() -> Seq<u8> {
    seq![125u8, 44u8, 32u8, 108u8, 114u8, 112u8, 58u8, 58u8, 83u8, 112u8, 97u8, 110u8, 58u8, 58u8, 110u8, 101u8, 119u8, 40u8, 116u8, 111u8, 107u8, 115u8, 91u8, 48u8, 93u8, 46u8, 105u8, 116u8, 101u8, 109u8, 46u8, 115u8, 112u8, 97u8, 110u8, 46u8, 115u8, 116u8, 97u8, 114u8, 116u8, 44u8, 32u8, 116u8, 111u8, 107u8, 115u8, 46u8, 108u8, 97u8, 115u8, 116u8, 40u8, 41u8, 46u8, 117u8, 110u8, 119u8, 114u8, 97u8, 112u8, 40u8, 41u8, 46u8, 105u8, 116u8, 101u8, 109u8, 46u8, 115u8, 112u8, 97u8, 110u8, 46u8, 101u8, 110u8, 100u8, 41u8, 41u8, 10u8, 9u8, 125u8, 10u8]
}

/// The bytes of `}, lrp::Span::new(toks[0].item.span.start, toks.last().unwrap().item.span.end))\n\t}\n`, as a vector.
fn l_fn_end_v() -> (r: Vec<u8>)
    ensures
        r@ == l_fn_end(),
{
    vec![125u8, 44u8, 32u8, 108u8, 114u8, 112u8, 58u8, 58u8, 83u8, 112u8, 97u8, 110u8, 58u8, 58u8, 110u8, 101u8, 119u8, 40u8, 116u8, 111u8, 107u8, 115u8, 91u8, 48u8, 93u8, 46u8, 105u8, 116u8, 101u8, 109u8, 46u8, 115u8, 112u8, 97u8, 110u8, 46u8, 115u8, 116u8, 97u8, 114u8, 116u8, 44u8, 32u8, 116u8, 111u8, 107u8, 115u8, 46u8, 108u8, 97u8, 115u8, 116u8, 40u8, 41u8, 46u8, 117u8, 110u8, 119u8, 114u8, 97u8, 112u8, 40u8, 41u8, 46u8, 105u8, 116u8, 101u8, 109u8, 46u8, 115u8, 112u8, 97u8, 110u8, 46u8, 101u8, 110u8, 100u8, 41u8, 41u8, 10u8, 9u8, 125u8, 10u8]
}

/// The bytes of `, vec![`.
pub open spec fn l_insert_vec() -> Seq<u8> {
    seq![44u8, 32u8, 118u8, 101u8, 99u8, 33u8, 91u8]
}

/// The bytes of `, vec![`, as a vector.
fn l_insert_vec_v() -> (r: Vec<u8>)
    ensures
        r@ == l_insert_vec(),
{
    vec![44u8, 32u8, 118u8, 101u8, 99u8, 33u8, 91u8]
}

/// The bytes of `lrp_wop_`.
pub open spec fn l_lrp_wop() -> Seq<u8> {
    seq![108u8, 114u8, 112u8, 95u8, 119u8, 111u8, 112u8, 95u8]
}

/// The bytes of `lrp_wop_`, as a vector.
fn l_lrp_wop_v() -> (r: Vec<u8>)
    ensures
        r@ == l_lrp_wop(),
{
    vec![108u8, 114u8, 112u8, 95u8, 119u8, 111u8, 112u8, 95u8]
}

/// The bytes of `\t]);\n\n`.
pub open spec fn l_tail() -> Seq<u8> {
    seq![9u8, 93u8, 41u8, 59u8, 10u8, 10u8]
}

/// The bytes of `\t]);\n\n`, as a vector.
fn l_tail_v() -> (r: Vec<u8>)
    ensures
        r@ == l_tail(),
{
    vec![9u8, 93u8, 41u8, 59u8, 10u8, 10u8]
}

/// The bytes of `let `.
pub open spec fn l_let() -> Seq<u8> {
    seq![108u8, 101u8, 116u8, 32u8]
}

/// The bytes of `let `, as a vector.
fn l_let_v() -> (r: Vec<u8>)
    ensures
        r@ == l_let(),
{
    vec![108u8, 101u8, 116u8, 32u8]
}

/// The bytes of ` = Some(&toks[`.
pub open spec fn l_eq_some() -> Seq<u8> {
    seq![32u8, 61u8, 32u8, 83u8, 111u8, 109u8, 101u8, 40u8, 38u8, 116u8, 111u8, 107u8, 115u8, 91u8]
}

/// The bytes of ` = Some(&toks[`, as a vector.
fn l_eq_some_v() -> (r: Vec<u8>)
    ensures
        r@ == l_eq_some(),
{
    vec![32u8, 61u8, 32u8, 83u8, 111u8, 109u8, 101u8, 40u8, 38u8, 116u8, 111u8, 107u8, 115u8, 91u8]
}

/// The bytes of `]);\n`.
pub open spec fn l_close_some() -> Seq<u8> {
    seq![93u8, 41u8, 59u8, 10u8]
}

/// The bytes of `]);\n`, as a vector.
fn l_close_some_v() -> (r: Vec<u8>)
    ensures
        r@ == l_close_some(),
{
    vec![93u8, 41u8, 59u8, 10u8]
}

/// The bytes of `let mut `.
pub open spec fn l_let_mut() -> Seq<u8> {
    seq![108u8, 101u8, 116u8, 32u8, 109u8, 117u8, 116u8, 32u8]
}

/// The bytes of `let mut `, as a vector.
fn l_let_mut_v() -> (r: Vec<u8>)
    ensures
        r@ == l_let_mut(),
{
    vec![108u8, 101u8, 116u8, 32u8, 109u8, 117u8, 116u8, 32u8]
}

/// The bytes of ` = Some(&toks[0]); `.
pub open spec fn l_some0_none() -> Seq<u8> {
    seq![32u8, 61u8, 32u8, 83u8, 111u8, 109u8, 101u8, 40u8, 38u8, 116u8, 111u8, 107u8, 115u8, 91u8, 48u8, 93u8, 41u8, 59u8, 32u8]
}

/// The bytes of ` = Some(&toks[0]); `, as a vector.
fn l_some0_none_v() -> (r: Vec<u8>)
    ensures
        r@ == l_some0_none(),
{
    vec![32u8, 61u8, 32u8, 83u8, 111u8, 109u8, 101u8, 40u8, 38u8, 116u8, 111u8, 107u8, 115u8, 91u8, 48u8, 93u8, 41u8, 59u8, 32u8]
}

/// The bytes of ` = None; let `.
pub open spec fn l_eq_none_let() -> Seq<u8> {
    seq![32u8, 61u8, 32u8, 78u8, 111u8, 110u8, 101u8, 59u8, 32u8, 108u8, 101u8, 116u8, 32u8]
}

/// The bytes of ` = None; let `, as a vector.
fn l_eq_none_let_v() -> (r: Vec<u8>)
    ensures
        r@ == l_eq_none_let(),
{
    vec![32u8, 61u8, 32u8, 78u8, 111u8, 110u8, 101u8, 59u8, 32u8, 108u8, 101u8, 116u8, 32u8]
}

/// The bytes of ` = `.
pub open spec fn l_eq() -> Seq<u8> {
    seq![32u8, 61u8, 32u8]
}

/// The bytes of ` = `, as a vector.
fn l_eq_v() -> (r: Vec<u8>)
    ensures
        r@ == l_eq(),
{
    vec![32u8, 61u8, 32u8]
}

/// The bytes of ` = &toks[`.
pub open spec fn l_eq_ref() -> Seq<u8> {
    seq![32u8, 61u8, 32u8, 38u8, 116u8, 111u8, 107u8, 115u8, 91u8]
}

/// The bytes of ` = &toks[`, as a vector.
fn l_eq_ref_v() -> (r: Vec<u8>)
    ensures
        r@ == l_eq_ref(),
{
    vec![32u8, 61u8, 32u8, 38u8, 116u8, 111u8, 107u8, 115u8, 91u8]
}

/// The bytes of `];\n`.
pub open spec fn l_close_ref() -> Seq<u8> {
    seq![93u8, 59u8, 10u8]
}

/// The bytes of `];\n`, as a vector.
fn l_close_ref_v() -> (r: Vec<u8>)
    ensures
        r@ == l_close_ref(),
{
    vec![93u8, 59u8, 10u8]
}

/// The bytes of `..`.
pub open spec fn l_dotdot() -> Seq<u8> {
    seq![46u8, 46u8]
}

/// The bytes of `..`, as a vector.
fn l_dotdot_v() -> (r: Vec<u8>)
    ensures
        r@ == l_dotdot(),
{
    vec![46u8, 46u8]
}

/// The decimal digits of `n`.
pub open spec fn dec(n: nat) -> Seq<u8>
    decreases n,
{
    if n < 10 {
        seq![(48 + n) as u8]
    } else {
        dec(n / 10).push((48 + n % 10) as u8)
    }
}

/// The decimal digits of `n`, as a vector.
pub fn dec_v(n: usize) -> (r: Vec<u8>)
    ensures
        r@ == dec(n as nat),
    decreases n,
{
    if n < 10 {
        let mut r: Vec<u8> = Vec::new();
        r.push((48 + n) as u8);
        assert(r@ =~= seq![(48 + n) as u8]);
        r
    } else {
        let mut r = dec_v(n / 10);
        r.push((48 + n % 10) as u8);
        r
    }
}

/// Appends `piece` to `out`.
fn put(out: &mut Vec<u8>, piece: Vec<u8>)
    ensures
        final(out)@ == old(out)@ + piece@,
{
    let mut piece = piece;
    out.append(&mut piece);
}

/// The item that alias `a` binds: its index, or the range of indices it covers.
pub open spec fn index_code(a: ItemAlias) -> Seq<u8> {
    match a.final_index {
        Some(f) => dec(a.index as nat) + l_dotdot() + dec(f as nat),
        None => dec(a.index as nat),
    }
}

/// The line that binds alias `a` of a production to its item: to the item where it is
/// there, to `None` where an optional item is left out.
pub open spec fn alias_code(a: ItemAlias, src: Seq<u8>) -> Seq<u8> {
    let n = text_of(src, a.alias);
    match a.optional {
        Some(true) => l_let() + n + l_eq_some() + index_code(a) + l_close_some(),
        Some(false) => l_let_mut() + n + l_some0_none() + n + l_eq_none_let() + n + l_eq() + n + l_semi_nl(),
        None => l_let() + n + l_eq_ref() + index_code(a) + l_close_ref(),
    }
}

impl ItemAlias {
    /// Appends to `out` the line that binds this alias, as [`alias_code`] says.
    pub fn write(&self, out: &mut Vec<u8>, src: &Vec<u8>)
        requires
            within(self.alias, src@.len()),
        ensures
            final(out)@ == old(out)@ + alias_code(*self, src@),
    {
        let ghost o = old(out)@;
        let n = text_exec(src, self.alias);
        let ghost nv = n@;
        let mut idx = dec_v(self.index);
        match self.final_index {
            Some(f) => {
                put(&mut idx, l_dotdot_v());
                put(&mut idx, dec_v(f));
            },
            None => {},
        }
        let ghost iv = idx@;
        assert(iv =~= index_code(*self));
        match self.optional {
            Some(true) => {
                put(out, l_let_v());
                put(out, n);
                put(out, l_eq_some_v());
                put(out, idx);
                put(out, l_close_some_v());
            },
            Some(false) => {
                put(out, l_let_mut_v());
                put(out, text_exec(src, self.alias));
                put(out, l_some0_none_v());
                put(out, text_exec(src, self.alias));
                put(out, l_eq_none_let_v());
                put(out, text_exec(src, self.alias));
                put(out, l_eq_v());
                put(out, n);
                put(out, l_semi_nl_v());
            },
            None => {
                put(out, l_let_v());
                put(out, n);
                put(out, l_eq_ref_v());
                put(out, idx);
                put(out, l_close_ref_v());
            },
        }
        assert(out@ =~= o + alias_code(*self, src@));
    }

    /// The line that binds this alias, as [`alias_code`] says.
    pub fn dump(&self, src: &Vec<u8>) -> (r: Vec<u8>)
        requires
            within(self.alias, src@.len()),
        ensures
            r@ == alias_code(*self, src@),
    {
        let mut r: Vec<u8> = Vec::new();
        self.write(&mut r, src);
        assert(r@ =~= alias_code(*self, src@));
        r
    }
}

/// The `use` lines of the imports `imps`.
pub open spec fn imports_code(imps: Seq<Span>, src: Seq<u8>) -> Seq<u8>
    decreases imps.len(),
{
    if imps.len() == 0 {
        Seq::empty()
    } else {
        imports_code(imps.drop_last(), src) + l_use() + text_of(src, imps.last()) + l_semi_nl()
    }
}

/// The items `sp` of a production, each followed by a comma.
pub open spec fn items_code(sp: Seq<Span>, src: Seq<u8>) -> Seq<u8>
    decreases sp.len(),
{
    if sp.len() == 0 {
        Seq::empty()
    } else {
        items_code(sp.drop_last(), src) + text_of(src, sp.last()) + l_comma_sp()
    }
}

/// The productions `ps`, one `vec!` line each.
pub open spec fn prods_code(ps: Seq<PBV>, src: Seq<u8>) -> Seq<u8>
    decreases ps.len(),
{
    if ps.len() == 0 {
        Seq::empty()
    } else {
        prods_code(ps.drop_last(), src) + l_prod_open() + items_code(ps.last().production, src) + l_prod_close()
    }
}

/// The statement that inserts rule `name` with productions `ps` into the grammar.
pub open spec fn rule_code(name: Seq<u8>, ps: Seq<PBV>, src: Seq<u8>) -> Seq<u8> {
    l_insert() + name + l_rule_new() + name + l_vec_open_nl() + prods_code(ps, src) + l_rule_close()
}

/// The statements of the rules `rs`.
pub open spec fn rules_code(rs: Seq<(Seq<u8>, Seq<PBV>)>, src: Seq<u8>) -> Seq<u8>
    decreases rs.len(),
{
    if rs.len() == 0 {
        Seq::empty()
    } else {
        rules_code(rs.drop_last(), src) + rule_code(rs.last().0, rs.last().1, src)
    }
}

/// The expression that builds the rule map of the grammar `b` holds.
pub open spec fn grammar_code(b: BuilderV, src: Seq<u8>) -> Seq<u8> {
    l_open() + imports_code(b.imports, src) + l_rulemap() + rules_code(b.rules, src) + l_end_g()
}

/// Every span of production `p` lies within the `n` bytes of the source.
pub open spec fn pb_within(p: PBV, n: nat) -> bool {
    &&& within(p.codeblock, n)
    &&& within(p.ty, n)
    &&& forall|k: int| 0 <= k < p.production.len() ==> within(#[trigger] p.production[k], n)
    &&& forall|k: int| 0 <= k < p.aliases.len() ==> within(#[trigger] p.aliases[k].alias, n)
}

/// Every span that `b` holds lies within the `n` bytes of the source.
pub open spec fn builder_within(b: BuilderV, n: nat) -> bool {
    &&& forall|k: int| 0 <= k < b.imports.len() ==> within(#[trigger] b.imports[k], n)
    &&& forall|r: int, j: int|
        0 <= r < b.rules.len() && 0 <= j < b.rules[r].1.len() ==> pb_within(#[trigger] b.rules[r].1[j], n)
}

/// Appends the `use` lines of `imps` from the start.
fn write_imports(out: &mut Vec<u8>, imps: &Vec<Span>, src: &Vec<u8>)
    requires
        forall|k: int| 0 <= k < imps@.len() ==> within(#[trigger] imps@[k], src@.len()),
    ensures
        final(out)@ == old(out)@ + imports_code(imps@, src@),
{
    let ghost o = old(out)@;
    let mut i: usize = 0;
    while i < imps.len()
        invariant
            i <= imps@.len(),
            forall|k: int| 0 <= k < imps@.len() ==> within(#[trigger] imps@[k], src@.len()),
            out@ == o + imports_code(imps@.subrange(0, i as int), src@),
        decreases imps@.len() - i,
    {
        let ghost before = out@;
        put(out, l_use_v());
        put(out, text_exec(src, imps[i]));
        put(out, l_semi_nl_v());
        let ghost sub = imps@.subrange(0, i + 1);
        assert(sub.drop_last() =~= imps@.subrange(0, i as int));
        assert(out@ =~= o + imports_code(sub, src@));
        i = i + 1;
    }
    assert(imps@.subrange(0, imps@.len() as int) =~= imps@);
}

impl Builder {
    /// Appends the statement that inserts rule `name` with productions `prods`, as
    /// [`rule_code`] says.
    pub fn write_rule(out: &mut Vec<u8>, name: &Vec<u8>, prods: &Vec<ProductionBuild>, src: &Vec<u8>)
        requires
            forall|j: int| 0 <= j < prods@.len() ==> pb_within(#[trigger] pbv(prods@[j]), src@.len()),
        ensures
            final(out)@ == old(out)@ + rule_code(name@, pbvs(prods@), src@),
    {
        let ghost o = old(out)@;
        put(out, l_insert_v());
        put(out, text_copy(name));
        put(out, l_rule_new_v());
        put(out, text_copy(name));
        put(out, l_vec_open_nl_v());
        let ghost head = out@;
        let mut j: usize = 0;
        while j < prods.len()
            invariant
                j <= prods@.len(),
                forall|j2: int| 0 <= j2 < prods@.len() ==> pb_within(#[trigger] pbv(prods@[j2]), src@.len()),
                out@ == head + prods_code(pbvs(prods@.subrange(0, j as int)), src@),
            decreases prods@.len() - j,
        {
            let ghost before = out@;
            put(out, l_prod_open_v());
            let p = &prods[j];
            assert(pb_within(pbv(prods@[j as int]), src@.len()));
            let ghost mid = out@;
            let mut k: usize = 0;
            while k < p.production.len()
                invariant
                    k <= p.production@.len(),
                    pb_within(pbv(*p), src@.len()),
                    out@ == mid + items_code(p.production@.subrange(0, k as int), src@),
                decreases p.production@.len() - k,
            {
                assert(within(pbv(*p).production[k as int], src@.len()));
                put(out, text_exec(src, p.production[k]));
                put(out, l_comma_sp_v());
                let ghost sub = p.production@.subrange(0, k + 1);
                assert(sub.drop_last() =~= p.production@.subrange(0, k as int));
                assert(out@ =~= mid + items_code(sub, src@));
                k = k + 1;
            }
            assert(p.production@.subrange(0, p.production@.len() as int) =~= p.production@);
            put(out, l_prod_close_v());
            let ghost sub = pbvs(prods@.subrange(0, j + 1));
            assert(sub.drop_last() =~= pbvs(prods@.subrange(0, j as int)));
            assert(sub.last() == pbv(prods@[j as int]));
            assert(out@ =~= head + prods_code(sub, src@));
            j = j + 1;
        }
        assert(prods@.subrange(0, prods@.len() as int) =~= prods@);
        put(out, l_rule_close_v());
        assert(out@ =~= o + rule_code(name@, pbvs(prods@), src@));
    }

    /// The expression that builds the rule map of the grammar this builder holds, as
    /// [`grammar_code`] says: its imports, then one statement per rule.
    pub fn dump_grammar(&self, src: &Vec<u8>) -> (r: Vec<u8>)
        requires
            builder_within(bview(*self), src@.len()),
        ensures
            r@ == grammar_code(bview(*self), src@),
    {
        let ghost bv = bview(*self);
        let mut out: Vec<u8> = Vec::new();
        put(&mut out, l_open_v());
        assert forall|k: int| 0 <= k < self.imports@.len() implies within(#[trigger] self.imports@[k], src@.len()) by {
            assert(within(bv.imports[k], src@.len()));
        }
        write_imports(&mut out, &self.imports, src);
        put(&mut out, l_rulemap_v());
        let ghost head = out@;
        let mut i: usize = 0;
        while i < self.rules.len()
            invariant
                i <= self.rules@.len(),
                bv == bview(*self),
                builder_within(bv, src@.len()),
                out@ == head + rules_code(bv.rules.subrange(0, i as int), src@),
            decreases self.rules@.len() - i,
        {
            assert forall|j: int| 0 <= j < self.rules@[i as int].1@.len() implies pb_within(
                #[trigger] pbv(self.rules@[i as int].1@[j]),
                src@.len(),
            ) by {
                assert(bv.rules[i as int].1[j] == pbv(self.rules@[i as int].1@[j]));
            }
            Self::write_rule(&mut out, &self.rules[i].0, &self.rules[i].1, src);
            let ghost sub = bv.rules.subrange(0, i + 1);
            assert(sub.drop_last() =~= bv.rules.subrange(0, i as int));
            assert(sub.last() == (self.rules@[i as int].0@, pbvs(self.rules@[i as int].1@)));
            assert(out@ =~= head + rules_code(sub, src@));
            i = i + 1;
        }
        assert(bv.rules.subrange(0, bv.rules.len() as int) =~= bv.rules);
        put(&mut out, l_end_g_v());
        assert(out@ =~= grammar_code(bv, src@));
        out
    }
}

/// A copy of the bytes `t`.
fn text_copy(t: &Vec<u8>) -> (r: Vec<u8>)
    ensures
        r@ == t@,
{
    let mut r: Vec<u8> = Vec::new();
    let mut i: usize = 0;
    while i < t.len()
        invariant
            i <= t@.len(),
            r@ == t@.subrange(0, i as int),
        decreases t@.len() - i,
    {
        r.push(t[i]);
        assert(r@ =~= t@.subrange(0, i + 1));
        i = i + 1;
    }
    assert(r@ =~= t@);
    r
}

/// The binding lines of the aliases `als`.
pub open spec fn aliases_code(als: Seq<ItemAlias>, src: Seq<u8>) -> Seq<u8>
    decreases als.len(),
{
    if als.len() == 0 {
        Seq::empty()
    } else {
        aliases_code(als.drop_last(), src) + alias_code(als.last(), src)
    }
}

/// The expression of code block `cb`: its text without the leading `->` and the
/// trailing `%`.
pub open spec fn block_code(src: Seq<u8>, cb: Span) -> Seq<u8> {
    let t = text_of(src, cb);
    t.subrange(2, t.len() - 1)
}

/// Whether text `t` is a code block: `->`, then the expression, then `%`.
pub open spec fn block_marked(t: Seq<u8>) -> bool {
    t.len() >= 3 && t[0] == 45u8 && t[1] == 62u8 && t.last() == 37u8
}

/// The reduction function of production `p`, number `i` of rule `name` of type `ty`.
pub open spec fn fn_code(name: Seq<u8>, i: nat, ty: Seq<u8>, p: PBV, src: Seq<u8>) -> Seq<u8> {
    l_fn() + name + l_us() + dec(i) + l_fn_sig() + ty + l_fn_body() + aliases_code(p.aliases, src) + l_sp()
        + block_code(src, p.codeblock) + l_fn_end()
}

/// The reduction functions of the productions `ps` of rule `name` of type `ty`.
pub open spec fn fns_code(name: Seq<u8>, ty: Seq<u8>, ps: Seq<PBV>, src: Seq<u8>) -> Seq<u8>
    decreases ps.len(),
{
    if ps.len() == 0 {
        Seq::empty()
    } else {
        fns_code(name, ty, ps.drop_last(), src) + fn_code(name, (ps.len() - 1) as nat, ty, ps.last(), src)
    }
}

/// The names of the first `n` reduction functions of rule `name`, each followed by a
/// comma.
pub open spec fn fn_names_code(name: Seq<u8>, n: nat) -> Seq<u8>
    decreases n,
{
    if n == 0 {
        Seq::empty()
    } else {
        fn_names_code(name, (n - 1) as nat) + l_lrp_wop() + name + l_us() + dec((n - 1) as nat) + l_comma_sp()
    }
}

/// The reduction functions of rule `name` with productions `ps`, and the statement that
/// inserts them into the reductor map.
pub open spec fn rule_red_code(name: Seq<u8>, ps: Seq<PBV>, src: Seq<u8>) -> Seq<u8> {
    fns_code(name, text_of(src, ps[0].ty), ps, src) + l_insert() + name + l_insert_vec() + fn_names_code(name, ps.len())
        + l_tail()
}

/// The reduction code of the rules `rs`.
pub open spec fn rules_red_code(rs: Seq<(Seq<u8>, Seq<PBV>)>, src: Seq<u8>) -> Seq<u8>
    decreases rs.len(),
{
    if rs.len() == 0 {
        Seq::empty()
    } else {
        rules_red_code(rs.drop_last(), src) + rule_red_code(rs.last().0, rs.last().1, src)
    }
}

/// The expression that builds the reductor map of the grammar `b` holds.
pub open spec fn reductor_code(b: BuilderV, src: Seq<u8>) -> Seq<u8> {
    l_open() + imports_code(b.imports, src) + l_reductmap() + rules_red_code(b.rules, src) + l_end_r()
}

/// Every rule of `b` has a production, and every code block is marked as one.
pub open spec fn codeblocks_marked(b: BuilderV, src: Seq<u8>) -> bool {
    forall|r: int|
        0 <= r < b.rules.len() ==> (#[trigger] b.rules[r]).1.len() > 0 && forall|j: int|
            0 <= j < b.rules[r].1.len() ==> block_marked(text_of(src, (#[trigger] b.rules[r].1[j]).codeblock))
}

/// The expression of code block `cb`, as [`block_code`] says.
fn block_exec(src: &Vec<u8>, cb: Span) -> (r: Vec<u8>)
    requires
        within(cb, src@.len()),
        block_marked(text_of(src@, cb)),
    ensures
        r@ == block_code(src@, cb),
{
    let t = text_exec(src, cb);
    let mut r: Vec<u8> = Vec::new();
    let mut i: usize = 2;
    while i < t.len() - 1
        invariant
            t@.len() >= 3,
            2 <= i <= t@.len() - 1,
            r@ == t@.subrange(2, i as int),
        decreases t@.len() - 1 - i,
    {
        r.push(t[i]);
        assert(r@ =~= t@.subrange(2, i + 1));
        i = i + 1;
    }
    r
}

/// Appends the binding lines of the aliases `als`.
fn write_aliases(out: &mut Vec<u8>, als: &Vec<ItemAlias>, src: &Vec<u8>)
    requires
        forall|k: int| 0 <= k < als@.len() ==> within(#[trigger] als@[k].alias, src@.len()),
    ensures
        final(out)@ == old(out)@ + aliases_code(als@, src@),
{
    let ghost o = old(out)@;
    let mut i: usize = 0;
    while i < als.len()
        invariant
            i <= als@.len(),
            forall|k: int| 0 <= k < als@.len() ==> within(#[trigger] als@[k].alias, src@.len()),
            out@ == o + aliases_code(als@.subrange(0, i as int), src@),
        decreases als@.len() - i,
    {
        als[i].write(out, src);
        let ghost sub = als@.subrange(0, i + 1);
        assert(sub.drop_last() =~= als@.subrange(0, i as int));
        assert(out@ =~= o + aliases_code(sub, src@));
        i = i + 1;
    }
    assert(als@.subrange(0, als@.len() as int) =~= als@);
}

impl Builder {
    /// Appends the reduction functions of rule `name` with productions `prods`, and the
    /// statement that inserts them, as [`rule_red_code`] says.
    #[verifier::spinoff_prover]
    #[verifier::rlimit(40)]
    pub fn write_rule_reduction(out: &mut Vec<u8>, name: &Vec<u8>, prods: &Vec<ProductionBuild>, src: &Vec<u8>)
        requires
            prods@.len() > 0,
            forall|j: int| 0 <= j < prods@.len() ==> pb_within(#[trigger] pbv(prods@[j]), src@.len()),
            forall|j: int| 0 <= j < prods@.len() ==> block_marked(text_of(src@, (#[trigger] prods@[j]).codeblock)),
        ensures
            final(out)@ == old(out)@ + rule_red_code(name@, pbvs(prods@), src@),
    {
        let ghost o = old(out)@;
        let ghost ps = pbvs(prods@);
        assert(pb_within(pbv(prods@[0]), src@.len()));
        let ty = text_exec(src, prods[0].ty);
        let mut i: usize = 0;
        while i < prods.len()
            invariant
                i <= prods@.len(),
                prods@.len() > 0,
                ps == pbvs(prods@),
                ty@ == text_of(src@, ps[0].ty),
                forall|j: int| 0 <= j < prods@.len() ==> pb_within(#[trigger] pbv(prods@[j]), src@.len()),
                forall|j: int| 0 <= j < prods@.len() ==> block_marked(text_of(src@, (#[trigger] prods@[j]).codeblock)),
                out@ == o + fns_code(name@, ty@, ps.subrange(0, i as int), src@),
            decreases prods@.len() - i,
        {
            let ghost before = out@;
            let p = &prods[i];
            assert(pb_within(pbv(prods@[i as int]), src@.len()));
            assert(block_marked(text_of(src@, prods@[i as int].codeblock)));
            put(out, l_fn_v());
            put(out, text_copy(name));
            put(out, l_us_v());
            put(out, dec_v(i));
            put(out, l_fn_sig_v());
            put(out, text_copy(&ty));
            put(out, l_fn_body_v());
            let ghost mid = out@;
            assert forall|k: int| 0 <= k < p.aliases@.len() implies within(#[trigger] p.aliases@[k].alias, src@.len()) by {
                assert(within(pbv(*p).aliases[k].alias, src@.len()));
            }
            write_aliases(out, &p.aliases, src);
            put(out, l_sp_v());
            put(out, block_exec(src, p.codeblock));
            put(out, l_fn_end_v());
            assert(out@ =~= before + fn_code(name@, i as nat, ty@, pbv(*p), src@));
            let ghost sub = ps.subrange(0, i + 1);
            assert(sub.drop_last() =~= ps.subrange(0, i as int));
            assert(sub.last() == pbv(*p));
            assert(out@ =~= o + fns_code(name@, ty@, sub, src@));
            i = i + 1;
        }
        assert(ps.subrange(0, ps.len() as int) =~= ps);
        put(out, l_insert_v());
        put(out, text_copy(name));
        put(out, l_insert_vec_v());
        let ghost head = out@;
        let mut i: usize = 0;
        while i < prods.len()
            invariant
                i <= prods@.len(),
                out@ == head + fn_names_code(name@, i as nat),
            decreases prods@.len() - i,
        {
            put(out, l_lrp_wop_v());
            put(out, text_copy(name));
            put(out, l_us_v());
            put(out, dec_v(i));
            put(out, l_comma_sp_v());
            assert(out@ =~= head + fn_names_code(name@, (i + 1) as nat));
            i = i + 1;
        }
        put(out, l_tail_v());
        assert(out@ =~= o + rule_red_code(name@, ps, src@));
    }

    /// The expression that builds the reductor map of the grammar this builder holds,
    /// as [`reductor_code`] says: its imports, then the reduction functions of each
    /// rule.
    pub fn dump_reductor(&self, src: &Vec<u8>) -> (r: Vec<u8>)
        requires
            builder_within(bview(*self), src@.len()),
            codeblocks_marked(bview(*self), src@),
        ensures
            r@ == reductor_code(bview(*self), src@),
    {
        let ghost bv = bview(*self);
        let mut out: Vec<u8> = Vec::new();
        put(&mut out, l_open_v());
        assert forall|k: int| 0 <= k < self.imports@.len() implies within(#[trigger] self.imports@[k], src@.len()) by {
            assert(within(bv.imports[k], src@.len()));
        }
        write_imports(&mut out, &self.imports, src);
        put(&mut out, l_reductmap_v());
        let ghost head = out@;
        let mut i: usize = 0;
        while i < self.rules.len()
            invariant
                i <= self.rules@.len(),
                bv == bview(*self),
                builder_within(bv, src@.len()),
                codeblocks_marked(bv, src@),
                out@ == head + rules_red_code(bv.rules.subrange(0, i as int), src@),
            decreases self.rules@.len() - i,
        {
            let ghost ri = bv.rules[i as int];
            assert(ri == (self.rules@[i as int].0@, pbvs(self.rules@[i as int].1@)));
            assert forall|j: int| 0 <= j < self.rules@[i as int].1@.len() implies pb_within(
                #[trigger] pbv(self.rules@[i as int].1@[j]),
                src@.len(),
            ) by {
                assert(bv.rules[i as int].1[j] == pbv(self.rules@[i as int].1@[j]));
            }
            assert forall|j: int| 0 <= j < self.rules@[i as int].1@.len() implies block_marked(
                text_of(src@, (#[trigger] self.rules@[i as int].1@[j]).codeblock),
            ) by {
                assert(bv.rules[i as int].1[j] == pbv(self.rules@[i as int].1@[j]));
            }
            assert(ri.1.len() > 0);
            Self::write_rule_reduction(&mut out, &self.rules[i].0, &self.rules[i].1, src);
            let ghost sub = bv.rules.subrange(0, i + 1);
            assert(sub.drop_last() =~= bv.rules.subrange(0, i as int));
            assert(sub.last() == ri);
            assert(out@ =~= head + rules_red_code(sub, src@));
            i = i + 1;
        }
        assert(bv.rules.subrange(0, bv.rules.len() as int) =~= bv.rules);
        put(&mut out, l_end_r_v());
        assert(out@ =~= reductor_code(bv, src@));
        out
    }
}

/// Whether production `p` lies within the `n` bytes of the source, as [`pb_within`] says.
#[verifier::loop_isolation(false)]
fn pb_fits(p: &ProductionBuild, n: usize) -> (r: bool)
    ensures
        r == pb_within(pbv(*p), n as nat),
{
    if !(p.codeblock.start <= p.codeblock.end && p.codeblock.end <= n) {
        return false;
    }
    if !(p.ty.start <= p.ty.end && p.ty.end <= n) {
        return false;
    }
    let mut k: usize = 0;
    while k < p.production.len()
        invariant
            k <= p.production@.len(),
            forall|j: int| 0 <= j < k ==> within(#[trigger] p.production@[j], n as nat),
        decreases p.production@.len() - k,
    {
        let s = p.production[k];
        if !(s.start <= s.end && s.end <= n) {
            assert(!within(pbv(*p).production[k as int], n as nat));
            return false;
        }
        k = k + 1;
    }
    let mut k: usize = 0;
    while k < p.aliases.len()
        invariant
            k <= p.aliases@.len(),
            forall|j: int| 0 <= j < k ==> within(#[trigger] p.aliases@[j].alias, n as nat),
        decreases p.aliases@.len() - k,
    {
        let s = p.aliases[k].alias;
        if !(s.start <= s.end && s.end <= n) {
            assert(!within(pbv(*p).aliases[k as int].alias, n as nat));
            return false;
        }
        k = k + 1;
    }
    true
}

/// Whether text `t` is a code block, as [`block_marked`] says.
fn marked_check(t: &Vec<u8>) -> (r: bool)
    ensures
        r == block_marked(t@),
{
    t.len() >= 3 && t[0] == 45u8 && t[1] == 62u8 && t[t.len() - 1] == 37u8
}

impl Builder {
    /// Whether every span the builder holds lies within the `n` bytes of the source, as
    /// [`builder_within`] says.
    #[verifier::loop_isolation(false)]
    pub fn spans_within(&self, n: usize) -> (r: bool)
        ensures
            r == builder_within(bview(*self), n as nat),
    {
        let ghost bv = bview(*self);
        let mut k: usize = 0;
        while k < self.imports.len()
            invariant
                k <= self.imports@.len(),
                forall|j: int| 0 <= j < k ==> within(#[trigger] self.imports@[j], n as nat),
            decreases self.imports@.len() - k,
        {
            let s = self.imports[k];
            if !(s.start <= s.end && s.end <= n) {
                assert(!within(bv.imports[k as int], n as nat));
                return false;
            }
            k = k + 1;
        }
        let mut r: usize = 0;
        while r < self.rules.len()
            invariant
                r <= self.rules@.len(),
                forall|a: int, j: int|
                    0 <= a < r && 0 <= j < bv.rules[a].1.len() ==> pb_within(#[trigger] bv.rules[a].1[j], n as nat),
            decreases self.rules@.len() - r,
        {
            let ps = &self.rules[r].1;
            assert(bv.rules[r as int].1 == pbvs(ps@));
            let mut j: usize = 0;
            while j < ps.len()
                invariant
                    j <= ps@.len(),
                    bv.rules[r as int].1 == pbvs(ps@),
                    forall|a: int, j2: int|
                        0 <= a < r && 0 <= j2 < bv.rules[a].1.len() ==> pb_within(#[trigger] bv.rules[a].1[j2], n as nat),
                    forall|j2: int| 0 <= j2 < j ==> pb_within(#[trigger] bv.rules[r as int].1[j2], n as nat),
                decreases ps@.len() - j,
            {
                assert(bv.rules[r as int].1[j as int] == pbv(ps@[j as int]));
                if !pb_fits(&ps[j], n) {
                    return false;
                }
                j = j + 1;
            }
            r = r + 1;
        }
        true
    }

    /// Whether every rule has a production and every code block is marked as one, as
    /// [`codeblocks_marked`] says.
    #[verifier::loop_isolation(false)]
    pub fn blocks_marked(&self, src: &Vec<u8>) -> (r: bool)
        requires
            builder_within(bview(*self), src@.len()),
        ensures
            r == codeblocks_marked(bview(*self), src@),
    {
        let ghost bv = bview(*self);
        let mut r: usize = 0;
        while r < self.rules.len()
            invariant
                r <= self.rules@.len(),
                forall|a: int|
                    0 <= a < r ==> (#[trigger] bv.rules[a]).1.len() > 0 && forall|j: int|
                        0 <= j < bv.rules[a].1.len() ==> block_marked(text_of(src@, (#[trigger] bv.rules[a].1[j]).codeblock)),
            decreases self.rules@.len() - r,
        {
            let ps = &self.rules[r].1;
            assert(bv.rules[r as int].1 == pbvs(ps@));
            if ps.len() == 0 {
                return false;
            }
            let mut j: usize = 0;
            while j < ps.len()
                invariant
                    j <= ps@.len(),
                    bv.rules[r as int].1 == pbvs(ps@),
                    forall|a: int|
                        0 <= a < r ==> (#[trigger] bv.rules[a]).1.len() > 0 && forall|j2: int|
                            0 <= j2 < bv.rules[a].1.len() ==> block_marked(text_of(src@, (#[trigger] bv.rules[a].1[j2]).codeblock)),
                    forall|j2: int| 0 <= j2 < j ==> block_marked(text_of(src@, (#[trigger] bv.rules[r as int].1[j2]).codeblock)),
                decreases ps@.len() - j,
            {
                assert(bv.rules[r as int].1[j as int] == pbv(ps@[j as int]));
                assert(pb_within(bv.rules[r as int].1[j as int], src@.len()));
                let t = text_exec(src, ps[j].codeblock);
                if !marked_check(&t) {
                    return false;
                }
                j = j + 1;
            }
            r = r + 1;
        }
        true
    }
}

/// Flattening the pieces `g` makes of a nonempty sequence is flattening those of all
/// but its last element, then that of the last.
proof fn lemma_pieces_push<A>(s: Seq<A>, g: spec_fn(A) -> Seq<u8>)
    requires
        s.len() > 0,
    ensures
        s.map_values(g).flatten() == s.drop_last().map_values(g).flatten() + g(s.last()),
{
    assert(s.map_values(g) =~= s.drop_last().map_values(g).push(g(s.last())));
    s.drop_last().map_values(g).lemma_flatten_push(g(s.last()));
}

/// The items of a production are written in order, each as its text followed by `, `:
/// the code is the concatenation, over the items in turn, of the text of the item and
/// `, `.
pub proof fn law_items_code(sp: Seq<Span>, src: Seq<u8>)
    ensures
        items_code(sp, src) == sp.map_values(|s: Span| text_of(src, s) + seq![44u8, 32u8]).flatten(),
    decreases sp.len(),
{
    let g = |s: Span| text_of(src, s) + seq![44u8, 32u8];
    if sp.len() == 0 {
        assert(sp.map_values(g) =~= Seq::<Seq<u8>>::empty());
    } else {
        law_items_code(sp.drop_last(), src);
        lemma_pieces_push(sp, g);
    }
}

/// The imports are written in order, each as `\tuse `, the text of its path and `;\n`.
pub proof fn law_imports_code(imps: Seq<Span>, src: Seq<u8>)
    ensures
        imports_code(imps, src) == imps.map_values(|s: Span| l_use() + text_of(src, s) + l_semi_nl()).flatten(),
    decreases imps.len(),
{
    let g = |s: Span| l_use() + text_of(src, s) + l_semi_nl();
    if imps.len() == 0 {
        assert(imps.map_values(g) =~= Seq::<Seq<u8>>::empty());
    } else {
        law_imports_code(imps.drop_last(), src);
        lemma_pieces_push(imps, g);
        assert(imports_code(imps, src) == imports_code(imps.drop_last(), src) + g(imps.last()));
    }
}

/// The productions of a rule are written in order, one `vec!` line each, whose items are
/// the texts of the production's items in order, each followed by `, `.
pub proof fn law_prods_code(ps: Seq<PBV>, src: Seq<u8>)
    ensures
        prods_code(ps, src) == ps.map_values(
            |p: PBV|
                l_prod_open() + p.production.map_values(|s: Span| text_of(src, s) + seq![44u8, 32u8]).flatten()
                    + l_prod_close(),
        ).flatten(),
    decreases ps.len(),
{
    let g = |p: PBV|
        l_prod_open() + p.production.map_values(|s: Span| text_of(src, s) + seq![44u8, 32u8]).flatten() + l_prod_close();
    if ps.len() == 0 {
        assert(ps.map_values(g) =~= Seq::<Seq<u8>>::empty());
    } else {
        law_prods_code(ps.drop_last(), src);
        law_items_code(ps.last().production, src);
        lemma_pieces_push(ps, g);
        assert(prods_code(ps, src) == prods_code(ps.drop_last(), src) + g(ps.last()));
    }
}

/// The rules are written in order, each as the statement that inserts its name with the
/// `vec!` lines of its productions.
pub proof fn law_rules_code(rs: Seq<(Seq<u8>, Seq<PBV>)>, src: Seq<u8>)
    ensures
        rules_code(rs, src) == rs.map_values(
            |r: (Seq<u8>, Seq<PBV>)|
                l_insert() + r.0 + l_rule_new() + r.0 + l_vec_open_nl() + r.1.map_values(
                    |p: PBV|
                        l_prod_open() + p.production.map_values(|s: Span| text_of(src, s) + seq![44u8, 32u8]).flatten()
                            + l_prod_close(),
                ).flatten() + l_rule_close(),
        ).flatten(),
    decreases rs.len(),
{
    let g = |r: (Seq<u8>, Seq<PBV>)|
        l_insert() + r.0 + l_rule_new() + r.0 + l_vec_open_nl() + r.1.map_values(
            |p: PBV|
                l_prod_open() + p.production.map_values(|s: Span| text_of(src, s) + seq![44u8, 32u8]).flatten()
                    + l_prod_close(),
        ).flatten() + l_rule_close();
    if rs.len() == 0 {
        assert(rs.map_values(g) =~= Seq::<Seq<u8>>::empty());
    } else {
        law_rules_code(rs.drop_last(), src);
        law_prods_code(rs.last().1, src);
        lemma_pieces_push(rs, g);
        assert(rules_code(rs, src) == rules_code(rs.drop_last(), src) + g(rs.last()));
    }
}

/// What [`Builder::dump_grammar`] writes: the imports in order, then for each rule in
/// order the statement that inserts it, with one `vec!` line per production listing the
/// texts of its items in order, each followed by `, `.
pub proof fn law_grammar_code(b: BuilderV, src: Seq<u8>)
    ensures
        grammar_code(b, src) == l_open() + b.imports.map_values(|s: Span| l_use() + text_of(src, s) + l_semi_nl()).flatten()
            + l_rulemap() + b.rules.map_values(
            |r: (Seq<u8>, Seq<PBV>)|
                l_insert() + r.0 + l_rule_new() + r.0 + l_vec_open_nl() + r.1.map_values(
                    |p: PBV|
                        l_prod_open() + p.production.map_values(|s: Span| text_of(src, s) + seq![44u8, 32u8]).flatten()
                            + l_prod_close(),
                ).flatten() + l_rule_close(),
        ).flatten() + l_end_g(),
{
    law_imports_code(b.imports, src);
    law_rules_code(b.rules, src);
}

/// The aliases of a production are bound in order, one line each: the code is the
/// concatenation, over the aliases in turn, of the line that binds it.
pub proof fn law_aliases_code(als: Seq<ItemAlias>, src: Seq<u8>)
    ensures
        aliases_code(als, src) == als.map_values(|a: ItemAlias| alias_code(a, src)).flatten(),
    decreases als.len(),
{
    let g = |a: ItemAlias| alias_code(a, src);
    if als.len() == 0 {
        assert(als.map_values(g) =~= Seq::<Seq<u8>>::empty());
    } else {
        law_aliases_code(als.drop_last(), src);
        lemma_pieces_push(als, g);
    }
}

/// The reduction functions of a rule are written in order, the `i`-th for the `i`-th
/// production, numbered `i`, binding the production's aliases in order before its code.
pub proof fn law_fns_code(name: Seq<u8>, ty: Seq<u8>, ps: Seq<PBV>, src: Seq<u8>)
    ensures
        fns_code(name, ty, ps, src) == Seq::new(
            ps.len(),
            |i: int|
                l_fn() + name + l_us() + dec(i as nat) + l_fn_sig() + ty + l_fn_body() + ps[i].aliases.map_values(
                    |a: ItemAlias| alias_code(a, src),
                ).flatten() + l_sp() + block_code(src, ps[i].codeblock) + l_fn_end(),
        ).flatten(),
    decreases ps.len(),
{
    let f = |q: Seq<PBV>|
        Seq::new(
            q.len(),
            |i: int|
                l_fn() + name + l_us() + dec(i as nat) + l_fn_sig() + ty + l_fn_body() + q[i].aliases.map_values(
                    |a: ItemAlias| alias_code(a, src),
                ).flatten() + l_sp() + block_code(src, q[i].codeblock) + l_fn_end(),
        );
    if ps.len() == 0 {
        assert(f(ps) =~= Seq::<Seq<u8>>::empty());
    } else {
        let q = ps.drop_last();
        law_fns_code(name, ty, q, src);
        law_aliases_code(ps.last().aliases, src);
        let n = (ps.len() - 1) as nat;
        assert(f(ps) =~= f(q).push(
            l_fn() + name + l_us() + dec(n) + l_fn_sig() + ty + l_fn_body() + ps.last().aliases.map_values(
                |a: ItemAlias| alias_code(a, src),
            ).flatten() + l_sp() + block_code(src, ps.last().codeblock) + l_fn_end(),
        ));
        f(q).lemma_flatten_push(
            l_fn() + name + l_us() + dec(n) + l_fn_sig() + ty + l_fn_body() + ps.last().aliases.map_values(
                |a: ItemAlias| alias_code(a, src),
            ).flatten() + l_sp() + block_code(src, ps.last().codeblock) + l_fn_end(),
        );
    }
}

/// The names of the reduction functions of a rule are listed in order, `lrp_wop_`, the
/// rule's name, `_` and the number `i` of each, followed by `, `.
pub proof fn law_fn_names_code(name: Seq<u8>, n: nat)
    ensures
        fn_names_code(name, n) == Seq::new(n, |i: int| l_lrp_wop() + name + l_us() + dec(i as nat) + l_comma_sp()).flatten(),
    decreases n,
{
    let f = |m: nat| Seq::new(m, |i: int| l_lrp_wop() + name + l_us() + dec(i as nat) + l_comma_sp());
    if n == 0 {
        assert(f(n) =~= Seq::<Seq<u8>>::empty());
    } else {
        let m = (n - 1) as nat;
        law_fn_names_code(name, m);
        assert(f(n) =~= f(m).push(l_lrp_wop() + name + l_us() + dec(m) + l_comma_sp()));
        f(m).lemma_flatten_push(l_lrp_wop() + name + l_us() + dec(m) + l_comma_sp());
    }
}

/// The reductions of the rules are written in order: for each rule, its reduction
/// functions in the order of its productions, the `i`-th numbered `i` and binding the
/// production's aliases in order before its code, then the statement that inserts the
/// functions' names, in order.
pub proof fn law_rules_red_code(rs: Seq<(Seq<u8>, Seq<PBV>)>, src: Seq<u8>)
    ensures
        rules_red_code(rs, src) == rs.map_values(
            |r: (Seq<u8>, Seq<PBV>)|
                Seq::new(
                    r.1.len(),
                    |i: int|
                        l_fn() + r.0 + l_us() + dec(i as nat) + l_fn_sig() + text_of(src, r.1[0].ty) + l_fn_body()
                            + r.1[i].aliases.map_values(|a: ItemAlias| alias_code(a, src)).flatten() + l_sp()
                            + block_code(src, r.1[i].codeblock) + l_fn_end(),
                ).flatten() + l_insert() + r.0 + l_insert_vec() + Seq::new(
                    r.1.len(),
                    |i: int| l_lrp_wop() + r.0 + l_us() + dec(i as nat) + l_comma_sp(),
                ).flatten() + l_tail(),
        ).flatten(),
    decreases rs.len(),
{
    let g = |r: (Seq<u8>, Seq<PBV>)|
                Seq::new(
                    r.1.len(),
                    |i: int|
                        l_fn() + r.0 + l_us() + dec(i as nat) + l_fn_sig() + text_of(src, r.1[0].ty) + l_fn_body()
                            + r.1[i].aliases.map_values(|a: ItemAlias| alias_code(a, src)).flatten() + l_sp()
                            + block_code(src, r.1[i].codeblock) + l_fn_end(),
                ).flatten() + l_insert() + r.0 + l_insert_vec() + Seq::new(
                    r.1.len(),
                    |i: int| l_lrp_wop() + r.0 + l_us() + dec(i as nat) + l_comma_sp(),
                ).flatten() + l_tail();
    if rs.len() == 0 {
        assert(rs.map_values(g) =~= Seq::<Seq<u8>>::empty());
    } else {
        let r = rs.last();
        law_rules_red_code(rs.drop_last(), src);
        law_fns_code(r.0, text_of(src, r.1[0].ty), r.1, src);
        law_fn_names_code(r.0, r.1.len());
        lemma_pieces_push(rs, g);
        assert(rules_red_code(rs, src) == rules_red_code(rs.drop_last(), src) + g(r));
    }
}

/// What [`Builder::dump_reductor`] writes: the imports in order, then the reductions of
/// the rules in order (see [`law_rules_red_code`]).
pub proof fn law_reductor_code(b: BuilderV, src: Seq<u8>)
    ensures
        reductor_code(b, src) == l_open() + b.imports.map_values(|s: Span| l_use() + text_of(src, s) + l_semi_nl()).flatten()
            + l_reductmap() + b.rules.map_values(
            |r: (Seq<u8>, Seq<PBV>)|
                Seq::new(
                    r.1.len(),
                    |i: int|
                        l_fn() + r.0 + l_us() + dec(i as nat) + l_fn_sig() + text_of(src, r.1[0].ty) + l_fn_body()
                            + r.1[i].aliases.map_values(|a: ItemAlias| alias_code(a, src)).flatten() + l_sp()
                            + block_code(src, r.1[i].codeblock) + l_fn_end(),
                ).flatten() + l_insert() + r.0 + l_insert_vec() + Seq::new(
                    r.1.len(),
                    |i: int| l_lrp_wop() + r.0 + l_us() + dec(i as nat) + l_comma_sp(),
                ).flatten() + l_tail(),
        ).flatten() + l_end_r(),
{
    law_imports_code(b.imports, src);
    law_rules_red_code(b.rules, src);
}

/// The number that the decimal digits `s` stand for.
pub open spec fn digits_value(s: Seq<u8>) -> int
    decreases s.len(),
{
    if s.len() == 0 {
        0
    } else {
        digits_value(s.drop_last()) * 10 + (s.last() - 48)
    }
}

/// `dec(n)` is the decimal writing of `n`: one or more digits, no leading zero but for
/// `0` itself, reading back as `n`.
pub proof fn law_dec(n: nat)
    ensures
        dec(n).len() >= 1,
        forall|k: int| 0 <= k < dec(n).len() ==> 48 <= #[trigger] dec(n)[k] <= 57,
        dec(n).len() > 1 ==> dec(n)[0] != 48u8,
        digits_value(dec(n)) == n,
    decreases n,
{
    if n >= 10 {
        let m = n / 10;
        law_dec(m);
        assert(dec(n) == dec(m).push((48 + n % 10) as u8));
        assert(dec(n).drop_last() =~= dec(m));
        assert(m * 10 + n % 10 == n) by (nonlinear_arith)
            requires
                m == n / 10,
        ;
        assert(dec(n)[0] == dec(m)[0]);
        if dec(m).len() == 1 {
            assert(m >= 1);
            if m >= 10 {
                law_dec(m / 10);
                assert(dec(m).len() > 1);
            }
        }
        assert forall|k: int| 0 <= k < dec(n).len() implies 48 <= #[trigger] dec(n)[k] <= 57 by {
            if k < dec(m).len() {
                assert(dec(n)[k] == dec(m)[k]);
            }
        }
        assert(dec(n).last() == 48 + n % 10);
        assert(digits_value(dec(n)) == digits_value(dec(m)) * 10 + (dec(n).last() - 48));
    } else {
        assert(dec(n) == seq![(48 + n) as u8]);
        assert(dec(n).last() == 48 + n);
        assert(dec(n).drop_last() =~= Seq::<u8>::empty());
        assert(digits_value(dec(n)) == digits_value(dec(n).drop_last()) * 10 + (dec(n).last() - 48));
    }
}

/// Whether `s` is made of decimal digits only.
pub open spec fn all_digits(s: Seq<u8>) -> bool {
    forall|k: int| 0 <= k < s.len() ==> 48 <= #[trigger] s[k] <= 57
}

/// The item an alias binds is written by its index in decimal, and where the alias
/// covers a range, by the index, `..` and the end in decimal.
pub proof fn law_index_code(a: ItemAlias)
    ensures
        match a.final_index {
            None => all_digits(index_code(a)) && digits_value(index_code(a)) == a.index,
            Some(f) => exists|d: Seq<u8>, e: Seq<u8>|
                index_code(a) == d + seq![46u8, 46u8] + e && all_digits(d) && all_digits(e) && digits_value(d) == a.index
                    && digits_value(e) == f && d.len() > 0 && e.len() > 0,
        },
{
    law_dec(a.index as nat);
    match a.final_index {
        None => {},
        Some(f) => {
            law_dec(f as nat);
            assert(index_code(a) == dec(a.index as nat) + seq![46u8, 46u8] + dec(f as nat));
        },
    }
}

/// The expression of a marked code block is its text without the leading `->` and the
/// trailing `%`: putting those back gives the block's text.
pub proof fn law_block_code(src: Seq<u8>, cb: Span)
    requires
        block_marked(text_of(src, cb)),
    ensures
        seq![45u8, 62u8] + block_code(src, cb) + seq![37u8] == text_of(src, cb),
{
    let t = text_of(src, cb);
    assert(seq![45u8, 62u8] + block_code(src, cb) + seq![37u8] =~= t);
}

} // verus!
