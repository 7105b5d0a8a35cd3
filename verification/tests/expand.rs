use lrp::expand::get_from_single_production;
use lrp::prodbuild::ProductionBuild;
use lrp::wopast::{Ast, Gramem, WOP_IDENT_PATH, WOP_RULE, WOP_RULE_ITEM, WOP_STR_LIT};
use lrp::{Meta, Span, Token};

fn node(ast: Ast, span: Span, ty: usize) -> Gramem {
    Token::new(Meta::new(ast, span), ty)
}

fn item(inner: Gramem, optional: bool, alias: Option<Span>) -> Gramem {
    let span = inner.item.span;
    node(Ast::RuleItem(Box::new(inner), optional, alias), span, WOP_RULE_ITEM)
}

fn path(start: usize, end: usize) -> Gramem {
    let s = Span::new(start, end);
    node(Ast::IdentPath(s), s, WOP_IDENT_PATH)
}

fn origin() -> ProductionBuild {
    ProductionBuild { production: vec![], codeblock: Span::new(50, 55), ty: Span::new(60, 61), aliases: vec![] }
}

#[test]
fn optional_items_double_the_productions() {
    let src = b"a \"b\" x".to_vec();
    let aliases = vec![(b"\"b\"".to_vec(), Span::new(100, 101))];
    let lit = node(Ast::Token(WOP_STR_LIT), Span::new(2, 5), WOP_STR_LIT);
    // a? : x "b"
    let pipe = vec![item(path(0, 1), true, Some(Span::new(6, 7))), item(lit, false, None)];
    let out = get_from_single_production(&aliases, &origin(), &pipe, &src);
    assert_eq!(out.len(), 2);
    assert_eq!(out[0].production, vec![Span::new(0, 1), Span::new(100, 101)]);
    assert_eq!(out[0].aliases.len(), 1);
    assert_eq!(out[0].aliases[0].optional, Some(true));
    assert_eq!(out[0].aliases[0].index, 0);
    assert_eq!(out[1].production, vec![Span::new(100, 101)]);
    assert_eq!(out[1].aliases[0].optional, Some(false));
    assert_eq!(out[1].codeblock, Span::new(50, 55));
}

#[test]
fn sub_rules_give_one_production_per_alternative() {
    let src = b"( a | c : y ) d".to_vec();
    // ( a | c : y )? d
    let alts = vec![
        (vec![item(path(2, 3), false, None)], Span::new(0, 0)),
        (vec![item(path(6, 7), false, Some(Span::new(10, 11)))], Span::new(0, 0)),
    ];
    let sub = node(Ast::Rule(alts), Span::new(0, 13), WOP_RULE);
    let pipe = vec![item(sub, true, None), item(path(14, 15), false, None)];
    let out = get_from_single_production(&vec![], &origin(), &pipe, &src);
    assert_eq!(out.len(), 3);
    assert_eq!(out[0].production, vec![Span::new(2, 3), Span::new(14, 15)]);
    // The name `y` bound in the second alternative is left out of the first.
    assert_eq!(out[0].aliases.len(), 1);
    assert_eq!(out[0].aliases[0].alias, Span::new(10, 11));
    assert_eq!(out[0].aliases[0].optional, Some(false));
    assert_eq!(out[1].production, vec![Span::new(6, 7), Span::new(14, 15)]);
    assert_eq!(out[1].aliases[0].optional, Some(true));
    // Without the optional sub-rule.
    assert_eq!(out[2].production, vec![Span::new(14, 15)]);
}

#[test]
fn an_optional_sub_rule_keeps_the_items_before_it() {
    let src = b"x ( y )".to_vec();
    // x ( y )?
    let alts = vec![(vec![item(path(4, 5), false, None)], Span::new(0, 0))];
    let sub = node(Ast::Rule(alts), Span::new(2, 7), WOP_RULE);
    let pipe = vec![item(path(0, 1), false, None), item(sub, true, None)];
    let out = get_from_single_production(&vec![], &origin(), &pipe, &src);
    assert_eq!(out.len(), 2);
    assert_eq!(out[0].production, vec![Span::new(0, 1), Span::new(4, 5)]);
    assert_eq!(out[1].production, vec![Span::new(0, 1)]);
}
