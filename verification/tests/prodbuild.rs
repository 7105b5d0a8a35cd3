use lrp::prodbuild::{set_sub_aliases, ItemAlias, ProductionBuild};
use lrp::Span;

fn alias(start: usize, optional: Option<bool>, index: usize) -> ItemAlias {
    ItemAlias { alias: Span::new(start, start + 1), optional, index, final_index: None }
}

fn prod(items: usize, aliases: Vec<ItemAlias>) -> ProductionBuild {
    ProductionBuild {
        production: (0..items).map(|i| Span::new(100 + i, 101 + i)).collect(),
        codeblock: Span::new(50, 60),
        ty: Span::new(60, 62),
        aliases,
    }
}

#[test]
fn push_alias_moves_indices_past_the_items() {
    let mut p = prod(3, vec![]);
    p.push_alias(ItemAlias { alias: Span::new(1, 2), optional: None, index: 0, final_index: Some(2) });
    assert_eq!(p.aliases.len(), 1);
    assert_eq!(p.aliases[0].index, 3);
    assert_eq!(p.aliases[0].final_index, Some(5));
    assert_eq!(p.production.len(), 3);
}

#[test]
fn sub_aliases_become_optional() {
    // The base binds name 1; the productions bind 1, 2 and 3.
    let base = prod(0, vec![alias(1, None, 0)]);
    let mut prods = vec![
        prod(2, vec![alias(1, None, 0), alias(2, None, 1)]),
        prod(1, vec![alias(3, None, 0)]),
    ];
    set_sub_aliases(&base, &mut prods);
    // First: 1 stays as it is, 2 is marked present, 3 is added as left out.
    assert_eq!(prods[0].aliases.len(), 3);
    assert_eq!(prods[0].aliases[0].optional, None);
    assert_eq!(prods[0].aliases[1].optional, Some(true));
    assert_eq!(prods[0].aliases[2].alias, Span::new(3, 4));
    assert_eq!(prods[0].aliases[2].optional, Some(false));
    // Second: 3 is marked present, 2 is added as left out.
    assert_eq!(prods[1].aliases.len(), 2);
    assert_eq!(prods[1].aliases[0].optional, Some(true));
    assert_eq!(prods[1].aliases[1].alias, Span::new(2, 3));
    assert_eq!(prods[1].aliases[1].optional, Some(false));
    assert_eq!(prods[1].production.len(), 1);
}
