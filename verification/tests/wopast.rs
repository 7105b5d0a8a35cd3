use std::collections::VecDeque;

use lrp::expand::Builder;
use lrp::fromsrc::builder_of;
use lrp::grammars::{wop, wop_names};
use lrp::slr::Slr;
use lrp::wopast::{Ast, Gramem, WopReductor};
use lrp::{Meta, Span, Token};

fn tok(names: &[&str], name: &str, start: usize, end: usize) -> Gramem {
    let ty = names.iter().position(|x| *x == name).unwrap();
    Token::new(Meta::new(Ast::Token(ty), Span::new(start, end)), ty)
}

#[test]
fn wop_reductor_builds_the_tree_of_a_rule_declaration() {
    let names = wop_names();
    // `Expr : Ast = Number ;`
    let toks = vec![
        tok(&names, "Ident", 0, 4),
        tok(&names, "TwoDots", 5, 6),
        tok(&names, "Ident", 7, 10),
        tok(&names, "Assign", 11, 12),
        tok(&names, "Ident", 13, 19),
        tok(&names, "Sc", 19, 20),
    ];
    let slr = Slr::new(wop());
    let tree = match slr.parse(toks, WopReductor) { Ok(t) => t, Err(e) => panic!("{e:?}") };
    assert_eq!(tree.span, Span::new(0, 20));
    // The automaton accepts with the program on the stack, before reducing the entry point.
    let Ast::Program(decls) = &tree.item else { panic!("not a program") };
    assert_eq!(decls.len(), 1);
    let Ast::RuleDecl(name, ty, alts) = &decls[0].item.item else { panic!("not a rule") };
    assert_eq!(*name, Span::new(0, 4));
    assert_eq!(*ty, Span::new(7, 10));
    assert_eq!(alts.len(), 1);
    assert_eq!(alts[0].1, Span::new(0, 0));
    assert_eq!(alts[0].0.len(), 1);
    let Ast::RuleItem(item, optional, alias) = &alts[0].0[0].item.item else { panic!("not an item") };
    assert!(!optional);
    assert!(alias.is_none());
    assert!(matches!(item.item.item, Ast::IdentPath(s) if s == Span::new(13, 19)));
}

#[test]
fn wop_reductor_binds_optional_named_items() {
    let names = wop_names();
    // `S : T = a ? : x | "b" -> {}% ;`
    let toks = vec![
        tok(&names, "Ident", 0, 1),
        tok(&names, "TwoDots", 2, 3),
        tok(&names, "Ident", 4, 5),
        tok(&names, "Assign", 6, 7),
        tok(&names, "Ident", 8, 9),
        tok(&names, "Optional", 10, 11),
        tok(&names, "TwoDots", 12, 13),
        tok(&names, "Ident", 14, 15),
        tok(&names, "Pipe", 16, 17),
        tok(&names, "StrLit", 18, 21),
        tok(&names, "CodeBlock", 22, 28),
        tok(&names, "Sc", 28, 29),
    ];
    let slr = Slr::new(wop());
    let tree = match slr.parse(toks, WopReductor) { Ok(t) => t, Err(e) => panic!("{e:?}") };
    // The automaton accepts with the program on the stack, before reducing the entry point.
    let Ast::Program(decls) = &tree.item else { panic!("not a program") };
    let Ast::RuleDecl(_, _, alts) = &decls[0].item.item else { panic!("not a rule") };
    assert_eq!(alts.len(), 2);
    assert_eq!(alts[0].1, Span::new(0, 0));
    assert_eq!(alts[1].1, Span::new(22, 28));
    let Ast::RuleItem(_, optional, alias) = &alts[0].0[0].item.item else { panic!("not an item") };
    assert!(*optional);
    assert_eq!(*alias, Some(Span::new(14, 15)));
    let Ast::RuleItem(lit, optional, alias) = &alts[1].0[0].item.item else { panic!("not an item") };
    assert!(!optional);
    assert!(alias.is_none());
    assert!(matches!(lit.item.item, Ast::Token(_)));
}

/// The tokens of `parts`, each a symbol name and its text, laid out with one space
/// between them; and the source text.
fn layout(names: &[&str], parts: &[(&str, &str)]) -> (Vec<Gramem>, String) {
    let mut src = String::new();
    let mut toks = Vec::new();
    for (sym, text) in parts {
        if !src.is_empty() {
            src.push(' ');
        }
        let start = src.len();
        src.push_str(text);
        toks.push(tok(names, sym, start, src.len()));
    }
    (toks, src)
}

#[test]
fn builder_takes_in_aliases_and_rules() {
    let names = wop_names();
    let (toks, src) = layout(&names, &[
        ("AliasWord", "alias"), ("StrLit", "\"+\""), ("Ident", "Add"), ("Sc", ";"),
        ("Ident", "S"), ("TwoDots", ":"), ("Ident", "T"), ("Assign", "="),
        ("Ident", "a"), ("Optional", "?"), ("TwoDots", ":"), ("Ident", "x"), ("CodeBlock", "->{}%"),
        ("Pipe", "|"), ("StrLit", "\"+\""), ("CodeBlock", "->{1}%"), ("Sc", ";"),
    ]);
    let add = toks[2].item.span;
    let a = toks[8].item.span;
    let x = toks[11].item.span;
    let program = match Slr::new(wop()).parse(toks, WopReductor) { Ok(t) => t, Err(e) => panic!("{e:?}") };
    let program = Token::new(program, names.iter().position(|n| *n == "Program").unwrap());
    let mut b = Builder::new();
    b.process(&program, &src.as_bytes().to_vec());
    assert_eq!(b.aliases, vec![(b"\"+\"".to_vec(), add)]);
    assert_eq!(b.rules.len(), 1);
    assert_eq!(b.rules[0].0, b"S".to_vec());
    let prods = &b.rules[0].1;
    assert_eq!(prods.len(), 3);
    assert_eq!(prods[0].production, vec![a]);
    assert_eq!(prods[0].aliases[0].alias, x);
    assert_eq!(prods[0].aliases[0].optional, Some(true));
    assert_eq!(prods[1].production, vec![]);
    assert_eq!(prods[1].aliases[0].optional, Some(false));
    // The string literal stands for what the alias names.
    assert_eq!(prods[2].production, vec![add]);
    assert_eq!(&src[prods[2].codeblock.start..prods[2].codeblock.end], "->{1}%");
}

fn builder_of_sample() -> (Builder, String) {
    let names = wop_names();
    let (toks, src) = layout(&names, &[
        ("AliasWord", "alias"), ("StrLit", "\"+\""), ("Ident", "Add"), ("Sc", ";"),
        ("Ident", "S"), ("TwoDots", ":"), ("Ident", "T"), ("Assign", "="),
        ("Ident", "a"), ("Optional", "?"), ("TwoDots", ":"), ("Ident", "x"), ("CodeBlock", "->{}%"),
        ("Pipe", "|"), ("StrLit", "\"+\""), ("CodeBlock", "->{1}%"), ("Sc", ";"),
    ]);
    let program = match Slr::new(wop()).parse(toks, WopReductor) { Ok(t) => t, Err(e) => panic!("{e:?}") };
    let program = Token::new(program, names.iter().position(|n| *n == "Program").unwrap());
    let mut b = Builder::new();
    b.process(&program, &src.as_bytes().to_vec());
    (b, src)
}

#[test]
fn dump_grammar_writes_the_rule_map() {
    let (b, src) = builder_of_sample();
    let out = String::from_utf8(b.dump_grammar(&src.as_bytes().to_vec())).unwrap();
    let expected = "{\n\tlet mut map = lrp::RuleMap::new();\n\tmap.insert(S, lrp::grammar::Rule::new(S, vec![\n\t\tvec![a, ],\n\t\tvec![],\n\t\tvec![Add, ],\n\n\t]));\n\n\tmap\n}";
    assert_eq!(out, expected);
}

#[test]
fn dump_reductor_writes_one_function_per_production() {
    let (b, src) = builder_of_sample();
    let out = String::from_utf8(b.dump_reductor(&src.as_bytes().to_vec())).unwrap();
    let tail = "}, lrp::Span::new(toks[0].item.span.start, toks.last().unwrap().item.span.end))\n\t}\n";
    let mut expected = String::from("{\n\tlet mut map = lrp::ReductMap::new();\n\n");
    let bodies = [
        "let x = Some(&toks[0]);\n {}",
        "let mut x = Some(&toks[0]); x = None; let x = x;\n {}",
        " {1}",
    ];
    for (i, body) in bodies.iter().enumerate() {
        expected.push_str(&format!("\tfn lrp_wop_S_{i}(toks: &[Gramem]) -> lrp::Meta<T> {{\n\t\tlrp::Meta::new({{ {body}{tail}"));
    }
    expected.push_str("\tmap.insert(S, vec![lrp_wop_S_0, lrp_wop_S_1, lrp_wop_S_2, \t]);\n\n\tmap\n}");
    assert_eq!(out, expected);
}

#[test]
fn alias_dump_binds_a_range() {
    let src = b"yy".to_vec();
    let a = lrp::prodbuild::ItemAlias { alias: Span::new(0, 2), optional: Some(true), index: 2, final_index: Some(15) };
    assert_eq!(String::from_utf8(a.dump(&src)).unwrap(), "let yy = Some(&toks[2..15]);\n");
    let a = lrp::prodbuild::ItemAlias { alias: Span::new(0, 1), optional: None, index: 10, final_index: None };
    assert_eq!(String::from_utf8(a.dump(&src)).unwrap(), "let y = &toks[10];\n");
}

fn sample_parts() -> Vec<(&'static str, &'static str)> {
    vec![
        ("AliasWord", "alias"), ("StrLit", "\"+\""), ("Ident", "Add"), ("Sc", ";"),
        ("Ident", "S"), ("TwoDots", ":"), ("Ident", "T"), ("Assign", "="),
        ("Ident", "a"), ("Optional", "?"), ("TwoDots", ":"), ("Ident", "x"), ("CodeBlock", "->{}%"),
        ("Pipe", "|"), ("StrLit", "\"+\""), ("CodeBlock", "->{1}%"), ("Sc", ";"),
    ]
}

#[test]
fn builder_of_reads_a_grammar_file() {
    let names = wop_names();
    let (toks, src) = layout(&names, &sample_parts());
    let b = builder_of(toks.into_iter().collect::<VecDeque<_>>(), &src.as_bytes().to_vec()).unwrap();
    let (expected, _) = builder_of_sample();
    assert_eq!(b.aliases, expected.aliases);
    assert_eq!(b.rules.len(), 1);
    assert_eq!(b.rules[0].0, b"S".to_vec());
    assert_eq!(b.rules[0].1.len(), expected.rules[0].1.len());
    for (p, q) in b.rules[0].1.iter().zip(expected.rules[0].1.iter()) {
        assert_eq!(p.production, q.production);
        assert_eq!(p.codeblock, q.codeblock);
        assert_eq!(p.ty, q.ty);
        assert_eq!(p.aliases.len(), q.aliases.len());
        for (x, y) in p.aliases.iter().zip(q.aliases.iter()) {
            assert_eq!((x.alias, x.optional, x.index, x.final_index), (y.alias, y.optional, y.index, y.final_index));
        }
    }
    assert_eq!(b.imports, expected.imports);
    let bytes = src.as_bytes().to_vec();
    assert!(b.spans_within(bytes.len()));
    assert!(b.blocks_marked(&bytes));
}

#[test]
fn builder_of_refuses_a_rule_declared_twice() {
    let names = wop_names();
    let mut parts = sample_parts();
    parts.extend_from_slice(&[("Ident", "S"), ("TwoDots", ":"), ("Ident", "T"), ("Assign", "="),
        ("Ident", "b"), ("CodeBlock", "->{2}%"), ("Sc", ";")]);
    let (toks, src) = layout(&names, &parts);
    assert!(builder_of(toks.into_iter().collect::<VecDeque<_>>(), &src.as_bytes().to_vec()).is_none());
}

#[test]
fn builder_of_refuses_tokens_it_cannot_parse() {
    let names = wop_names();
    let (toks, src) = layout(&names, &[("Ident", "S"), ("Sc", ";")]);
    assert!(builder_of(toks.into_iter().collect::<VecDeque<_>>(), &src.as_bytes().to_vec()).is_none());
}

#[test]
fn blocks_marked_refuses_a_block_without_its_marks() {
    let names = wop_names();
    let (toks, src) = layout(&names, &[("Ident", "S"), ("TwoDots", ":"), ("Ident", "T"), ("Assign", "="),
        ("Ident", "a"), ("CodeBlock", "{1}"), ("Sc", ";")]);
    let bytes = src.as_bytes().to_vec();
    let b = builder_of(toks.into_iter().collect::<VecDeque<_>>(), &bytes).unwrap();
    assert!(b.spans_within(bytes.len()));
    assert!(!b.blocks_marked(&bytes));
    assert!(!b.spans_within(3));
}

#[test]
fn get_src_ref_gives_the_span_of_a_path() {
    assert_eq!(Ast::IdentPath(Span::new(2, 5)).get_src_ref(), Some(Span::new(2, 5)));
    assert_eq!(Ast::Import(Span::new(2, 5)).get_src_ref(), None);
}

#[test]
fn get_program_instructions_gives_the_declarations() {
    let names = wop_names();
    let (toks, src) = layout(&names, &sample_parts());
    let program = match Slr::new(wop()).parse(toks, WopReductor) { Ok(t) => t, Err(e) => panic!("{e:?}") };
    let program = Token::new(program, names.iter().position(|n| *n == "Program").unwrap());
    let ds = Builder::get_program_instructions(&program);
    assert_eq!(ds.len(), 2);
    assert!(matches!(ds[0].item.item, Ast::Alias(_, _)));
    assert!(matches!(ds[1].item.item, Ast::RuleDecl(_, _, _)));
    let _ = src;
}
