use lrp::action::Action;
use lrp::clr::Clr;
use lrp::grammars::{
    dragon_book, dragon_book_names, puncs, puncs_names, scanner, scanner_names, serokell,
    serokell_names, ucalgary_uni_oth_lr1, ucalgary_uni_oth_lr1_names, wikipedia, wikipedia_names,
};
use lrp::lalr::Lalr;
use lrp::slr::Slr;
use lrp::{to_tokens, Token};

/// The symbol-only tokens of `input`, each name replaced by its symbol number.
fn tokens(names: &[&'static str], input: &[&str]) -> Vec<Token<(), usize>> {
    let ids: Vec<usize> = input
        .iter()
        .map(|s| names.iter().position(|n| n == s).expect("unknown symbol"))
        .collect();
    to_tokens(&ids)
}

const DRAGON_BOOK_INPUTS: &[&[&str]] = &[
    &["d", "d"],
    &["d", "c", "d"],
    &["c", "d", "d"],
    &["d", "c", "c", "d"],
    &["c", "d", "c", "d"],
    &["c", "c", "d", "d"],
    &["d", "c", "c", "c", "d"],
    &["c", "d", "c", "c", "d"],
    &["c", "c", "d", "c", "d"],
    &["c", "c", "c", "d", "d"],
    &["d", "c", "c", "c", "c", "d"],
    &["c", "d", "c", "c", "c", "d"],
    &["c", "c", "d", "c", "c", "d"],
    &["c", "c", "c", "d", "c", "d"],
    &["c", "c", "c", "c", "d", "d"],
    &["d", "c", "c", "c", "c", "c", "d"],
    &["c", "d", "c", "c", "c", "c", "d"],
    &["c", "c", "d", "c", "c", "c", "d"],
    &["c", "c", "c", "d", "c", "c", "d"],
    &["c", "c", "c", "c", "d", "c", "d"],
    &["c", "c", "c", "c", "c", "d", "d"],
    &["d", "c", "c", "c", "c", "c", "c", "c", "c", "d"],
    &["c", "d", "c", "c", "c", "c", "c", "c", "c", "d"],
    &["c", "c", "d", "c", "c", "c", "c", "c", "c", "d"],
    &["c", "c", "c", "d", "c", "c", "c", "c", "c", "d"],
    &["c", "c", "c", "c", "c", "c", "d", "c", "c", "d"],
    &["c", "c", "c", "c", "c", "c", "c", "d", "c", "d"],
    &["c", "c", "c", "c", "c", "c", "c", "c", "d", "d"],
    &["d", "c", "c", "c", "c", "c", "c", "c", "d"],
    &["c", "d", "c", "c", "c", "c", "c", "c", "d"],
];

const WIKIPEDIA_INPUTS: &[&[&str]] = &[
    &["0"],
    &["1"],
    &["0", "*", "0"],
    &["0", "*", "1"],
    &["1", "*", "0"],
    &["1", "*", "1"],
    &["0", "+", "0"],
    &["0", "+", "1"],
    &["1", "+", "0"],
    &["1", "+", "1"],
    &["0", "*", "0", "*", "0"],
    &["0", "*", "0", "*", "1"],
    &["0", "*", "1", "*", "0"],
    &["0", "*", "1", "*", "1"],
    &["1", "*", "0", "*", "0"],
    &["1", "*", "0", "*", "1"],
    &["1", "*", "1", "*", "0"],
    &["1", "*", "1", "*", "1"],
    &["0", "+", "0", "*", "0"],
    &["0", "+", "0", "*", "1"],
    &["0", "+", "1", "*", "0"],
    &["0", "+", "1", "*", "1"],
    &["1", "+", "0", "*", "0"],
    &["1", "+", "0", "*", "1"],
    &["1", "+", "1", "*", "0"],
    &["1", "+", "1", "*", "1"],
    &["0", "*", "0", "+", "0"],
    &["0", "*", "0", "+", "1"],
    &["0", "*", "1", "+", "0"],
    &["0", "*", "1", "+", "1"],
];

const UCALGARY_UNI_OTH_LR1_INPUTS: &[&[&str]] = &[
    &["e", "a", "c"],
    &["d", "a", "b"],
    &["d", "e", "a", "c"],
    &["d", "e", "a", "b"],
    &["e", "d", "a", "b"],
    &["e", "d", "a", "c"],
    &["d", "d", "e", "a", "b"],
    &["e", "e", "d", "a", "c"],
];

const SEROKELL_INPUTS: &[&[&str]] = &[
    &["int"],
    &["int", "*", "int"],
    &["ident", "*", "int"],
    &["(", "int", ")"],
    &["int", "+", "int"],
    &["ident", "+", "int"],
    &["int", "*", "int", "*", "int"],
    &["int", "*", "ident", "*", "int"],
    &["ident", "*", "int", "*", "int"],
    &["ident", "*", "ident", "*", "int"],
    &["int", "*", "(", "int", ")"],
    &["ident", "*", "(", "int", ")"],
    &["int", "*", "int", "+", "int"],
    &["int", "*", "(", "ident", "+", "int", ")"],
    &["ident", "*", "int", "+", "int"],
    &[
        "(", "(", "(", "(", "(", "(", "(", "(", "(", "(", "(", "(", "(", "(", "(", "(", "(", "(",
        "(", "(", "(", "(", "int", ")", ")", ")", ")", ")", ")", ")", ")", ")", ")", ")", ")", ")",
        ")", ")", ")", ")", ")", ")", ")", ")", ")",
    ],
];

const PUNCS_INPUTS: &[&[&str]] = &[
    &["(", ")"],
    &["[", "]"],
    &["{", "}"],
    &["(", "(", ")", ")"],
    &["(", "[", "]", ")"],
    &["(", "{", "}", ")"],
    &["[", "(", ")", "]"],
    &["[", "[", "]", "]"],
    &["[", "{", "}", "]"],
    &["{", "(", ")", "}"],
    &["{", "[", "]", "}"],
    &["{", "{", "}", "}"],
    &["(", "(", "(", ")", ")", ")"],
    &["(", "(", "[", "]", ")", ")"],
    &["(", "(", "{", "}", ")", ")"],
    &["(", "[", "(", ")", "]", ")"],
    &["(", "[", "[", "]", "]", ")"],
    &["(", "[", "{", "}", "]", ")"],
    &["(", "{", "(", ")", "}", ")"],
    &["(", "{", "[", "]", "}", ")"],
    &["(", "{", "{", "}", "}", ")"],
    &["[", "(", "(", ")", ")", "]"],
    &["[", "(", "[", "]", ")", "]"],
    &["[", "(", "{", "}", ")", "]"],
    &["[", "[", "(", ")", "]", "]"],
    &["[", "[", "[", "]", "]", "]"],
    &["[", "[", "{", "}", "]", "]"],
    &["[", "{", "(", ")", "}", "]"],
    &["[", "{", "[", "]", "}", "]"],
    &["[", "{", "{", "}", "}", "]"],
];

const SCANNER_INPUTS: &[&[&str]] = &[
    &[
        "l", "o", "r", "e", "m", "_", "i", "p", "s", "u", "m", "_", "d", "o", "l", "o", "r", "_",
        "s", "i", "t", "_", "a", "m", "e", "t",
    ],
    &[
        "i", "n", "_", "v", "i", "n", "o", "_", "v", "e", "r", "i", "t", "a", "s", "_", "b", "e",
        "f", "o", "r", "e", "_", "7", "9", "_", "a", "c",
    ],
    &[
        "1", "2", "_", "t", "i", "m", "e", "s", "_", "3", "_", "i", "s", "_", "e", "q", "u", "a",
        "l", "_", "t", "o", "_", "4", "0", "_", "m", "i", "n", "u", "s", "_", "4",
    ],
    &["0", "1", "2", "3", "4", "5", "6", "7", "8", "9"],
    &[
        "f", "i", "n", "a", "l", "_", "d", "e", "_", "s", "e", "m", "a", "n", "a", "_", "e", "l",
        "a", "_", "v", "a", "i", "_", "p", "r", "a", "_", "r", "u", "a",
    ],
];

const NON_LALR_UCALGARY_UNI_OTH_LR1_INPUTS: &[&[&str]] = &[
    &["d", "e", "a", "c"],
    &["d", "e", "a", "b"],
    &["e", "d", "a", "b"],
    &["e", "d", "a", "c"],
];

#[test]
fn clr_dragon_book() {
    let names = dragon_book_names();
    let parser = Clr::new(dragon_book());
    assert_eq!(0, parser.tables().conflicts().len());

    for input in DRAGON_BOOK_INPUTS {
        assert!(parser.validate(tokens(&names, input)));
    }
}

#[test]
fn clr_wikipedia() {
    let names = wikipedia_names();
    let parser = Clr::new(wikipedia());
    assert_eq!(0, parser.tables().conflicts().len());

    for input in WIKIPEDIA_INPUTS {
        assert!(parser.validate(tokens(&names, input)));
    }
}

#[test]
fn clr_ucalgary_uni_oth_lr1() {
    let names = ucalgary_uni_oth_lr1_names();
    let parser = Clr::new(ucalgary_uni_oth_lr1());
    assert_eq!(0, parser.tables().conflicts().len());

    for input in UCALGARY_UNI_OTH_LR1_INPUTS {
        assert!(parser.validate(tokens(&names, input)));
    }
}

#[test]
fn clr_serokell() {
    let names = serokell_names();
    let parser = Clr::new(serokell());
    assert_eq!(0, parser.tables().conflicts().len());

    for input in SEROKELL_INPUTS {
        assert!(parser.validate(tokens(&names, input)));
    }
}

#[test]
fn clr_puncs() {
    let names = puncs_names();
    let parser = Clr::new(puncs());
    assert_eq!(0, parser.tables().conflicts().len());

    for input in PUNCS_INPUTS {
        assert!(parser.validate(tokens(&names, input)));
    }
}

#[test]
fn clr_scanner() {
    let names = scanner_names();
    let parser = Clr::new(scanner());
    assert_eq!(0, parser.tables().conflicts().len());

    for input in SCANNER_INPUTS {
        assert!(parser.validate(tokens(&names, input)));
    }
}

#[test]
fn slr_dragon_book() {
    let names = dragon_book_names();
    let parser = Slr::new(dragon_book());
    assert_eq!(0, parser.tables().conflicts().len());

    for input in DRAGON_BOOK_INPUTS {
        assert!(parser.validate(tokens(&names, input)));
    }
}

#[test]
fn slr_wikipedia() {
    let names = wikipedia_names();
    let parser = Slr::new(wikipedia());
    assert_eq!(0, parser.tables().conflicts().len());

    for input in WIKIPEDIA_INPUTS {
        assert!(parser.validate(tokens(&names, input)));
    }
}

#[test]
fn slr_ucalgary_uni_oth_lr1() {
    let names = ucalgary_uni_oth_lr1_names();
    let parser = Slr::new(ucalgary_uni_oth_lr1());
    assert_eq!(2, parser.tables().conflicts().len());

    for input in UCALGARY_UNI_OTH_LR1_INPUTS {
        assert_eq!(
            parser.validate(tokens(&names, input)),
            !NON_LALR_UCALGARY_UNI_OTH_LR1_INPUTS.contains(input)
        );
    }
}

#[test]
fn slr_serokell() {
    let names = serokell_names();
    let parser = Slr::new(serokell());
    assert_eq!(0, parser.tables().conflicts().len());

    for input in SEROKELL_INPUTS {
        assert!(parser.validate(tokens(&names, input)));
    }
}

#[test]
fn slr_puncs() {
    let names = puncs_names();
    let parser = Slr::new(puncs());
    assert_eq!(0, parser.tables().conflicts().len());

    for input in PUNCS_INPUTS {
        assert!(parser.validate(tokens(&names, input)));
    }
}

#[test]
fn slr_scanner() {
    let names = scanner_names();
    let parser = Slr::new(scanner());
    assert_eq!(0, parser.tables().conflicts().len());

    for input in SCANNER_INPUTS {
        assert!(parser.validate(tokens(&names, input)));
    }
}

#[test]
fn lalr_dragon_book() {
    let names = dragon_book_names();
    let parser = Lalr::new(dragon_book());
    assert_eq!(0, parser.tables().conflicts().len());

    for input in DRAGON_BOOK_INPUTS {
        assert!(parser.validate(tokens(&names, input)));
    }
}

#[test]
fn lalr_wikipedia() {
    let names = wikipedia_names();
    let parser = Lalr::new(wikipedia());
    assert_eq!(0, parser.tables().conflicts().len());

    for input in WIKIPEDIA_INPUTS {
        assert!(parser.validate(tokens(&names, input)));
    }
}

#[test]
fn lalr_ucalgary_uni_oth_lr1() {
    let names = ucalgary_uni_oth_lr1_names();
    let parser = Lalr::new(ucalgary_uni_oth_lr1());
    assert_eq!(2, parser.tables().conflicts().len());

    for input in UCALGARY_UNI_OTH_LR1_INPUTS {
        assert_eq!(
            parser.validate(tokens(&names, input)),
            !NON_LALR_UCALGARY_UNI_OTH_LR1_INPUTS.contains(input)
        );
    }
}

#[test]
fn lalr_serokell() {
    let names = serokell_names();
    let parser = Lalr::new(serokell());
    assert_eq!(0, parser.tables().conflicts().len());

    for input in SEROKELL_INPUTS {
        assert!(parser.validate(tokens(&names, input)));
    }
}

#[test]
fn lalr_puncs() {
    let names = puncs_names();
    let parser = Lalr::new(puncs());
    assert_eq!(0, parser.tables().conflicts().len());

    for input in PUNCS_INPUTS {
        assert!(parser.validate(tokens(&names, input)));
    }
}

#[test]
fn lalr_scanner() {
    let names = scanner_names();
    let parser = Lalr::new(scanner());
    assert_eq!(0, parser.tables().conflicts().len());

    for input in SCANNER_INPUTS {
        assert!(parser.validate(tokens(&names, input)));
    }
}

#[test]
fn stack_fmt_interleaves_states_and_symbol_names() {
    let names = dragon_book_names();
    let parser = Clr::new(dragon_book());
    let mut dfa = parser.simple_dfa(tokens(&names, &["d", "d"]));
    assert!(lrp::dfa::rows_ok(&dfa.table));
    let table: Vec<Vec<u8>> = names.iter().map(|n| n.as_bytes().to_vec()).collect();
    assert_eq!(String::from_utf8(dfa.stack_fmt(&table)).unwrap(), "0");
    let sym = dfa.next_symbol();
    dfa.travel(sym).unwrap();
    assert_eq!(String::from_utf8(dfa.stack_fmt(&table)).unwrap(), format!("0 d {}", dfa.top));
}

#[test]
fn rows_ok_refuses_a_row_whose_symbols_do_not_increase() {
    assert!(lrp::dfa::rows_ok(&vec![vec![(1, Action::Acc), (3, Action::Acc)], vec![]]));
    assert!(!lrp::dfa::rows_ok(&vec![vec![(3, Action::Acc), (1, Action::Acc)]]));
    assert!(!lrp::dfa::rows_ok(&vec![vec![(2, Action::Acc), (2, Action::Acc)]]));
}
