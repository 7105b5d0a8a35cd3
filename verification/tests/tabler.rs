use std::collections::{BTreeMap, BTreeSet};

use lrp::grammars::{
    dragon_book, dragon_book_names, puncs, puncs_names, scanner, scanner_names, serokell,
    serokell_names, ucalgary_uni_oth_lr1, ucalgary_uni_oth_lr1_names, wikipedia, wikipedia_names,
};
use lrp::table::Table;
use lrp::tabler::Tabler;

type Named = BTreeMap<&'static str, BTreeSet<&'static str>>;

fn named(table: &Table, names: &[&'static str]) -> Named {
    table
        .iter()
        .map(|(k, v)| (names[*k], v.iter().map(|s| names[*s]).collect()))
        .collect()
}

#[test]
pub fn tabler_dragon_book() {
    let names = dragon_book_names();
    let table = Tabler::new(dragon_book());

    assert_eq!(
        named(&table.first, &names),
        Named::from([("S", BTreeSet::from(["c", "d"])), ("C", BTreeSet::from(["c", "d"])),])
    );

    assert_eq!(
        named(&table.follow, &names),
        Named::from([("C", BTreeSet::from(["$", "c", "d"])), ("S", BTreeSet::from(["$"])),])
    );
}

#[test]
fn tabler_wikipedia() {
    let names = wikipedia_names();
    let table = Tabler::new(wikipedia());

    assert_eq!(
        named(&table.first, &names),
        Named::from([
            ("S", BTreeSet::from(["0", "1"])),
            ("E", BTreeSet::from(["0", "1"])),
            ("B", BTreeSet::from(["0", "1"])),
        ])
    );

    assert_eq!(
        named(&table.follow, &names),
        Named::from([
            ("B", BTreeSet::from(["$", "*", "+"])),
            ("E", BTreeSet::from(["$", "*", "+"])),
            ("S", BTreeSet::from(["$"])),
        ])
    );
}

#[test]
fn tabler_ucalgary_uni_oth_lr1() {
    let names = ucalgary_uni_oth_lr1_names();
    let table = Tabler::new(ucalgary_uni_oth_lr1());

    assert_eq!(
        named(&table.first, &names),
        Named::from([
            ("A", BTreeSet::from(["a"])),
            ("B", BTreeSet::from(["a"])),
            ("C", BTreeSet::from(["d", "e"])),
            ("D", BTreeSet::from(["d", "e"])),
            ("E", BTreeSet::from(["d", "e"])),
            ("F", BTreeSet::from(["d", "e"])),
            ("S", BTreeSet::from(["d", "e"])),
        ])
    );

    assert_eq!(
        named(&table.follow, &names),
        Named::from([
            ("A", BTreeSet::from(["b", "c"])),
            ("B", BTreeSet::from(["b", "c"])),
            ("C", BTreeSet::from(["$"])),
            ("D", BTreeSet::from(["$"])),
            ("E", BTreeSet::from(["$"])),
            ("F", BTreeSet::from(["$"])),
            ("S", BTreeSet::from(["$"])),
        ])
    );
}

#[test]
fn tabler_serokell() {
    let names = serokell_names();
    let table = Tabler::new(serokell());

    assert_eq!(
        named(&table.first, &names),
        Named::from([
            ("Add", BTreeSet::from(["(", "ident", "int"])),
            ("Factor", BTreeSet::from(["(", "ident", "int"])),
            ("Start", BTreeSet::from(["(", "ident", "int"])),
            ("Term", BTreeSet::from(["(", "ident", "int"])),
        ])
    );

    assert_eq!(
        named(&table.follow, &names),
        Named::from([
            ("Add", BTreeSet::from(["$", ")", "+"])),
            ("Factor", BTreeSet::from(["$", ")", "*", "+"])),
            ("Term", BTreeSet::from(["$", ")", "*", "+"])),
            ("Start", BTreeSet::from(["$"])),
        ])
    );
}

#[test]
pub fn tabler_puncs() {
    let names = puncs_names();
    let table = Tabler::new(puncs());

    assert_eq!(
        named(&table.first, &names),
        Named::from([
            ("S'", BTreeSet::from(["(", "[", "{",])),
            ("S", BTreeSet::from(["(", "[", "{",])),
        ])
    );

    assert_eq!(
        named(&table.follow, &names),
        Named::from([
            ("S'", BTreeSet::from(["$",])),
            ("S", BTreeSet::from(["$", ")", "]", "}",])),
        ])
    );
}

#[test]
pub fn tabler_scanner() {
    let names = scanner_names();
    let table = Tabler::new(scanner());
    assert_eq!(
        named(&table.first, &names),
        Named::from([
            (
                "Alpha",
                BTreeSet::from([
                    "a", "b", "c", "d", "e", "f", "g", "h", "i", "j", "k", "l", "m", "n", "o",
                    "p", "q", "r", "s", "t", "u", "v", "w", "x", "y", "z"
                ]),
            ),
            (
                "Digit",
                BTreeSet::from(["0", "1", "2", "3", "4", "5", "6", "7", "8", "9"]),
            ),
            (
                "Item",
                BTreeSet::from([
                    "0", "1", "2", "3", "4", "5", "6", "7", "8", "9", "a", "b", "c", "d", "e",
                    "f", "g", "h", "i", "j", "k", "l", "m", "n", "o", "p", "q", "r", "s", "t",
                    "u", "v", "w", "x", "y", "z"
                ]),
            ),
            (
                "S",
                BTreeSet::from([
                    "0", "1", "2", "3", "4", "5", "6", "7", "8", "9", "a", "b", "c", "d", "e",
                    "f", "g", "h", "i", "j", "k", "l", "m", "n", "o", "p", "q", "r", "s", "t",
                    "u", "v", "w", "x", "y", "z"
                ]),
            ),
            (
                "Num",
                BTreeSet::from(["0", "1", "2", "3", "4", "5", "6", "7", "8", "9"]),
            ),
            (
                "Phrase",
                BTreeSet::from([
                    "0", "1", "2", "3", "4", "5", "6", "7", "8", "9", "a", "b", "c", "d", "e",
                    "f", "g", "h", "i", "j", "k", "l", "m", "n", "o", "p", "q", "r", "s", "t",
                    "u", "v", "w", "x", "y", "z"
                ]),
            ),
            ("Space", BTreeSet::from(["_"])),
            (
                "Word",
                BTreeSet::from([
                    "a", "b", "c", "d", "e", "f", "g", "h", "i", "j", "k", "l", "m", "n", "o",
                    "p", "q", "r", "s", "t", "u", "v", "w", "x", "y", "z"
                ])
            )
        ])
    );

    assert_eq!(
        named(&table.follow, &names),
        Named::from([
            (
                "Alpha",
                BTreeSet::from([
                    "$", "_", "a", "b", "c", "d", "e", "f", "g", "h", "i", "j", "k", "l", "m",
                    "n", "o", "p", "q", "r", "s", "t", "u", "v", "w", "x", "y", "z"
                ])
            ),
            (
                "Digit",
                BTreeSet::from(["$", "0", "1", "2", "3", "4", "5", "6", "7", "8", "9", "_"])
            ),
            ("Item", BTreeSet::from(["$", "_"])),
            ("S", BTreeSet::from(["$"])),
            ("Num", BTreeSet::from(["$", "_"])),
            ("Phrase", BTreeSet::from(["$"])),
            (
                "Space",
                BTreeSet::from([
                    "0", "1", "2", "3", "4", "5", "6", "7", "8", "9", "a", "b", "c", "d", "e",
                    "f", "g", "h", "i", "j", "k", "l", "m", "n", "o", "p", "q", "r", "s", "t",
                    "u", "v", "w", "x", "y", "z"
                ])
            ),
            ("Word", BTreeSet::from(["$", "_"]))
        ])
    );
}
