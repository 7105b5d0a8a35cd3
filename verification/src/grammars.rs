//! Example grammars, each over symbols numbered in the order of their names.
use vstd::prelude::*;

use crate::grammar::{Grammar, Rule, bodies, inserted, law_terminals_from_rules, rule_bodies, rules_numbered};
use crate::symset::lemma_sorted_set_ext;

verus! {

/// The symbol names of [`dragon_book`], indexed by symbol number.
pub fn dragon_book_names() -> (v: Vec<&'static str>)
    ensures
        v@ == seq!["$", "C", "S", "c", "d"],
{
    vec!["$", "C", "S", "c", "d"]
}

/// The grammar
/// ```text
/// S -> C C.
/// C -> c C.
/// C -> d.
/// ```
/// over the symbols of [`dragon_book_names`], with `$` as end of input.
pub fn dragon_book() -> (g: Grammar)
    ensures
        g.wf(),
        g.basis.rule == 2,
        g.eof() == 0,
        rule_bodies(g.rules@) == map![1usize => seq![seq![3usize, 1usize], seq![4usize]], 2usize => seq![seq![1usize, 1usize]]],
        rules_numbered(g.rules@),
        g.terminals@ == seq![0usize, 3usize, 4usize],
{
    let eof: usize = 0;
    let n_c: usize = 1;
    let n_s: usize = 2;
    let t_c: usize = 3;
    let t_d: usize = 4;
    let mut rules: Vec<Rule> = Vec::new();
    rules.push(Rule::new(n_c, vec![vec![t_c, n_c], vec![t_d]]));
    rules.push(Rule::new(n_s, vec![vec![n_c, n_c]]));
    proof {
        reveal_with_fuel(inserted, 3);
        assert(bodies(rules@[0]) =~~= seq![seq![3usize, 1usize], seq![4usize]]);
        assert(bodies(rules@[1]) =~~= seq![seq![1usize, 1usize]]);
    }
    let g = Grammar::new(n_s, rules, eof);
    proof {
        assert(rule_bodies(g.rules@) =~~= map![1usize => seq![seq![3usize, 1usize], seq![4usize]], 2usize => seq![seq![1usize, 1usize]]]);
        let m = rule_bodies(g.rules@);
        let ts = seq![0usize, 3usize, 4usize];
        law_terminals_from_rules(g);
        assert forall|t: usize| #[trigger] g.terminals@.contains(t) <==> ts.contains(t) by {
            if t == 3 {
                assert(m[1usize][0][0] == 3usize);
            }
            if t == 4 {
                assert(m[1usize][1][0] == 4usize);
            }
            if ts.contains(t) {
                let i = choose|i: int| 0 <= i < ts.len() && ts[i] == t;
            }
        }
        lemma_sorted_set_ext(g.terminals@, ts);
    }
    g
}

/// The symbol names of [`serokell`], indexed by symbol number.
pub fn serokell_names() -> (v: Vec<&'static str>)
    ensures
        v@ == seq!["$", "(", ")", "*", "+", "Add", "Factor", "Start", "Term", "ident", "int"],
{
    vec!["$", "(", ")", "*", "+", "Add", "Factor", "Start", "Term", "ident", "int"]
}

/// The grammar
/// ```text
/// Start -> Add.
/// Add -> Add + Factor.
/// Add -> Factor.
/// Factor -> Factor * Term.
/// Factor -> Term.
/// Term -> ( Add ).
/// Term -> int.
/// Term -> ident.
/// ```
/// over the symbols of [`serokell_names`], with `$` as end of input.
pub fn serokell() -> (g: Grammar)
    ensures
        g.wf(),
        g.basis.rule == 7,
        g.eof() == 0,
        rule_bodies(g.rules@) == map![5usize => seq![seq![5usize, 4usize, 6usize], seq![6usize]], 6usize => seq![seq![6usize, 3usize, 8usize], seq![8usize]], 7usize => seq![seq![5usize]], 8usize => seq![seq![1usize, 5usize, 2usize], seq![10usize], seq![9usize]]],
        rules_numbered(g.rules@),
        g.terminals@ == seq![0usize, 1usize, 2usize, 3usize, 4usize, 9usize, 10usize],
{
    let eof: usize = 0;
    let lparen: usize = 1;
    let rparen: usize = 2;
    let star: usize = 3;
    let plus: usize = 4;
    let n_add: usize = 5;
    let n_factor: usize = 6;
    let n_start: usize = 7;
    let n_term: usize = 8;
    let t_ident: usize = 9;
    let t_int: usize = 10;
    let mut rules: Vec<Rule> = Vec::new();
    rules.push(Rule::new(n_add, vec![vec![n_add, plus, n_factor], vec![n_factor]]));
    rules.push(Rule::new(n_factor, vec![vec![n_factor, star, n_term], vec![n_term]]));
    rules.push(Rule::new(n_term, vec![vec![lparen, n_add, rparen], vec![t_int], vec![t_ident]]));
    rules.push(Rule::new(n_start, vec![vec![n_add]]));
    proof {
        reveal_with_fuel(inserted, 5);
        assert(bodies(rules@[0]) =~~= seq![seq![5usize, 4usize, 6usize], seq![6usize]]);
        assert(bodies(rules@[1]) =~~= seq![seq![6usize, 3usize, 8usize], seq![8usize]]);
        assert(bodies(rules@[2]) =~~= seq![seq![1usize, 5usize, 2usize], seq![10usize], seq![9usize]]);
        assert(bodies(rules@[3]) =~~= seq![seq![5usize]]);
    }
    let g = Grammar::new(n_start, rules, eof);
    proof {
        assert(rule_bodies(g.rules@) =~~= map![5usize => seq![seq![5usize, 4usize, 6usize], seq![6usize]], 6usize => seq![seq![6usize, 3usize, 8usize], seq![8usize]], 7usize => seq![seq![5usize]], 8usize => seq![seq![1usize, 5usize, 2usize], seq![10usize], seq![9usize]]]);
        let m = rule_bodies(g.rules@);
        let ts = seq![0usize, 1usize, 2usize, 3usize, 4usize, 9usize, 10usize];
        law_terminals_from_rules(g);
        assert forall|t: usize| #[trigger] g.terminals@.contains(t) <==> ts.contains(t) by {
            if t == 1 {
                assert(m[8usize][0][0] == 1usize);
            }
            if t == 2 {
                assert(m[8usize][0][2] == 2usize);
            }
            if t == 3 {
                assert(m[6usize][0][1] == 3usize);
            }
            if t == 4 {
                assert(m[5usize][0][1] == 4usize);
            }
            if t == 9 {
                assert(m[8usize][2][0] == 9usize);
            }
            if t == 10 {
                assert(m[8usize][1][0] == 10usize);
            }
            if ts.contains(t) {
                let i = choose|i: int| 0 <= i < ts.len() && ts[i] == t;
            }
        }
        lemma_sorted_set_ext(g.terminals@, ts);
    }
    g
}

/// The symbol names of [`ucalgary_uni_oth_lr1`], indexed by symbol number.
pub fn ucalgary_uni_oth_lr1_names() -> (v: Vec<&'static str>)
    ensures
        v@ == seq!["$", "A", "B", "C", "D", "E", "F", "S", "a", "b", "c", "d", "e"],
{
    vec!["$", "A", "B", "C", "D", "E", "F", "S", "a", "b", "c", "d", "e"]
}

/// The grammar
/// ```text
/// S -> E.
/// E -> d D.
/// E -> D.
/// E -> F.
/// F -> e C.
/// F -> C.
/// D -> d e B b.
/// D -> e A c.
/// C -> e d B c.
/// C -> d A b.
/// B -> a.
/// A -> a.
/// ```
/// over the symbols of [`ucalgary_uni_oth_lr1_names`], with `$` as end of input.
pub fn ucalgary_uni_oth_lr1() -> (g: Grammar)
    ensures
        g.wf(),
        g.basis.rule == 7,
        g.eof() == 0,
        rule_bodies(g.rules@) == map![1usize => seq![seq![8usize]], 2usize => seq![seq![8usize]], 3usize => seq![seq![12usize, 11usize, 2usize, 10usize], seq![11usize, 1usize, 9usize]], 4usize => seq![seq![11usize, 12usize, 2usize, 9usize], seq![12usize, 1usize, 10usize]], 5usize => seq![seq![11usize, 4usize], seq![4usize], seq![6usize]], 6usize => seq![seq![12usize, 3usize], seq![3usize]], 7usize => seq![seq![5usize]]],
        rules_numbered(g.rules@),
        g.terminals@ == seq![0usize, 8usize, 9usize, 10usize, 11usize, 12usize],
{
    let eof: usize = 0;
    let n_a: usize = 1;
    let n_b: usize = 2;
    let n_c: usize = 3;
    let n_d: usize = 4;
    let n_e: usize = 5;
    let n_f: usize = 6;
    let n_s: usize = 7;
    let t_a: usize = 8;
    let t_b: usize = 9;
    let t_c: usize = 10;
    let t_d: usize = 11;
    let t_e: usize = 12;
    let mut rules: Vec<Rule> = Vec::new();
    rules.push(Rule::new(n_e, vec![vec![t_d, n_d], vec![n_d], vec![n_f]]));
    rules.push(Rule::new(n_f, vec![vec![t_e, n_c], vec![n_c]]));
    rules.push(Rule::new(n_d, vec![vec![t_d, t_e, n_b, t_b], vec![t_e, n_a, t_c]]));
    rules.push(Rule::new(n_c, vec![vec![t_e, t_d, n_b, t_c], vec![t_d, n_a, t_b]]));
    rules.push(Rule::new(n_b, vec![vec![t_a]]));
    rules.push(Rule::new(n_a, vec![vec![t_a]]));
    rules.push(Rule::new(n_s, vec![vec![n_e]]));
    proof {
        reveal_with_fuel(inserted, 8);
        assert(bodies(rules@[0]) =~~= seq![seq![11usize, 4usize], seq![4usize], seq![6usize]]);
        assert(bodies(rules@[1]) =~~= seq![seq![12usize, 3usize], seq![3usize]]);
        assert(bodies(rules@[2]) =~~= seq![seq![11usize, 12usize, 2usize, 9usize], seq![12usize, 1usize, 10usize]]);
        assert(bodies(rules@[3]) =~~= seq![seq![12usize, 11usize, 2usize, 10usize], seq![11usize, 1usize, 9usize]]);
        assert(bodies(rules@[4]) =~~= seq![seq![8usize]]);
        assert(bodies(rules@[5]) =~~= seq![seq![8usize]]);
        assert(bodies(rules@[6]) =~~= seq![seq![5usize]]);
    }
    let g = Grammar::new(n_s, rules, eof);
    proof {
        assert(rule_bodies(g.rules@) =~~= map![1usize => seq![seq![8usize]], 2usize => seq![seq![8usize]], 3usize => seq![seq![12usize, 11usize, 2usize, 10usize], seq![11usize, 1usize, 9usize]], 4usize => seq![seq![11usize, 12usize, 2usize, 9usize], seq![12usize, 1usize, 10usize]], 5usize => seq![seq![11usize, 4usize], seq![4usize], seq![6usize]], 6usize => seq![seq![12usize, 3usize], seq![3usize]], 7usize => seq![seq![5usize]]]);
        let m = rule_bodies(g.rules@);
        let ts = seq![0usize, 8usize, 9usize, 10usize, 11usize, 12usize];
        law_terminals_from_rules(g);
        assert forall|t: usize| #[trigger] g.terminals@.contains(t) <==> ts.contains(t) by {
            if t == 8 {
                assert(m[1usize][0][0] == 8usize);
            }
            if t == 9 {
                assert(m[3usize][1][2] == 9usize);
            }
            if t == 10 {
                assert(m[3usize][0][3] == 10usize);
            }
            if t == 11 {
                assert(m[3usize][0][1] == 11usize);
            }
            if t == 12 {
                assert(m[3usize][0][0] == 12usize);
            }
            if ts.contains(t) {
                let i = choose|i: int| 0 <= i < ts.len() && ts[i] == t;
            }
        }
        lemma_sorted_set_ext(g.terminals@, ts);
    }
    g
}

/// The symbol names of [`wikipedia`], indexed by symbol number.
pub fn wikipedia_names() -> (v: Vec<&'static str>)
    ensures
        v@ == seq!["$", "*", "+", "0", "1", "B", "E", "S"],
{
    vec!["$", "*", "+", "0", "1", "B", "E", "S"]
}

/// The grammar
/// ```text
/// S -> E.
/// E -> E * B.
/// E -> E + B.
/// E -> B.
/// B -> 0.
/// B -> 1.
/// ```
/// over the symbols of [`wikipedia_names`], with `$` as end of input.
pub fn wikipedia() -> (g: Grammar)
    ensures
        g.wf(),
        g.basis.rule == 7,
        g.eof() == 0,
        rule_bodies(g.rules@) == map![5usize => seq![seq![3usize], seq![4usize]], 6usize => seq![seq![6usize, 1usize, 5usize], seq![6usize, 2usize, 5usize], seq![5usize]], 7usize => seq![seq![6usize]]],
        rules_numbered(g.rules@),
        g.terminals@ == seq![0usize, 1usize, 2usize, 3usize, 4usize],
{
    let eof: usize = 0;
    let star: usize = 1;
    let plus: usize = 2;
    let t_0: usize = 3;
    let t_1: usize = 4;
    let n_b: usize = 5;
    let n_e: usize = 6;
    let n_s: usize = 7;
    let mut rules: Vec<Rule> = Vec::new();
    rules.push(Rule::new(n_e, vec![vec![n_e, star, n_b], vec![n_e, plus, n_b], vec![n_b]]));
    rules.push(Rule::new(n_b, vec![vec![t_0], vec![t_1]]));
    rules.push(Rule::new(n_s, vec![vec![n_e]]));
    proof {
        reveal_with_fuel(inserted, 4);
        assert(bodies(rules@[0]) =~~= seq![seq![6usize, 1usize, 5usize], seq![6usize, 2usize, 5usize], seq![5usize]]);
        assert(bodies(rules@[1]) =~~= seq![seq![3usize], seq![4usize]]);
        assert(bodies(rules@[2]) =~~= seq![seq![6usize]]);
    }
    let g = Grammar::new(n_s, rules, eof);
    proof {
        assert(rule_bodies(g.rules@) =~~= map![5usize => seq![seq![3usize], seq![4usize]], 6usize => seq![seq![6usize, 1usize, 5usize], seq![6usize, 2usize, 5usize], seq![5usize]], 7usize => seq![seq![6usize]]]);
        let m = rule_bodies(g.rules@);
        let ts = seq![0usize, 1usize, 2usize, 3usize, 4usize];
        law_terminals_from_rules(g);
        assert forall|t: usize| #[trigger] g.terminals@.contains(t) <==> ts.contains(t) by {
            if t == 1 {
                assert(m[6usize][0][1] == 1usize);
            }
            if t == 2 {
                assert(m[6usize][1][1] == 2usize);
            }
            if t == 3 {
                assert(m[5usize][0][0] == 3usize);
            }
            if t == 4 {
                assert(m[5usize][1][0] == 4usize);
            }
            if ts.contains(t) {
                let i = choose|i: int| 0 <= i < ts.len() && ts[i] == t;
            }
        }
        lemma_sorted_set_ext(g.terminals@, ts);
    }
    g
}

/// The symbol names of [`puncs`], indexed by symbol number.
pub fn puncs_names() -> (v: Vec<&'static str>)
    ensures
        v@ == seq!["$", "(", ")", "S", "S'", "[", "]", "{", "}"],
{
    vec!["$", "(", ")", "S", "S'", "[", "]", "{", "}"]
}

/// The grammar
/// ```text
/// S' -> S.
/// S -> ( ).
/// S -> ( S ).
/// S -> [ ].
/// S -> [ S ].
/// S -> { }.
/// S -> { S }.
/// ```
/// over the symbols of [`puncs_names`], with `$` as end of input.
pub fn puncs() -> (g: Grammar)
    ensures
        g.wf(),
        g.basis.rule == 4,
        g.eof() == 0,
        rule_bodies(g.rules@) == map![3usize => seq![seq![1usize, 2usize], seq![1usize, 3usize, 2usize], seq![5usize, 6usize], seq![5usize, 3usize, 6usize], seq![7usize, 8usize], seq![7usize, 3usize, 8usize]], 4usize => seq![seq![3usize]]],
        rules_numbered(g.rules@),
        g.terminals@ == seq![0usize, 1usize, 2usize, 5usize, 6usize, 7usize, 8usize],
{
    let eof: usize = 0;
    let lparen: usize = 1;
    let rparen: usize = 2;
    let n_s: usize = 3;
    let n_s_prime: usize = 4;
    let lbrack: usize = 5;
    let rbrack: usize = 6;
    let lbrace: usize = 7;
    let rbrace: usize = 8;
    let mut rules: Vec<Rule> = Vec::new();
    rules.push(Rule::new(n_s, vec![vec![lparen, rparen], vec![lparen, n_s, rparen], vec![lbrack, rbrack], vec![lbrack, n_s, rbrack], vec![lbrace, rbrace], vec![lbrace, n_s, rbrace]]));
    rules.push(Rule::new(n_s_prime, vec![vec![n_s]]));
    proof {
        reveal_with_fuel(inserted, 3);
        assert(bodies(rules@[0]) =~~= seq![seq![1usize, 2usize], seq![1usize, 3usize, 2usize], seq![5usize, 6usize], seq![5usize, 3usize, 6usize], seq![7usize, 8usize], seq![7usize, 3usize, 8usize]]);
        assert(bodies(rules@[1]) =~~= seq![seq![3usize]]);
    }
    let g = Grammar::new(n_s_prime, rules, eof);
    proof {
        assert(rule_bodies(g.rules@) =~~= map![3usize => seq![seq![1usize, 2usize], seq![1usize, 3usize, 2usize], seq![5usize, 6usize], seq![5usize, 3usize, 6usize], seq![7usize, 8usize], seq![7usize, 3usize, 8usize]], 4usize => seq![seq![3usize]]]);
        let m = rule_bodies(g.rules@);
        let ts = seq![0usize, 1usize, 2usize, 5usize, 6usize, 7usize, 8usize];
        law_terminals_from_rules(g);
        assert forall|t: usize| #[trigger] g.terminals@.contains(t) <==> ts.contains(t) by {
            if t == 1 {
                assert(m[3usize][0][0] == 1usize);
            }
            if t == 2 {
                assert(m[3usize][0][1] == 2usize);
            }
            if t == 5 {
                assert(m[3usize][2][0] == 5usize);
            }
            if t == 6 {
                assert(m[3usize][2][1] == 6usize);
            }
            if t == 7 {
                assert(m[3usize][4][0] == 7usize);
            }
            if t == 8 {
                assert(m[3usize][4][1] == 8usize);
            }
            if ts.contains(t) {
                let i = choose|i: int| 0 <= i < ts.len() && ts[i] == t;
            }
        }
        lemma_sorted_set_ext(g.terminals@, ts);
    }
    g
}

/// The symbol names of [`scanner`], indexed by symbol number.
pub fn scanner_names() -> (v: Vec<&'static str>)
    ensures
        v@ == seq!["$", "0", "1", "2", "3", "4", "5", "6", "7", "8", "9", "Alpha", "Digit", "Item", "Num", "Phrase", "S", "Space", "Word", "_", "a", "b", "c", "d", "e", "f", "g", "h", "i", "j", "k", "l", "m", "n", "o", "p", "q", "r", "s", "t", "u", "v", "w", "x", "y", "z"],
{
    vec!["$", "0", "1", "2", "3", "4", "5", "6", "7", "8", "9", "Alpha", "Digit", "Item", "Num", "Phrase", "S", "Space", "Word", "_", "a", "b", "c", "d", "e", "f", "g", "h", "i", "j", "k", "l", "m", "n", "o", "p", "q", "r", "s", "t", "u", "v", "w", "x", "y", "z"]
}

/// The grammar
/// ```text
/// S -> Phrase.
/// Phrase -> Item Space Phrase.
/// Phrase -> Item.
/// Item -> Word.
/// Item -> Num.
/// Word -> Alpha Word.
/// Word -> Alpha.
/// Num -> Digit Num.
/// Num -> Digit.
/// Alpha -> a | b | ... | z.
/// Digit -> 0 | 1 | ... | 9.
/// Space -> _.
/// ```
/// over the symbols of [`scanner_names`], with `$` as end of input.
pub fn scanner() -> (g: Grammar)
    ensures
        g.wf(),
        g.basis.rule == 16,
        g.eof() == 0,
        rule_bodies(g.rules@) == map![11usize => seq![seq![20usize], seq![21usize], seq![22usize], seq![23usize], seq![24usize], seq![25usize], seq![26usize], seq![27usize], seq![28usize], seq![29usize], seq![30usize], seq![31usize], seq![32usize], seq![33usize], seq![34usize], seq![35usize], seq![36usize], seq![37usize], seq![39usize], seq![38usize], seq![40usize], seq![41usize], seq![42usize], seq![43usize], seq![44usize], seq![45usize]], 12usize => seq![seq![1usize], seq![2usize], seq![3usize], seq![4usize], seq![5usize], seq![6usize], seq![7usize], seq![8usize], seq![9usize], seq![10usize]], 13usize => seq![seq![18usize], seq![14usize]], 14usize => seq![seq![12usize, 14usize], seq![12usize]], 15usize => seq![seq![13usize, 17usize, 15usize], seq![13usize]], 16usize => seq![seq![15usize]], 17usize => seq![seq![19usize]], 18usize => seq![seq![11usize, 18usize], seq![11usize]]],
        rules_numbered(g.rules@),
        g.terminals@ == seq![0usize, 1usize, 2usize, 3usize, 4usize, 5usize, 6usize, 7usize, 8usize, 9usize, 10usize, 19usize, 20usize, 21usize, 22usize, 23usize, 24usize, 25usize, 26usize, 27usize, 28usize, 29usize, 30usize, 31usize, 32usize, 33usize, 34usize, 35usize, 36usize, 37usize, 38usize, 39usize, 40usize, 41usize, 42usize, 43usize, 44usize, 45usize],
{
    let eof: usize = 0;
    let t_0: usize = 1;
    let t_1: usize = 2;
    let t_2: usize = 3;
    let t_3: usize = 4;
    let t_4: usize = 5;
    let t_5: usize = 6;
    let t_6: usize = 7;
    let t_7: usize = 8;
    let t_8: usize = 9;
    let t_9: usize = 10;
    let n_alpha: usize = 11;
    let n_digit: usize = 12;
    let n_item: usize = 13;
    let n_num: usize = 14;
    let n_phrase: usize = 15;
    let n_s: usize = 16;
    let n_space: usize = 17;
    let n_word: usize = 18;
    let underscore: usize = 19;
    let t_a: usize = 20;
    let t_b: usize = 21;
    let t_c: usize = 22;
    let t_d: usize = 23;
    let t_e: usize = 24;
    let t_f: usize = 25;
    let t_g: usize = 26;
    let t_h: usize = 27;
    let t_i: usize = 28;
    let t_j: usize = 29;
    let t_k: usize = 30;
    let t_l: usize = 31;
    let t_m: usize = 32;
    let t_n: usize = 33;
    let t_o: usize = 34;
    let t_p: usize = 35;
    let t_q: usize = 36;
    let t_r: usize = 37;
    let t_s: usize = 38;
    let t_t: usize = 39;
    let t_u: usize = 40;
    let t_v: usize = 41;
    let t_w: usize = 42;
    let t_x: usize = 43;
    let t_y: usize = 44;
    let t_z: usize = 45;
    let mut rules: Vec<Rule> = Vec::new();
    rules.push(Rule::new(n_phrase, vec![vec![n_item, n_space, n_phrase], vec![n_item]]));
    rules.push(Rule::new(n_item, vec![vec![n_word], vec![n_num]]));
    rules.push(Rule::new(n_word, vec![vec![n_alpha, n_word], vec![n_alpha]]));
    rules.push(Rule::new(n_num, vec![vec![n_digit, n_num], vec![n_digit]]));
    rules.push(Rule::new(n_alpha, vec![vec![t_a], vec![t_b], vec![t_c], vec![t_d], vec![t_e], vec![t_f], vec![t_g], vec![t_h], vec![t_i], vec![t_j], vec![t_k], vec![t_l], vec![t_m], vec![t_n], vec![t_o], vec![t_p], vec![t_q], vec![t_r], vec![t_t], vec![t_s], vec![t_u], vec![t_v], vec![t_w], vec![t_x], vec![t_y], vec![t_z]]));
    rules.push(Rule::new(n_digit, vec![vec![t_0], vec![t_1], vec![t_2], vec![t_3], vec![t_4], vec![t_5], vec![t_6], vec![t_7], vec![t_8], vec![t_9]]));
    rules.push(Rule::new(n_space, vec![vec![underscore]]));
    rules.push(Rule::new(n_s, vec![vec![n_phrase]]));
    proof {
        reveal_with_fuel(inserted, 9);
        assert(bodies(rules@[0]) =~~= seq![seq![13usize, 17usize, 15usize], seq![13usize]]);
        assert(bodies(rules@[1]) =~~= seq![seq![18usize], seq![14usize]]);
        assert(bodies(rules@[2]) =~~= seq![seq![11usize, 18usize], seq![11usize]]);
        assert(bodies(rules@[3]) =~~= seq![seq![12usize, 14usize], seq![12usize]]);
        assert(bodies(rules@[4]) =~~= seq![seq![20usize], seq![21usize], seq![22usize], seq![23usize], seq![24usize], seq![25usize], seq![26usize], seq![27usize], seq![28usize], seq![29usize], seq![30usize], seq![31usize], seq![32usize], seq![33usize], seq![34usize], seq![35usize], seq![36usize], seq![37usize], seq![39usize], seq![38usize], seq![40usize], seq![41usize], seq![42usize], seq![43usize], seq![44usize], seq![45usize]]);
        assert(bodies(rules@[5]) =~~= seq![seq![1usize], seq![2usize], seq![3usize], seq![4usize], seq![5usize], seq![6usize], seq![7usize], seq![8usize], seq![9usize], seq![10usize]]);
        assert(bodies(rules@[6]) =~~= seq![seq![19usize]]);
        assert(bodies(rules@[7]) =~~= seq![seq![15usize]]);
    }
    let g = Grammar::new(n_s, rules, eof);
    proof {
        assert(rule_bodies(g.rules@) =~~= map![11usize => seq![seq![20usize], seq![21usize], seq![22usize], seq![23usize], seq![24usize], seq![25usize], seq![26usize], seq![27usize], seq![28usize], seq![29usize], seq![30usize], seq![31usize], seq![32usize], seq![33usize], seq![34usize], seq![35usize], seq![36usize], seq![37usize], seq![39usize], seq![38usize], seq![40usize], seq![41usize], seq![42usize], seq![43usize], seq![44usize], seq![45usize]], 12usize => seq![seq![1usize], seq![2usize], seq![3usize], seq![4usize], seq![5usize], seq![6usize], seq![7usize], seq![8usize], seq![9usize], seq![10usize]], 13usize => seq![seq![18usize], seq![14usize]], 14usize => seq![seq![12usize, 14usize], seq![12usize]], 15usize => seq![seq![13usize, 17usize, 15usize], seq![13usize]], 16usize => seq![seq![15usize]], 17usize => seq![seq![19usize]], 18usize => seq![seq![11usize, 18usize], seq![11usize]]]);
        let m = rule_bodies(g.rules@);
        let ts = seq![0usize, 1usize, 2usize, 3usize, 4usize, 5usize, 6usize, 7usize, 8usize, 9usize, 10usize, 19usize, 20usize, 21usize, 22usize, 23usize, 24usize, 25usize, 26usize, 27usize, 28usize, 29usize, 30usize, 31usize, 32usize, 33usize, 34usize, 35usize, 36usize, 37usize, 38usize, 39usize, 40usize, 41usize, 42usize, 43usize, 44usize, 45usize];
        law_terminals_from_rules(g);
        assert forall|t: usize| #[trigger] g.terminals@.contains(t) <==> ts.contains(t) by {
            if t == 1 {
                assert(m[12usize][0][0] == 1usize);
            }
            if t == 2 {
                assert(m[12usize][1][0] == 2usize);
            }
            if t == 3 {
                assert(m[12usize][2][0] == 3usize);
            }
            if t == 4 {
                assert(m[12usize][3][0] == 4usize);
            }
            if t == 5 {
                assert(m[12usize][4][0] == 5usize);
            }
            if t == 6 {
                assert(m[12usize][5][0] == 6usize);
            }
            if t == 7 {
                assert(m[12usize][6][0] == 7usize);
            }
            if t == 8 {
                assert(m[12usize][7][0] == 8usize);
            }
            if t == 9 {
                assert(m[12usize][8][0] == 9usize);
            }
            if t == 10 {
                assert(m[12usize][9][0] == 10usize);
            }
            if t == 19 {
                assert(m[17usize][0][0] == 19usize);
            }
            if t == 20 {
                assert(m[11usize][0][0] == 20usize);
            }
            if t == 21 {
                assert(m[11usize][1][0] == 21usize);
            }
            if t == 22 {
                assert(m[11usize][2][0] == 22usize);
            }
            if t == 23 {
                assert(m[11usize][3][0] == 23usize);
            }
            if t == 24 {
                assert(m[11usize][4][0] == 24usize);
            }
            if t == 25 {
                assert(m[11usize][5][0] == 25usize);
            }
            if t == 26 {
                assert(m[11usize][6][0] == 26usize);
            }
            if t == 27 {
                assert(m[11usize][7][0] == 27usize);
            }
            if t == 28 {
                assert(m[11usize][8][0] == 28usize);
            }
            if t == 29 {
                assert(m[11usize][9][0] == 29usize);
            }
            if t == 30 {
                assert(m[11usize][10][0] == 30usize);
            }
            if t == 31 {
                assert(m[11usize][11][0] == 31usize);
            }
            if t == 32 {
                assert(m[11usize][12][0] == 32usize);
            }
            if t == 33 {
                assert(m[11usize][13][0] == 33usize);
            }
            if t == 34 {
                assert(m[11usize][14][0] == 34usize);
            }
            if t == 35 {
                assert(m[11usize][15][0] == 35usize);
            }
            if t == 36 {
                assert(m[11usize][16][0] == 36usize);
            }
            if t == 37 {
                assert(m[11usize][17][0] == 37usize);
            }
            if t == 38 {
                assert(m[11usize][19][0] == 38usize);
            }
            if t == 39 {
                assert(m[11usize][18][0] == 39usize);
            }
            if t == 40 {
                assert(m[11usize][20][0] == 40usize);
            }
            if t == 41 {
                assert(m[11usize][21][0] == 41usize);
            }
            if t == 42 {
                assert(m[11usize][22][0] == 42usize);
            }
            if t == 43 {
                assert(m[11usize][23][0] == 43usize);
            }
            if t == 44 {
                assert(m[11usize][24][0] == 44usize);
            }
            if t == 45 {
                assert(m[11usize][25][0] == 45usize);
            }
            if ts.contains(t) {
                let i = choose|i: int| 0 <= i < ts.len() && ts[i] == t;
            }
        }
        lemma_sorted_set_ext(g.terminals@, ts);
    }
    g
}

/// The symbol names of [`wop`], indexed by symbol number.
pub fn wop_names() -> (v: Vec<&'static str>)
    ensures
        v@ == seq!["Alias", "AliasWord", "Assign", "Clone", "CloseParen", "CodeBlock", "EntryPoint", "Eof", "Glob", "Ident", "IdentPath", "Import", "OpenParen", "Optional", "PathAccess", "Pipe", "Program", "Rule", "RuleDecl", "RuleItem", "RulePipe", "Sc", "StrLit", "TwoDots", "UseWord"],
{
    vec!["Alias", "AliasWord", "Assign", "Clone", "CloseParen", "CodeBlock", "EntryPoint", "Eof", "Glob", "Ident", "IdentPath", "Import", "OpenParen", "Optional", "PathAccess", "Pipe", "Program", "Rule", "RuleDecl", "RuleItem", "RulePipe", "Sc", "StrLit", "TwoDots", "UseWord"]
}

/// The grammar of grammar files: a program of imports, aliases and rule declarations,
/// each rule a list of alternatives of items, each item a path, a string literal or a
/// parenthesized rule, optionally marked optional and bound to a name; over the symbols of
/// [`wop_names`], with `Eof` as end of input.
pub fn wop() -> (g: Grammar)
    ensures
        g.wf(),
        g.basis.rule == 6,
        g.eof() == 7,
        rule_bodies(g.rules@) == map![0usize => seq![seq![1usize, 9usize, 10usize], seq![1usize, 22usize, 10usize]], 6usize => seq![seq![16usize]], 10usize => seq![seq![10usize, 14usize, 9usize], seq![9usize]], 11usize => seq![seq![24usize, 10usize, 14usize, 8usize], seq![24usize, 10usize]], 16usize => seq![seq![16usize, 11usize, 21usize], seq![16usize, 0usize, 21usize], seq![16usize, 18usize, 21usize], seq![0usize, 21usize], seq![11usize, 21usize], seq![18usize, 21usize]], 17usize => seq![seq![17usize, 15usize, 20usize, 5usize], seq![17usize, 15usize, 20usize], seq![20usize, 5usize], seq![20usize]], 18usize => seq![seq![10usize, 23usize, 10usize, 2usize, 17usize]], 19usize => seq![seq![10usize, 13usize, 23usize, 3usize, 9usize], seq![10usize, 13usize, 23usize, 9usize], seq![10usize, 13usize], seq![10usize, 23usize, 3usize, 9usize], seq![10usize, 23usize, 9usize], seq![10usize], seq![22usize, 13usize, 23usize, 3usize, 9usize], seq![22usize, 13usize, 23usize, 9usize], seq![22usize, 13usize], seq![22usize, 23usize, 3usize, 9usize], seq![22usize, 23usize, 9usize], seq![22usize], seq![12usize, 17usize, 4usize, 13usize, 23usize, 3usize, 9usize], seq![12usize, 17usize, 4usize, 13usize, 23usize, 9usize], seq![12usize, 17usize, 4usize, 13usize], seq![12usize, 17usize, 4usize, 23usize, 3usize, 9usize], seq![12usize, 17usize, 4usize, 23usize, 9usize], seq![12usize, 17usize, 4usize]], 20usize => seq![seq![20usize, 19usize], seq![19usize]]],
        rules_numbered(g.rules@),
        g.terminals@ == seq![1usize, 2usize, 3usize, 4usize, 5usize, 7usize, 8usize, 9usize, 12usize, 13usize, 14usize, 15usize, 21usize, 22usize, 23usize, 24usize],
{
    let s_alias: usize = 0;
    let s_alias_word: usize = 1;
    let s_assign: usize = 2;
    let s_clone: usize = 3;
    let s_close_paren: usize = 4;
    let s_code_block: usize = 5;
    let s_entry_point: usize = 6;
    let s_eof: usize = 7;
    let s_glob: usize = 8;
    let s_ident: usize = 9;
    let s_ident_path: usize = 10;
    let s_import: usize = 11;
    let s_open_paren: usize = 12;
    let s_optional: usize = 13;
    let s_path_access: usize = 14;
    let s_pipe: usize = 15;
    let s_program: usize = 16;
    let s_rule: usize = 17;
    let s_rule_decl: usize = 18;
    let s_rule_item: usize = 19;
    let s_rule_pipe: usize = 20;
    let s_sc: usize = 21;
    let s_str_lit: usize = 22;
    let s_two_dots: usize = 23;
    let s_use_word: usize = 24;
    let mut rules: Vec<Rule> = Vec::new();
    rules.push(Rule::new(s_rule_item, vec![vec![s_ident_path, s_optional, s_two_dots, s_clone, s_ident], vec![s_ident_path, s_optional, s_two_dots, s_ident], vec![s_ident_path, s_optional], vec![s_ident_path, s_two_dots, s_clone, s_ident], vec![s_ident_path, s_two_dots, s_ident], vec![s_ident_path], vec![s_str_lit, s_optional, s_two_dots, s_clone, s_ident], vec![s_str_lit, s_optional, s_two_dots, s_ident], vec![s_str_lit, s_optional], vec![s_str_lit, s_two_dots, s_clone, s_ident], vec![s_str_lit, s_two_dots, s_ident], vec![s_str_lit], vec![s_open_paren, s_rule, s_close_paren, s_optional, s_two_dots, s_clone, s_ident], vec![s_open_paren, s_rule, s_close_paren, s_optional, s_two_dots, s_ident], vec![s_open_paren, s_rule, s_close_paren, s_optional], vec![s_open_paren, s_rule, s_close_paren, s_two_dots, s_clone, s_ident], vec![s_open_paren, s_rule, s_close_paren, s_two_dots, s_ident], vec![s_open_paren, s_rule, s_close_paren]]));
    rules.push(Rule::new(s_ident_path, vec![vec![s_ident_path, s_path_access, s_ident], vec![s_ident]]));
    rules.push(Rule::new(s_entry_point, vec![vec![s_program]]));
    rules.push(Rule::new(s_rule, vec![vec![s_rule, s_pipe, s_rule_pipe, s_code_block], vec![s_rule, s_pipe, s_rule_pipe], vec![s_rule_pipe, s_code_block], vec![s_rule_pipe]]));
    rules.push(Rule::new(s_rule_pipe, vec![vec![s_rule_pipe, s_rule_item], vec![s_rule_item]]));
    rules.push(Rule::new(s_import, vec![vec![s_use_word, s_ident_path, s_path_access, s_glob], vec![s_use_word, s_ident_path]]));
    rules.push(Rule::new(s_alias, vec![vec![s_alias_word, s_ident, s_ident_path], vec![s_alias_word, s_str_lit, s_ident_path]]));
    rules.push(Rule::new(s_program, vec![vec![s_program, s_import, s_sc], vec![s_program, s_alias, s_sc], vec![s_program, s_rule_decl, s_sc], vec![s_alias, s_sc], vec![s_import, s_sc], vec![s_rule_decl, s_sc]]));
    rules.push(Rule::new(s_rule_decl, vec![vec![s_ident_path, s_two_dots, s_ident_path, s_assign, s_rule]]));
    proof {
        reveal_with_fuel(inserted, 10);
        assert(bodies(rules@[0]) =~~= seq![seq![10usize, 13usize, 23usize, 3usize, 9usize], seq![10usize, 13usize, 23usize, 9usize], seq![10usize, 13usize], seq![10usize, 23usize, 3usize, 9usize], seq![10usize, 23usize, 9usize], seq![10usize], seq![22usize, 13usize, 23usize, 3usize, 9usize], seq![22usize, 13usize, 23usize, 9usize], seq![22usize, 13usize], seq![22usize, 23usize, 3usize, 9usize], seq![22usize, 23usize, 9usize], seq![22usize], seq![12usize, 17usize, 4usize, 13usize, 23usize, 3usize, 9usize], seq![12usize, 17usize, 4usize, 13usize, 23usize, 9usize], seq![12usize, 17usize, 4usize, 13usize], seq![12usize, 17usize, 4usize, 23usize, 3usize, 9usize], seq![12usize, 17usize, 4usize, 23usize, 9usize], seq![12usize, 17usize, 4usize]]);
        assert(bodies(rules@[1]) =~~= seq![seq![10usize, 14usize, 9usize], seq![9usize]]);
        assert(bodies(rules@[2]) =~~= seq![seq![16usize]]);
        assert(bodies(rules@[3]) =~~= seq![seq![17usize, 15usize, 20usize, 5usize], seq![17usize, 15usize, 20usize], seq![20usize, 5usize], seq![20usize]]);
        assert(bodies(rules@[4]) =~~= seq![seq![20usize, 19usize], seq![19usize]]);
        assert(bodies(rules@[5]) =~~= seq![seq![24usize, 10usize, 14usize, 8usize], seq![24usize, 10usize]]);
        assert(bodies(rules@[6]) =~~= seq![seq![1usize, 9usize, 10usize], seq![1usize, 22usize, 10usize]]);
        assert(bodies(rules@[7]) =~~= seq![seq![16usize, 11usize, 21usize], seq![16usize, 0usize, 21usize], seq![16usize, 18usize, 21usize], seq![0usize, 21usize], seq![11usize, 21usize], seq![18usize, 21usize]]);
        assert(bodies(rules@[8]) =~~= seq![seq![10usize, 23usize, 10usize, 2usize, 17usize]]);
    }
    let g = Grammar::new(s_entry_point, rules, s_eof);
    proof {
        assert(rule_bodies(g.rules@) =~~= map![0usize => seq![seq![1usize, 9usize, 10usize], seq![1usize, 22usize, 10usize]], 6usize => seq![seq![16usize]], 10usize => seq![seq![10usize, 14usize, 9usize], seq![9usize]], 11usize => seq![seq![24usize, 10usize, 14usize, 8usize], seq![24usize, 10usize]], 16usize => seq![seq![16usize, 11usize, 21usize], seq![16usize, 0usize, 21usize], seq![16usize, 18usize, 21usize], seq![0usize, 21usize], seq![11usize, 21usize], seq![18usize, 21usize]], 17usize => seq![seq![17usize, 15usize, 20usize, 5usize], seq![17usize, 15usize, 20usize], seq![20usize, 5usize], seq![20usize]], 18usize => seq![seq![10usize, 23usize, 10usize, 2usize, 17usize]], 19usize => seq![seq![10usize, 13usize, 23usize, 3usize, 9usize], seq![10usize, 13usize, 23usize, 9usize], seq![10usize, 13usize], seq![10usize, 23usize, 3usize, 9usize], seq![10usize, 23usize, 9usize], seq![10usize], seq![22usize, 13usize, 23usize, 3usize, 9usize], seq![22usize, 13usize, 23usize, 9usize], seq![22usize, 13usize], seq![22usize, 23usize, 3usize, 9usize], seq![22usize, 23usize, 9usize], seq![22usize], seq![12usize, 17usize, 4usize, 13usize, 23usize, 3usize, 9usize], seq![12usize, 17usize, 4usize, 13usize, 23usize, 9usize], seq![12usize, 17usize, 4usize, 13usize], seq![12usize, 17usize, 4usize, 23usize, 3usize, 9usize], seq![12usize, 17usize, 4usize, 23usize, 9usize], seq![12usize, 17usize, 4usize]], 20usize => seq![seq![20usize, 19usize], seq![19usize]]]);
        let m = rule_bodies(g.rules@);
        let ts = seq![1usize, 2usize, 3usize, 4usize, 5usize, 7usize, 8usize, 9usize, 12usize, 13usize, 14usize, 15usize, 21usize, 22usize, 23usize, 24usize];
        law_terminals_from_rules(g);
        assert forall|t: usize| #[trigger] g.terminals@.contains(t) <==> ts.contains(t) by {
            if t == 1 {
                assert(m[0usize][0][0] == 1usize);
            }
            if t == 2 {
                assert(m[18usize][0][3] == 2usize);
            }
            if t == 3 {
                assert(m[19usize][0][3] == 3usize);
            }
            if t == 4 {
                assert(m[19usize][12][2] == 4usize);
            }
            if t == 5 {
                assert(m[17usize][0][3] == 5usize);
            }
            if t == 8 {
                assert(m[11usize][0][3] == 8usize);
            }
            if t == 9 {
                assert(m[0usize][0][1] == 9usize);
            }
            if t == 12 {
                assert(m[19usize][12][0] == 12usize);
            }
            if t == 13 {
                assert(m[19usize][0][1] == 13usize);
            }
            if t == 14 {
                assert(m[10usize][0][1] == 14usize);
            }
            if t == 15 {
                assert(m[17usize][0][1] == 15usize);
            }
            if t == 21 {
                assert(m[16usize][0][2] == 21usize);
            }
            if t == 22 {
                assert(m[0usize][1][1] == 22usize);
            }
            if t == 23 {
                assert(m[18usize][0][1] == 23usize);
            }
            if t == 24 {
                assert(m[11usize][0][0] == 24usize);
            }
            if ts.contains(t) {
                let i = choose|i: int| 0 <= i < ts.len() && ts[i] == t;
            }
        }
        lemma_sorted_set_ext(g.terminals@, ts);
    }
    g
}

} // verus!
