use std::collections::VecDeque;

use lrp::action::Action;
use lrp::clr::Clr;
use lrp::dfa::{Cloned, Dfa, Empty, Error, Reductor};
use lrp::grammar::{Grammar, Rule};
use lrp::grammars::{dragon_book, puncs, scanner, serokell, ucalgary_uni_oth_lr1, wikipedia, wop, wop_names};
use lrp::lalr::Lalr;
use lrp::pos::Position;
use lrp::slr::Slr;
use lrp::state::State;
use lrp::tabler::Tabler;
use lrp::{to_tokens, Meta, Span, Sym, Token};

// Symbols of the dragon book grammar: $ = 0, C = 1, S = 2, c = 3, d = 4.
const EOF: usize = 0;
const N_C: usize = 1;
const N_S: usize = 2;
const T_C: usize = 3;
const T_D: usize = 4;

fn queue(symbols: &[usize]) -> VecDeque<Token<(), usize>> {
    symbols.iter().map(|s| Token::empty(*s)).collect()
}

#[test]
fn span_from_source_doc_example() {
    let i: Span = Span::new(0, 2);
    let src = [0, 1, 2, 3, 4];
    assert_eq!(i.from_source(&src), vec![0, 1]);
}

#[test]
fn span_from_tuple() {
    let s = Span::from((3, 7));
    assert_eq!(s.start, 3);
    assert_eq!(s.end, 7);
    assert_eq!(Span::new(2, 2).from_source(&[9, 8, 7]), Vec::<i32>::new());
}

#[test]
fn tokens_and_meta() {
    let t = Token::new("value", 4usize);
    assert_eq!(t.item, "value");
    assert_eq!(t.ty, 4);
    assert_eq!(Token::empty(7usize).ty, 7);
    let m = Meta::new(5u8, Span::new(1, 2));
    assert_eq!(m.item, 5);
    assert_eq!(m.span, Span::new(1, 2));
    let toks = to_tokens(&vec![3usize, 1, 4]);
    assert_eq!(toks.iter().map(|t| t.ty).collect::<Vec<_>>(), vec![3, 1, 4]);
    let s: Sym<u8, char> = Sym::Term(1);
    assert_eq!(s, Sym::Term(1));
    assert_ne!(s, Sym::NoTerm('x'));
}

#[test]
fn position_next_and_top_doc_examples() {
    // [S -> C . D f; $]: top is D, next is f.
    let (s, c, d, f, eof) = (0usize, 1usize, 2usize, 3usize, 9usize);
    let p = Position::new(s, (vec![c, d, f], 0), 1, vec![eof]);
    assert_eq!(p.top(), Some(d));
    assert_eq!(p.next(), Some(f));
    assert_eq!(p.peek(2), None);
    assert_eq!(p.abs_idx(0), Some(c));
    assert_eq!(p.abs_idx(3), None);
    assert!(!p.finished());
}

#[test]
fn position_moves() {
    let mut p = Position::new(0, (vec![1, 2], 0), 1, vec![5]);
    let q = p.clone_next().expect("not finished");
    assert_eq!(q.point, 2);
    assert!(q.finished());
    assert!(q.clone_next().is_none());
    p.adv();
    assert_eq!(p.point, 2);
    assert!(p.body_eq(&q));
    let bare = p.no_look();
    assert!(bare.look.is_empty());
    assert!(bare.body_eq(&p));
    let looked = bare.with_look(vec![1, 2]);
    assert_eq!(looked.look, vec![1, 2]);
    assert!(!looked.body_eq(&Position::new(0, (vec![1, 2], 1), 2, vec![])));
}

#[test]
fn grammar_terminals_symbols_and_basis() {
    let g = dragon_book();
    assert_eq!(g.terminals, vec![EOF, T_C, T_D]);
    assert_eq!(g.symbols(), vec![EOF, N_C, N_S, T_C, T_D]);
    assert!(g.is_terminal(T_C));
    assert!(!g.is_terminal(N_C));
    let b = g.basis();
    assert_eq!(b.rule, N_S);
    assert_eq!(b.seq.0, vec![N_C, N_C]);
    assert_eq!(b.point, 0);
    assert_eq!(b.look, vec![EOF]);
    assert_eq!(g.rules().iter().map(|r| r.name).collect::<Vec<_>>(), vec![N_C, N_S]);
}

#[test]
fn grammar_later_rule_replaces_earlier() {
    let rules = vec![
        Rule::single(5, vec![1]),
        Rule::new(6, vec![vec![5, 2]]),
        Rule::new(5, vec![vec![3], vec![4]]),
    ];
    let g = Grammar::new(6, rules, 0);
    assert_eq!(g.rules.len(), 2);
    assert_eq!(g.rules[0].name, 5);
    assert_eq!(g.rules[0].prods.len(), 2);
    assert_eq!(g.terminals, vec![0, 2, 3, 4]);
}

#[test]
fn rule_productions_are_numbered() {
    let r = Rule::new(7, vec![vec![1, 2], vec![3]]);
    let ps = r.prods();
    assert_eq!(ps.len(), 2);
    assert_eq!(ps[0], (vec![1, 2], 0));
    assert_eq!(ps[1], (vec![3], 1));
    assert_eq!(Rule::single(1, vec![2]).prods, vec![(vec![2], 0)]);
}

#[test]
fn first_of_symbols() {
    let t = Tabler::new(dragon_book());
    assert_eq!(t.first_of(&vec![N_C]), vec![T_C, T_D]);
    assert_eq!(t.first_of(&vec![T_D]), vec![T_D]);
    assert_eq!(t.first_of(&vec![T_D, N_S]), vec![T_C, T_D]);
    assert_eq!(t.first_of(&vec![]), Vec::<usize>::new());
}

#[test]
fn first_and_follow_are_fixed_by_a_step() {
    for g in [dragon_book(), wikipedia(), ucalgary_uni_oth_lr1()] {
        let t = Tabler::new(g);
        assert_eq!(t.first_step(&t.first), t.first);
        assert_eq!(t.follow_step(&t.follow), t.follow);
        for (_, set) in t.first.iter().chain(t.follow.iter()) {
            for y in set {
                assert!(t.grammar.terminals.contains(y));
            }
        }
    }
}

#[test]
fn first_step_substitutes_once() {
    let t = Tabler::new(dragon_book());
    let first = t.gen_first();
    assert_eq!(first, vec![(N_C, vec![T_C, T_D]), (N_S, vec![N_C])]);
    assert_eq!(t.first_step(&first), vec![(N_C, vec![T_C, T_D]), (N_S, vec![T_C, T_D])]);
}

#[test]
fn prop_closure_is_idempotent() {
    let clr = Clr::new(dragon_book());
    let start = clr.prop_closure(lrp::state::state_single(clr.tables().basis_pos()));
    let again = clr.prop_closure(lrp::state::state_copy(&start));
    assert!(lrp::state::state_eq(&start, &again));
    assert!(lrp::state::state_eq(&start, &clr.tables().states[0]));
    // S -> . C C; $   C -> . c C; c/d   C -> . d; c/d
    assert_eq!(start.len(), 3);
}

#[test]
fn goto_of_a_known_kernel_is_none() {
    let clr = Clr::new(dragon_book());
    let t = clr.tables();
    let state0 = &t.states[0];
    assert!(clr.goto(state0, N_S).is_none());
    assert!(clr.goto(state0, EOF).is_none());
    let kernel = Tabler::sym_filter(state0, T_D);
    assert_eq!(kernel.len(), 1);
    // States are numbered breadth first, by symbol: C gives 1, c gives 2, d gives 3.
    assert_eq!(clr.state_from_kernel(&kernel), Some(3));
}

#[test]
fn dragon_book_state_counts() {
    // The grammar is not augmented with a new start rule, so each collection
    // has one state fewer than the textbook one.
    assert_eq!(Clr::new(dragon_book()).tables().states.len(), 9);
    assert_eq!(Slr::new(dragon_book()).tables().states.len(), 6);
    assert_eq!(Lalr::new(dragon_book()).tables().states.len(), 6);
}

#[test]
fn lalr_kernels_have_distinct_cores() {
    let lalr = Lalr::new(ucalgary_uni_oth_lr1());
    let t = lalr.tables();
    let cores: Vec<State> = t.kernels.iter().map(|(k, _)| Lalr::without_look(k)).collect();
    for a in 0..cores.len() {
        for b in a + 1..cores.len() {
            assert!(!lrp::state::state_eq(&cores[a], &cores[b]));
        }
    }
    assert_eq!(t.kernels.len(), t.states.len());
}

#[test]
fn lalr_merged_unites_lookaheads() {
    let a = Position::new(1, (vec![2], 0), 0, vec![3]);
    let b = Position::new(1, (vec![2], 0), 0, vec![5]);
    let c = Position::new(1, (vec![2], 0), 1, vec![4]);
    let mut s: State = Vec::new();
    lrp::state::state_insert(&mut s, a);
    lrp::state::state_insert(&mut s, b);
    lrp::state::state_insert(&mut s, c);
    let m = Lalr::merged(s);
    assert_eq!(m.len(), 2);
    assert_eq!(m[0].look, vec![3, 5]);
    assert_eq!(m[1].look, vec![4]);
}

#[test]
fn slr_conflicts_are_conflict_actions() {
    let slr = Slr::new(ucalgary_uni_oth_lr1());
    let conflicts = slr.tables().conflicts();
    assert_eq!(conflicts.len(), 2);
    for a in &conflicts {
        assert!(a.is_conflict());
        assert!(matches!(a, Action::Conflict(_, _)));
    }
}

#[test]
fn reduced_actions_merges_equal_rows() {
    let mut t = Tabler::new(dragon_book());
    t.actions = vec![
        vec![(T_C, Action::Shift(2))],
        vec![(T_D, Action::Acc)],
        vec![(T_C, Action::Shift(2))],
    ];
    let (travel, rows) = t.reduced_actions();
    assert_eq!(travel, vec![0, 1, 0]);
    assert_eq!(rows.len(), 2);
    t.reduce_equals();
    assert_eq!(t.actions.len(), 2);
    assert!(matches!(t.actions[0][0].1, Action::Shift(0)));
    assert!(matches!(t.actions[1][0].1, Action::Acc));
}

#[test]
fn update_entry_renames_states() {
    let mut a = Action::Conflict(Box::new(Action::Shift(2)), Box::new(Action::Goto(1)));
    Tabler::update_entry(&mut a, &vec![0, 0, 1]);
    match a {
        Action::Conflict(x, y) => {
            assert!(matches!(*x, Action::Shift(1)));
            assert!(matches!(*y, Action::Goto(0)));
        }
        _ => panic!("not a conflict"),
    }
}

#[test]
fn dfa_accepts_and_consumes_input() {
    let clr = Clr::new(dragon_book());
    let mut dfa = clr.dfa(queue(&[T_C, T_D, T_D]), Empty);
    assert!(dfa.start().is_ok());
    assert!(dfa.finished);
    assert!(dfa.buffer.is_empty());
    // Acceptance happens on the completed start item, without reducing it:
    // the stack holds the two `C` of `S -> C C`.
    assert_eq!(dfa.items.len(), 2);
    assert_eq!(dfa.items[0].ty, N_C);
    assert_eq!(dfa.items[1].ty, N_C);
}

#[test]
fn dfa_unexpected_token() {
    let clr = Clr::new(dragon_book());
    let mut dfa = clr.dfa(queue(&[T_C]), Empty);
    match dfa.start() {
        Err(Error::UnexpectedToken(sym, expected)) => {
            assert_eq!(sym, EOF);
            assert_eq!(expected, vec![N_C, T_C, T_D]);
        }
        other => panic!("unexpected {other:?}"),
    }
    assert!(!clr.validate(to_tokens(&vec![T_D])));
    assert!(!clr.validate(to_tokens(&vec![T_D, T_D, T_D])));
}

#[test]
fn dfa_unexpected_eof() {
    let table = vec![vec![(EOF, Action::Shift(0))]];
    let mut dfa: Dfa<(), Empty> = Dfa::new(VecDeque::new(), table, Empty, EOF);
    assert!(matches!(dfa.start(), Err(Error::UnexpectedEof)));
}

#[test]
fn dfa_state_not_specified() {
    let mut dfa: Dfa<(), Empty> = Dfa::new(queue(&[T_C]), Vec::new(), Empty, EOF);
    assert!(matches!(dfa.start(), Err(Error::StateNotSpecified)));
}

#[test]
fn dfa_conflict() {
    let table = vec![vec![(EOF, Action::Conflict(Box::new(Action::Acc), Box::new(Action::Shift(0))))]];
    let mut dfa: Dfa<(), Empty> = Dfa::new(VecDeque::new(), table, Empty, EOF);
    match dfa.start() {
        Err(Error::Conflict(a, b)) => {
            assert!(matches!(a, Action::Acc));
            assert!(matches!(b, Action::Shift(0)));
        }
        other => panic!("unexpected {other:?}"),
    }
}

#[test]
fn dfa_incomplete_exec() {
    let table = vec![vec![(T_C, Action::Acc)]];
    let mut dfa: Dfa<(), Empty> = Dfa::new(queue(&[T_C, T_C]), table, Empty, EOF);
    assert!(matches!(dfa.start(), Err(Error::IncompleteExec)));
    assert!(dfa.finished);
}

#[test]
fn dfa_reduce_lacking_items() {
    let table = vec![vec![(EOF, Action::Reduce(N_S, (vec![N_C, N_C], 0)))]];
    let mut dfa: Dfa<(), Empty> = Dfa::new(VecDeque::new(), table, Empty, EOF);
    assert!(matches!(dfa.start(), Err(Error::UnexpectedEof)));
}

#[test]
fn dfa_missing_previous_state() {
    let table = vec![vec![(EOF, Action::Reduce(N_S, (vec![N_C, N_C], 0)))]];
    let mut dfa: Dfa<(), Empty> = Dfa::new(VecDeque::new(), table, Empty, EOF);
    dfa.items.push(Token::new((), N_C));
    dfa.items.push(Token::new((), N_C));
    assert!(matches!(dfa.reduce(N_S, &(vec![N_C, N_C], 0)), Err(Error::MissingPreviousState)));
    assert_eq!(dfa.items.len(), 2);
}

#[test]
fn dfa_single_steps() {
    let table = vec![vec![(T_C, Action::Shift(1))], vec![(EOF, Action::Acc)]];
    let mut dfa: Dfa<(), Empty> = Dfa::new(queue(&[T_C]), table, Empty, EOF);
    assert_eq!(dfa.next_symbol(), T_C);
    assert!(dfa.travel(T_C).is_ok());
    assert_eq!(dfa.states, vec![0, 1]);
    assert_eq!(dfa.top, 1);
    assert_eq!(dfa.next_symbol(), EOF);
    assert!(dfa.goto(0).is_ok());
    assert_eq!(dfa.states, vec![0, 1, 0]);
    assert!(matches!(dfa.shift(1), Err(Error::UnexpectedEof)));
    assert!(dfa.accept().is_ok());
    assert!(dfa.finished);
    dfa.reset();
    assert!(!dfa.finished);
    assert!(dfa.states.is_empty());
    assert!(dfa.items.is_empty());
    assert_eq!(dfa.top, 0);
}

/// Counts the tokens under each reduced item.
struct Count;

impl Reductor<u32> for Count {
    fn reduce(&self, _name: usize, _index: usize, toks: &Vec<Token<u32, usize>>) -> u32 {
        toks.iter().map(|t| t.item).sum()
    }
}

#[test]
fn parse_returns_the_reduced_value() {
    let lalr = Lalr::new(dragon_book());
    // c d | c c d: the value is that of the last item on the stack, the second `C`.
    let input: Vec<Token<u32, usize>> =
        [T_C, T_D, T_C, T_C, T_D].iter().map(|s| Token::new(1, *s)).collect();
    assert_eq!(lalr.parse(input, Count).ok(), Some(3));
    let bad: Vec<Token<u32, usize>> = [T_D].iter().map(|s| Token::new(1, *s)).collect();
    assert!(matches!(lalr.parse(bad, Count), Err(Error::UnexpectedToken(EOF, _))));
}

#[test]
fn dfa_parse_resets_first() {
    let slr = Slr::new(dragon_book());
    let mut dfa = slr.simple_dfa(to_tokens(&vec![T_D]));
    // The run starts again from state 0, whatever the automaton held before.
    assert!(dfa.parse(queue(&[T_D, T_D])).is_ok());
    assert!(dfa.states.is_empty());
    assert!(dfa.items.is_empty());
    assert!(!dfa.finished);
    assert!(matches!(dfa.parse(queue(&[T_D])), Err(Error::UnexpectedToken(EOF, _))));
}

/// Every word of up to `n` symbols over `alphabet`.
fn words(alphabet: &[usize], n: usize) -> Vec<Vec<usize>> {
    let mut all: Vec<Vec<usize>> = vec![vec![]];
    let mut last: Vec<Vec<usize>> = vec![vec![]];
    for _ in 0..n {
        let mut next = Vec::new();
        for w in &last {
            for a in alphabet {
                let mut w2 = w.clone();
                w2.push(*a);
                next.push(w2);
            }
        }
        all.extend(next.iter().cloned());
        last = next;
    }
    all
}

#[test]
fn runs_over_terminals_never_lack_states() {
    let makers: [fn() -> Grammar; 3] = [dragon_book, wikipedia, ucalgary_uni_oth_lr1];
    for make in makers {
        let alphabet = make().terminals.clone();
        let clr = Clr::new(make());
        let slr = Slr::new(make());
        let lalr = Lalr::new(make());
        for w in words(&alphabet, 5) {
            for res in [
                clr.parse(to_tokens(&w), Empty),
                slr.parse(to_tokens(&w), Empty),
                lalr.parse(to_tokens(&w), Empty),
            ] {
                assert!(!matches!(res, Err(Error::MissingPreviousState) | Err(Error::StateNotSpecified)));
            }
        }
    }
}

#[test]
fn parser_tables_name_only_their_states() {
    let makers: [fn() -> Grammar; 3] = [dragon_book, wikipedia, ucalgary_uni_oth_lr1];
    for make in makers {
        let clr = Clr::new(make());
        let slr = Slr::new(make());
        let lalr = Lalr::new(make());
        for t in [clr.tables(), slr.tables(), lalr.tables()] {
            let n = t.actions.len();
            assert_eq!(n, t.states.len());
            for row in &t.actions {
                for (_, a) in row {
                    if let Action::Shift(k) | Action::Goto(k) = a {
                        assert!(*k < n);
                    }
                }
            }
        }
    }
}

#[test]
fn parser_reduce_equals_keeps_distinct_rows() {
    // No two states of these tables have equal rows, so merging changes nothing.
    let mut clr = Clr::new(dragon_book());
    clr.reduce_equals();
    assert_eq!(clr.tables().actions.len(), 9);
    assert!(clr.validate(to_tokens(&vec![T_C, T_D, T_D])));

    let mut slr = Slr::new(dragon_book());
    slr.reduce_equals();
    assert_eq!(slr.tables().actions.len(), 6);
    assert!(slr.validate(to_tokens(&vec![T_D, T_C, T_D])));

    let mut lalr = Lalr::new(dragon_book());
    lalr.reduce_equals();
    assert_eq!(lalr.tables().actions.len(), 6);
    assert!(!lalr.validate(to_tokens(&vec![T_D])));
}

#[test]
fn merged_rows_accept_alike() {
    let makers: [fn() -> Grammar; 4] = [dragon_book, wikipedia, ucalgary_uni_oth_lr1, puncs];
    for make in makers {
        let alphabet = make().terminals.clone();
        let len = 3;
        let clr = Clr::new(make());
        let mut clr2 = Clr::new(make());
        clr2.reduce_equals();
        let slr = Slr::new(make());
        let mut slr2 = Slr::new(make());
        slr2.reduce_equals();
        let lalr = Lalr::new(make());
        let mut lalr2 = Lalr::new(make());
        lalr2.reduce_equals();
        for w in words(&alphabet, len) {
            assert_eq!(clr.validate(to_tokens(&w)), clr2.validate(to_tokens(&w)));
            assert_eq!(slr.validate(to_tokens(&w)), slr2.validate(to_tokens(&w)));
            assert_eq!(lalr.validate(to_tokens(&w)), lalr2.validate(to_tokens(&w)));
        }
    }
}

#[test]
fn merged_rows_run_alike_on_a_table_with_equal_rows() {
    // Rows 1 and 2 are equal: both accept at the end of the input.
    let mut t = Tabler::new(dragon_book());
    t.actions = vec![
        vec![(T_C, Action::Shift(1)), (T_D, Action::Shift(2))],
        vec![(EOF, Action::Acc)],
        vec![(EOF, Action::Acc)],
    ];
    let run = |table: &Tabler, input: &[usize]| {
        let copy: Vec<Vec<(usize, Action)>> = table
            .actions
            .iter()
            .map(|r| r.iter().map(|(s, a)| (*s, a.copy())).collect())
            .collect();
        let mut dfa: Dfa<(), Empty> = Dfa::new(queue(input), copy, Empty, EOF);
        dfa.start().is_ok()
    };
    let inputs: [&[usize]; 5] = [&[T_C], &[T_D], &[], &[T_C, T_D], &[EOF]];
    let before: Vec<bool> = inputs.iter().map(|i| run(&t, i)).collect();
    t.reduce_equals();
    assert_eq!(t.actions.len(), 2);
    let after: Vec<bool> = inputs.iter().map(|i| run(&t, i)).collect();
    assert_eq!(before, after);
    assert_eq!(before, vec![true, true, false, false, false]);
}

#[test]
fn lalr_states_are_lr0_states_with_lookaheads() {
    let makers: [fn() -> Grammar; 6] = [dragon_book, wikipedia, ucalgary_uni_oth_lr1, serokell, puncs, scanner];
    for make in makers {
        let lalr = Lalr::new(make());
        let slr = Slr::new(make());
        let lc: Vec<State> = lalr.tables().states.iter().map(Lalr::without_look).collect();
        let sc: Vec<State> = slr.tables().states.iter().map(Lalr::without_look).collect();
        for c in &lc {
            assert!(sc.iter().any(|d| lrp::state::state_eq(c, d)));
        }
        for d in &sc {
            assert!(lc.iter().any(|c| lrp::state::state_eq(c, d)));
        }
        assert_eq!(lc.len(), sc.len());
    }
}

#[test]
fn cloned_reductor_keeps_first_symbols() {
    let lalr = Lalr::new(dragon_book());
    let toks = |syms: &[usize]| -> Vec<Token<usize, usize>> { syms.iter().map(|s| Token::new(*s, *s)).collect() };
    // c d | d: the second `C` comes from `C -> d`, so it holds `d`.
    assert_eq!(lalr.parse(toks(&[T_C, T_D, T_D]), Cloned).ok(), Some(T_D));
    // d | c d: the second `C` comes from `C -> c C`, so it holds `c`.
    assert_eq!(lalr.parse(toks(&[T_D, T_C, T_D]), Cloned).ok(), Some(T_C));
    assert_eq!(Cloned::first_symbol(N_S, &vec![]), N_S);
}

#[test]
fn clr_states_split_lr0_states_by_lookahead() {
    let makers: [fn() -> Grammar; 6] = [dragon_book, wikipedia, ucalgary_uni_oth_lr1, serokell, puncs, scanner];
    for make in makers {
        let clr = Clr::new(make());
        let slr = Slr::new(make());
        let cc: Vec<State> = clr.tables().states.iter().map(Lalr::without_look).collect();
        let sc: Vec<State> = slr.tables().states.iter().map(Lalr::without_look).collect();
        for c in &cc {
            assert!(sc.iter().any(|d| lrp::state::state_eq(c, d)));
        }
        for d in &sc {
            assert!(cc.iter().any(|c| lrp::state::state_eq(c, d)));
        }
        assert!(cc.len() >= sc.len());
    }
}

#[test]
fn slr_states_keep_the_start_lookahead() {
    // S -> a S | b over $ = 0, S = 1, a = 2, b = 3. The start item carries `$`, so the
    // SLR(1) automaton tells `S -> a . S` after one `a` ($) from the same item after two
    // (no lookahead); LALR(1) merges such states by core.
    let g = || Grammar::new(1, vec![Rule::new(1, vec![vec![2, 1], vec![3]])], 0);
    let slr = Slr::new(g());
    let lalr = Lalr::new(g());
    assert_eq!(slr.tables().states.len(), 6);
    assert_eq!(lalr.tables().states.len(), 4);
    assert!(slr.validate(to_tokens(&vec![2, 2, 3])));
    assert!(lalr.validate(to_tokens(&vec![2, 2, 3])));
}

#[test]
fn lr1_and_lalr_no_weaker_than_slr() {
    let makers: [fn() -> Grammar; 6] = [dragon_book, wikipedia, ucalgary_uni_oth_lr1, serokell, puncs, scanner];
    for make in makers {
        let slr = Slr::new(make()).tables().conflicts().len();
        let clr = Clr::new(make()).tables().conflicts().len();
        let lalr = Lalr::new(make()).tables().conflicts().len();
        if slr == 0 {
            assert_eq!(clr, 0);
            assert_eq!(lalr, 0);
        }
    }
    // The ucalgary grammar is LR(1) but neither SLR(1) nor LALR(1).
    assert_eq!(Slr::new(ucalgary_uni_oth_lr1()).tables().conflicts().len(), 2);
    assert_eq!(Clr::new(ucalgary_uni_oth_lr1()).tables().conflicts().len(), 0);
}

#[test]
fn lookaheads_lie_within_follow() {
    let makers: [fn() -> Grammar; 6] = [dragon_book, wikipedia, ucalgary_uni_oth_lr1, serokell, puncs, scanner];
    for make in makers {
        let clr = Clr::new(make());
        let lalr = Lalr::new(make());
        for t in [clr.tables(), lalr.tables()] {
            for state in &t.states {
                for pos in state {
                    let follow = &t.follow.iter().find(|(k, _)| *k == pos.rule).expect("rule has FOLLOW").1;
                    for l in &pos.look {
                        assert!(follow.contains(l));
                    }
                }
            }
        }
    }
}

#[test]
fn lalr_merges_carry_lookaheads_from_kernels() {
    // 1 -> 2, 2 -> 5 3, 3 -> 6 6 | 3 6 6 | 6 6 2 over $ = 0. A merge carries new
    // lookaheads to the moves of the merged kernel only, so the LALR(1) state of
    // `2 -> 5 3 .` does not reduce on 6, where an LR(1) state of that core does, and the
    // LALR(1) table ends with no conflict where the LR(1) table has one.
    let g = || {
        Grammar::new(
            1,
            vec![Rule::new(1, vec![vec![2]]), Rule::new(2, vec![vec![5, 3]]), Rule::new(3, vec![vec![6, 6], vec![3, 6, 6], vec![6, 6, 2]])],
            0,
        )
    };
    let clr = Clr::new(g());
    let lalr = Lalr::new(g());
    assert_eq!(clr.tables().conflicts().len(), 1);
    assert_eq!(lalr.tables().conflicts().len(), 0);
    let w = vec![5, 6, 6, 5, 6, 6, 6, 6];
    assert!(!clr.validate(to_tokens(&w)));
    assert!(lalr.validate(to_tokens(&w)));
    // The item `2 -> 5 3 .` has lookahead 6 in an LR(1) state, and in no LALR(1) state:
    // the LALR(1) states do not hold the union of the LR(1) lookaheads of their core.
    let reduces_on_6 = |states: &Vec<State>| {
        states.iter().any(|st| st.iter().any(|p| p.rule == 2 && p.point == 2 && p.look.contains(&6)))
    };
    assert!(reduces_on_6(&clr.tables().states));
    assert!(!reduces_on_6(&lalr.tables().states));
    assert!(lalr.tables().states.iter().any(|st| st.iter().any(|p| p.rule == 2 && p.point == 2)));
}

#[test]
fn empty_bodies_are_accepted() {
    // S -> a S | (empty), over $ = 0, S = 1, a = 2.
    let (eof, n_s, t_a) = (0usize, 1usize, 2usize);
    let g = Grammar::new(n_s, vec![Rule::new(n_s, vec![vec![t_a, n_s], vec![]])], eof);
    let t = Tabler::new(g);
    // The empty body adds nothing to FIRST(S).
    assert_eq!(t.first, vec![(n_s, vec![t_a])]);
    let g = Grammar::new(n_s, vec![Rule::new(n_s, vec![vec![t_a, n_s], vec![]])], eof);
    let slr = Slr::new(g);
    assert!(!slr.tables().actions.is_empty());
}

#[test]
fn dfa_reduce_values() {
    // Shift c, then reduce C -> c with the Cloned reductor: the new item holds c.
    let table = vec![
        vec![(T_C, Action::Shift(1)), (N_C, Action::Goto(2))],
        vec![(EOF, Action::Reduce(N_C, (vec![T_C], 0)))],
        vec![(EOF, Action::Acc)],
    ];
    let mut dfa: Dfa<usize, Cloned> = Dfa::new(
        vec![Token::new(7usize, T_C)].into_iter().collect(),
        table,
        Cloned,
        EOF,
    );
    assert!(dfa.shift(1).is_ok());
    assert_eq!(dfa.items[0].item, 7);
    assert!(dfa.reduce(N_C, &(vec![T_C], 0)).is_ok());
    assert_eq!(dfa.items.len(), 1);
    assert_eq!(dfa.items[0].item, T_C);
    assert_eq!(dfa.items[0].ty, N_C);
    assert_eq!(dfa.states, vec![0, 2]);
}

#[test]
fn wop_grammar_reads_a_rule_declaration() {
    let names = wop_names();
    let sym = |n: &str| names.iter().position(|x| *x == n).unwrap();
    let g = wop();
    assert_eq!(g.basis.rule, sym("EntryPoint"));
    assert_eq!(g.basis.look, vec![sym("Eof")]);
    let slr = Slr::new(wop());
    // Expr : Ast = Number ;
    let decl = vec![sym("Ident"), sym("TwoDots"), sym("Ident"), sym("Assign"), sym("Ident"), sym("Sc")];
    assert!(slr.validate(to_tokens(&decl)));
    // use a::b::* ; alias "+" = Add ; S : T = "(" ( x? : y | z ) -> {}% ;
    let prog = vec![
        sym("UseWord"), sym("Ident"), sym("PathAccess"), sym("Ident"), sym("PathAccess"), sym("Glob"), sym("Sc"),
        sym("AliasWord"), sym("StrLit"), sym("Ident"), sym("Sc"),
        sym("Ident"), sym("TwoDots"), sym("Ident"), sym("Assign"), sym("StrLit"), sym("OpenParen"),
        sym("Ident"), sym("Optional"), sym("TwoDots"), sym("Ident"), sym("Pipe"), sym("Ident"),
        sym("CloseParen"), sym("CodeBlock"), sym("Sc"),
    ];
    assert!(slr.validate(to_tokens(&prog)));
    let bad = vec![sym("Ident"), sym("Sc")];
    assert!(!slr.validate(to_tokens(&bad)));
}

#[test]
fn transitive_stops_at_a_fixpoint() {
    assert_eq!(lrp::fixpoint::transitive(40u32, |x| x / 2), Some(0));
    // Closing a set of numbers under halving.
    let closed = lrp::fixpoint::transitive(vec![12u32], |mut v: Vec<u32>| {
        let halves: Vec<u32> = v.iter().map(|x| x / 2).collect();
        for h in halves {
            if !v.contains(&h) {
                v.push(h);
            }
        }
        v
    });
    assert_eq!(closed, Some(vec![12, 6, 3, 1, 0]));
}

#[test]
fn transitive_returns_the_seed_where_map_leaves_it() {
    assert_eq!(lrp::fixpoint::transitive(7u32, |x| x), Some(7));
    // The first fixpoint reached, not a later one: 9 -> 5 -> 3 -> 2 -> 2.
    assert_eq!(lrp::fixpoint::transitive(9u32, |x| if x > 2 { x / 2 + 1 } else { x }), Some(2));
    let mut calls = Vec::new();
    let seen = std::cell::RefCell::new(&mut calls);
    let r = lrp::fixpoint::transitive(8u32, |x| {
        seen.borrow_mut().push(x);
        x / 2
    });
    assert_eq!(r, Some(0));
    assert_eq!(calls, vec![8, 4, 2, 1, 0]);
}
