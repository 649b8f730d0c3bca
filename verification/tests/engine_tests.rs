//! Scenario tests for the automaton engine: construction, determinization,
//! minimization, reversal, matching and generation on concrete regexes.

use automata::dfa::convert::{e_closure, nfa_to_dfa};
use automata::dfa::generate::Generation;
use automata::dfa::minimize::find_same;
use automata::nfa::regex_parser::{add_e_transfer, backpatch, build, new_dummy_node, new_node, Ast};
use automata::{State, Symbol, DFA, NFA, EPSILON};

fn sym(c: u8) -> Symbol {
    Symbol::from_u8(c)
}

fn syms(s: &str) -> Vec<Symbol> {
    s.bytes().map(Symbol::from_u8).collect()
}

fn term(c: u8) -> Box<Ast> {
    Box::new(Ast::Terminal(Symbol::from_u8(c)))
}

fn build_dfa(ast: &Ast) -> DFA {
    nfa_to_dfa(build(ast))
}

fn accepts(dfa: &DFA, s: &str) -> bool {
    dfa.matches(&syms(s))
}

#[test]
fn from_u8_maps_letters() {
    assert_eq!(Symbol::from_u8(b'a').0, 0);
    assert_eq!(Symbol::from_u8(b'b').0, 1);
    assert_eq!(Symbol::from_u8(b'z').0, 25);
    assert!(Symbol::null().is_null());
    assert!(!Symbol::from_u8(b'a').is_null());
    assert_eq!(Symbol::null().0, EPSILON);
}

#[test]
fn new_node_allocates_sequentially() {
    let mut arena: automata::nfa::NextElems = Vec::new();
    let s0 = new_node(&mut arena, sym(b'a'), vec![State(1)]);
    let s1 = new_node(&mut arena, sym(b'b'), vec![State(2)]);
    assert_eq!(s0, State(0));
    assert_eq!(s1, State(1));
    assert_eq!(arena.len(), 2);
    assert_eq!(arena[0][0].0, sym(b'a'));
    assert_eq!(arena[0][0].1, vec![State(1)]);
}

#[test]
fn dummy_node_points_one_past_end() {
    let mut arena: automata::nfa::NextElems = Vec::new();
    let s0 = new_dummy_node(&mut arena);
    assert_eq!(s0, State(0));
    assert_eq!(arena[0][0].0, Symbol::null());
    assert_eq!(arena[0][0].1, vec![State(1)]);
}

#[test]
fn add_e_transfer_extends_epsilon_targets() {
    let mut arena: automata::nfa::NextElems = Vec::new();
    new_dummy_node(&mut arena);
    new_dummy_node(&mut arena);
    add_e_transfer(&mut arena, State(0), State(2));
    assert_eq!(arena[0][0].1, vec![State(1), State(2)]);
}

#[test]
fn backpatch_rewrites_forward_references() {
    let mut arena: automata::nfa::NextElems = Vec::new();
    new_node(&mut arena, sym(b'a'), vec![State(1), State(2)]);
    new_node(&mut arena, sym(b'b'), vec![State(2)]);
    backpatch(&mut arena, State(0), State(2), State(1));
    assert_eq!(arena[0][0].1, vec![State(1), State(1)]);
    assert_eq!(arena[1][0].1, vec![State(2)]);
}

#[test]
fn e_closure_follows_epsilon_chains() {
    // 0 --eps--> 1 --eps--> 2, 2 --a--> 0; closures are reflexive and
    // transitive but never cross a real symbol.
    let arena: automata::nfa::NextElems = vec![
        vec![(Symbol::null(), vec![State(1)])],
        vec![(Symbol::null(), vec![State(2)])],
        vec![(sym(b'a'), vec![State(0)])],
    ];
    let cl = e_closure(&arena);
    let as_set = |v: &Vec<State>| {
        let mut ids: Vec<usize> = v.iter().map(|s| s.0).collect();
        ids.sort();
        ids.dedup();
        ids
    };
    assert_eq!(as_set(&cl[0]), vec![0, 1, 2]);
    assert_eq!(as_set(&cl[1]), vec![1, 2]);
    assert_eq!(as_set(&cl[2]), vec![2]);
}

#[test]
fn concat_has_three_dfa_states() {
    // regex ab
    let dfa = build_dfa(&Ast::Cons(term(b'a'), term(b'b')));
    assert_eq!(dfa.next.len(), 3);
    assert!(accepts(&dfa, "ab"));
    assert!(!accepts(&dfa, "a"));
    assert!(!accepts(&dfa, "ba"));
    assert!(!accepts(&dfa, ""));
}

#[test]
fn star_minimizes_to_single_looping_state() {
    // regex a*
    let dfa = build_dfa(&Ast::Star(term(b'a'))).minimize();
    assert_eq!(dfa.next.len(), 1);
    assert_eq!(dfa.initial, State(0));
    assert!(dfa.finals.contains(&State(0)));
    assert_eq!(dfa.next[0], vec![(sym(b'a'), State(0))]);
    assert!(accepts(&dfa, ""));
    assert!(accepts(&dfa, "aaaa"));
    assert!(!accepts(&dfa, "b"));
    assert!(!accepts(&dfa, "ab"));
}

/// Every string over {a, b} up to the given length, shortest first.
fn all_strings(max_len: usize) -> Vec<Vec<Symbol>> {
    let mut out: Vec<Vec<Symbol>> = vec![Vec::new()];
    let mut level: Vec<Vec<Symbol>> = vec![Vec::new()];
    for _ in 0..max_len {
        let mut next_level = Vec::new();
        for w in &level {
            for c in [b'a', b'b'] {
                let mut w2 = w.clone();
                w2.push(sym(c));
                out.push(w2.clone());
                next_level.push(w2);
            }
        }
        level = next_level;
    }
    out
}

#[test]
fn alternation_accepts_exactly_its_branches() {
    // regex a|b
    let dfa = build_dfa(&Ast::Or(term(b'a'), term(b'b'))).minimize();
    for w in all_strings(3) {
        let expected = w.len() == 1;
        assert_eq!(dfa.matches(&w), expected);
    }
    assert!(!accepts(&dfa, ""));
    assert!(!accepts(&dfa, "aa"));
    assert!(!accepts(&dfa, "ab"));
}

#[test]
fn generation_of_star_pairs() {
    // regex (ab)*, stopped after 5 deliveries
    let dfa = build_dfa(&Ast::Star(Box::new(Ast::Cons(term(b'a'), term(b'b')))));
    let mut gen = Generation::new(dfa.clone());
    let mut delivered: Vec<Vec<Symbol>> = Vec::new();
    for _ in 0..5 {
        match gen.next_delivery() {
            Some(w) => delivered.push(w),
            None => break,
        }
    }
    assert_eq!(delivered.len(), 5);
    for w in &delivered {
        assert_eq!(w.len() % 2, 0);
        for (i, s) in w.iter().enumerate() {
            let expect = if i % 2 == 0 { sym(b'a') } else { sym(b'b') };
            assert_eq!(*s, expect);
        }
        assert!(dfa.matches(w));
    }
    assert!(delivered.contains(&Vec::new()));
    assert!(delivered.contains(&syms("ab")));
}

#[test]
fn generation_only_delivers_accepted_strings() {
    let regexes: Vec<Ast> = vec![
        Ast::Star(Box::new(Ast::Cons(term(b'a'), term(b'b')))),
        Ast::Or(term(b'a'), Box::new(Ast::Star(term(b'b')))),
        Ast::Cons(Box::new(Ast::Star(term(b'a'))), term(b'b')),
    ];
    for ast in &regexes {
        let dfa = build_dfa(ast);
        let mut gen = Generation::new(dfa.clone());
        for _ in 0..25 {
            match gen.next_delivery() {
                Some(w) => assert!(dfa.matches(&w)),
                None => break,
            }
        }
    }
}

#[test]
fn generation_exhausts_finite_language() {
    // regex a|b: exactly two strings, then exhaustion
    let dfa = build_dfa(&Ast::Or(term(b'a'), term(b'b')));
    let mut gen = Generation::new(dfa);
    let mut delivered: Vec<Vec<Symbol>> = Vec::new();
    while let Some(w) = gen.next_delivery() {
        delivered.push(w);
        assert!(delivered.len() <= 10, "finite language over-generates");
    }
    assert_eq!(delivered.len(), 2);
    assert!(delivered.contains(&syms("a")));
    assert!(delivered.contains(&syms("b")));
}

#[test]
fn generation_reaches_every_short_accepted_string() {
    // regex (ab)*: every accepted string up to length 6 is delivered early
    let dfa = build_dfa(&Ast::Star(Box::new(Ast::Cons(term(b'a'), term(b'b')))));
    let mut gen = Generation::new(dfa.clone());
    let mut delivered: Vec<Vec<Symbol>> = Vec::new();
    for _ in 0..40 {
        match gen.next_delivery() {
            Some(w) => delivered.push(w),
            None => break,
        }
    }
    for target in ["", "ab", "abab", "ababab"] {
        assert!(delivered.contains(&syms(target)), "missing {:?}", target);
    }
}

#[test]
fn reversal_swaps_roles_and_flips_edges() {
    // regex ab reversed accepts exactly ba
    let dfa = build_dfa(&Ast::Cons(term(b'a'), term(b'b')));
    let rev: NFA = dfa.reverse();
    assert_eq!(rev.next.len(), dfa.next.len());
    assert_eq!(rev.finals, vec![dfa.initial]);
    let rev_dfa = nfa_to_dfa(rev).minimize();
    for w in all_strings(3) {
        let as_str: Vec<i32> = w.iter().map(|s| s.0).collect();
        let expected = as_str == vec![1, 0];  // "ba"
        assert_eq!(rev_dfa.matches(&w), expected);
    }
}

#[test]
fn reversal_of_star_language() {
    // (ab)* reversed is (ba)*
    let dfa = build_dfa(&Ast::Star(Box::new(Ast::Cons(term(b'a'), term(b'b')))));
    let rev_dfa = nfa_to_dfa(dfa.reverse()).minimize();
    for w in all_strings(4) {
        let ids: Vec<i32> = w.iter().map(|s| s.0).collect();
        let expected = ids.len() % 2 == 0 && ids.chunks(2).all(|c| c == [1, 0]);
        assert_eq!(rev_dfa.matches(&w), expected);
    }
}

#[test]
fn find_same_groups_equivalent_states() {
    // two distinct final states with no outgoing transitions are equivalent
    let next: automata::dfa::NextElems = vec![
        vec![(sym(b'a'), State(1)), (sym(b'b'), State(2))],
        vec![],
        vec![],
    ];
    let finals = vec![State(1), State(2)];
    let same = find_same(&next, &finals);
    assert_eq!(same.len(), 3);
    assert_eq!(same[0], vec![State(0)]);
    assert_eq!(same[1], vec![State(1), State(2)]);
    assert_eq!(same[2], vec![State(1), State(2)]);
}

#[test]
fn minimize_merges_equivalent_states() {
    let next: automata::dfa::NextElems = vec![
        vec![(sym(b'a'), State(1)), (sym(b'b'), State(2))],
        vec![],
        vec![],
    ];
    let finals = vec![State(1), State(2)];
    let dfa = DFA { next, initial: State(0), finals }.minimize();
    assert_eq!(dfa.next.len(), 2);
    assert!(accepts(&dfa, "a"));
    assert!(accepts(&dfa, "b"));
    assert!(!accepts(&dfa, ""));
    assert!(!accepts(&dfa, "ab"));
}

#[test]
fn determinization_handles_epsilon_cycles() {
    // A hand-built NFA with an epsilon cycle 0 -> 1 -> 0 and edges
    // 1 --a--> 2, 2 --b--> 0; initial {0}, final {2}: language (ab)*a.
    let nfa = NFA {
        next: vec![
            vec![(Symbol::null(), vec![State(1)])],
            vec![(Symbol::null(), vec![State(0)]), (sym(b'a'), vec![State(2)])],
            vec![(sym(b'b'), vec![State(0)])],
        ],
        initials: vec![State(0)],
        finals: vec![State(2)],
    };
    let dfa = nfa_to_dfa(nfa);
    for w in all_strings(5) {
        let ids: Vec<i32> = w.iter().map(|s| s.0).collect();
        let expected = ids.len() % 2 == 1 && ids.chunks(2).all(|c| c == [0, 1] || c == [0]);
        assert_eq!(dfa.matches(&w), expected, "on {:?}", ids);
    }
}

#[test]
fn concat_is_already_minimal() {
    // regex ab: the three determinized states are pairwise distinguishable
    let dfa = build_dfa(&Ast::Cons(term(b'a'), term(b'b')));
    let minimized = dfa.clone().minimize();
    assert_eq!(minimized.next.len(), 3);
    assert_eq!(minimized.next, dfa.next);
}

#[test]
fn generation_never_delivers_a_string_twice() {
    // over a DFA the state sequence is determined by the string, so
    // pair-keyed deduplication means no string is ever delivered twice
    let regexes: Vec<Ast> = vec![
        Ast::Star(Box::new(Ast::Cons(term(b'a'), term(b'b')))),
        Ast::Star(Box::new(Ast::Or(term(b'a'), term(b'b')))),
        Ast::Cons(Box::new(Ast::Star(term(b'a'))), term(b'b')),
    ];
    for ast in &regexes {
        let dfa = build_dfa(ast).minimize();
        let mut gen = Generation::new(dfa);
        let mut delivered: Vec<Vec<Symbol>> = Vec::new();
        for _ in 0..40 {
            match gen.next_delivery() {
                Some(w) => {
                    assert!(!delivered.contains(&w), "duplicate delivery {:?}", w);
                    delivered.push(w);
                }
                None => break,
            }
        }
    }
}
