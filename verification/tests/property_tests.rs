//! Cross-checks of the engine against an independent reference evaluator, and
//! the minimization laws on a family of regexes.

use automata::dfa::convert::nfa_to_dfa;
use automata::nfa::regex_parser::{build, Ast};
use automata::{Symbol, DFA};

fn sym(c: u8) -> Symbol {
    Symbol::from_u8(c)
}

fn term(c: u8) -> Box<Ast> {
    Box::new(Ast::Terminal(Symbol::from_u8(c)))
}

fn build_dfa(ast: &Ast) -> DFA {
    nfa_to_dfa(build(ast))
}

/// An independent reference evaluator over the syntax tree: backtracking over
/// every split point, with no automaton involved.
fn re_match(ast: &Ast, s: &[i32]) -> bool {
    match ast {
        Ast::Terminal(t) => s.len() == 1 && s[0] == t.0,
        Ast::Cons(a, b) => (0..=s.len()).any(|k| re_match(a, &s[..k]) && re_match(b, &s[k..])),
        Ast::Star(a) => {
            s.is_empty() || (1..=s.len()).any(|k| re_match(a, &s[..k]) && re_match(ast, &s[k..]))
        }
        Ast::Or(a, b) => re_match(a, s) || re_match(b, s),
        Ast::Optional(a) => s.is_empty() || re_match(a, s),
        Ast::Range(a, min, max) => {
            let lo = if *min >= 0 { *min } else { 0 };
            (lo..=*max).any(|c| rep_match(a, s, c))
        }
    }
}

/// Whether `s` splits into exactly `c` non-overlapping matches of `a`.
fn rep_match(a: &Ast, s: &[i32], c: i32) -> bool {
    if c <= 0 {
        s.is_empty()
    } else {
        (0..=s.len()).any(|k| re_match(a, &s[..k]) && rep_match(a, &s[k..], c - 1))
    }
}

/// Every id string over {0, 1} up to the given length.
fn all_id_strings(max_len: usize) -> Vec<Vec<i32>> {
    let mut out: Vec<Vec<i32>> = vec![Vec::new()];
    let mut level: Vec<Vec<i32>> = vec![Vec::new()];
    for _ in 0..max_len {
        let mut next_level = Vec::new();
        for w in &level {
            for c in [0, 1] {
                let mut w2 = w.clone();
                w2.push(c);
                out.push(w2.clone());
                next_level.push(w2);
            }
        }
        level = next_level;
    }
    out
}

fn regex_family() -> Vec<Ast> {
    vec![
        Ast::Terminal(sym(b'a')),
        Ast::Cons(term(b'a'), term(b'b')),
        Ast::Star(term(b'a')),
        Ast::Or(term(b'a'), term(b'b')),
        Ast::Optional(term(b'a')),
        Ast::Star(Box::new(Ast::Cons(term(b'a'), term(b'b')))),
        Ast::Cons(Box::new(Ast::Star(term(b'a'))), term(b'b')),
        Ast::Or(Box::new(Ast::Cons(term(b'a'), term(b'b'))), Box::new(Ast::Star(term(b'b')))),
        Ast::Range(term(b'a'), 1, 3),
        Ast::Range(Box::new(Ast::Cons(term(b'a'), term(b'b'))), 0, 2),
        Ast::Star(Box::new(Ast::Or(term(b'a'), term(b'b')))),
        Ast::Optional(Box::new(Ast::Or(term(b'a'), Box::new(Ast::Cons(term(b'b'), term(b'b')))))),
    ]
}

#[test]
fn matcher_agrees_with_reference_evaluator() {
    for ast in &regex_family() {
        let dfa = build_dfa(ast);
        for ids in all_id_strings(4) {
            let w: Vec<Symbol> = ids.iter().map(|&c| Symbol(c)).collect();
            assert_eq!(
                dfa.matches(&w),
                re_match(ast, &ids),
                "disagreement on {:?} for {:?}",
                ids,
                ast_label(ast),
            );
        }
    }
}

#[test]
fn minimization_preserves_the_language() {
    for ast in &regex_family() {
        let dfa = build_dfa(ast);
        let minimized = dfa.clone().minimize();
        for ids in all_id_strings(4) {
            let w: Vec<Symbol> = ids.iter().map(|&c| Symbol(c)).collect();
            assert_eq!(dfa.matches(&w), minimized.matches(&w));
        }
    }
}

#[test]
fn minimization_is_idempotent() {
    for ast in &regex_family() {
        let once = build_dfa(ast).minimize();
        let twice = once.clone().minimize();
        assert_eq!(once.next, twice.next);
        assert_eq!(once.initial, twice.initial);
        let mut f1: Vec<usize> = once.finals.iter().map(|s| s.0).collect();
        let mut f2: Vec<usize> = twice.finals.iter().map(|s| s.0).collect();
        f1.sort();
        f2.sort();
        assert_eq!(f1, f2);
    }
}

#[test]
fn minimization_never_grows() {
    for ast in &regex_family() {
        let dfa = build_dfa(ast);
        let before = dfa.next.len();
        let after = dfa.minimize().next.len();
        assert!(after <= before);
    }
}

#[test]
fn reversal_accepts_exactly_reversed_strings() {
    for ast in &regex_family() {
        let dfa = build_dfa(ast);
        let rev_dfa = nfa_to_dfa(dfa.reverse()).minimize();
        for ids in all_id_strings(4) {
            let w: Vec<Symbol> = ids.iter().map(|&c| Symbol(c)).collect();
            let back: Vec<Symbol> = w.iter().rev().copied().collect();
            assert_eq!(rev_dfa.matches(&w), dfa.matches(&back));
        }
    }
}

/// A short human-readable tag for failure messages.
fn ast_label(ast: &Ast) -> String {
    match ast {
        Ast::Terminal(t) => format!("sym{}", t.0),
        Ast::Cons(a, b) => format!("({}{})", ast_label(a), ast_label(b)),
        Ast::Star(a) => format!("{}*", ast_label(a)),
        Ast::Or(a, b) => format!("({}|{})", ast_label(a), ast_label(b)),
        Ast::Optional(a) => format!("{}?", ast_label(a)),
        Ast::Range(a, min, max) => format!("{}{{{},{}}}", ast_label(a), min, max),
    }
}
