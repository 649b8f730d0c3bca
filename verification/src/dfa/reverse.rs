//! DFA reversal: an NFA for the reverse language. Every transition
//! `s --sym--> t` becomes `t --sym--> s`; the reversed automaton starts in the
//! original final states and accepts in the original initial state.

use vstd::prelude::*;

use crate::dfa::{copy_states, dfa_wf, lemma_index_lookup, lemma_lookup_some_exists, step, DFA};
use crate::nfa::{self, NFA};
use crate::{State, Symbol};

verus! {

/// The reversed edge `b --sym--> a` has already been emitted: its source DFA
/// entry lies before position `k` of row `s` in scan order.
spec fn edge_done(dfa: DFA, s: int, k: int, a: State, sym: Symbol, b: State) -> bool {
    0 <= b.0 < dfa.next@.len() && exists|kk: int|
        0 <= kk < dfa.next@[b.0 as int]@.len() && ((b.0 as int) < s || (b.0 as int == s && kk < k))
            && dfa.next@[b.0 as int]@[kk] == (sym, a)
}

/// The position of the entry for `sym` in a reversed-NFA row, if present.
fn find_key(elem: &nfa::NextElem, sym: Symbol) -> (r: Option<usize>)
    ensures
        match r {
            Some(p) => p < elem@.len() && elem@[p as int].0 == sym,
            None => forall|m: int| 0 <= m < elem@.len() ==> (#[trigger] elem@[m]).0 != sym,
        },
{
    let n = elem.len();
    let mut k: usize = 0;
    while k < n
        invariant
            k <= n,
            n == elem@.len(),
            forall|m: int| 0 <= m < k ==> (#[trigger] elem@[m]).0 != sym,
        decreases n - k,
    {
        if elem[k].0.0 == sym.0 {
            assert(elem@[k as int].0 == sym);
            return Some(k);
        }
        k += 1;
    }
    None
}

/// Produce the NFA accepting exactly the reversals of the DFA's strings:
/// a pure edge-direction flip plus endpoint-set swap.
///
/// The contract pins the edges down exactly: the reversed automaton has the
/// edge `a --sym--> b` if and only if the DFA steps from `b` to `a` on `sym`.
#[verifier::loop_isolation(false)]
pub fn reverse(dfa: &DFA) -> (r: NFA)
    requires
        dfa_wf(*dfa),
    ensures
        nfa::nfa_wf(r),
        r.next@.len() == dfa.next@.len(),
        r.initials@ == dfa.finals@,
        r.finals@ =~= seq![dfa.initial],
        forall|a: State, sym: Symbol, b: State|
            #![trigger nfa::nfa_edge(r.next, a, sym, b)]
            a.0 < r.next@.len() ==> (nfa::nfa_edge(r.next, a, sym, b) <==> (b.0 < dfa.next@.len()
                && step(dfa.next, b, sym) == Some(a))),
{
    let n = dfa.next.len();
    let mut prev: nfa::NextElems = Vec::new();
    let mut i: usize = 0;
    while i < n
        invariant
            i <= n,
            prev@.len() == i,
            forall|ii: int| 0 <= ii < i ==> (#[trigger] prev@[ii])@.len() == 0,
        decreases n - i,
    {
        prev.push(Vec::new());
        i += 1;
    }
    let mut s: usize = 0;
    while s < n
        invariant
            s <= n,
            prev@.len() == n,
            forall|ii: int, kk: int, jj: int|
                0 <= ii < n && 0 <= kk < prev@[ii]@.len() && 0 <= jj < (
                #[trigger] prev@[ii]@[kk]).1@.len() ==> (#[trigger] prev@[ii]@[kk].1@[jj]).0 < n,
            forall|a: State, sym: Symbol, b: State|
                #![trigger nfa::nfa_edge(prev, a, sym, b)]
                #![trigger edge_done(*dfa, s as int, 0, a, sym, b)]
                a.0 < n ==> (nfa::nfa_edge(prev, a, sym, b) <==> edge_done(
                    *dfa,
                    s as int,
                    0,
                    a,
                    sym,
                    b,
                )),
        decreases n - s,
    {
        let row_len = dfa.next[s].len();
        let mut k: usize = 0;
        while k < row_len
            invariant
                k <= row_len,
                s < n,
                row_len == dfa.next@[s as int]@.len(),
                prev@.len() == n,
                forall|ii: int, kk: int, jj: int|
                    0 <= ii < n && 0 <= kk < prev@[ii]@.len() && 0 <= jj < (
                    #[trigger] prev@[ii]@[kk]).1@.len() ==> (#[trigger] prev@[ii]@[kk].1@[jj]).0
                        < n,
                forall|a: State, sym: Symbol, b: State|
                    #![trigger nfa::nfa_edge(prev, a, sym, b)]
                    #![trigger edge_done(*dfa, s as int, k as int, a, sym, b)]
                    a.0 < n ==> (nfa::nfa_edge(prev, a, sym, b) <==> edge_done(
                        *dfa,
                        s as int,
                        k as int,
                        a,
                        sym,
                        b,
                    )),
            decreases row_len - k,
        {
            let sym = dfa.next[s][k].0;
            let t = dfa.next[s][k].1;
            proof {
                assert(crate::dfa::dfa_elem_wf(dfa.next@[s as int], n as int));
                assert(t.0 < n);
            }
            let ghost prev_before = prev;
            let pos = match find_key(&prev[t.0], sym) {
                Some(p) => p,
                None => {
                    let fresh: Vec<State> = Vec::new();
                    prev[t.0].push((sym, fresh));
                    prev[t.0].len() - 1
                },
            };
            proof {
                assert(prev@[t.0 as int]@[pos as int].0 == sym);
                assert(forall|ii: int| 0 <= ii < n && ii != t.0 ==> prev@[ii] == prev_before@[ii]);
                assert(forall|kk: int|
                    0 <= kk < prev_before@[t.0 as int]@.len() ==> prev@[t.0 as int]@[kk]
                        == prev_before@[t.0 as int]@[kk]);
                assert forall|a: State, sym2: Symbol, b: State|
                    a.0 < n && nfa::nfa_edge(prev, a, sym2, b) implies nfa::nfa_edge(
                    prev_before,
                    a,
                    sym2,
                    b,
                ) by {
                    let kk = choose|kk: int|
                        0 <= kk < prev@[a.0 as int]@.len() && (#[trigger] prev@[a.0 as int]@[kk]).0
                            == sym2 && prev@[a.0 as int]@[kk].1@.contains(b);
                    if a.0 == t.0 && kk == prev_before@[t.0 as int]@.len() {
                        assert(prev@[a.0 as int]@[kk].1@.len() == 0);
                        assert(false);
                    } else {
                        assert(prev_before@[a.0 as int]@[kk] == prev@[a.0 as int]@[kk]);
                    }
                }
                assert forall|a: State, sym2: Symbol, b: State|
                    a.0 < n && nfa::nfa_edge(prev_before, a, sym2, b) implies nfa::nfa_edge(
                    prev,
                    a,
                    sym2,
                    b,
                ) by {
                    let kk = choose|kk: int|
                        0 <= kk < prev_before@[a.0 as int]@.len() && (#[trigger] prev_before@[a.0 as int]@[kk]).0
                            == sym2 && prev_before@[a.0 as int]@[kk].1@.contains(b);
                    assert(prev@[a.0 as int]@[kk] == prev_before@[a.0 as int]@[kk]);
                }
            }
            let ghost prev_mid = prev;
            prev[t.0][pos].1.push(State(s));
            proof {
                assert(prev@[t.0 as int]@[pos as int].1@.last() == State(s));
                assert(prev@[t.0 as int]@[pos as int].0 == sym);
                assert(forall|ii: int| 0 <= ii < n && ii != t.0 ==> prev@[ii] == prev_mid@[ii]);
                assert(forall|kk: int|
                    0 <= kk < prev_mid@[t.0 as int]@.len() && kk != pos ==> prev@[t.0 as int]@[kk]
                        == prev_mid@[t.0 as int]@[kk]);
                assert(prev@[t.0 as int]@.len() == prev_mid@[t.0 as int]@.len());
                // the new edge is present
                assert(nfa::nfa_edge(prev, t, sym, State(s))) by {
                    assert(prev@[t.0 as int]@[pos as int].1@.contains(State(s)));
                }
                assert(edge_done(*dfa, s as int, k as int + 1, t, sym, State(s))) by {
                    assert(dfa.next@[s as int]@[k as int] == (sym, t));
                }
                // every edge now present was present before or is the new one
                assert forall|a: State, sym2: Symbol, b: State|
                    a.0 < n && nfa::nfa_edge(prev, a, sym2, b) implies (nfa::nfa_edge(
                    prev_mid,
                    a,
                    sym2,
                    b,
                ) || (a == t && sym2 == sym && b == State(s))) by {
                    let kk = choose|kk: int|
                        0 <= kk < prev@[a.0 as int]@.len() && (#[trigger] prev@[a.0 as int]@[kk]).0
                            == sym2 && prev@[a.0 as int]@[kk].1@.contains(b);
                    if a.0 == t.0 && kk == pos {
                        let jj = choose|jj: int|
                            0 <= jj < prev@[a.0 as int]@[kk].1@.len()
                                && prev@[a.0 as int]@[kk].1@[jj] == b;
                        if jj < prev_mid@[a.0 as int]@[kk].1@.len() {
                            assert(prev_mid@[a.0 as int]@[kk].1@[jj] == b);
                            assert(prev_mid@[a.0 as int]@[kk].1@.contains(b));
                        } else {
                            assert(b == State(s));
                            assert(a.0 == t.0 ==> a == t);
                        }
                    } else {
                        assert(prev_mid@[a.0 as int]@[kk] == prev@[a.0 as int]@[kk]);
                    }
                }
                // edges present before are still present
                assert forall|a: State, sym2: Symbol, b: State|
                    a.0 < n && nfa::nfa_edge(prev_mid, a, sym2, b) implies nfa::nfa_edge(
                    prev,
                    a,
                    sym2,
                    b,
                ) by {
                    let kk = choose|kk: int|
                        0 <= kk < prev_mid@[a.0 as int]@.len() && (#[trigger] prev_mid@[a.0 as int]@[kk]).0
                            == sym2 && prev_mid@[a.0 as int]@[kk].1@.contains(b);
                    if a.0 == t.0 && kk == pos {
                        let jj = choose|jj: int|
                            0 <= jj < prev_mid@[a.0 as int]@[kk].1@.len()
                                && prev_mid@[a.0 as int]@[kk].1@[jj] == b;
                        assert(prev@[a.0 as int]@[kk].1@[jj] == b);
                        assert(prev@[a.0 as int]@[kk].1@.contains(b));
                    } else {
                        assert(prev@[a.0 as int]@[kk] == prev_mid@[a.0 as int]@[kk]);
                    }
                }
                // an emitted edge at the new scan position comes from an old
                // position or from the entry just processed
                assert forall|a: State, sym2: Symbol, b: State|
                    edge_done(*dfa, s as int, k as int + 1, a, sym2, b) implies (edge_done(
                    *dfa,
                    s as int,
                    k as int,
                    a,
                    sym2,
                    b,
                ) || (a == t && sym2 == sym && b == State(s))) by {
                    let kk = choose|kk: int|
                        0 <= kk < dfa.next@[b.0 as int]@.len() && ((b.0 as int) < s || (b.0 as int
                            == s && kk < k as int + 1)) && dfa.next@[b.0 as int]@[kk] == (sym2, a);
                    if b.0 as int == s && kk == k as int {
                        assert(dfa.next@[s as int]@[k as int] == (sym2, a));
                    }
                }
            }
            k += 1;
        }
        proof {
            assert forall|a: State, sym2: Symbol, b: State|
                edge_done(*dfa, s as int + 1, 0, a, sym2, b) implies edge_done(
                *dfa,
                s as int,
                row_len as int,
                a,
                sym2,
                b,
            ) by {
            }
        }
        s += 1;
    }
    let initials = copy_states(&dfa.finals);
    let mut finals: Vec<State> = Vec::new();
    finals.push(dfa.initial);
    proof {
        assert forall|a: State, sym: Symbol, b: State|
            a.0 < n implies (nfa::nfa_edge(prev, a, sym, b) <==> (b.0 < n && step(
            dfa.next,
            b,
            sym,
        ) == Some(a))) by {
            if nfa::nfa_edge(prev, a, sym, b) {
                assert(edge_done(*dfa, n as int, 0, a, sym, b));
                let kk = choose|kk: int|
                    0 <= kk < dfa.next@[b.0 as int]@.len() && ((b.0 as int) < n as int || (b.0 as int
                        == n as int && kk < 0)) && dfa.next@[b.0 as int]@[kk] == (sym, a);
                assert(crate::dfa::dfa_elem_wf(dfa.next@[b.0 as int], n as int));
                lemma_index_lookup(dfa.next@[b.0 as int]@, sym, kk);
            }
            if b.0 < n && step(dfa.next, b, sym) == Some(a) {
                lemma_lookup_some_exists(dfa.next@[b.0 as int]@, sym, a);
                assert(edge_done(*dfa, n as int, 0, a, sym, b));
            }
        }
        // edges stay within range
        assert forall|ii: int| 0 <= ii < n implies nfa::nfa_elem_wf(
            #[trigger] prev@[ii],
            n as int,
        ) by {
        }
    }
    NFA { next: prev, initials, finals }
}


/// In an automaton whose edges mirror a DFA's, nothing moves on epsilon:
/// epsilon reachability from a real state is equality.
proof fn lemma_mirror_no_eps(d: DFA, r: NFA, x: State, t: State)
    requires
        dfa_wf(d),
        r.next@.len() == d.next@.len(),
        forall|a: State, sym: Symbol, b: State|
            #![trigger nfa::nfa_edge(r.next, a, sym, b)]
            a.0 < r.next@.len() ==> (nfa::nfa_edge(r.next, a, sym, b) <==> (b.0 < d.next@.len()
                && step(d.next, b, sym) == Some(a))),
        x.0 < d.next@.len(),
        nfa::eps_reach(r.next, x, t),
    ensures
        t == x,
{
    let p = choose|p: Seq<State>|
        nfa::is_eps_path(r.next, p) && p.first() == x && p.last() == t;
    if p.len() > 1 {
        assert(nfa::nfa_edge(r.next, p[0], Symbol(crate::EPSILON), p[1]));
        assert(step(d.next, p[1], Symbol(crate::EPSILON)) == Some(p[0]));
        lemma_lookup_some_exists(d.next@[p[1].0 as int]@, Symbol(crate::EPSILON), p[0]);
        let kk = choose|kk: int|
            0 <= kk < d.next@[p[1].0 as int]@.len() && d.next@[p[1].0 as int]@[kk] == (
            Symbol(crate::EPSILON),
            p[0],
        );
        assert(crate::dfa::dfa_elem_wf(d.next@[p[1].0 as int], d.next@.len() as int));
        assert(false);
    }
}

/// Set-semantics execution of the mirrored automaton tracks the DFA's walk
/// read backwards: it ends in a configuration containing exactly the state
/// the DFA reaches on the reversed string.
proof fn lemma_reverse_accepts_from(d: DFA, r: NFA, s: Set<State>, w: Seq<Symbol>)
    requires
        dfa_wf(d),
        r.next@.len() == d.next@.len(),
        r.finals@ =~= seq![d.initial],
        forall|a: State, sym: Symbol, b: State|
            #![trigger nfa::nfa_edge(r.next, a, sym, b)]
            a.0 < r.next@.len() ==> (nfa::nfa_edge(r.next, a, sym, b) <==> (b.0 < d.next@.len()
                && step(d.next, b, sym) == Some(a))),
        forall|x: State| #[trigger] s.contains(x) ==> x.0 < d.next@.len(),
    ensures
        nfa::nfa_accepts_from(r.next, r.finals, s, w) == match crate::dfa::walk(
            d.next,
            d.initial,
            w.reverse(),
        ) {
            Some(e) => s.contains(e),
            None => false,
        },
    decreases w.len(),
{
    let n = d.next@.len();
    if w.len() == 0 {
        assert(w.reverse() =~= Seq::<Symbol>::empty());
        assert(nfa::has_final(r.finals, s) == s.contains(d.initial)) by {
            if nfa::has_final(r.finals, s) {
                let f = choose|f: State| s.contains(f) && r.finals@.contains(f);
                let m = choose|m: int| 0 <= m < r.finals@.len() && r.finals@[m] == f;
                assert(f == d.initial);
            }
            if s.contains(d.initial) {
                assert(r.finals@[0] == d.initial);
                assert(r.finals@.contains(d.initial));
            }
        }
    } else {
        let sym = w[0];
        let mv = nfa::move_set(r.next, s, sym);
        let cl = nfa::eps_closure_set(r.next, mv);
        assert forall|t: State|
            mv.contains(t) implies (t.0 < n && step(d.next, t, sym) is Some && s.contains(
            step(d.next, t, sym)->Some_0,
        )) by {
            let x = choose|x: State| s.contains(x) && nfa::nfa_edge(r.next, x, sym, t);
        }
        assert forall|t: State|
            (t.0 < n && step(d.next, t, sym) is Some && s.contains(
                step(d.next, t, sym)->Some_0,
            )) implies mv.contains(t) by {
            let x = step(d.next, t, sym)->Some_0;
            assert(x.0 < n);
            assert(nfa::nfa_edge(r.next, x, sym, t));
        }
        assert forall|t: State| cl.contains(t) implies mv.contains(t) by {
            let x = choose|x: State| mv.contains(x) && nfa::eps_reach(r.next, x, t);
            lemma_mirror_no_eps(d, r, x, t);
        }
        assert forall|t: State| mv.contains(t) implies cl.contains(t) by {
            nfa::lemma_eps_reach_refl(r.next, t);
        }
        assert(cl =~= mv);
        lemma_reverse_accepts_from(d, r, mv, w.drop_first());
        assert(w.reverse() =~= w.drop_first().reverse().push(sym));
        crate::dfa::lemma_walk_snoc(d.next, d.initial, w.drop_first().reverse(), sym);
        match crate::dfa::walk(d.next, d.initial, w.drop_first().reverse()) {
            Some(e) => {
                crate::dfa::lemma_walk_in_range(d.next, d.initial, w.drop_first().reverse());
                assert(e.0 < n);
            },
            None => {},
        }
    }
}

/// The reversal law: an automaton whose edges, initial and final roles mirror
/// a DFA's the way `reverse` builds them accepts exactly the reversals of the
/// strings the DFA accepts.
pub proof fn lemma_reverse_language(d: DFA, r: NFA, w: Seq<Symbol>)
    requires
        dfa_wf(d),
        r.next@.len() == d.next@.len(),
        r.initials@ == d.finals@,
        r.finals@ =~= seq![d.initial],
        forall|a: State, sym: Symbol, b: State|
            #![trigger nfa::nfa_edge(r.next, a, sym, b)]
            a.0 < r.next@.len() ==> (nfa::nfa_edge(r.next, a, sym, b) <==> (b.0 < d.next@.len()
                && step(d.next, b, sym) == Some(a))),
    ensures
        nfa::nfa_accepts(r, w) <==> crate::dfa::spec_matches(d, w.reverse()),
{
    let s0 = r.initials@.to_set();
    assert forall|x: State| #[trigger] s0.contains(x) implies x.0 < d.next@.len() by {
        assert(d.finals@.contains(x));
        let m = choose|m: int| 0 <= m < d.finals@.len() && d.finals@[m] == x;
    }
    let cl0 = nfa::eps_closure_set(r.next, s0);
    assert forall|t: State| cl0.contains(t) implies s0.contains(t) by {
        let x = choose|x: State| s0.contains(x) && nfa::eps_reach(r.next, x, t);
        lemma_mirror_no_eps(d, r, x, t);
    }
    assert forall|t: State| s0.contains(t) implies cl0.contains(t) by {
        nfa::lemma_eps_reach_refl(r.next, t);
    }
    assert(cl0 =~= s0);
    lemma_reverse_accepts_from(d, r, s0, w);
    crate::dfa::lemma_accepts_walk(d.next, d.finals, d.initial, w.reverse());
    match crate::dfa::walk(d.next, d.initial, w.reverse()) {
        Some(e) => {
            assert(s0.contains(e) == d.finals@.contains(e));
        },
        None => {},
    }
}

} // verus!
