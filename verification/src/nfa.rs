//! The nondeterministic automaton: adjacency `State -> (Symbol -> set of State)`,
//! a set of initial states and a set of final states. Epsilon entries are kept
//! under the [`crate::EPSILON`] sentinel symbol.

use vstd::prelude::*;

use crate::{State, Symbol, EPSILON};

pub mod regex_parser;

verus! {

/// The transitions leaving one state: per symbol, the set of target states.
/// Entries with the same symbol are read as the union of their target sets.
pub type NextElem = Vec<(Symbol, Vec<State>)>;

/// The whole adjacency, indexed by state id.
pub type NextElems = Vec<NextElem>;

/// A nondeterministic finite automaton.
#[derive(Clone)]
pub struct NFA {
    pub next: NextElems,
    pub initials: Vec<State>,
    pub finals: Vec<State>,
}

/// There is an edge `a --sym--> b` in the adjacency `next`.
pub open spec fn nfa_edge(next: NextElems, a: State, sym: Symbol, b: State) -> bool {
    exists|k: int|
        0 <= k < next@[a.0 as int]@.len() && (#[trigger] next@[a.0 as int]@[k]).0 == sym
            && next@[a.0 as int]@[k].1@.contains(b)
}

/// Every target state mentioned by the entries of one state lies below `n`.
pub open spec fn nfa_elem_wf(elem: NextElem, n: int) -> bool {
    forall|k: int, j: int|
        0 <= k < elem@.len() && 0 <= j < (#[trigger] elem@[k]).1@.len() ==> (
        #[trigger] elem@[k].1@[j]).0 < n
}

/// Structural validity of the adjacency alone: all targets within range.
pub open spec fn next_wf(next: NextElems) -> bool {
    forall|i: int| 0 <= i < next@.len() ==> nfa_elem_wf(#[trigger] next@[i], next@.len() as int)
}

/// Structural validity: one adjacency entry per state id, all targets and all
/// initial and final states within range.
pub open spec fn nfa_wf(a: NFA) -> bool {
    &&& next_wf(a.next)
    &&& forall|k: int| 0 <= k < a.initials@.len() ==> (#[trigger] a.initials@[k]).0 < a.next@.len()
    &&& forall|k: int| 0 <= k < a.finals@.len() ==> (#[trigger] a.finals@[k]).0 < a.next@.len()
}

/// `p` walks along epsilon edges of the adjacency.
pub open spec fn is_eps_path(next: NextElems, p: Seq<State>) -> bool {
    p.len() >= 1 && forall|k: int|
        0 <= k < p.len() - 1 ==> nfa_edge(next, #[trigger] p[k], Symbol(EPSILON), p[k + 1])
}

/// `b` is reachable from `a` over zero or more epsilon edges.
pub open spec fn eps_reach(next: NextElems, a: State, b: State) -> bool {
    exists|p: Seq<State>| is_eps_path(next, p) && p.first() == a && p.last() == b
}

/// Epsilon reachability is reflexive: the empty walk.
pub proof fn lemma_eps_reach_refl(next: NextElems, a: State)
    ensures
        eps_reach(next, a, a),
{
    let p = seq![a];
    assert(is_eps_path(next, p) && p.first() == a && p.last() == a);
}

/// Epsilon reachability extends along one more epsilon edge.
pub proof fn lemma_eps_reach_step(next: NextElems, a: State, b: State, c: State)
    requires
        eps_reach(next, a, b),
        nfa_edge(next, b, Symbol(EPSILON), c),
    ensures
        eps_reach(next, a, c),
{
    let p = choose|p: Seq<State>| is_eps_path(next, p) && p.first() == a && p.last() == b;
    let q = p.push(c);
    assert forall|k: int| 0 <= k < q.len() - 1 implies nfa_edge(
        next,
        #[trigger] q[k],
        Symbol(EPSILON),
        q[k + 1],
    ) by {
        if k < p.len() - 1 {
            assert(q[k] == p[k] && q[k + 1] == p[k + 1]);
        } else {
            assert(q[k] == p.last() && q[k + 1] == c);
        }
    }
    assert(is_eps_path(next, q) && q.first() == a && q.last() == c);
}


/// The epsilon closure of a set of states: everything reachable from a
/// member over zero or more epsilon edges.
pub open spec fn eps_closure_set(next: NextElems, s: Set<State>) -> Set<State> {
    Set::new(|t: State| exists|x: State| s.contains(x) && eps_reach(next, x, t))
}

/// The raw one-symbol move of a set of states: every target of a `sym` edge
/// out of a member.
pub open spec fn move_set(next: NextElems, s: Set<State>, sym: Symbol) -> Set<State> {
    Set::new(|t: State| exists|x: State| s.contains(x) && nfa_edge(next, x, sym, t))
}

/// The configuration holds a final state.
pub open spec fn has_final(finals: Vec<State>, s: Set<State>) -> bool {
    exists|f: State| s.contains(f) && finals@.contains(f)
}

/// Acceptance of `w` from an epsilon-closed configuration: step the whole set
/// per symbol, close it again, and accept iff a final state is reached.
pub open spec fn nfa_accepts_from(
    next: NextElems,
    finals: Vec<State>,
    s: Set<State>,
    w: Seq<Symbol>,
) -> bool
    decreases w.len(),
{
    if w.len() == 0 {
        has_final(finals, s)
    } else {
        nfa_accepts_from(next, finals, eps_closure_set(next, move_set(next, s, w[0])), w.drop_first())
    }
}

/// The language of the NFA: acceptance from the closed set of initial states.
pub open spec fn nfa_accepts(a: NFA, w: Seq<Symbol>) -> bool {
    nfa_accepts_from(a.next, a.finals, eps_closure_set(a.next, a.initials@.to_set()), w)
}

/// The empty configuration accepts nothing.
pub proof fn lemma_accepts_empty_set(next: NextElems, finals: Vec<State>, s: Set<State>, w: Seq<Symbol>)
    requires
        forall|t: State| !s.contains(t),
    ensures
        !nfa_accepts_from(next, finals, s, w),
    decreases w.len(),
{
    if w.len() > 0 {
        let s2 = eps_closure_set(next, move_set(next, s, w[0]));
        assert(forall|t: State| !s2.contains(t));
        lemma_accepts_empty_set(next, finals, s2, w.drop_first());
    }
}

/// A set closed under epsilon edges holds everything epsilon-reachable from
/// any of its members.
pub proof fn lemma_closed_contains_reach(next: NextElems, c: Vec<State>, x: State, t: State)
    requires
        c@.contains(x),
        forall|s: State, tt: State|
            #![trigger c@.contains(s), nfa_edge(next, s, Symbol(EPSILON), tt)]
            c@.contains(s) && nfa_edge(next, s, Symbol(EPSILON), tt) ==> c@.contains(tt),
        eps_reach(next, x, t),
    ensures
        c@.contains(t),
{
    let p = choose|p: Seq<State>| is_eps_path(next, p) && p.first() == x && p.last() == t;
    lemma_path_stays_in_closed(next, c, p);
}

proof fn lemma_path_stays_in_closed(next: NextElems, c: Vec<State>, p: Seq<State>)
    requires
        is_eps_path(next, p),
        c@.contains(p.first()),
        forall|s: State, tt: State|
            #![trigger c@.contains(s), nfa_edge(next, s, Symbol(EPSILON), tt)]
            c@.contains(s) && nfa_edge(next, s, Symbol(EPSILON), tt) ==> c@.contains(tt),
    ensures
        c@.contains(p.last()),
    decreases p.len(),
{
    if p.len() > 1 {
        assert(is_eps_path(next, p.drop_last())) by {
            assert(forall|k: int|
                0 <= k < p.drop_last().len() ==> p.drop_last()[k] == #[trigger] p[k]);
        }
        assert(p.drop_last().first() == p.first());
        lemma_path_stays_in_closed(next, c, p.drop_last());
        assert(p.drop_last().last() == p[p.len() - 2]);
        assert(nfa_edge(next, p[p.len() - 2], Symbol(EPSILON), p.last()));
    }
}


/// The closure table's row `i` holds everything epsilon-reachable from any of
/// its members (exactness of `e_closure`, completeness direction).
pub proof fn lemma_closed_contains_reach_at(
    next: NextElems,
    ecl: &Vec<Vec<State>>,
    i: int,
    x: State,
    t: State,
)
    requires
        0 <= i < ecl@.len(),
        ecl@[i]@.contains(x),
        forall|s: State, tt: State|
            #![trigger ecl@[i]@.contains(s), nfa_edge(next, s, Symbol(EPSILON), tt)]
            ecl@[i]@.contains(s) && nfa_edge(next, s, Symbol(EPSILON), tt) ==> ecl@[i]@.contains(
                tt,
            ),
        eps_reach(next, x, t),
    ensures
        ecl@[i]@.contains(t),
{
    lemma_closed_contains_reach(next, ecl@[i], x, t);
}

} // verus!
