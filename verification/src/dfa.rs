//! The deterministic automaton: adjacency `State -> (Symbol -> State)`, one
//! initial state and a set of final states. Absence of a transition for a
//! symbol means immediate rejection. The epsilon sentinel never appears here.

use vstd::prelude::*;

use crate::{State, Symbol, EPSILON};

pub mod convert;
pub mod generate;
pub mod minimize;
pub mod reverse;

verus! {

/// The transitions leaving one state: at most one target per symbol.
pub type NextElem = Vec<(Symbol, State)>;

/// The whole adjacency, indexed by state id.
pub type NextElems = Vec<NextElem>;

/// A deterministic finite automaton.
#[derive(Clone)]
pub struct DFA {
    pub next: NextElems,
    pub initial: State,
    pub finals: Vec<State>,
}

/// The target of the first entry for `sym`, if any.
pub open spec fn lookup(m: Seq<(Symbol, State)>, sym: Symbol) -> Option<State>
    decreases m.len(),
{
    if m.len() == 0 {
        None
    } else if m[0].0 == sym {
        Some(m[0].1)
    } else {
        lookup(m.drop_first(), sym)
    }
}

/// One step of deterministic execution from state `s` on symbol `sym`.
pub open spec fn step(next: NextElems, s: State, sym: Symbol) -> Option<State> {
    lookup(next@[s.0 as int]@, sym)
}

/// Validity of the transitions leaving one state: no epsilon label, all
/// targets below `n`, and at most one entry per symbol.
pub open spec fn dfa_elem_wf(elem: NextElem, n: int) -> bool {
    &&& forall|k: int|
        0 <= k < elem@.len() ==> (#[trigger] elem@[k]).0.0 != EPSILON && elem@[k].1.0 < n
    &&& forall|k1: int, k2: int|
        0 <= k1 < k2 < elem@.len() ==> (#[trigger] elem@[k1]).0 != (#[trigger] elem@[k2]).0
}

/// Structural validity of adjacency plus final states, without the initial
/// state (minimization works on these two parts alone).
pub open spec fn next_wf(next: NextElems, finals: Vec<State>) -> bool {
    &&& forall|i: int| 0 <= i < next@.len() ==> dfa_elem_wf(#[trigger] next@[i], next@.len() as int)
    &&& forall|k: int| 0 <= k < finals@.len() ==> (#[trigger] finals@[k]).0 < next@.len()
}

/// Structural validity of a whole DFA.
pub open spec fn dfa_wf(d: DFA) -> bool {
    &&& next_wf(d.next, d.finals)
    &&& d.initial.0 < d.next@.len()
}

/// Deterministic acceptance of `w`, read from state `s`: follow one transition
/// per symbol, reject on a missing transition, and accept iff the state
/// reached after the whole input is final.
pub open spec fn accepts_from(next: NextElems, finals: Vec<State>, s: State, w: Seq<Symbol>) -> bool
    decreases w.len(),
{
    if w.len() == 0 {
        finals@.contains(s)
    } else {
        match step(next, s, w[0]) {
            Some(t) => accepts_from(next, finals, t, w.drop_first()),
            None => false,
        }
    }
}

/// The language of the DFA: acceptance from its initial state.
pub open spec fn spec_matches(d: DFA, w: Seq<Symbol>) -> bool {
    accepts_from(d.next, d.finals, d.initial, w)
}

/// A copy of a state vector.
pub fn copy_states(v: &Vec<State>) -> (r: Vec<State>)
    ensures
        r@ == v@,
{
    let n = v.len();
    let mut r: Vec<State> = Vec::new();
    let mut k: usize = 0;
    while k < n
        invariant
            k <= n,
            n == v@.len(),
            r@ =~= v@.subrange(0, k as int),
        decreases n - k,
    {
        r.push(v[k]);
        k += 1;
    }
    proof {
        assert(r@ =~= v@);
    }
    r
}

/// Whether `v` holds the state `s`.
pub fn contains_state(v: &Vec<State>, s: State) -> (r: bool)
    ensures
        r == v@.contains(s),
{
    let n = v.len();
    let mut k: usize = 0;
    while k < n
        invariant
            k <= n,
            n == v@.len(),
            forall|m: int| 0 <= m < k ==> v@[m] != s,
        decreases n - k,
    {
        if v[k].0 == s.0 {
            assert(v@[k as int] == s);
            return true;
        }
        k += 1;
    }
    false
}

/// The target of the transition from `s` on `sym`, if there is one.
pub fn next_of(elem: &NextElem, sym: Symbol) -> (r: Option<State>)
    ensures
        r == lookup(elem@, sym),
{
    let n = elem.len();
    let mut k: usize = 0;
    proof {
        assert(elem@.skip(0) =~= elem@);
    }
    while k < n
        invariant
            k <= n,
            n == elem@.len(),
            lookup(elem@, sym) == lookup(elem@.skip(k as int), sym),
        decreases n - k,
    {
        if elem[k].0.0 == sym.0 {
            assert(elem@.skip(k as int)[0] == elem@[k as int]);
            assert(elem@[k as int].0 == sym);
            return Some(elem[k].1);
        }
        proof {
            assert(elem@.skip(k as int)[0] == elem@[k as int]);
            assert(elem@.skip(k as int).drop_first() =~= elem@.skip(k as int + 1));
        }
        k += 1;
    }
    proof {
        assert(elem@.skip(n as int) =~= Seq::<(Symbol, State)>::empty());
    }
    None
}

impl DFA {
    /// Deterministic execution over `string`: returns whether the DFA accepts
    /// exactly this symbol sequence.
    pub fn matches(&self, string: &[Symbol]) -> (r: bool)
        requires
            dfa_wf(*self),
        ensures
            r == spec_matches(*self, string@),
    {
        let mut state = self.initial;
        let n = string.len();
        let mut i: usize = 0;
        proof {
            assert(string@.skip(0) =~= string@);
        }
        while i < n
            invariant
                dfa_wf(*self),
                i <= n,
                n == string@.len(),
                state.0 < self.next@.len(),
                spec_matches(*self, string@) == accepts_from(
                    self.next,
                    self.finals,
                    state,
                    string@.skip(i as int),
                ),
            decreases n - i,
        {
            proof {
                assert(string@.skip(i as int)[0] == string@[i as int]);
                assert(string@.skip(i as int).drop_first() =~= string@.skip(i as int + 1));
            }
            match next_of(&self.next[state.0], string[i]) {
                Some(next_state) => {
                    proof {
                        lemma_lookup_in_range(
                            self.next@[state.0 as int]@,
                            string@[i as int],
                            self.next@.len() as int,
                        );
                    }
                    state = next_state;
                },
                None => {
                    return false;
                },
            }
            i += 1;
        }
        proof {
            assert(string@.skip(n as int) =~= Seq::<Symbol>::empty());
        }
        contains_state(&self.finals, state)
    }

    /// Replace the automaton by its minimization: never more states, and
    /// exactly the same language.
    pub fn minimize(self) -> (r: DFA)
        requires
            dfa_wf(self),
            self.initial == State(0),
        ensures
            dfa_wf(r),
            r.initial == State(0),
            r.next@.len() <= self.next@.len(),
            forall|w: Seq<Symbol>|
                #![trigger spec_matches(self, w)]
                spec_matches(r, w) == spec_matches(self, w),
            forall|x: State, y: State|
                #![trigger crate::dfa::minimize::mergeable(r.next, r.finals, x, y)]
                x.0 < r.next@.len() && y.0 < r.next@.len() && x != y
                    ==> !crate::dfa::minimize::mergeable(r.next, r.finals, x, y),
            (forall|x: State, y: State|
                #![trigger crate::dfa::minimize::mergeable(self.next, self.finals, x, y)]
                x.0 < self.next@.len() && y.0 < self.next@.len() && x != y
                    ==> !crate::dfa::minimize::mergeable(self.next, self.finals, x, y)) ==> (
            r.next@.len() == self.next@.len() && (forall|i: int|
                0 <= i < self.next@.len() ==> (#[trigger] r.next@[i])@ == self.next@[i]@) && (
            forall|x: State|
                #![trigger r.finals@.contains(x)]
                r.finals@.contains(x) <==> self.finals@.contains(x))),
    {
        let DFA { mut next, initial, mut finals } = self;
        crate::dfa::minimize::minimize_dfa(&mut next, &mut finals);
        DFA { next, initial: State(0), finals }
    }

    /// The NFA accepting exactly the reversals of this automaton's strings:
    /// every edge flipped, initial and final roles swapped.
    pub fn reverse(&self) -> (r: crate::nfa::NFA)
        requires
            dfa_wf(*self),
        ensures
            crate::nfa::nfa_wf(r),
            r.next@.len() == self.next@.len(),
            r.initials@ == self.finals@,
            r.finals@ =~= seq![self.initial],
            forall|a: State, sym: Symbol, b: State|
                #![trigger crate::nfa::nfa_edge(r.next, a, sym, b)]
                a.0 < r.next@.len() ==> (crate::nfa::nfa_edge(r.next, a, sym, b) <==> (b.0
                    < self.next@.len() && step(self.next, b, sym) == Some(a))),
    {
        crate::dfa::reverse::reverse(self)
    }
}

/// A successful lookup returns some entry of the row.
pub proof fn lemma_lookup_some_exists(m: Seq<(Symbol, State)>, sym: Symbol, t: State)
    requires
        lookup(m, sym) == Some(t),
    ensures
        exists|k: int| 0 <= k < m.len() && m[k] == (sym, t),
    decreases m.len(),
{
    if m.len() > 0 {
        if m[0].0 == sym {
            assert(m[0] == (sym, t));
        } else {
            lemma_lookup_some_exists(m.drop_first(), sym, t);
            let k = choose|k: int| 0 <= k < m.drop_first().len() && m.drop_first()[k] == (sym, t);
            assert(m[k + 1] == (sym, t));
        }
    }
}

/// In a row with unique symbols, any entry for `sym` is what lookup returns.
pub proof fn lemma_index_lookup(m: Seq<(Symbol, State)>, sym: Symbol, k: int)
    requires
        forall|k1: int, k2: int| 0 <= k1 < k2 < m.len() ==> (#[trigger] m[k1]).0 != (#[trigger] m[k2]).0,
        0 <= k < m.len(),
        m[k].0 == sym,
    ensures
        lookup(m, sym) == Some(m[k].1),
    decreases m.len(),
{
    if m[0].0 == sym {
        assert(k == 0);
    } else {
        assert(k >= 1);
        assert(forall|k1: int, k2: int|
            0 <= k1 < k2 < m.drop_first().len() ==> (#[trigger] m.drop_first()[k1]).0 != (
            #[trigger] m.drop_first()[k2]).0);
        assert(m.drop_first()[k - 1] == m[k]);
        lemma_index_lookup(m.drop_first(), sym, k - 1);
    }
}

/// A failed lookup means no entry carries the symbol at all.
pub proof fn lemma_lookup_none(m: Seq<(Symbol, State)>, sym: Symbol)
    requires
        lookup(m, sym) is None,
    ensures
        forall|k: int| 0 <= k < m.len() ==> (#[trigger] m[k]).0 != sym,
    decreases m.len(),
{
    if m.len() > 0 {
        lemma_lookup_none(m.drop_first(), sym);
        assert(forall|k: int| 1 <= k < m.len() ==> m.drop_first()[k - 1] == #[trigger] m[k]);
    }
}

/// A successful lookup in a well-formed transition row lands below `n`.
pub proof fn lemma_lookup_in_range(m: Seq<(Symbol, State)>, sym: Symbol, n: int)
    requires
        forall|k: int| 0 <= k < m.len() ==> (#[trigger] m[k]).1.0 < n,
        lookup(m, sym) is Some,
    ensures
        lookup(m, sym)->Some_0.0 < n,
    decreases m.len(),
{
    if m.len() > 0 && m[0].0 != sym {
        lemma_lookup_in_range(m.drop_first(), sym, n);
    }
}


/// The state reached after deterministically reading all of `w` from `s`,
/// if no transition is missing along the way.
pub open spec fn walk(next: NextElems, s: State, w: Seq<Symbol>) -> Option<State>
    decreases w.len(),
{
    if w.len() == 0 {
        Some(s)
    } else {
        match step(next, s, w[0]) {
            Some(t) => walk(next, t, w.drop_first()),
            None => None,
        }
    }
}

/// Acceptance is reaching a final state: `accepts_from` and `walk` agree.
pub proof fn lemma_accepts_walk(next: NextElems, finals: Vec<State>, s: State, w: Seq<Symbol>)
    ensures
        accepts_from(next, finals, s, w) == match walk(next, s, w) {
            Some(e) => finals@.contains(e),
            None => false,
        },
    decreases w.len(),
{
    if w.len() > 0 {
        match step(next, s, w[0]) {
            Some(t) => {
                lemma_accepts_walk(next, finals, t, w.drop_first());
            },
            None => {},
        }
    }
}

/// Reading one more symbol at the end extends the walk by one step.
pub proof fn lemma_walk_snoc(next: NextElems, s: State, u: Seq<Symbol>, sym: Symbol)
    ensures
        walk(next, s, u.push(sym)) == match walk(next, s, u) {
            Some(e) => step(next, e, sym),
            None => None::<State>,
        },
    decreases u.len(),
{
    if u.len() == 0 {
        assert(u.push(sym)[0] == sym);
        assert(u.push(sym).drop_first() == Seq::<Symbol>::empty());
        match step(next, s, sym) {
            Some(t) => {
                assert(walk(next, s, u.push(sym)) == walk(next, t, Seq::<Symbol>::empty()));
            },
            None => {
                assert(walk(next, s, u.push(sym)) is None);
            },
        }
        assert(walk(next, s, u) == Some(s));
    } else {
        assert(u.push(sym)[0] == u[0]);
        assert(u.push(sym).drop_first() == u.drop_first().push(sym));
        match step(next, s, u[0]) {
            Some(t) => {
                lemma_walk_snoc(next, t, u.drop_first(), sym);
                assert(walk(next, s, u.push(sym)) == walk(next, t, u.drop_first().push(sym)));
                assert(walk(next, s, u) == walk(next, t, u.drop_first()));
            },
            None => {
                assert(walk(next, s, u.push(sym)) is None);
                assert(walk(next, s, u) is None);
            },
        }
    }
}


/// A walk through well-formed transitions stays within range.
pub proof fn lemma_walk_in_range(next: NextElems, s: State, w: Seq<Symbol>)
    requires
        forall|i: int| 0 <= i < next@.len() ==> dfa_elem_wf(#[trigger] next@[i], next@.len() as int),
        s.0 < next@.len(),
        walk(next, s, w) is Some,
    ensures
        walk(next, s, w)->Some_0.0 < next@.len(),
    decreases w.len(),
{
    if w.len() > 0 {
        match step(next, s, w[0]) {
            Some(t) => {
                assert(dfa_elem_wf(next@[s.0 as int], next@.len() as int));
                lemma_lookup_in_range(next@[s.0 as int]@, w[0], next@.len() as int);
                lemma_walk_in_range(next, t, w.drop_first());
            },
            None => {},
        }
    }
}

} // verus!
