//! Accepted-string generation: enumerate the strings a DFA accepts.
//!
//! Base paths (simple paths from the initial state to a final state) seed a
//! FIFO; popped entries are delivered and then grown by splicing simple cycles
//! into them at every visited state, deduplicated by the full
//! (symbols, states) pair. The enumeration is driven pull-style through
//! [`Generation`]: each delivered string is proved to be accepted.

use vstd::prelude::*;

use std::collections::VecDeque;

use crate::dfa::{
    accepts_from, contains_state, copy_states, dfa_elem_wf, dfa_wf, lemma_index_lookup,
    lemma_lookup_in_range, spec_matches, step, DFA,
};
use crate::visits::{count_false, falses, lemma_count_false_update};
use crate::{State, Symbol};

verus! {

/// A traversal through the automaton: the symbols read and, in parallel, the
/// states visited (one more state than symbols).
pub type StateString = (Vec<Symbol>, Vec<State>);

/// `states` is a walk through the DFA reading `syms`.
pub open spec fn is_path(d: DFA, syms: Seq<Symbol>, states: Seq<State>) -> bool {
    &&& states.len() == syms.len() + 1
    &&& forall|k: int|
        0 <= k < syms.len() ==> step(d.next, #[trigger] states[k], syms[k]) == Some(states[k + 1])
}

/// A walk from the initial state to a final state, within range.
pub open spec fn run_ok(d: DFA, p: StateString) -> bool {
    &&& is_path(d, p.0@, p.1@)
    &&& p.1@.first() == d.initial
    &&& d.finals@.contains(p.1@.last())
    &&& forall|j: int| 0 <= j < p.1@.len() ==> (#[trigger] p.1@[j]).0 < d.next@.len()
}

/// A non-empty walk from `s` back to `s`, within range.
pub open spec fn cycle_ok(d: DFA, s: State, p: StateString) -> bool {
    &&& is_path(d, p.0@, p.1@)
    &&& p.0@.len() >= 1
    &&& p.1@.first() == s
    &&& p.1@.last() == s
    &&& forall|j: int| 0 <= j < p.1@.len() ==> (#[trigger] p.1@[j]).0 < d.next@.len()
}

/// A walk ending in a final state witnesses acceptance from its first state.
pub proof fn lemma_run_matches(d: DFA, syms: Seq<Symbol>, states: Seq<State>)
    requires
        is_path(d, syms, states),
        d.finals@.contains(states.last()),
    ensures
        accepts_from(d.next, d.finals, states.first(), syms),
    decreases syms.len(),
{
    if syms.len() == 0 {
        assert(states.first() == states.last());
    } else {
        assert(step(d.next, states[0], syms[0]) == Some(states[1]));
        assert forall|k: int|
            0 <= k < syms.drop_first().len() implies step(
            d.next,
            #[trigger] states.drop_first()[k],
            syms.drop_first()[k],
        ) == Some(states.drop_first()[k + 1]) by {
            assert(states.drop_first()[k] == states[k + 1]);
            assert(states.drop_first()[k + 1] == states[k + 2]);
            assert(syms.drop_first()[k] == syms[k + 1]);
        }
        assert(states.drop_first().last() == states.last());
        lemma_run_matches(d, syms.drop_first(), states.drop_first());
        assert(states.drop_first().first() == states[1]);
    }
}

/// A walk extends backwards along one more transition.
pub proof fn lemma_path_prepend(d: DFA, syms: Seq<Symbol>, states: Seq<State>, s0: State, sym: Symbol)
    requires
        is_path(d, syms, states),
        step(d.next, s0, sym) == Some(states.first()),
    ensures
        is_path(d, seq![sym] + syms, seq![s0] + states),
{
    let nsy = seq![sym] + syms;
    let ns = seq![s0] + states;
    assert forall|k: int| 0 <= k < nsy.len() implies step(d.next, #[trigger] ns[k], nsy[k]) == Some(
        ns[k + 1],
    ) by {
        if k == 0 {
            assert(ns[0] == s0 && nsy[0] == sym && ns[1] == states[0]);
        } else {
            assert(ns[k] == states[k - 1] && nsy[k] == syms[k - 1] && ns[k + 1] == states[k]);
        }
    }
}

/// Every state of a walk that starts in range stays in range.
pub proof fn lemma_path_states_range(d: DFA, syms: Seq<Symbol>, states: Seq<State>, k: int)
    requires
        dfa_wf(d),
        is_path(d, syms, states),
        states.first().0 < d.next@.len(),
        0 <= k < states.len(),
    ensures
        states[k].0 < d.next@.len(),
    decreases k,
{
    if k > 0 {
        lemma_path_states_range(d, syms, states, k - 1);
        assert(step(d.next, states[k - 1], syms[k - 1]) == Some(states[k]));
        assert(dfa_elem_wf(d.next@[states[k - 1].0 as int], d.next@.len() as int));
        lemma_lookup_in_range(d.next@[states[k - 1].0 as int]@, syms[k - 1], d.next@.len() as int);
    }
}

/// Splicing a cycle into a walk at a position where the walk sits on the
/// cycle's state yields a walk again.
pub proof fn lemma_splice(
    d: DFA,
    syms: Seq<Symbol>,
    states: Seq<State>,
    i: int,
    csyms: Seq<Symbol>,
    cstates: Seq<State>,
)
    requires
        is_path(d, syms, states),
        0 <= i < states.len(),
        is_path(d, csyms, cstates),
        cstates.first() == states[i],
        cstates.last() == states[i],
    ensures
        is_path(
            d,
            syms.subrange(0, i) + csyms + syms.subrange(i, syms.len() as int),
            states.subrange(0, i) + cstates + states.subrange(i + 1, states.len() as int),
        ),
{
    let nsy = syms.subrange(0, i) + csyms + syms.subrange(i, syms.len() as int);
    let ns = states.subrange(0, i) + cstates + states.subrange(i + 1, states.len() as int);
    let cl = csyms.len() as int;
    assert(ns.len() == nsy.len() + 1);
    assert forall|k: int| 0 <= k < nsy.len() implies step(d.next, #[trigger] ns[k], nsy[k]) == Some(
        ns[k + 1],
    ) by {
        if k < i {
            assert(ns[k] == states[k] && nsy[k] == syms[k]);
            if k + 1 < i {
                assert(ns[k + 1] == states[k + 1]);
            } else {
                assert(ns[k + 1] == cstates[0]);
                assert(cstates[0] == states[i]);
            }
        } else if k < i + cl {
            assert(ns[k] == cstates[k - i] && nsy[k] == csyms[k - i]);
            assert(ns[k + 1] == cstates[k + 1 - i]);
        } else {
            assert(nsy[k] == syms[k - cl]);
            if k == i + cl {
                assert(ns[k] == cstates[cl]);
                assert(cstates[cl] == cstates.last());
                assert(ns[k] == states[i]);
                assert(nsy[k] == syms[i]);
            } else {
                assert(ns[k] == states[k - cl]);
            }
            assert(ns[k + 1] == states[k + 1 - cl]);
        }
    }
}

/// A copy of a symbol vector.
fn copy_syms(v: &Vec<Symbol>) -> (r: Vec<Symbol>)
    ensures
        r@ == v@,
{
    let n = v.len();
    let mut r: Vec<Symbol> = Vec::new();
    let mut k: usize = 0;
    while k < n
        invariant
            k <= n,
            n == v@.len(),
            r@ =~= v@.subrange(0, k as int),
        decreases n - k,
    {
        r.push(v[k]);
        k += 1;
    }
    proof {
        assert(r@ =~= v@);
    }
    r
}

/// A copy of a (symbols, states) pair.
fn copy_pair(p: &StateString) -> (r: StateString)
    ensures
        r.0@ == p.0@,
        r.1@ == p.1@,
{
    (copy_syms(&p.0), copy_states(&p.1))
}

/// Whether two (symbols, states) pairs are equal.
fn pair_eq(a: &StateString, b: &StateString) -> (r: bool)
    ensures
        r == (a.0@ == b.0@ && a.1@ == b.1@),
{
    let n0 = a.0.len();
    let n1 = a.1.len();
    if n0 != b.0.len() || n1 != b.1.len() {
        return false;
    }
    let mut k: usize = 0;
    while k < n0
        invariant
            k <= n0,
            n0 == a.0@.len(),
            n0 == b.0@.len(),
            forall|m: int| 0 <= m < k ==> a.0@[m] == b.0@[m],
        decreases n0 - k,
    {
        if a.0[k].0 != b.0[k].0 {
            return false;
        }
        k += 1;
    }
    let mut j: usize = 0;
    while j < n1
        invariant
            j <= n1,
            n1 == a.1@.len(),
            n1 == b.1@.len(),
            forall|m: int| 0 <= m < j ==> a.1@[m] == b.1@[m],
        decreases n1 - j,
    {
        if a.1[j].0 != b.1[j].0 {
            return false;
        }
        j += 1;
    }
    proof {
        assert(a.0@ =~= b.0@);
        assert(a.1@ =~= b.1@);
    }
    true
}

/// Whether the seen-set already holds this exact pair.
fn pair_in(seen: &Vec<StateString>, p: &StateString) -> (r: bool)
    ensures
        r == exists|m: int|
            0 <= m < seen@.len() && (#[trigger] seen@[m]).0@ == p.0@ && seen@[m].1@ == p.1@,
{
    let n = seen.len();
    let mut k: usize = 0;
    while k < n
        invariant
            k <= n,
            n == seen@.len(),
            forall|m: int| 0 <= m < k ==> !((#[trigger] seen@[m]).0@ == p.0@ && seen@[m].1@ == p.1@),
        decreases n - k,
    {
        if pair_eq(&seen[k], p) {
            return true;
        }
        k += 1;
    }
    false
}

/// Whether any state is marked visited.
fn any_true(v: &Vec<bool>) -> (r: bool)
    ensures
        r == exists|j: int| 0 <= j < v@.len() && v@[j],
{
    let n = v.len();
    let mut k: usize = 0;
    while k < n
        invariant
            k <= n,
            n == v@.len(),
            forall|m: int| 0 <= m < k ==> !v@[m],
        decreases n - k,
    {
        if v[k] {
            return true;
        }
        k += 1;
    }
    false
}

/// A walk the search must enumerate: from `from` to `end`, its states before
/// the last pairwise distinct, avoiding the visited set, never passing
/// through `end` in the middle, and never looping straight back to `from`.
pub open spec fn simple_extension(
    d: DFA,
    visited: Seq<bool>,
    syms: Seq<Symbol>,
    states: Seq<State>,
    from: State,
    end: State,
) -> bool {
    &&& is_path(d, syms, states)
    &&& states.len() >= 1
    &&& states.first() == from
    &&& states.last() == end
    &&& (forall|k1: int, k2: int|
        #![trigger states[k1], states[k2]]
        0 <= k1 < k2 <= states.len() - 2 ==> states[k1] != states[k2])
    &&& (forall|k: int| 1 <= k <= states.len() - 2 ==> #[trigger] states[k] != end)
    &&& (forall|k: int| 0 <= k <= states.len() - 2 ==> !visited[(#[trigger] states[k]).0 as int])
    &&& (states.len() >= 2 ==> states[1] != from)
}

/// The all-unvisited marking over `n` states.
pub open spec fn no_visits(n: nat) -> Seq<bool> {
    Seq::new(n, |x: int| false)
}

/// The collection holds this exact (symbols, states) pair.
pub open spec fn contains_pair(paths: Seq<StateString>, syms: Seq<Symbol>, states: Seq<State>) -> bool {
    exists|m: int|
        #![trigger paths[m]]
        0 <= m < paths.len() && paths[m].0@ == syms && paths[m].1@ == states
}

/// A held pair stays held when the collection only grows at the end.
proof fn lemma_contains_pair_extend(
    paths: Seq<StateString>,
    bigger: Seq<StateString>,
    syms: Seq<Symbol>,
    states: Seq<State>,
)
    requires
        contains_pair(paths, syms, states),
        paths.len() <= bigger.len(),
        forall|m: int| 0 <= m < paths.len() ==> #[trigger] bigger[m] == paths[m],
    ensures
        contains_pair(bigger, syms, states),
{
    let m = choose|m: int|
        #![trigger paths[m]]
        0 <= m < paths.len() && paths[m].0@ == syms && paths[m].1@ == states;
    assert(bigger[m] == paths[m]);
}

/// Reversing a non-empty symbol sequence moves its head to the back.
proof fn lemma_rev_cons_syms(s: Seq<Symbol>)
    requires
        s.len() >= 1,
    ensures
        s.reverse() == s.drop_first().reverse().push(s[0]),
{
    assert(s.reverse() =~= s.drop_first().reverse().push(s[0]));
}

/// Reversing a non-empty state sequence moves its head to the back.
proof fn lemma_rev_cons_states(s: Seq<State>)
    requires
        s.len() >= 1,
    ensures
        s.reverse() == s.drop_first().reverse().push(s[0]),
{
    assert(s.reverse() =~= s.drop_first().reverse().push(s[0]));
}

/// Dropping the first step of a simple extension leaves a simple extension
/// from its second state, also avoiding a visited set that may additionally
/// mark the dropped state.
proof fn lemma_extension_tail(
    d: DFA,
    visited: Seq<bool>,
    vis2: Seq<bool>,
    syms: Seq<Symbol>,
    states: Seq<State>,
    from: State,
    end: State,
)
    requires
        simple_extension(d, visited, syms, states, from, end),
        states.len() >= 2,
        forall|k: int| 0 <= k < states.len() ==> (#[trigger] states[k]).0 < visited.len(),
        vis2.len() == visited.len(),
        forall|j: int| 0 <= j < vis2.len() ==> (visited[j] ==> #[trigger] vis2[j]),
        forall|j: int| 0 <= j < vis2.len() ==> (#[trigger] vis2[j] ==> (visited[j] || j == from.0 as int)),
    ensures
        simple_extension(d, vis2, syms.drop_first(), states.drop_first(), states[1], end),
{
    let ts = states.drop_first();
    let ty = syms.drop_first();
    assert(forall|k: int| 0 <= k < ts.len() ==> #[trigger] ts[k] == states[k + 1]);
    assert(forall|k: int| 0 <= k < ty.len() ==> #[trigger] ty[k] == syms[k + 1]);
    assert(is_path(d, ty, ts)) by {
        assert forall|k: int| 0 <= k < ty.len() implies step(d.next, #[trigger] ts[k], ty[k])
            == Some(ts[k + 1]) by {
            assert(states[k + 1 + 1] == ts[k + 1]);
        }
    }
    assert(ts.last() == states.last());
    assert forall|k: int| 0 <= k <= ts.len() - 2 implies !vis2[(#[trigger] ts[k]).0 as int] by {
        assert(ts[k] == states[k + 1]);
        assert(!visited[states[k + 1].0 as int]);
        assert(states[k + 1] != states[0]);
        assert(states[k + 1].0 != from.0);
    }
    if ts.len() >= 2 {
        assert(ts[1] == states[2]);
        if states.len() >= 4 {
            assert(states[2] != states[1]);
        } else {
            assert(states[1] != end);
            assert(states[2] == states.last());
        }
    }
}

/// Prepending a fitting first step to a simple extension gives a simple
/// extension again, provided an arrival at the end is immediate.
proof fn lemma_extension_prepend(
    d: DFA,
    visited: Seq<bool>,
    vis2: Seq<bool>,
    tsyms: Seq<Symbol>,
    tstates: Seq<State>,
    from: State,
    end: State,
    sym: Symbol,
)
    requires
        simple_extension(d, vis2, tsyms, tstates, tstates.first(), end),
        step(d.next, from, sym) == Some(tstates.first()),
        tstates.first() != from,
        from.0 < visited.len(),
        !visited[from.0 as int],
        tstates.first() == end ==> tstates.len() == 1,
        forall|k: int| 0 <= k < tstates.len() ==> (#[trigger] tstates[k]).0 < visited.len(),
        vis2.len() == visited.len(),
        forall|j: int| 0 <= j < vis2.len() ==> (visited[j] ==> #[trigger] vis2[j]),
        forall|j: int| 0 <= j < vis2.len() ==> (#[trigger] vis2[j] ==> (visited[j] || j == from.0 as int)),
        from == end ==> vis2 == visited,
        from != end ==> vis2[from.0 as int],
    ensures
        simple_extension(d, visited, seq![sym] + tsyms, seq![from] + tstates, from, end),
{
    let x = tstates.first();
    let ns = seq![from] + tstates;
    let ny = seq![sym] + tsyms;
    lemma_path_prepend(d, tsyms, tstates, from, sym);
    assert(forall|k: int| 1 <= k < ns.len() ==> #[trigger] ns[k] == tstates[k - 1]);
    assert(ns.last() == tstates.last());
    assert forall|k1: int, k2: int|
        #![trigger ns[k1], ns[k2]]
        0 <= k1 < k2 <= ns.len() - 2 implies ns[k1] != ns[k2] by {
        if k1 == 0 {
            let t = tstates[k2 - 1];
            if k2 - 1 == 0 {
                assert(t == x);
            } else {
                if from == end {
                    assert(t != end);
                } else {
                    assert(!vis2[t.0 as int]);
                    assert(vis2[from.0 as int]);
                    assert(t.0 != from.0);
                }
            }
        } else {
            assert(ns[k1] == tstates[k1 - 1] && ns[k2] == tstates[k2 - 1]);
        }
    }
    assert forall|k: int| 1 <= k <= ns.len() - 2 implies #[trigger] ns[k] != end by {
        assert(ns[k] == tstates[k - 1]);
        if k == 1 {
            if x == end {
                assert(ns.len() == 2);
            }
        }
    }
    assert forall|k: int| 0 <= k <= ns.len() - 2 implies !visited[(#[trigger] ns[k]).0 as int] by {
        if k >= 1 {
            assert(ns[k] == tstates[k - 1]);
            assert(!vis2[tstates[k - 1].0 as int]);
        }
    }
    assert(ns[1] == x && x != from);
}

/// All candidate walks opening with this entry's symbol are present once
/// the recursive results for its target have been extended and collected.
proof fn lemma_symbol_candidates_found(
    d: DFA,
    old_vis: Seq<bool>,
    vis_entry: Seq<bool>,
    current: State,
    end: State,
    symb: Symbol,
    newstate: State,
    rec: Seq<StateString>,
    paths: Seq<StateString>,
)
    requires
        dfa_wf(d),
        old_vis.len() == d.next@.len(),
        current.0 < d.next@.len(),
        end.0 < d.next@.len(),
        !old_vis[current.0 as int],
        !old_vis[end.0 as int],
        step(d.next, current, symb) == Some(newstate),
        newstate != current,
        vis_entry.len() == old_vis.len(),
        forall|j: int| 0 <= j < vis_entry.len() ==> (old_vis[j] ==> #[trigger] vis_entry[j]),
        forall|j: int|
            0 <= j < vis_entry.len() ==> (#[trigger] vis_entry[j] ==> (old_vis[j] || j
                == current.0 as int)),
        current != end ==> vis_entry[current.0 as int],
        current == end ==> vis_entry == old_vis,
        forall|csyms: Seq<Symbol>, cstates: Seq<State>|
            #![trigger simple_extension(d, vis_entry, csyms, cstates, newstate, end)]
            (simple_extension(d, vis_entry, csyms, cstates, newstate, end) && ((newstate != end
                && cstates.len() >= 2) || (newstate == end && cstates.len() >= 2 && (forall|jx: int|
                0 <= jx < vis_entry.len() ==> !vis_entry[jx])) || (newstate == end && cstates.len()
                == 1 && (exists|jx: int| 0 <= jx < vis_entry.len() && vis_entry[jx]))))
                ==> contains_pair(rec, csyms.reverse(), cstates.reverse()),
        forall|m: int|
            0 <= m < rec.len() ==> contains_pair(
                paths,
                (#[trigger] rec[m]).0@.push(symb),
                rec[m].1@.push(current),
            ),
    ensures
        forall|csyms: Seq<Symbol>, cstates: Seq<State>|
            #![trigger simple_extension(d, old_vis, csyms, cstates, current, end)]
            (simple_extension(d, old_vis, csyms, cstates, current, end) && cstates.len() >= 2
                && csyms[0] == symb) ==> contains_pair(paths, csyms.reverse(), cstates.reverse()),
{
    assert forall|csyms: Seq<Symbol>, cstates: Seq<State>|
        (simple_extension(d, old_vis, csyms, cstates, current, end) && cstates.len() >= 2
            && csyms[0] == symb) implies contains_pair(
        paths,
        csyms.reverse(),
        cstates.reverse(),
    ) by {
        assert(step(d.next, cstates[0], csyms[0]) == Some(cstates[1]));
        assert(cstates[1] == newstate);
        assert forall|kx: int|
            0 <= kx < cstates.len() implies (#[trigger] cstates[kx]).0 < old_vis.len() by {
            lemma_path_states_range(d, csyms, cstates, kx);
        }
        lemma_extension_tail(d, old_vis, vis_entry, csyms, cstates, current, end);
        let tsy = csyms.drop_first();
        let tst = cstates.drop_first();
        assert(simple_extension(d, vis_entry, tsy, tst, newstate, end));
        if newstate == end {
            assert(cstates.len() == 2) by {
                if cstates.len() >= 3 {
                    assert(cstates[1] != end);
                }
            }
            assert(tst.len() == 1);
            assert(current != end);
            assert(exists|jx: int| 0 <= jx < vis_entry.len() && #[trigger] vis_entry[jx]) by {
                assert(vis_entry[current.0 as int]);
            }
        } else {
            assert(cstates.len() >= 3) by {
                if cstates.len() == 2 {
                    assert(cstates[1] == end);
                }
            }
            assert(tst.len() >= 2);
        }
        assert(contains_pair(rec, tsy.reverse(), tst.reverse()));
        let m = choose|m: int|
            #![trigger rec[m]]
            0 <= m < rec.len() && rec[m].0@ == tsy.reverse() && rec[m].1@ == tst.reverse();
        assert(contains_pair(paths, rec[m].0@.push(symb), rec[m].1@.push(current)));
        lemma_rev_cons_syms(csyms);
        lemma_rev_cons_states(cstates);
        assert(csyms.reverse() == tsy.reverse().push(symb));
        assert(cstates.reverse() == tst.reverse().push(current));
    }
}

/// No candidate walk opens with this entry's symbol when its target is
/// visited or loops straight back.
proof fn lemma_no_candidate_when_skipped(
    d: DFA,
    old_vis: Seq<bool>,
    vis_entry: Seq<bool>,
    current: State,
    end: State,
    symb: Symbol,
    newstate: State,
)
    requires
        dfa_wf(d),
        old_vis.len() == d.next@.len(),
        current.0 < d.next@.len(),
        end.0 < d.next@.len(),
        !old_vis[end.0 as int],
        step(d.next, current, symb) == Some(newstate),
        vis_entry.len() == old_vis.len(),
        forall|j: int|
            0 <= j < vis_entry.len() ==> (#[trigger] vis_entry[j] ==> (old_vis[j] || j
                == current.0 as int)),
        vis_entry[newstate.0 as int] || newstate == current,
    ensures
        forall|csyms: Seq<Symbol>, cstates: Seq<State>|
            #![trigger simple_extension(d, old_vis, csyms, cstates, current, end)]
            !(simple_extension(d, old_vis, csyms, cstates, current, end) && cstates.len() >= 2
                && csyms[0] == symb),
{
    assert forall|csyms: Seq<Symbol>, cstates: Seq<State>|
        (simple_extension(d, old_vis, csyms, cstates, current, end) && cstates.len() >= 2
            && csyms[0] == symb) implies false by {
        assert(step(d.next, cstates[0], csyms[0]) == Some(cstates[1]));
        assert(cstates[1] == newstate);
        assert(cstates[1] != current);
        if cstates.len() == 2 {
            assert(cstates[1] == end);
            assert(!old_vis[end.0 as int]);
        } else {
            assert(!old_vis[cstates[1].0 as int]);
        }
        lemma_path_states_range(d, csyms, cstates, 1);
        assert(!vis_entry[newstate.0 as int]) by {
            assert(newstate.0 != current.0);
        }
        assert(false);
    }
}

/// Enumerate every simple path from `current` to `end`, in reversed order
/// (symbols and states are pushed while unwinding; `find_paths` re-reverses).
///
/// Sound and complete: each returned pair reads, reversed, as a simple
/// extension walk from `current` to `end`, and every such walk is returned.
/// Arriving at `end` from within the search yields only the trivial walk.
#[verifier::rlimit(100)]
pub fn dfs(dfa: &DFA, end: State, visited: &mut Vec<bool>, current: State) -> (paths: Vec<
    StateString,
>)
    requires
        dfa_wf(*dfa),
        old(visited)@.len() == dfa.next@.len(),
        current.0 < dfa.next@.len(),
        end.0 < dfa.next@.len(),
        !old(visited)@[current.0 as int],
        !old(visited)@[end.0 as int],
    ensures
        final(visited)@ == old(visited)@,
        forall|m: int|
            0 <= m < paths@.len() ==> rev_path_ok(*dfa, #[trigger] paths@[m], current, end),
        forall|m: int|
            0 <= m < paths@.len() ==> simple_extension(
                *dfa,
                old(visited)@,
                (#[trigger] paths@[m]).0@.reverse(),
                paths@[m].1@.reverse(),
                current,
                end,
            ),
        (current == end && (exists|jx: int| 0 <= jx < old(visited)@.len() && old(visited)@[jx]))
            ==> (forall|m: int| 0 <= m < paths@.len() ==> (#[trigger] paths@[m]).1@.len() == 1),
        (current == end && (forall|jx: int| 0 <= jx < old(visited)@.len() ==> !old(visited)@[jx]))
            ==> (forall|m: int| 0 <= m < paths@.len() ==> (#[trigger] paths@[m]).1@.len() >= 2),
        forall|m1: int, m2: int|
            0 <= m1 < m2 < paths@.len() ==> !((#[trigger] paths@[m1]).0@ == (
            #[trigger] paths@[m2]).0@ && paths@[m1].1@ == paths@[m2].1@),
        forall|csyms: Seq<Symbol>, cstates: Seq<State>|
            #![trigger simple_extension(*dfa, old(visited)@, csyms, cstates, current, end)]
            (simple_extension(*dfa, old(visited)@, csyms, cstates, current, end) && ((current != end
                && cstates.len() >= 2) || (current == end && cstates.len() >= 2 && (forall|jx: int|
                0 <= jx < old(visited)@.len() ==> !old(visited)@[jx])) || (current == end
                && cstates.len() == 1 && (exists|jx: int|
                0 <= jx < old(visited)@.len() && old(visited)@[jx])))) ==> contains_pair(
                paths@,
                csyms.reverse(),
                cstates.reverse(),
            ),
    decreases count_false(visited@), (if current == end {
        1int
    } else {
        0int
    }),
{
    let n = dfa.next.len();
    let mut paths: Vec<StateString> = Vec::new();
    if current.0 == end.0 {
        if any_true(visited) {
            let mut sts: Vec<State> = Vec::new();
            sts.push(current);
            let syms: Vec<Symbol> = Vec::new();
            let p = (syms, sts);
            proof {
                assert(p.1@ =~= seq![current]);
                assert(p.1@.reverse() =~= seq![current]);
                assert(p.0@.reverse() =~= Seq::<Symbol>::empty());
                assert(rev_path_ok(*dfa, p, current, end));
                assert(simple_extension(
                    *dfa,
                    old(visited)@,
                    p.0@.reverse(),
                    p.1@.reverse(),
                    current,
                    end,
                ));
            }
            paths.push(p);
            proof {
                assert forall|csyms: Seq<Symbol>, cstates: Seq<State>|
                    (simple_extension(*dfa, old(visited)@, csyms, cstates, current, end) && ((
                    current != end && cstates.len() >= 2) || (current == end && cstates.len() >= 2
                        && (forall|jx: int|
                        0 <= jx < old(visited)@.len() ==> !old(visited)@[jx])) || (current == end
                        && cstates.len() == 1 && (exists|jx: int|
                        0 <= jx < old(visited)@.len() && old(visited)@[jx])))) implies
                contains_pair(paths@, csyms.reverse(), cstates.reverse()) by {
                    if cstates.len() == 1 {
                        assert(cstates =~= seq![current]);
                        assert(csyms =~= Seq::<Symbol>::empty());
                        assert(cstates.reverse() =~= seq![current]);
                        assert(csyms.reverse() =~= Seq::<Symbol>::empty());
                        assert(paths@[0].0@ == csyms.reverse() && paths@[0].1@
                            == cstates.reverse());
                    }
                }
            }
            return paths;
        }
    } else {
        visited[current.0] = true;
        proof {
            lemma_count_false_update(old(visited)@, current.0 as int);
        }
    }
    let ghost vis_entry = visited@;
    proof {
        assert(vis_entry.len() == old(visited)@.len());
        assert(forall|j: int|
            0 <= j < vis_entry.len() ==> (old(visited)@[j] ==> #[trigger] vis_entry[j]));
        assert(forall|j: int|
            0 <= j < vis_entry.len() ==> (#[trigger] vis_entry[j] ==> (old(visited)@[j] || j
                == current.0 as int)));
        assert(current != end ==> vis_entry[current.0 as int]);
        assert(current == end ==> vis_entry == old(visited)@);
    }
    let row_len = dfa.next[current.0].len();
    let mut k: usize = 0;
    while k < row_len
        invariant
            dfa_wf(*dfa),
            n == dfa.next@.len(),
            current.0 < n,
            end.0 < n,
            old(visited)@.len() == n,
            !old(visited)@[current.0 as int],
            !old(visited)@[end.0 as int],
            vis_entry.len() == n,
            forall|jv: int| 0 <= jv < n ==> (old(visited)@[jv] ==> #[trigger] vis_entry[jv]),
            forall|jv: int|
                0 <= jv < n ==> (#[trigger] vis_entry[jv] ==> (old(visited)@[jv] || jv
                    == current.0 as int)),
            current != end ==> vis_entry[current.0 as int],
            current != end ==> count_false(vis_entry) + 1 == count_false(old(visited)@),
            current == end ==> vis_entry == old(visited)@,
            k <= row_len,
            row_len == dfa.next@[current.0 as int]@.len(),
            visited@ == vis_entry,
            forall|m: int|
                0 <= m < paths@.len() ==> rev_path_ok(*dfa, #[trigger] paths@[m], current, end),
            forall|m: int|
                0 <= m < paths@.len() ==> simple_extension(
                    *dfa,
                    old(visited)@,
                    (#[trigger] paths@[m]).0@.reverse(),
                    paths@[m].1@.reverse(),
                    current,
                    end,
                ),
            forall|csyms: Seq<Symbol>, cstates: Seq<State>|
                #![trigger simple_extension(*dfa, old(visited)@, csyms, cstates, current, end)]
                (simple_extension(*dfa, old(visited)@, csyms, cstates, current, end)
                    && cstates.len() >= 2 && (exists|kk: int|
                    0 <= kk < k && (#[trigger] dfa.next@[current.0 as int]@[kk]).0 == csyms[0]))
                    ==> contains_pair(paths@, csyms.reverse(), cstates.reverse()),
            forall|m: int|
                0 <= m < paths@.len() ==> (#[trigger] paths@[m]).0@.len() >= 1
                    && paths@[m].1@.len() >= 2 && (exists|kk: int|
                    0 <= kk < k && (#[trigger] dfa.next@[current.0 as int]@[kk]).0
                        == paths@[m].0@.last()),
            forall|m1: int, m2: int|
                0 <= m1 < m2 < paths@.len() ==> !((#[trigger] paths@[m1]).0@ == (
                #[trigger] paths@[m2]).0@ && paths@[m1].1@ == paths@[m2].1@),
        decreases row_len - k,
    {
        let symb = dfa.next[current.0][k].0;
        let newstate = dfa.next[current.0][k].1;
        proof {
            assert(dfa_elem_wf(dfa.next@[current.0 as int], n as int));
            lemma_index_lookup(dfa.next@[current.0 as int]@, symb, k as int);
            assert(step(dfa.next, current, symb) == Some(newstate));
        }
        let ghost pk = paths@;
        if !visited[newstate.0] && newstate.0 != current.0 {
            let paths_rec = dfs(dfa, end, visited, newstate);
            let rcount = paths_rec.len();
            let mut j: usize = 0;
            while j < rcount
                invariant
                    dfa_wf(*dfa),
                    n == dfa.next@.len(),
                    current.0 < n,
                    end.0 < n,
                    newstate.0 < n,
                    old(visited)@.len() == n,
                    !old(visited)@[current.0 as int],
                    !old(visited)@[end.0 as int],
                    vis_entry.len() == n,
                    forall|jv: int|
                        0 <= jv < n ==> (old(visited)@[jv] ==> #[trigger] vis_entry[jv]),
                    forall|jv: int|
                        0 <= jv < n ==> (#[trigger] vis_entry[jv] ==> (old(visited)@[jv] || jv
                            == current.0 as int)),
                    current != end ==> vis_entry[current.0 as int],
                    current == end ==> vis_entry == old(visited)@,
                    j <= rcount,
                    rcount == paths_rec@.len(),
                    visited@ == vis_entry,
                    step(dfa.next, current, symb) == Some(newstate),
                    !vis_entry[newstate.0 as int],
                    newstate != current,
                    paths@.len() >= pk.len(),
                    forall|m: int| 0 <= m < pk.len() ==> #[trigger] paths@[m] == pk[m],
                    forall|m: int|
                        0 <= m < paths_rec@.len() ==> rev_path_ok(
                            *dfa,
                            #[trigger] paths_rec@[m],
                            newstate,
                            end,
                        ),
                    forall|m: int|
                        0 <= m < paths_rec@.len() ==> simple_extension(
                            *dfa,
                            vis_entry,
                            (#[trigger] paths_rec@[m]).0@.reverse(),
                            paths_rec@[m].1@.reverse(),
                            newstate,
                            end,
                        ),
                    (newstate == end && (exists|jx: int|
                        0 <= jx < vis_entry.len() && vis_entry[jx])) ==> (forall|m: int|
                        0 <= m < paths_rec@.len() ==> (#[trigger] paths_rec@[m]).1@.len() == 1),
                    forall|m: int|
                        0 <= m < paths@.len() ==> rev_path_ok(
                            *dfa,
                            #[trigger] paths@[m],
                            current,
                            end,
                        ),
                    forall|m: int|
                        0 <= m < paths@.len() ==> simple_extension(
                            *dfa,
                            old(visited)@,
                            (#[trigger] paths@[m]).0@.reverse(),
                            paths@[m].1@.reverse(),
                            current,
                            end,
                        ),
                    forall|m: int|
                        0 <= m < j ==> contains_pair(
                            paths@,
                            (#[trigger] paths_rec@[m]).0@.push(symb),
                            paths_rec@[m].1@.push(current),
                        ),
                    paths@.len() == pk.len() + j,
                    forall|m: int|
                        0 <= m < pk.len() ==> (#[trigger] paths@[m]).0@.len() >= 1
                            && paths@[m].1@.len() >= 2 && (exists|kk: int|
                            0 <= kk < k && (#[trigger] dfa.next@[current.0 as int]@[kk]).0
                                == paths@[m].0@.last()),
                    forall|m: int|
                        pk.len() <= m < paths@.len() ==> (#[trigger] paths@[m]).0@
                            == paths_rec@[m - pk.len()].0@.push(symb) && paths@[m].1@
                            == paths_rec@[m - pk.len()].1@.push(current),
                    forall|m1: int, m2: int|
                        0 <= m1 < m2 < paths_rec@.len() ==> !((#[trigger] paths_rec@[m1]).0@ == (
                        #[trigger] paths_rec@[m2]).0@ && paths_rec@[m1].1@ == paths_rec@[m2].1@),
                    forall|m1: int, m2: int|
                        0 <= m1 < m2 < pk.len() ==> !((#[trigger] paths@[m1]).0@ == (
                        #[trigger] paths@[m2]).0@ && paths@[m1].1@ == paths@[m2].1@),
                decreases rcount - j,
            {
                let mut pair = copy_pair(&paths_rec[j]);
                let ghost p0 = pair.0@;
                let ghost p1 = pair.1@;
                pair.0.push(symb);
                pair.1.push(current);
                proof {
                    assert(pair.0@ =~= p0.push(symb));
                    assert(pair.1@ =~= p1.push(current));
                    assert(pair.0@.reverse() =~= seq![symb] + p0.reverse());
                    assert(pair.1@.reverse() =~= seq![current] + p1.reverse());
                    assert(p1.reverse().first() == p1.last());
                    lemma_path_prepend(*dfa, p0.reverse(), p1.reverse(), current, symb);
                    assert(pair.1@.first() == p1.first());
                    assert(pair.1@.last() == current);
                    assert(rev_path_ok(*dfa, (pair.0, pair.1), current, end)) by {
                        assert(forall|jj: int|
                            0 <= jj < p1.len() ==> pair.1@[jj] == #[trigger] p1[jj]);
                    }
                    // the extended pair is a simple extension from `current`
                    assert(simple_extension(
                        *dfa,
                        old(visited)@,
                        pair.0@.reverse(),
                        pair.1@.reverse(),
                        current,
                        end,
                    )) by {
                        let tstates = p1.reverse();
                        let tsyms = p0.reverse();
                        assert(tstates.first() == newstate);
                        if newstate == end {
                            assert(current != end);
                            assert(exists|jx: int|
                                0 <= jx < vis_entry.len() && #[trigger] vis_entry[jx]) by {
                                assert(vis_entry[current.0 as int]);
                            }
                            assert(p1.len() == 1);
                        }
                        assert(forall|kk: int|
                            0 <= kk < tstates.len() ==> (#[trigger] tstates[kk]).0
                                < old(visited)@.len());
                        lemma_extension_prepend(
                            *dfa,
                            old(visited)@,
                            vis_entry,
                            tsyms,
                            tstates,
                            current,
                            end,
                            symb,
                        );
                    }
                }
                let ghost paths_before = paths@;
                paths.push(pair);
                proof {
                    assert(paths@.last() == pair);
                    assert(forall|m: int|
                        0 <= m < paths_before.len() ==> #[trigger] paths@[m] == paths_before[m]);
                    assert forall|m: int|
                        0 <= m < j + 1 implies contains_pair(
                        paths@,
                        (#[trigger] paths_rec@[m]).0@.push(symb),
                        paths_rec@[m].1@.push(current),
                    ) by {
                        if m < j {
                            lemma_contains_pair_extend(
                                paths_before,
                                paths@,
                                paths_rec@[m].0@.push(symb),
                                paths_rec@[m].1@.push(current),
                            );
                        } else {
                            assert(paths@[paths@.len() - 1].0@ == paths_rec@[m].0@.push(symb));
                            assert(paths@[paths@.len() - 1].1@ == paths_rec@[m].1@.push(current));
                        }
                    }
                }
                j += 1;
            }
            proof {
                // extensions of distinct results stay pairwise distinct, and
                // differ from earlier entries by their final symbol
                assert forall|m1: int, m2: int|
                    0 <= m1 < m2 < paths@.len() implies !((#[trigger] paths@[m1]).0@ == (
                #[trigger] paths@[m2]).0@ && paths@[m1].1@ == paths@[m2].1@) by {
                    if m1 < pk.len() && m2 >= pk.len() {
                        assert(paths@[m2].0@ == paths_rec@[m2 - pk.len()].0@.push(symb));
                        assert(paths@[m2].0@.last() == symb);
                        if paths@[m1].0@ == paths@[m2].0@ {
                            let kk = choose|kk: int|
                                0 <= kk < k && (#[trigger] dfa.next@[current.0 as int]@[kk]).0
                                    == paths@[m1].0@.last();
                            assert(dfa.next@[current.0 as int]@[kk].0 != dfa.next@[current.0 as int]@[k as int].0);
                            assert(false);
                        }
                    } else if m1 >= pk.len() {
                        if paths@[m1].0@ == paths@[m2].0@ && paths@[m1].1@ == paths@[m2].1@ {
                            let i1 = m1 - pk.len();
                            let i2 = m2 - pk.len();
                            assert(paths_rec@[i1].0@ =~= paths_rec@[i1].0@.push(symb).drop_last());
                            assert(paths_rec@[i2].0@ =~= paths_rec@[i2].0@.push(symb).drop_last());
                            assert(paths_rec@[i1].0@ == paths_rec@[i2].0@);
                            assert(paths_rec@[i1].1@ =~= paths_rec@[i1].1@.push(
                                current,
                            ).drop_last());
                            assert(paths_rec@[i2].1@ =~= paths_rec@[i2].1@.push(
                                current,
                            ).drop_last());
                            assert(paths_rec@[i1].1@ == paths_rec@[i2].1@);
                            assert(false);
                        }
                    }
                }
                assert forall|m: int|
                    0 <= m < paths@.len() implies (#[trigger] paths@[m]).0@.len() >= 1
                    && paths@[m].1@.len() >= 2 && (exists|kk: int|
                    0 <= kk < k + 1 && (#[trigger] dfa.next@[current.0 as int]@[kk]).0
                        == paths@[m].0@.last()) by {
                    if m >= pk.len() {
                        assert(paths@[m].0@ == paths_rec@[m - pk.len()].0@.push(symb));
                        assert(paths@[m].0@.last() == symb);
                        assert(dfa.next@[current.0 as int]@[k as int].0 == symb);
                        assert(paths@[m].1@ == paths_rec@[m - pk.len()].1@.push(current));
                        assert(paths_rec@[m - pk.len()].1@.len() >= 1);
                    }
                }
                lemma_symbol_candidates_found(
                    *dfa,
                    old(visited)@,
                    vis_entry,
                    current,
                    end,
                    symb,
                    newstate,
                    paths_rec@,
                    paths@,
                );
            }
        } else {
            proof {
                lemma_no_candidate_when_skipped(
                    *dfa,
                    old(visited)@,
                    vis_entry,
                    current,
                    end,
                    symb,
                    newstate,
                );
            }
        }
        proof {
            // candidates whose first symbol sits at an entry before k + 1
            assert forall|csyms: Seq<Symbol>, cstates: Seq<State>|
                #![trigger simple_extension(*dfa, old(visited)@, csyms, cstates, current, end)]
                (simple_extension(*dfa, old(visited)@, csyms, cstates, current, end)
                    && cstates.len() >= 2 && (exists|kk: int|
                    0 <= kk < k + 1 && (#[trigger] dfa.next@[current.0 as int]@[kk]).0
                        == csyms[0])) implies contains_pair(
                paths@,
                csyms.reverse(),
                cstates.reverse(),
            ) by {
                let kk = choose|kk: int|
                    0 <= kk < k + 1 && (#[trigger] dfa.next@[current.0 as int]@[kk]).0 == csyms[0];
                if kk < k {
                    assert(contains_pair(pk, csyms.reverse(), cstates.reverse()));
                    assert(paths@.len() >= pk.len() && forall|m: int|
                        0 <= m < pk.len() ==> #[trigger] paths@[m] == pk[m]);
                    lemma_contains_pair_extend(pk, paths@, csyms.reverse(), cstates.reverse());
                } else {
                    assert(csyms[0] == symb);
                }
            }
        }
        k += 1;
    }
    proof {
        assert forall|csyms: Seq<Symbol>, cstates: Seq<State>|
            (simple_extension(*dfa, old(visited)@, csyms, cstates, current, end) && ((current != end
                && cstates.len() >= 2) || (current == end && cstates.len() >= 2 && (forall|jx: int|
                0 <= jx < old(visited)@.len() ==> !old(visited)@[jx])) || (current == end
                && cstates.len() == 1 && (exists|jx: int|
                0 <= jx < old(visited)@.len() && old(visited)@[jx])))) implies contains_pair(
            paths@,
            csyms.reverse(),
            cstates.reverse(),
        ) by {
            if cstates.len() >= 2 {
                assert(step(dfa.next, cstates[0], csyms[0]) == Some(cstates[1]));
                crate::dfa::lemma_lookup_some_exists(
                    dfa.next@[current.0 as int]@,
                    csyms[0],
                    cstates[1],
                );
                let kk = choose|kk: int|
                    0 <= kk < dfa.next@[current.0 as int]@.len()
                        && dfa.next@[current.0 as int]@[kk] == (csyms[0], cstates[1]);
                assert((#[trigger] dfa.next@[current.0 as int]@[kk]).0 == csyms[0]);
            }
        }
    }
    if current.0 != end.0 {
        visited[current.0] = false;
        proof {
            assert(visited@ =~= old(visited)@);
        }
    }
    paths
}

/// A pair as returned by `dfs`: reversed, it walks from `from` to `end`.
pub open spec fn rev_path_ok(d: DFA, p: StateString, from: State, end: State) -> bool {
    &&& is_path(d, p.0@.reverse(), p.1@.reverse())
    &&& p.1@.len() >= 1
    &&& p.1@.first() == end
    &&& p.1@.last() == from
    &&& forall|j: int| 0 <= j < p.1@.len() ==> (#[trigger] p.1@[j]).0 < d.next@.len()
}

/// A vector in reverse order.
fn reversed_syms(v: &Vec<Symbol>) -> (r: Vec<Symbol>)
    ensures
        r@ == v@.reverse(),
{
    let n = v.len();
    let mut r: Vec<Symbol> = Vec::new();
    let mut k: usize = 0;
    while k < n
        invariant
            k <= n,
            n == v@.len(),
            r@.len() == k,
            forall|m: int| 0 <= m < k ==> r@[m] == v@[n - 1 - m],
        decreases n - k,
    {
        r.push(v[n - 1 - k]);
        k += 1;
    }
    proof {
        assert(r@ =~= v@.reverse());
    }
    r
}

/// A state vector in reverse order.
fn reversed_states(v: &Vec<State>) -> (r: Vec<State>)
    ensures
        r@ == v@.reverse(),
{
    let n = v.len();
    let mut r: Vec<State> = Vec::new();
    let mut k: usize = 0;
    while k < n
        invariant
            k <= n,
            n == v@.len(),
            r@.len() == k,
            forall|m: int| 0 <= m < k ==> r@[m] == v@[n - 1 - m],
        decreases n - k,
    {
        r.push(v[n - 1 - k]);
        k += 1;
    }
    proof {
        assert(r@ =~= v@.reverse());
    }
    r
}

/// Every simple path from `start` to `end`, plus the direct self-loops when
/// `start == end` (which a no-repeated-state search would otherwise miss).
///
/// Sound and complete: each returned pair is a simple walk from `start` to
/// `end` (or an explicit self-loop), and every simple walk and every
/// self-loop is returned.
#[verifier::loop_isolation(false)]
#[verifier::rlimit(100)]
pub fn find_paths(dfa: &DFA, start: State, end: State) -> (paths: Vec<StateString>)
    requires
        dfa_wf(*dfa),
        start.0 < dfa.next@.len(),
        end.0 < dfa.next@.len(),
    ensures
        forall|m: int|
            0 <= m < paths@.len() ==> fwd_path_ok(*dfa, #[trigger] paths@[m], start, end),
        forall|m: int|
            0 <= m < paths@.len() ==> ((simple_extension(
                *dfa,
                no_visits(dfa.next@.len()),
                (#[trigger] paths@[m]).0@,
                paths@[m].1@,
                start,
                end,
            ) && paths@[m].1@.len() >= 2) || (start == end && paths@[m].1@ == seq![start, start]
                && paths@[m].0@.len() == 1 && step(dfa.next, start, paths@[m].0@[0]) == Some(
                start,
            ))),
        forall|m1: int, m2: int|
            0 <= m1 < m2 < paths@.len() ==> !((#[trigger] paths@[m1]).0@ == (
            #[trigger] paths@[m2]).0@ && paths@[m1].1@ == paths@[m2].1@),
        forall|csyms: Seq<Symbol>, cstates: Seq<State>|
            #![trigger simple_extension(*dfa, no_visits(dfa.next@.len()), csyms, cstates, start, end)]
            (simple_extension(*dfa, no_visits(dfa.next@.len()), csyms, cstates, start, end)
                && cstates.len() >= 2) ==> contains_pair(paths@, csyms, cstates),
        start == end ==> (forall|sym: Symbol|
            #![trigger step(dfa.next, start, sym)]
            step(dfa.next, start, sym) == Some(start) ==> contains_pair(
                paths@,
                seq![sym],
                seq![start, start],
            )),
{
    let n = dfa.next.len();
    let mut visited = falses(n);
    proof {
        assert(visited@ =~= no_visits(n as nat));
    }
    let raw = dfs(dfa, end, &mut visited, start);
    let mut paths: Vec<StateString> = Vec::new();
    let rcount = raw.len();
    let mut j: usize = 0;
    while j < rcount
        invariant
            j <= rcount,
            rcount == raw@.len(),
            paths@.len() == j,
            forall|m: int|
                0 <= m < raw@.len() ==> rev_path_ok(*dfa, #[trigger] raw@[m], start, end),
            forall|m: int|
                0 <= m < j ==> (#[trigger] paths@[m]).0@ == raw@[m].0@.reverse() && paths@[m].1@
                    == raw@[m].1@.reverse(),
        decreases rcount - j,
    {
        let r0 = reversed_syms(&raw[j].0);
        let r1 = reversed_states(&raw[j].1);
        let p = (r0, r1);
        paths.push(p);
        j += 1;
    }
    let ghost simple_part = paths@;
    proof {
        assert forall|m1: int, m2: int|
            0 <= m1 < m2 < simple_part.len() implies !((#[trigger] simple_part[m1]).0@ == (
        #[trigger] simple_part[m2]).0@ && simple_part[m1].1@ == simple_part[m2].1@) by {
            if simple_part[m1].0@ == simple_part[m2].0@ && simple_part[m1].1@
                == simple_part[m2].1@ {
                assert(raw@[m1].0@ =~= raw@[m1].0@.reverse().reverse());
                assert(raw@[m2].0@ =~= raw@[m2].0@.reverse().reverse());
                assert(raw@[m1].0@ == raw@[m2].0@);
                assert(raw@[m1].1@ =~= raw@[m1].1@.reverse().reverse());
                assert(raw@[m2].1@ =~= raw@[m2].1@.reverse().reverse());
                assert(raw@[m1].1@ == raw@[m2].1@);
                assert(false);
            }
        }
        assert forall|m: int|
            0 <= m < simple_part.len() implies (#[trigger] simple_part[m]).1@.len() >= 2 by {
            if start == end {
                assert(forall|jx: int|
                    0 <= jx < no_visits(n as nat).len() ==> !no_visits(n as nat)[jx]);
                assert(raw@[m].1@.len() >= 2);
            } else {
                assert(simple_part[m].1@.first() == start && simple_part[m].1@.last() == end);
            }
        }
        assert forall|m: int|
            0 <= m < simple_part.len() implies fwd_path_ok(
            *dfa,
            #[trigger] simple_part[m],
            start,
            end,
        ) && simple_extension(
            *dfa,
            no_visits(n as nat),
            simple_part[m].0@,
            simple_part[m].1@,
            start,
            end,
        ) by {
            assert(raw@[m].0@.reverse().reverse() =~= raw@[m].0@);
            assert(raw@[m].1@.reverse().reverse() =~= raw@[m].1@);
            assert(simple_extension(
                *dfa,
                no_visits(n as nat),
                raw@[m].0@.reverse(),
                raw@[m].1@.reverse(),
                start,
                end,
            ));
            assert(fwd_path_ok(*dfa, simple_part[m], start, end)) by {
                assert(rev_path_ok(*dfa, raw@[m], start, end));
                assert(simple_part[m].1@.first() == raw@[m].1@.last());
                assert(simple_part[m].1@.last() == raw@[m].1@.first());
                assert(forall|jj: int|
                    0 <= jj < simple_part[m].1@.len() ==> #[trigger] simple_part[m].1@[jj]
                        == raw@[m].1@[simple_part[m].1@.len() - 1 - jj]);
            }
        }
        assert forall|csyms: Seq<Symbol>, cstates: Seq<State>|
            (simple_extension(*dfa, no_visits(n as nat), csyms, cstates, start, end)
                && cstates.len() >= 2) implies contains_pair(simple_part, csyms, cstates) by {
            assert(contains_pair(raw@, csyms.reverse(), cstates.reverse())) by {
                if start == end {
                    assert(forall|jx: int| 0 <= jx < no_visits(n as nat).len() ==> !no_visits(
                        n as nat,
                    )[jx]);
                }
            }
            let m = choose|m: int|
                #![trigger raw@[m]]
                0 <= m < raw@.len() && raw@[m].0@ == csyms.reverse() && raw@[m].1@
                    == cstates.reverse();
            assert(simple_part[m].0@ == csyms.reverse().reverse());
            assert(csyms.reverse().reverse() =~= csyms);
            assert(cstates.reverse().reverse() =~= cstates);
        }
    }
    if start.0 == end.0 {
        let row_len = dfa.next[start.0].len();
        let mut k: usize = 0;
        while k < row_len
            invariant
                k <= row_len,
                row_len == dfa.next@[start.0 as int]@.len(),
                paths@.len() >= simple_part.len(),
                forall|m: int|
                    0 <= m < simple_part.len() ==> #[trigger] paths@[m] == simple_part[m],
                forall|m: int|
                    simple_part.len() <= m < paths@.len() ==> (#[trigger] paths@[m]).1@ == seq![
                        start,
                        start,
                    ] && paths@[m].0@.len() == 1 && step(dfa.next, start, paths@[m].0@[0]) == Some(
                        start,
                    ) && fwd_path_ok(*dfa, paths@[m], start, end) && (exists|kk: int|
                        0 <= kk < k && (#[trigger] dfa.next@[start.0 as int]@[kk]).0
                            == paths@[m].0@[0] && dfa.next@[start.0 as int]@[kk].1 == start),
                forall|m1: int, m2: int|
                    0 <= m1 < m2 < paths@.len() ==> !((#[trigger] paths@[m1]).0@ == (
                    #[trigger] paths@[m2]).0@ && paths@[m1].1@ == paths@[m2].1@),
                forall|kk: int|
                    0 <= kk < k && (#[trigger] dfa.next@[start.0 as int]@[kk]).1 == start
                        ==> contains_pair(
                        paths@,
                        seq![dfa.next@[start.0 as int]@[kk].0],
                        seq![start, start],
                    ),
            decreases row_len - k,
        {
            let symb = dfa.next[start.0][k].0;
            let newstate = dfa.next[start.0][k].1;
            let ghost pb = paths@;
            if newstate.0 == start.0 {
                let mut syms: Vec<Symbol> = Vec::new();
                syms.push(symb);
                let mut sts: Vec<State> = Vec::new();
                sts.push(start);
                sts.push(start);
                let p = (syms, sts);
                proof {
                    assert(dfa_elem_wf(dfa.next@[start.0 as int], n as int));
                    lemma_index_lookup(dfa.next@[start.0 as int]@, symb, k as int);
                    assert(newstate == start);
                    assert(p.0@ =~= seq![symb]);
                    assert(p.1@ =~= seq![start, start]);
                    assert(fwd_path_ok(*dfa, p, start, end));
                }
                paths.push(p);
                proof {
                    assert(paths@.last() == p);
                    assert(forall|m: int| 0 <= m < pb.len() ==> #[trigger] paths@[m] == pb[m]);
                    assert(dfa_elem_wf(dfa.next@[start.0 as int], n as int));
                    assert forall|m1: int, m2: int|
                        0 <= m1 < m2 < paths@.len() implies !((#[trigger] paths@[m1]).0@ == (
                    #[trigger] paths@[m2]).0@ && paths@[m1].1@ == paths@[m2].1@) by {
                        if m2 == paths@.len() - 1 {
                            assert(paths@[m2].0@ =~= seq![symb]);
                            if m1 < simple_part.len() {
                                if paths@[m1].1@ == paths@[m2].1@ {
                                    assert(simple_part[m1].1@ == seq![start, start]);
                                    assert(simple_part[m1].1@.len() >= 2);
                                    assert(simple_extension(
                                        *dfa,
                                        no_visits(n as nat),
                                        simple_part[m1].0@,
                                        simple_part[m1].1@,
                                        start,
                                        end,
                                    ));
                                    assert(simple_part[m1].1@[1] == start
                                        && simple_part[m1].1@.first() == start);
                                    assert(false);
                                }
                            } else {
                                if paths@[m1].0@ == paths@[m2].0@ {
                                    let kk = choose|kk: int|
                                        0 <= kk < k && (
                                        #[trigger] dfa.next@[start.0 as int]@[kk]).0
                                            == paths@[m1].0@[0] && dfa.next@[start.0 as int]@[kk].1
                                            == start;
                                    assert(paths@[m1].0@[0] == symb);
                                    assert(dfa.next@[start.0 as int]@[kk].0
                                        != dfa.next@[start.0 as int]@[k as int].0);
                                    assert(false);
                                }
                            }
                        }
                    }
                    assert forall|kk: int|
                        0 <= kk < k + 1 && (#[trigger] dfa.next@[start.0 as int]@[kk]).1 == start implies
                    contains_pair(
                        paths@,
                        seq![dfa.next@[start.0 as int]@[kk].0],
                        seq![start, start],
                    ) by {
                        if kk < k {
                            lemma_contains_pair_extend(
                                pb,
                                paths@,
                                seq![dfa.next@[start.0 as int]@[kk].0],
                                seq![start, start],
                            );
                        } else {
                            assert(paths@[paths@.len() - 1].0@ =~= seq![symb]);
                            assert(paths@[paths@.len() - 1].1@ =~= seq![start, start]);
                        }
                    }
                }
            } else {
                proof {
                    assert forall|kk: int|
                        0 <= kk < k + 1 && (#[trigger] dfa.next@[start.0 as int]@[kk]).1 == start implies
                    contains_pair(
                        paths@,
                        seq![dfa.next@[start.0 as int]@[kk].0],
                        seq![start, start],
                    ) by {
                        if kk == k {
                            assert(dfa.next@[start.0 as int]@[kk].1 == newstate);
                            assert(false);
                        }
                    }
                }
            }
            k += 1;
        }
        proof {
            assert forall|sym: Symbol|
                step(dfa.next, start, sym) == Some(start) implies contains_pair(
                paths@,
                seq![sym],
                seq![start, start],
            ) by {
                crate::dfa::lemma_lookup_some_exists(dfa.next@[start.0 as int]@, sym, start);
                let kk = choose|kk: int|
                    0 <= kk < dfa.next@[start.0 as int]@.len() && dfa.next@[start.0 as int]@[kk]
                        == (sym, start);
                assert((#[trigger] dfa.next@[start.0 as int]@[kk]).1 == start);
            }
            assert forall|csyms: Seq<Symbol>, cstates: Seq<State>|
                (simple_extension(*dfa, no_visits(n as nat), csyms, cstates, start, end)
                    && cstates.len() >= 2) implies contains_pair(paths@, csyms, cstates) by {
                assert(contains_pair(simple_part, csyms, cstates));
                lemma_contains_pair_extend(simple_part, paths@, csyms, cstates);
            }
        }
    }
    paths
}

/// A pair as returned by `find_paths`: a forward walk from `start` to `end`.
pub open spec fn fwd_path_ok(d: DFA, p: StateString, start: State, end: State) -> bool {
    &&& is_path(d, p.0@, p.1@)
    &&& p.1@.len() >= 1
    &&& p.1@.first() == start
    &&& p.1@.last() == end
    &&& forall|j: int| 0 <= j < p.1@.len() ==> (#[trigger] p.1@[j]).0 < d.next@.len()
}


/// Splice `cycle` into `pair` at position `i` of its visited states: the
/// cycle's symbols and states replace the single state `pair.1[i]`.
fn splice_at(pair: &StateString, i: usize, cycle: &StateString) -> (r: StateString)
    requires
        pair.1@.len() == pair.0@.len() + 1,
        i < pair.1@.len(),
        cycle.1@.len() == cycle.0@.len() + 1,
    ensures
        r.0@ == pair.0@.subrange(0, i as int) + cycle.0@ + pair.0@.subrange(
            i as int,
            pair.0@.len() as int,
        ),
        r.1@ == pair.1@.subrange(0, i as int) + cycle.1@ + pair.1@.subrange(
            i as int + 1,
            pair.1@.len() as int,
        ),
{
    let mut syms: Vec<Symbol> = Vec::new();
    let mut sts: Vec<State> = Vec::new();
    let mut k: usize = 0;
    while k < i
        invariant
            k <= i,
            i < pair.1@.len(),
            pair.1@.len() == pair.0@.len() + 1,
            syms@ =~= pair.0@.subrange(0, k as int),
            sts@ =~= pair.1@.subrange(0, k as int),
        decreases i - k,
    {
        syms.push(pair.0[k]);
        sts.push(pair.1[k]);
        k += 1;
    }
    let clen = cycle.0.len();
    let mut c: usize = 0;
    while c < clen
        invariant
            c <= clen,
            clen == cycle.0@.len(),
            syms@ =~= pair.0@.subrange(0, i as int) + cycle.0@.subrange(0, c as int),
        decreases clen - c,
    {
        syms.push(cycle.0[c]);
        c += 1;
    }
    let cslen = cycle.1.len();
    let mut c2: usize = 0;
    while c2 < cslen
        invariant
            c2 <= cslen,
            cslen == cycle.1@.len(),
            sts@ =~= pair.1@.subrange(0, i as int) + cycle.1@.subrange(0, c2 as int),
        decreases cslen - c2,
    {
        sts.push(cycle.1[c2]);
        c2 += 1;
    }
    let slen = pair.0.len();
    let mut k2: usize = i;
    while k2 < slen
        invariant
            i <= k2 <= slen,
            slen == pair.0@.len(),
            clen == cycle.0@.len(),
            syms@ =~= pair.0@.subrange(0, i as int) + cycle.0@ + pair.0@.subrange(
                i as int,
                k2 as int,
            ),
        decreases slen - k2,
    {
        syms.push(pair.0[k2]);
        k2 += 1;
    }
    let stlen = pair.1.len();
    let mut k3: usize = i + 1;
    while k3 < stlen
        invariant
            i + 1 <= k3 <= stlen,
            stlen == pair.1@.len(),
            cslen == cycle.1@.len(),
            sts@ =~= pair.1@.subrange(0, i as int) + cycle.1@ + pair.1@.subrange(
                i as int + 1,
                k3 as int,
            ),
        decreases stlen - k3,
    {
        sts.push(pair.1[k3]);
        k3 += 1;
    }
    proof {
        assert(syms@ =~= pair.0@.subrange(0, i as int) + cycle.0@ + pair.0@.subrange(
            i as int,
            pair.0@.len() as int,
        ));
        assert(sts@ =~= pair.1@.subrange(0, i as int) + cycle.1@ + pair.1@.subrange(
            i as int + 1,
            pair.1@.len() as int,
        ));
    }
    (syms, sts)
}

/// `p` is `src` with the cycle `cyc` spliced in at position `i` of its
/// visited states.
pub open spec fn is_splice(p: StateString, src: StateString, cyc: StateString, i: int) -> bool {
    &&& 0 <= i < src.1@.len()
    &&& p.0@ == src.0@.subrange(0, i) + cyc.0@ + src.0@.subrange(i, src.0@.len() as int)
    &&& p.1@ == src.1@.subrange(0, i) + cyc.1@ + src.1@.subrange(i + 1, src.1@.len() as int)
}

/// `p` arises from `src` by splicing in one of the cycles recorded at one of
/// its visited states.
pub open spec fn splice_entry_ok(p: StateString, src: StateString, cycles: Vec<Vec<StateString>>) -> bool {
    exists|i: int, c: int|
        #![trigger is_splice(p, src, cycles@[src.1@[i].0 as int]@[c], i)]
        0 <= i < src.1@.len() && 0 <= c < cycles@[src.1@[i].0 as int]@.len() && is_splice(
            p,
            src,
            cycles@[src.1@[i].0 as int]@[c],
            i,
        )
}

/// Every queue entry from position `base` on is the source pair with one of
/// the cycles at one of its visited states spliced in.
pub open spec fn queue_extends_by_splices(
    queue: Seq<StateString>,
    base: int,
    src: StateString,
    cycles: Vec<Vec<StateString>>,
) -> bool {
    forall|q: int|
        #![trigger queue[q]]
        base <= q < queue.len() ==> splice_entry_ok(queue[q], src, cycles)
}

/// Appending one more splice of the source keeps the queue's tail all splices.
proof fn lemma_splice_extend(
    queue: Seq<StateString>,
    base: int,
    src: StateString,
    cycles: Vec<Vec<StateString>>,
    nq: Seq<StateString>,
    i: int,
    c: int,
)
    requires
        0 <= base,
        queue_extends_by_splices(queue, base, src, cycles),
        nq.len() == queue.len() + 1,
        forall|q: int| 0 <= q < queue.len() ==> #[trigger] nq[q] == queue[q],
        0 <= i < src.1@.len(),
        0 <= c < cycles@[src.1@[i].0 as int]@.len(),
        is_splice(nq[nq.len() - 1], src, cycles@[src.1@[i].0 as int]@[c], i),
    ensures
        queue_extends_by_splices(nq, base, src, cycles),
{
    assert forall|q: int|
        #![trigger nq[q]]
        base <= q < nq.len() implies splice_entry_ok(nq[q], src, cycles) by {
        if q < queue.len() {
            assert(nq[q] == queue[q]);
            assert(splice_entry_ok(queue[q], src, cycles));
        } else {
            assert(is_splice(nq[q], src, cycles@[src.1@[i].0 as int]@[c], i));
            assert(splice_entry_ok(nq[q], src, cycles));
        }
    }
}

/// A base delivery: a simple walk leaving the initial state, or a direct
/// self-loop at it.
pub open spec fn base_walk_ok(d: DFA, p: StateString) -> bool {
    ||| simple_extension(d, no_visits(d.next@.len()), p.0@, p.1@, d.initial, p.1@.last())
    ||| (p.1@ == seq![d.initial, d.initial] && p.0@.len() == 1 && step(d.next, d.initial, p.0@[0])
        == Some(d.initial))
}

/// A recorded cycle: a simple non-trivial cycle at `s`, or a direct self-loop.
pub open spec fn cycle_walk_ok(d: DFA, s: State, p: StateString) -> bool {
    ||| (simple_extension(d, no_visits(d.next@.len()), p.0@, p.1@, s, s) && p.1@.len() >= 2)
    ||| (p.1@ == seq![s, s] && p.0@.len() == 1 && step(d.next, s, p.0@[0]) == Some(s))
}

/// The state of an accepted-string enumeration, driven pull-style: each call
/// to [`Generation::next_delivery`] yields one more traversal's string, and
/// every delivered string is one the automaton accepts. A caller stops the
/// enumeration by no longer pulling; an unbounded language can be pulled from
/// forever.
pub struct Generation {
    pub dfa: DFA,
    pub queue: VecDeque<StateString>,
    pub cycles: Vec<Vec<StateString>>,
    pub seen: Vec<StateString>,
    pub emitted_empty: bool,
}

impl Generation {
    /// The enumeration invariant: everything queued is an accepting run of
    /// the automaton, and the cycle inventory holds true cycles.
    pub open spec fn wf(&self) -> bool {
        &&& dfa_wf(self.dfa)
        &&& self.cycles@.len() == self.dfa.next@.len()
        &&& forall|q: int| 0 <= q < self.queue@.len() ==> run_ok(self.dfa, #[trigger] self.queue@[q])
        &&& forall|i: int, c: int|
            0 <= i < self.cycles@.len() && 0 <= c < self.cycles@[i]@.len() ==> cycle_ok(
                self.dfa,
                State(i as usize),
                #[trigger] self.cycles@[i]@[c],
            )
    }

    /// Seed the FIFO with every simple path from the initial state to a final
    /// state, and record every simple cycle (and self-loop) at each state:
    /// both exactly, nothing more and nothing less.
    #[verifier::loop_isolation(false)]
    #[verifier::rlimit(100)]
    pub fn new(dfa: DFA) -> (g: Generation)
        requires
            dfa_wf(dfa),
        ensures
            g.wf(),
            g.dfa == dfa,
            !g.emitted_empty,
            g.seen@.len() == 0,
            forall|q: int| 0 <= q < g.queue@.len() ==> base_walk_ok(dfa, #[trigger] g.queue@[q]),
            forall|csyms: Seq<Symbol>, cstates: Seq<State>|
                #![trigger simple_extension(dfa, no_visits(dfa.next@.len()), csyms, cstates, dfa.initial, cstates.last())]
                (simple_extension(
                    dfa,
                    no_visits(dfa.next@.len()),
                    csyms,
                    cstates,
                    dfa.initial,
                    cstates.last(),
                ) && cstates.len() >= 2 && dfa.finals@.contains(cstates.last()))
                    ==> contains_pair(g.queue@, csyms, cstates),
            dfa.finals@.contains(dfa.initial) ==> (forall|sym: Symbol|
                #![trigger step(dfa.next, dfa.initial, sym)]
                step(dfa.next, dfa.initial, sym) == Some(dfa.initial) ==> contains_pair(
                    g.queue@,
                    seq![sym],
                    seq![dfa.initial, dfa.initial],
                )),
            forall|ii: int, c: int|
                0 <= ii < g.cycles@.len() && 0 <= c < g.cycles@[ii]@.len() ==> cycle_walk_ok(
                    dfa,
                    State(ii as usize),
                    #[trigger] g.cycles@[ii]@[c],
                ),
            forall|ii: int, csyms: Seq<Symbol>, cstates: Seq<State>|
                #![trigger simple_extension(dfa, no_visits(dfa.next@.len()), csyms, cstates, State(ii as usize), State(ii as usize))]
                (0 <= ii < g.cycles@.len() && simple_extension(
                    dfa,
                    no_visits(dfa.next@.len()),
                    csyms,
                    cstates,
                    State(ii as usize),
                    State(ii as usize),
                ) && cstates.len() >= 2) ==> contains_pair(g.cycles@[ii]@, csyms, cstates),
            forall|ii: int, sym: Symbol|
                #![trigger step(dfa.next, State(ii as usize), sym)]
                (0 <= ii < g.cycles@.len() && step(dfa.next, State(ii as usize), sym) == Some(
                    State(ii as usize),
                )) ==> contains_pair(
                    g.cycles@[ii]@,
                    seq![sym],
                    seq![State(ii as usize), State(ii as usize)],
                ),
    {
        let n = dfa.next.len();
        let mut queue: VecDeque<StateString> = VecDeque::new();
        let fcount = dfa.finals.len();
        let mut fi: usize = 0;
        while fi < fcount
            invariant
                fi <= fcount,
                forall|q: int| 0 <= q < queue@.len() ==> run_ok(dfa, #[trigger] queue@[q]),
                forall|q: int| 0 <= q < queue@.len() ==> base_walk_ok(dfa, #[trigger] queue@[q]),
                forall|csyms: Seq<Symbol>, cstates: Seq<State>|
                    #![trigger simple_extension(dfa, no_visits(dfa.next@.len()), csyms, cstates, dfa.initial, cstates.last())]
                    (simple_extension(
                        dfa,
                        no_visits(dfa.next@.len()),
                        csyms,
                        cstates,
                        dfa.initial,
                        cstates.last(),
                    ) && cstates.len() >= 2 && (exists|mp: int|
                        0 <= mp < fi && dfa.finals@[mp] == cstates.last())) ==> contains_pair(
                        queue@,
                        csyms,
                        cstates,
                    ),
                forall|sym: Symbol|
                    #![trigger step(dfa.next, dfa.initial, sym)]
                    ((exists|mp: int| 0 <= mp < fi && dfa.finals@[mp] == dfa.initial) && step(
                        dfa.next,
                        dfa.initial,
                        sym,
                    ) == Some(dfa.initial)) ==> contains_pair(
                        queue@,
                        seq![sym],
                        seq![dfa.initial, dfa.initial],
                    ),
            decreases fcount - fi,
        {
            let f = dfa.finals[fi];
            proof {
                assert(dfa.finals@.contains(dfa.finals@[fi as int]));
            }
            let ghost q_fi = queue@;
            let paths = find_paths(&dfa, dfa.initial, f);
            let pcount = paths.len();
            let mut j: usize = 0;
            while j < pcount
                invariant
                    j <= pcount,
                    pcount == paths@.len(),
                    f == dfa.finals@[fi as int],
                    dfa.finals@.contains(f),
                    queue@.len() >= q_fi.len(),
                    forall|m: int| 0 <= m < q_fi.len() ==> #[trigger] queue@[m] == q_fi[m],
                    forall|m: int|
                        0 <= m < paths@.len() ==> fwd_path_ok(
                            *&dfa,
                            #[trigger] paths@[m],
                            dfa.initial,
                            f,
                        ),
                    forall|m: int|
                        0 <= m < paths@.len() ==> (simple_extension(
                            dfa,
                            no_visits(dfa.next@.len()),
                            (#[trigger] paths@[m]).0@,
                            paths@[m].1@,
                            dfa.initial,
                            f,
                        ) || (dfa.initial == f && paths@[m].1@ == seq![dfa.initial, dfa.initial]
                            && paths@[m].0@.len() == 1 && step(dfa.next, dfa.initial, paths@[m].0@[0])
                            == Some(dfa.initial))),
                    forall|q: int| 0 <= q < queue@.len() ==> run_ok(dfa, #[trigger] queue@[q]),
                    forall|q: int|
                        0 <= q < queue@.len() ==> base_walk_ok(dfa, #[trigger] queue@[q]),
                    forall|m: int|
                        0 <= m < j ==> contains_pair(
                            queue@,
                            (#[trigger] paths@[m]).0@,
                            paths@[m].1@,
                        ),
                decreases pcount - j,
            {
                let p = copy_pair(&paths[j]);
                proof {
                    assert(run_ok(dfa, (p.0, p.1)));
                    assert(base_walk_ok(dfa, (p.0, p.1))) by {
                        assert(paths@[j as int].1@.last() == f);
                    }
                }
                let ghost qb = queue@;
                queue.push_back(p);
                proof {
                    assert(queue@.last() == p);
                    assert(forall|m: int| 0 <= m < qb.len() ==> #[trigger] queue@[m] == qb[m]);
                    assert forall|m: int|
                        0 <= m < j + 1 implies contains_pair(
                        queue@,
                        (#[trigger] paths@[m]).0@,
                        paths@[m].1@,
                    ) by {
                        if m < j {
                            lemma_contains_pair_extend(
                                qb,
                                queue@,
                                paths@[m].0@,
                                paths@[m].1@,
                            );
                        } else {
                            assert(queue@[queue@.len() - 1].0@ == paths@[m].0@);
                            assert(queue@[queue@.len() - 1].1@ == paths@[m].1@);
                        }
                    }
                }
                j += 1;
            }
            proof {
                assert forall|csyms: Seq<Symbol>, cstates: Seq<State>|
                    (simple_extension(
                        dfa,
                        no_visits(dfa.next@.len()),
                        csyms,
                        cstates,
                        dfa.initial,
                        cstates.last(),
                    ) && cstates.len() >= 2 && (exists|mp: int|
                        0 <= mp < fi + 1 && dfa.finals@[mp] == cstates.last())) implies
                contains_pair(queue@, csyms, cstates) by {
                    let mp = choose|mp: int|
                        0 <= mp < fi + 1 && dfa.finals@[mp] == cstates.last();
                    if mp < fi {
                        assert(contains_pair(q_fi, csyms, cstates));
                        lemma_contains_pair_extend(q_fi, queue@, csyms, cstates);
                    } else {
                        assert(cstates.last() == f);
                        assert(simple_extension(
                            dfa,
                            no_visits(dfa.next@.len()),
                            csyms,
                            cstates,
                            dfa.initial,
                            f,
                        ));
                        assert(contains_pair(paths@, csyms, cstates));
                        let m = choose|m: int|
                            #![trigger paths@[m]]
                            0 <= m < paths@.len() && paths@[m].0@ == csyms && paths@[m].1@
                                == cstates;
                        assert(contains_pair(queue@, paths@[m].0@, paths@[m].1@));
                    }
                }
                assert forall|sym: Symbol|
                    ((exists|mp: int| 0 <= mp < fi + 1 && dfa.finals@[mp] == dfa.initial) && step(
                        dfa.next,
                        dfa.initial,
                        sym,
                    ) == Some(dfa.initial)) implies contains_pair(
                    queue@,
                    seq![sym],
                    seq![dfa.initial, dfa.initial],
                ) by {
                    let mp = choose|mp: int|
                        0 <= mp < fi + 1 && dfa.finals@[mp] == dfa.initial;
                    if mp < fi {
                        assert(contains_pair(
                            q_fi,
                            seq![sym],
                            seq![dfa.initial, dfa.initial],
                        ));
                        lemma_contains_pair_extend(
                            q_fi,
                            queue@,
                            seq![sym],
                            seq![dfa.initial, dfa.initial],
                        );
                    } else {
                        assert(f == dfa.initial);
                        assert(contains_pair(paths@, seq![sym], seq![dfa.initial, dfa.initial]));
                        let m = choose|m: int|
                            #![trigger paths@[m]]
                            0 <= m < paths@.len() && paths@[m].0@ == seq![sym] && paths@[m].1@
                                == seq![dfa.initial, dfa.initial];
                        assert(contains_pair(queue@, paths@[m].0@, paths@[m].1@));
                    }
                }
            }
            fi += 1;
        }
        proof {
            assert forall|csyms: Seq<Symbol>, cstates: Seq<State>|
                (simple_extension(
                    dfa,
                    no_visits(dfa.next@.len()),
                    csyms,
                    cstates,
                    dfa.initial,
                    cstates.last(),
                ) && cstates.len() >= 2 && dfa.finals@.contains(cstates.last())) implies
            contains_pair(queue@, csyms, cstates) by {
                let mp = choose|mp: int|
                    0 <= mp < dfa.finals@.len() && dfa.finals@[mp] == cstates.last();
            }
        }
        let mut cycles: Vec<Vec<StateString>> = Vec::new();
        let mut i: usize = 0;
        while i < n
            invariant
                i <= n,
                cycles@.len() == i,
                forall|ii: int, c: int|
                    0 <= ii < i && 0 <= c < cycles@[ii]@.len() ==> cycle_ok(
                        dfa,
                        State(ii as usize),
                        #[trigger] cycles@[ii]@[c],
                    ),
                forall|ii: int, c: int|
                    0 <= ii < i && 0 <= c < cycles@[ii]@.len() ==> cycle_walk_ok(
                        dfa,
                        State(ii as usize),
                        #[trigger] cycles@[ii]@[c],
                    ),
                forall|ii: int, csyms: Seq<Symbol>, cstates: Seq<State>|
                    #![trigger simple_extension(dfa, no_visits(dfa.next@.len()), csyms, cstates, State(ii as usize), State(ii as usize))]
                    (0 <= ii < i && simple_extension(
                        dfa,
                        no_visits(dfa.next@.len()),
                        csyms,
                        cstates,
                        State(ii as usize),
                        State(ii as usize),
                    ) && cstates.len() >= 2) ==> contains_pair(cycles@[ii]@, csyms, cstates),
                forall|ii: int, sym: Symbol|
                    #![trigger step(dfa.next, State(ii as usize), sym)]
                    (0 <= ii < i && step(dfa.next, State(ii as usize), sym) == Some(
                        State(ii as usize),
                    )) ==> contains_pair(
                        cycles@[ii]@,
                        seq![sym],
                        seq![State(ii as usize), State(ii as usize)],
                    ),
            decreases n - i,
        {
            let found = find_paths(&dfa, State(i), State(i));
            let mut kept: Vec<StateString> = Vec::new();
            let fcount2 = found.len();
            let mut j: usize = 0;
            while j < fcount2
                invariant
                    j <= fcount2,
                    fcount2 == found@.len(),
                    i < n,
                    forall|m: int|
                        0 <= m < found@.len() ==> fwd_path_ok(
                            *&dfa,
                            #[trigger] found@[m],
                            State(i as usize),
                            State(i as usize),
                        ),
                    forall|m: int|
                        0 <= m < found@.len() ==> (simple_extension(
                            dfa,
                            no_visits(dfa.next@.len()),
                            (#[trigger] found@[m]).0@,
                            found@[m].1@,
                            State(i as usize),
                            State(i as usize),
                        ) || (found@[m].1@ == seq![State(i as usize), State(i as usize)]
                            && found@[m].0@.len() == 1 && step(
                            dfa.next,
                            State(i as usize),
                            found@[m].0@[0],
                        ) == Some(State(i as usize)))),
                    forall|c: int|
                        0 <= c < kept@.len() ==> cycle_ok(
                            dfa,
                            State(i as usize),
                            #[trigger] kept@[c],
                        ),
                    forall|c: int|
                        0 <= c < kept@.len() ==> cycle_walk_ok(
                            dfa,
                            State(i as usize),
                            #[trigger] kept@[c],
                        ),
                    forall|m: int|
                        0 <= m < j && (#[trigger] found@[m]).0@.len() >= 1 ==> contains_pair(
                            kept@,
                            found@[m].0@,
                            found@[m].1@,
                        ),
                decreases fcount2 - j,
            {
                if found[j].0.len() > 0 {
                    let p = copy_pair(&found[j]);
                    proof {
                        assert(cycle_ok(dfa, State(i as usize), (p.0, p.1)));
                        assert(cycle_walk_ok(dfa, State(i as usize), (p.0, p.1)));
                    }
                    let ghost kb = kept@;
                    kept.push(p);
                    proof {
                        assert(kept@.last() == p);
                        assert(forall|m: int| 0 <= m < kb.len() ==> #[trigger] kept@[m] == kb[m]);
                        assert forall|m: int|
                            0 <= m < j + 1 && (#[trigger] found@[m]).0@.len() >= 1 implies
                        contains_pair(kept@, found@[m].0@, found@[m].1@) by {
                            if m < j {
                                lemma_contains_pair_extend(
                                    kb,
                                    kept@,
                                    found@[m].0@,
                                    found@[m].1@,
                                );
                            } else {
                                assert(kept@[kept@.len() - 1].0@ == found@[m].0@);
                                assert(kept@[kept@.len() - 1].1@ == found@[m].1@);
                            }
                        }
                    }
                }
                j += 1;
            }
            let ghost kept_final = kept@;
            cycles.push(kept);
            proof {
                assert(cycles@.last()@ == kept_final);
                assert forall|csyms: Seq<Symbol>, cstates: Seq<State>|
                    (simple_extension(
                        dfa,
                        no_visits(dfa.next@.len()),
                        csyms,
                        cstates,
                        State(i as usize),
                        State(i as usize),
                    ) && cstates.len() >= 2) implies contains_pair(
                    cycles@[i as int]@,
                    csyms,
                    cstates,
                ) by {
                    assert(contains_pair(found@, csyms, cstates));
                    let m = choose|m: int|
                        #![trigger found@[m]]
                        0 <= m < found@.len() && found@[m].0@ == csyms && found@[m].1@ == cstates;
                    assert(found@[m].0@.len() >= 1);
                    assert(contains_pair(kept_final, csyms, cstates));
                }
                assert forall|sym: Symbol|
                    step(dfa.next, State(i as usize), sym) == Some(State(i as usize)) implies
                contains_pair(
                    cycles@[i as int]@,
                    seq![sym],
                    seq![State(i as usize), State(i as usize)],
                ) by {
                    assert(contains_pair(
                        found@,
                        seq![sym],
                        seq![State(i as usize), State(i as usize)],
                    ));
                    let m = choose|m: int|
                        #![trigger found@[m]]
                        0 <= m < found@.len() && found@[m].0@ == seq![sym] && found@[m].1@ == seq![
                            State(i as usize),
                            State(i as usize),
                        ];
                    assert(found@[m].0@.len() >= 1);
                    assert(contains_pair(kept_final, seq![sym], seq![
                        State(i as usize),
                        State(i as usize),
                    ]));
                }
            }
            i += 1;
        }
        Generation { dfa, queue, cycles, seen: Vec::new(), emitted_empty: false }
    }

    /// Deliver the next enumerated string, or `None` when the (finite part of
    /// the) enumeration is exhausted.
    ///
    /// Every delivered string is accepted by the automaton: generation never
    /// yields a string that `matches` would reject.
    #[verifier::loop_isolation(false)]
    #[verifier::rlimit(100)]
    pub fn next_delivery(&mut self) -> (r: Option<Vec<Symbol>>)
        requires
            old(self).wf(),
        ensures
            final(self).wf(),
            final(self).dfa == old(self).dfa,
            final(self).cycles == old(self).cycles,
            final(self).emitted_empty,
            r matches Some(w) ==> spec_matches(old(self).dfa, w@),
            // exhaustion: nothing comes back only when the empty-string
            // delivery is spent and the queue is empty
            (r is None) <==> ((old(self).emitted_empty || !old(self).dfa.finals@.contains(
                old(self).dfa.initial,
            )) && old(self).queue@.len() == 0),
            // the first delivery is the empty string when the initial state
            // is final, everything else untouched
            (!old(self).emitted_empty && old(self).dfa.finals@.contains(old(self).dfa.initial))
                ==> (r matches Some(w) && w@ == Seq::<Symbol>::empty() && final(self).queue
                == old(self).queue && final(self).seen == old(self).seen),
            // otherwise the FIFO head is delivered and the rest shifts up...
            ((old(self).emitted_empty || !old(self).dfa.finals@.contains(old(self).dfa.initial))
                && old(self).queue@.len() > 0) ==> (r matches Some(w) && w@
                == old(self).queue@[0].0@ && final(self).queue@.len() >= old(self).queue@.len() - 1
                && (forall|q: int|
                0 <= q < old(self).queue@.len() - 1 ==> #[trigger] final(self).queue@[q] == old(
                    self,
                ).queue@[q + 1])
                // the delivered pair is recorded as seen, on top of everything
                // already seen
                && final(self).seen@.len() > old(self).seen@.len() && (forall|m: int|
                0 <= m < old(self).seen@.len() ==> #[trigger] final(self).seen@[m] == old(
                    self,
                ).seen@[m]) && final(self).seen@[old(self).seen@.len() as int].0@ == old(
                self,
            ).queue@[0].0@ && final(self).seen@[old(self).seen@.len() as int].1@ == old(
                self,
            ).queue@[0].1@
                // nothing already seen is ever enqueued again
                && (forall|q: int|
                old(self).queue@.len() - 1 <= q < final(self).queue@.len() ==> (forall|m: int|
                    0 <= m < old(self).seen@.len() ==> !((#[trigger] final(self).queue@[q]).0@ == (
                    #[trigger] old(self).seen@[m]).0@ && final(self).queue@[q].1@ == old(
                        self,
                    ).seen@[m].1@)))
                // ... and everything newly enqueued is the head with one of
                // its states' cycles spliced in
                && queue_extends_by_splices(
                final(self).queue@,
                old(self).queue@.len() - 1,
                old(self).queue@[0],
                old(self).cycles,
            )),
    {
        if !self.emitted_empty {
            self.emitted_empty = true;
            if contains_state(&self.dfa.finals, self.dfa.initial) {
                let w: Vec<Symbol> = Vec::new();
                proof {
                    assert(spec_matches(self.dfa, w@));
                }
                return Some(w);
            }
        }
        let ghost queue_at_pop = self.queue@;
        let popped = self.queue.pop_front();
        match popped {
            None => None,
            Some(pair) => {
                proof {
                    assert(pair == queue_at_pop[0]);
                    assert(self.queue@ =~= queue_at_pop.drop_first());
                    assert(run_ok(self.dfa, pair));
                }
                let ghost q_shifted = self.queue@;
                let ghost seen0 = self.seen@;
                let vcopy = copy_pair(&pair);
                self.seen.push(vcopy);
                proof {
                    assert(self.seen@.last().0@ == pair.0@ && self.seen@.last().1@ == pair.1@);
                    assert(forall|m: int|
                        0 <= m < seen0.len() ==> #[trigger] self.seen@[m] == seen0[m]);
                }
                let plen = pair.1.len();
                let mut i: usize = 0;
                while i < plen
                    invariant
                        i <= plen,
                        plen == pair.1@.len(),
                        self.dfa == old(self).dfa,
                        self.cycles == old(self).cycles,
                        self.emitted_empty,
                        dfa_wf(self.dfa),
                        run_ok(self.dfa, pair),
                        self.cycles@.len() == self.dfa.next@.len(),
                        self.queue@.len() >= q_shifted.len(),
                        forall|q: int|
                            0 <= q < q_shifted.len() ==> #[trigger] self.queue@[q] == q_shifted[q],
                        queue_extends_by_splices(
                            self.queue@,
                            q_shifted.len() as int,
                            pair,
                            self.cycles,
                        ),
                        self.seen@.len() > seen0.len(),
                        forall|m: int| 0 <= m < seen0.len() ==> #[trigger] self.seen@[m] == seen0[m],
                        self.seen@[seen0.len() as int].0@ == pair.0@,
                        self.seen@[seen0.len() as int].1@ == pair.1@,
                        forall|q: int|
                            q_shifted.len() <= q < self.queue@.len() ==> (forall|m: int|
                                0 <= m < seen0.len() ==> !((#[trigger] self.queue@[q]).0@ == (
                                #[trigger] seen0[m]).0@ && self.queue@[q].1@ == seen0[m].1@)),
                        forall|q: int|
                            0 <= q < self.queue@.len() ==> run_ok(
                                self.dfa,
                                #[trigger] self.queue@[q],
                            ),
                        forall|ii: int, c: int|
                            0 <= ii < self.cycles@.len() && 0 <= c < self.cycles@[ii]@.len()
                                ==> cycle_ok(
                                self.dfa,
                                State(ii as usize),
                                #[trigger] self.cycles@[ii]@[c],
                            ),
                    decreases plen - i,
                {
                    let st = pair.1[i];
                    let ccount = self.cycles[st.0].len();
                    let mut c: usize = 0;
                    while c < ccount
                        invariant
                            c <= ccount,
                            i < plen,
                            plen == pair.1@.len(),
                            st == pair.1@[i as int],
                            st.0 < self.cycles@.len(),
                            ccount == self.cycles@[st.0 as int]@.len(),
                            self.dfa == old(self).dfa,
                            self.cycles == old(self).cycles,
                            self.emitted_empty,
                            dfa_wf(self.dfa),
                            run_ok(self.dfa, pair),
                            self.cycles@.len() == self.dfa.next@.len(),
                            self.queue@.len() >= q_shifted.len(),
                            forall|q: int|
                                0 <= q < q_shifted.len() ==> #[trigger] self.queue@[q]
                                    == q_shifted[q],
                            queue_extends_by_splices(
                                self.queue@,
                                q_shifted.len() as int,
                                pair,
                                self.cycles,
                            ),
                            self.seen@.len() > seen0.len(),
                            forall|m: int|
                                0 <= m < seen0.len() ==> #[trigger] self.seen@[m] == seen0[m],
                            self.seen@[seen0.len() as int].0@ == pair.0@,
                            self.seen@[seen0.len() as int].1@ == pair.1@,
                            forall|q: int|
                                q_shifted.len() <= q < self.queue@.len() ==> (forall|m: int|
                                    0 <= m < seen0.len() ==> !((#[trigger] self.queue@[q]).0@ == (
                                    #[trigger] seen0[m]).0@ && self.queue@[q].1@ == seen0[m].1@)),
                            forall|q: int|
                                0 <= q < self.queue@.len() ==> run_ok(
                                    self.dfa,
                                    #[trigger] self.queue@[q],
                                ),
                            forall|ii: int, cc: int|
                                0 <= ii < self.cycles@.len() && 0 <= cc < self.cycles@[ii]@.len()
                                    ==> cycle_ok(
                                    self.dfa,
                                    State(ii as usize),
                                    #[trigger] self.cycles@[ii]@[cc],
                                ),
                        decreases ccount - c,
                    {
                        let spliced = splice_at(&pair, i, &self.cycles[st.0][c]);
                        proof {
                            let csyms = self.cycles@[st.0 as int]@[c as int].0@;
                            let cstates = self.cycles@[st.0 as int]@[c as int].1@;
                            lemma_splice(self.dfa, pair.0@, pair.1@, i as int, csyms, cstates);
                            assert(run_ok(self.dfa, spliced)) by {
                                let ns = spliced.1@;
                                assert(ns.first() == self.dfa.initial) by {
                                    if i == 0 {
                                        assert(ns[0] == cstates[0]);
                                    } else {
                                        assert(ns[0] == pair.1@[0]);
                                    }
                                }
                                assert(ns.last() == pair.1@.last()) by {
                                    if i + 1 < plen {
                                        assert(ns.last() == pair.1@.subrange(
                                            i as int + 1,
                                            plen as int,
                                        ).last());
                                    } else {
                                        assert(ns.last() == cstates.last());
                                        assert(pair.1@[i as int] == pair.1@.last());
                                    }
                                }
                            }
                        }
                        if !pair_in(&self.seen, &spliced) {
                            let ghost seen_gate = self.seen@;
                            proof {
                                assert(forall|m: int|
                                    0 <= m < seen0.len() ==> #[trigger] seen_gate[m] == seen0[m]);
                            }
                            let v2 = copy_pair(&spliced);
                            self.seen.push(v2);
                            let ghost qb = self.queue@;
                            self.queue.push_back(spliced);
                            proof {
                                assert forall|m: int|
                                    0 <= m < seen0.len() implies !((spliced.0@ == (
                                #[trigger] seen0[m]).0@ && spliced.1@ == seen0[m].1@)) by {
                                    assert(seen_gate[m] == seen0[m]);
                                }
                                assert(self.queue@.last() == spliced);
                                assert(forall|q: int|
                                    0 <= q < qb.len() ==> #[trigger] self.queue@[q] == qb[q]);
                                assert(queue_extends_by_splices(
                                    qb,
                                    q_shifted.len() as int,
                                    pair,
                                    self.cycles,
                                ));
                                assert(is_splice(
                                    self.queue@[self.queue@.len() - 1],
                                    pair,
                                    self.cycles@[pair.1@[i as int].0 as int]@[c as int],
                                    i as int,
                                ));
                                lemma_splice_extend(
                                    qb,
                                    q_shifted.len() as int,
                                    pair,
                                    self.cycles,
                                    self.queue@,
                                    i as int,
                                    c as int,
                                );
                            }
                        }
                        c += 1;
                    }
                    i += 1;
                }
                proof {
                    lemma_run_matches(self.dfa, pair.0@, pair.1@);
                }
                let (delivered, _states) = pair;
                Some(delivered)
            },
        }
    }
}

} // verus!
