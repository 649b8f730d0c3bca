//! Determinization: per-state epsilon-closure, then the classic powerset
//! construction over epsilon-closed symbol-reachable sets.

use vstd::prelude::*;

use std::collections::VecDeque;

use vstd::arithmetic::power2::{lemma_pow2_pos, lemma_pow2_strictly_increases, lemma_pow2_unfold, pow2};
use vstd::set_lib::{lemma_int_range, lemma_len_subset, set_int_range};

use crate::dfa::{contains_state, copy_states, lemma_index_lookup, lemma_lookup_some_exists, DFA};
use crate::nfa::{self, NFA};
use crate::visits::{count_false, falses, lemma_count_false_update};
use crate::{State, Symbol, EPSILON};

verus! {

/// For every NFA state, the set of states reachable over zero or more epsilon
/// edges, computed by a visited-set-guarded stack traversal.
///
/// The result is pinned down exactly: each entry contains its own state, only
/// epsilon-reachable states, and is closed under epsilon edges.
#[verifier::loop_isolation(false)]
pub fn e_closure(nfa: &nfa::NextElems) -> (r: Vec<Vec<State>>)
    requires
        nfa::next_wf(*nfa),
    ensures
        r@.len() == nfa@.len(),
        forall|i: int| 0 <= i < r@.len() ==> sorted_unique((#[trigger] r@[i])@),
        forall|i: int| 0 <= i < r@.len() ==> (#[trigger] r@[i])@.contains(State(i as usize)),
        forall|i: int, s: State|
            #![trigger r@[i]@.contains(s)]
            0 <= i < r@.len() && r@[i]@.contains(s) ==> s.0 < nfa@.len()
                && nfa::eps_reach(*nfa, State(i as usize), s),
        forall|i: int, s: State, t: State|
            #![trigger r@[i]@.contains(s), nfa::nfa_edge(*nfa, s, Symbol(EPSILON), t)]
            0 <= i < r@.len() && r@[i]@.contains(s) && nfa::nfa_edge(*nfa, s, Symbol(EPSILON), t)
                ==> r@[i]@.contains(t),
{
    let n = nfa.len();
    let mut ret: Vec<Vec<State>> = Vec::new();
    let mut i: usize = 0;
    while i < n
        invariant
            i <= n,
            ret@.len() == i,
            forall|ii: int| 0 <= ii < i ==> sorted_unique((#[trigger] ret@[ii])@),
            forall|ii: int| 0 <= ii < i ==> (#[trigger] ret@[ii])@.contains(State(ii as usize)),
            forall|ii: int, s: State|
                #![trigger ret@[ii]@.contains(s)]
                0 <= ii < i && ret@[ii]@.contains(s) ==> s.0 < n && nfa::eps_reach(
                    *nfa,
                    State(ii as usize),
                    s,
                ),
            forall|ii: int, s: State, t: State|
                #![trigger ret@[ii]@.contains(s), nfa::nfa_edge(*nfa, s, Symbol(EPSILON), t)]
                0 <= ii < i && ret@[ii]@.contains(s) && nfa::nfa_edge(
                    *nfa,
                    s,
                    Symbol(EPSILON),
                    t,
                ) ==> ret@[ii]@.contains(t),
        decreases n - i,
    {
        let mut visited = falses(n);
        let mut closure: Vec<State> = Vec::new();
        let mut stack: Vec<State> = Vec::new();
        stack.push(State(i));
        proof {
            nfa::lemma_eps_reach_refl(*nfa, State(i));
            assert(stack@.contains(State(i))) by {
                assert(stack@[0] == State(i));
            }
        }
        while stack.len() > 0
            invariant
                visited@.len() == n,
                sorted_unique(closure@),
                forall|m: int| 0 <= m < stack@.len() ==> (#[trigger] stack@[m]).0 < n,
                forall|m: int| 0 <= m < closure@.len() ==> (#[trigger] closure@[m]).0 < n,
                forall|j: int|
                    0 <= j < n ==> #[trigger] visited@[j] == closure@.contains(State(j as usize)),
                forall|m: int|
                    0 <= m < stack@.len() ==> nfa::eps_reach(
                        *nfa,
                        State(i as usize),
                        #[trigger] stack@[m],
                    ),
                forall|m: int|
                    0 <= m < closure@.len() ==> nfa::eps_reach(
                        *nfa,
                        State(i as usize),
                        #[trigger] closure@[m],
                    ),
                forall|s: State, t: State|
                    #![trigger closure@.contains(s), nfa::nfa_edge(*nfa, s, Symbol(EPSILON), t)]
                    closure@.contains(s) && nfa::nfa_edge(*nfa, s, Symbol(EPSILON), t) ==> (
                    visited@[t.0 as int] || stack@.contains(t)),
                visited@[i as int] || stack@.contains(State(i as usize)),
            decreases count_false(visited@), stack@.len(),
        {
            let ghost stack_before = stack@;
            let x = stack.pop().unwrap();
            assert(stack_before[stack_before.len() - 1] == x);
            proof {
                assert(stack@ =~= stack_before.drop_last());
                assert forall|t: State| stack_before.contains(t) && t != x implies stack@.contains(
                    t,
                ) by {
                    let m = choose|m: int| 0 <= m < stack_before.len() && stack_before[m] == t;
                    assert(m < stack_before.len() - 1);
                    assert(stack@[m] == t);
                }
            }
            let ghost stack_after_pop = stack@;
            if !visited[x.0] {
                let ghost closure_before = closure@;
                insert_sorted(&mut closure, x);
                proof {
                    assert(closure@.contains(x));
                    assert(forall|t: State|
                        closure@.contains(t) <==> (closure_before.contains(t) || t == x));
                    assert forall|m: int|
                        0 <= m < closure@.len() implies (#[trigger] closure@[m]).0 < n
                        && nfa::eps_reach(*nfa, State(i as usize), closure@[m]) by {
                        assert(closure@.contains(closure@[m]));
                        if closure@[m] != x {
                            assert(closure_before.contains(closure@[m]));
                            let mm = choose|mm: int|
                                0 <= mm < closure_before.len() && closure_before[mm]
                                    == closure@[m];
                        }
                    }
                }
                proof {
                    assert forall|s0: State, t: State|
                        closure@.contains(s0) && s0 != x && t != x && nfa::nfa_edge(
                            *nfa,
                            s0,
                            Symbol(EPSILON),
                            t,
                        ) implies (visited@[t.0 as int] || stack@.contains(t)) by {
                        assert(closure_before.contains(s0));
                        assert(visited@[t.0 as int] || stack_before.contains(t));
                    }
                }
                let row_len = nfa[x.0].len();
                let mut k: usize = 0;
                while k < row_len
                    invariant
                        k <= row_len,
                        row_len == nfa@[x.0 as int]@.len(),
                        forall|m: int| 0 <= m < stack@.len() ==> (#[trigger] stack@[m]).0 < n,
                        forall|m: int|
                            0 <= m < stack@.len() ==> nfa::eps_reach(
                                *nfa,
                                State(i as usize),
                                #[trigger] stack@[m],
                            ),
                        forall|s0: State, t: State|
                            #![trigger nfa::nfa_edge(*nfa, s0, Symbol(EPSILON), t)]
                            closure@.contains(s0) && s0 != x && t != x && nfa::nfa_edge(
                                *nfa,
                                s0,
                                Symbol(EPSILON),
                                t,
                            ) ==> (visited@[t.0 as int] || stack@.contains(t)),
                        visited@[i as int] || stack@.contains(State(i as usize)) || x == State(
                            i as usize,
                        ),
                        forall|kk: int, jj: int|
                            0 <= kk < k && (#[trigger] nfa@[x.0 as int]@[kk]).0 == Symbol(EPSILON)
                                && 0 <= jj < nfa@[x.0 as int]@[kk].1@.len() ==> stack@.contains(
                                #[trigger] nfa@[x.0 as int]@[kk].1@[jj],
                            ),
                    decreases row_len - k,
                {
                    if nfa[x.0][k].0.0 == EPSILON {
                        let tgt_len = nfa[x.0][k].1.len();
                        let mut j: usize = 0;
                        while j < tgt_len
                            invariant
                                j <= tgt_len,
                                k < row_len,
                                tgt_len == nfa@[x.0 as int]@[k as int].1@.len(),
                                nfa@[x.0 as int]@[k as int].0 == Symbol(EPSILON),
                                forall|m: int|
                                    0 <= m < stack@.len() ==> (#[trigger] stack@[m]).0 < n,
                                forall|m: int|
                                    0 <= m < stack@.len() ==> nfa::eps_reach(
                                        *nfa,
                                        State(i as usize),
                                        #[trigger] stack@[m],
                                    ),
                                forall|s0: State, t: State|
                                    #![trigger nfa::nfa_edge(*nfa, s0, Symbol(EPSILON), t)]
                                    closure@.contains(s0) && s0 != x && t != x && nfa::nfa_edge(
                                        *nfa,
                                        s0,
                                        Symbol(EPSILON),
                                        t,
                                    ) ==> (visited@[t.0 as int] || stack@.contains(t)),
                                visited@[i as int] || stack@.contains(State(i as usize))
                                    || x == State(i as usize),
                                forall|kk: int, jj: int|
                                    0 <= kk < k && (#[trigger] nfa@[x.0 as int]@[kk]).0 == Symbol(
                                        EPSILON,
                                    ) && 0 <= jj < nfa@[x.0 as int]@[kk].1@.len()
                                        ==> stack@.contains(#[trigger] nfa@[x.0 as int]@[kk].1@[jj]),
                                forall|jj: int|
                                    0 <= jj < j ==> stack@.contains(
                                        #[trigger] nfa@[x.0 as int]@[k as int].1@[jj],
                                    ),
                            decreases tgt_len - j,
                        {
                            let t = nfa[x.0][k].1[j];
                            let ghost stack_old = stack@;
                            stack.push(t);
                            proof {
                                assert(stack@ =~= stack_old.push(t));
                                assert(stack@.last() == t);
                                assert(nfa::nfa_edge(*nfa, x, Symbol(EPSILON), t)) by {
                                    assert((#[trigger] nfa@[x.0 as int]@[k as int]).0 == Symbol(
                                        EPSILON,
                                    ) && nfa@[x.0 as int]@[k as int].1@.contains(t)) by {
                                        assert(nfa@[x.0 as int]@[k as int].1@[j as int] == t);
                                    }
                                }
                                nfa::lemma_eps_reach_step(*nfa, State(i as usize), x, t);
                                assert(forall|m: int|
                                    0 <= m < stack_old.len() ==> stack@[m] == stack_old[m]);
                            }
                            j += 1;
                        }
                    }
                    k += 1;
                }
                proof {
                    assert forall|t: State|
                        nfa::nfa_edge(*nfa, x, Symbol(EPSILON), t) implies stack@.contains(t) by {
                        let kk = choose|kk: int|
                            0 <= kk < nfa@[x.0 as int]@.len() && (#[trigger] nfa@[x.0 as int]@[kk]).0
                                == Symbol(EPSILON) && nfa@[x.0 as int]@[kk].1@.contains(t);
                        let jj = choose|jj: int|
                            0 <= jj < nfa@[x.0 as int]@[kk].1@.len() && nfa@[x.0 as int]@[kk].1@[jj]
                                == t;
                    }
                }
            }
            let ghost visited_before = visited@;
            let was_visited = visited[x.0];
            visited[x.0] = true;
            proof {
                if !was_visited {
                    lemma_count_false_update(visited_before, x.0 as int);
                } else {
                    assert(visited@ =~= visited_before);
                }
                assert(visited@[x.0 as int]);
                assert(forall|j: int| 0 <= j < n && visited_before[j] ==> visited@[j]);
            }
        }
        ret.push(closure);
        i += 1;
    }
    ret
}


/// Strictly ascending state ids: the canonical form of a state set.
pub open spec fn sorted_unique(s: Seq<State>) -> bool {
    forall|k1: int, k2: int| 0 <= k1 < k2 < s.len() ==> (#[trigger] s[k1]).0 < (#[trigger] s[k2]).0
}

/// The bitmask value of a state set: each member contributes its own bit, so
/// canonical sets below a bound are counted by the powers of two.
spec fn mask(s: Seq<State>) -> nat
    decreases s.len(),
{
    if s.len() == 0 {
        0
    } else {
        mask(s.drop_last()) + pow2(s.last().0 as nat)
    }
}

proof fn lemma_mask_bound(s: Seq<State>, b: nat)
    requires
        sorted_unique(s),
        forall|j: int| 0 <= j < s.len() ==> (#[trigger] s[j]).0 < b,
    ensures
        mask(s) < pow2(b),
    decreases s.len(),
{
    lemma_pow2_pos(b);
    if s.len() > 0 {
        let last: nat = s.last().0 as nat;
        assert(forall|j: int| 0 <= j < s.len() - 1 ==> (#[trigger] s[j]).0 < last);
        assert(sorted_unique(s.drop_last()));
        lemma_mask_bound(s.drop_last(), last);
        assert(pow2(last + 1) == 2 * pow2(last)) by {
            lemma_pow2_unfold(last + 1);
        }
        if last + 1 < b {
            lemma_pow2_strictly_increases(last + 1, b);
        }
    }
}

proof fn lemma_mask_inj(s1: Seq<State>, s2: Seq<State>)
    requires
        sorted_unique(s1),
        sorted_unique(s2),
        mask(s1) == mask(s2),
    ensures
        s1 == s2,
    decreases s1.len(),
{
    if s1.len() == 0 && s2.len() == 0 {
        assert(s1 =~= s2);
    } else if s1.len() == 0 {
        lemma_pow2_pos(s2.last().0 as nat);
        assert(false);
    } else if s2.len() == 0 {
        lemma_pow2_pos(s1.last().0 as nat);
        assert(false);
    } else {
        let l1: nat = s1.last().0 as nat;
        let l2: nat = s2.last().0 as nat;
        if l1 < l2 {
            assert(forall|j: int| 0 <= j < s1.len() ==> (#[trigger] s1[j]).0 < l2);
            lemma_mask_bound(s1, l2);
            assert(mask(s2) >= pow2(l2));
            assert(false);
        } else if l2 < l1 {
            assert(forall|j: int| 0 <= j < s2.len() ==> (#[trigger] s2[j]).0 < l1);
            lemma_mask_bound(s2, l1);
            assert(mask(s1) >= pow2(l1));
            assert(false);
        } else {
            assert(sorted_unique(s1.drop_last()) && sorted_unique(s2.drop_last()));
            lemma_mask_inj(s1.drop_last(), s2.drop_last());
            assert(s1 =~= s2) by {
                assert(s1.last() == s2.last());
                assert(forall|j: int|
                    0 <= j < s1.len() - 1 ==> s1[j] == s1.drop_last()[j] && s2[j] == s2.drop_last()[j]);
            }
        }
    }
}

/// Pairwise distinct canonical state sets over ids below `n` number at most
/// `pow2(n)`: the subset-construction worklist terminates.
proof fn lemma_distinct_subsets_bounded(ts: Seq<Seq<State>>, n: nat)
    requires
        forall|m: int|
            0 <= m < ts.len() ==> sorted_unique(#[trigger] ts[m]) && (forall|j: int|
                0 <= j < ts[m].len() ==> (#[trigger] ts[m][j]).0 < n),
        forall|m1: int, m2: int| 0 <= m1 < m2 < ts.len() ==> ts[m1] != ts[m2],
    ensures
        ts.len() <= pow2(n),
{
    let masks: Seq<int> = Seq::new(ts.len(), |m: int| mask(ts[m]) as int);
    assert forall|m1: int, m2: int|
        0 <= m1 < masks.len() && 0 <= m2 < masks.len() && m1 != m2 implies masks[m1]
        != masks[m2] by {
        if masks[m1] == masks[m2] {
            lemma_mask_inj(ts[m1], ts[m2]);
        }
    }
    assert(masks.no_duplicates());
    masks.unique_seq_to_set();
    let range = set_int_range(0, pow2(n) as int);
    lemma_int_range(0, pow2(n) as int);
    assert forall|v: int| masks.to_set().contains(v) implies range.contains(v) by {
        let m = choose|m: int| 0 <= m < masks.len() && masks[m] == v;
        lemma_mask_bound(ts[m], n);
    }
    lemma_len_subset(masks.to_set(), range);
}

/// Insert a state into a canonical (sorted, deduplicated) state set.
fn insert_sorted(v: &mut Vec<State>, s: State)
    requires
        sorted_unique(old(v)@),
    ensures
        sorted_unique(final(v)@),
        forall|t: State| final(v)@.contains(t) <==> (old(v)@.contains(t) || t == s),
        old(v)@.len() <= final(v)@.len() <= old(v)@.len() + 1,
{
    let n = v.len();
    let mut k: usize = 0;
    while k < n && v[k].0 < s.0
        invariant
            k <= n,
            n == v@.len(),
            *v == *old(v),
            forall|m: int| 0 <= m < k ==> (#[trigger] v@[m]).0 < s.0,
        decreases n - k,
    {
        k += 1;
    }
    if k < n && v[k].0 == s.0 {
        proof {
            assert(v@[k as int] == s);
            assert(v@.contains(s));
        }
        return ;
    }
    let ghost before = v@;
    v.insert(k, s);
    proof {
        assert(v@ =~= before.insert(k as int, s));
        assert(v@[k as int] == s);
        assert(forall|m: int| 0 <= m < k ==> v@[m] == before[m]);
        assert(forall|m: int| k < m < v@.len() ==> v@[m] == before[m - 1]);
        assert(forall|m: int| (k as int) < m < before.len() + 1 ==> (#[trigger] before[m - 1]).0 > s.0);
        assert forall|t: State| v@.contains(t) implies (before.contains(t) || t == s) by {
            let m = choose|m: int| 0 <= m < v@.len() && v@[m] == t;
            if m < k {
                assert(before[m] == t);
            } else if m > k {
                assert(before[m - 1] == t);
            }
        }
        assert forall|t: State| before.contains(t) implies v@.contains(t) by {
            let m = choose|m: int| 0 <= m < before.len() && before[m] == t;
            if m < k {
                assert(v@[m] == t);
            } else {
                assert(v@[m + 1] == t);
            }
        }
        assert(v@.contains(s));
    }
}

/// Whether two state vectors hold the same states in the same order.
fn states_eq(a: &Vec<State>, b: &Vec<State>) -> (r: bool)
    ensures
        r == (a@ == b@),
{
    let n = a.len();
    if n != b.len() {
        return false;
    }
    let mut k: usize = 0;
    while k < n
        invariant
            k <= n,
            n == a@.len(),
            n == b@.len(),
            forall|m: int| 0 <= m < k ==> a@[m] == b@[m],
        decreases n - k,
    {
        if a[k].0 != b[k].0 {
            return false;
        }
        k += 1;
    }
    proof {
        assert(a@ =~= b@);
    }
    true
}

/// The position of `sym` in the gathered symbol list, if present.
fn find_symbol(v: &Vec<Symbol>, sym: Symbol) -> (r: Option<usize>)
    ensures
        match r {
            Some(p) => p < v@.len() && v@[p as int] == sym,
            None => forall|m: int| 0 <= m < v@.len() ==> v@[m] != sym,
        },
{
    let n = v.len();
    let mut k: usize = 0;
    while k < n
        invariant
            k <= n,
            n == v@.len(),
            forall|m: int| 0 <= m < k ==> v@[m] != sym,
        decreases n - k,
    {
        if v[k].0 == sym.0 {
            assert(v@[k as int] == sym);
            return Some(k);
        }
        k += 1;
    }
    None
}

/// The id already assigned to this exact subset, if any.
fn translate_lookup(translate: &Vec<(Vec<State>, State)>, subset: &Vec<State>) -> (r: Option<
    State,
>)
    ensures
        match r {
            Some(id) => exists|m: int|
                0 <= m < translate@.len() && (#[trigger] translate@[m]).0@ == subset@
                    && translate@[m].1 == id,
            None => forall|m: int| 0 <= m < translate@.len() ==> (#[trigger] translate@[m]).0@ != subset@,
        },
{
    let n = translate.len();
    let mut k: usize = 0;
    while k < n
        invariant
            k <= n,
            n == translate@.len(),
            forall|m: int| 0 <= m < k ==> (#[trigger] translate@[m]).0@ != subset@,
        decreases n - k,
    {
        if states_eq(&translate[k].0, subset) {
            return Some(translate[k].1);
        }
        k += 1;
    }
    None
}


/// The set of NFA states a canonical subset vector stands for.
pub open spec fn members(v: Vec<State>) -> Set<State> {
    v@.to_set()
}

/// DFA state `id` steps faithfully on `sym`: its row either leads to the
/// state standing for exactly the epsilon-closed move of its own set, or has
/// no entry because the move is empty.
spec fn sem_step_ok(
    a: NFA,
    ret: crate::dfa::NextElems,
    translate: Vec<(Vec<State>, State)>,
    id: int,
    sym: Symbol,
) -> bool {
    match crate::dfa::lookup(ret@[id]@, sym) {
        Some(t) => t.0 < translate@.len() && members(translate@[t.0 as int].0)
            == nfa::eps_closure_set(a.next, nfa::move_set(a.next, members(translate@[id].0), sym)),
        None => forall|t: State|
            !nfa::move_set(a.next, members(translate@[id].0), sym).contains(t),
    }
}

/// DFA state `id` is faithful to its set: final exactly when the set holds a
/// final NFA state, and stepping faithfully on every real symbol.
spec fn sem_row_ok(
    a: NFA,
    ret: crate::dfa::NextElems,
    dfinals: Vec<State>,
    translate: Vec<(Vec<State>, State)>,
    id: int,
) -> bool {
    &&& (dfinals@.contains(State(id as usize)) <==> nfa::has_final(
        a.finals,
        members(translate@[id].0),
    ))
    &&& forall|sym: Symbol| sym.0 != EPSILON ==> #[trigger] sem_step_ok(a, ret, translate, id, sym)
}

/// Deterministic execution from a faithful DFA state decides exactly the
/// set-semantics acceptance of the NFA configuration it stands for.
proof fn lemma_dfa_nfa_sim(
    a: NFA,
    ret: crate::dfa::NextElems,
    dfinals: Vec<State>,
    translate: Vec<(Vec<State>, State)>,
    id: int,
    w: Seq<Symbol>,
)
    requires
        0 <= id < ret@.len(),
        ret@.len() == translate@.len(),
        ret@.len() <= usize::MAX,
        forall|i: int| 0 <= i < ret@.len() ==> #[trigger] sem_row_ok(a, ret, dfinals, translate, i),
        forall|k: int| 0 <= k < w.len() ==> (#[trigger] w[k]).0 != EPSILON,
    ensures
        crate::dfa::accepts_from(ret, dfinals, State(id as usize), w) == nfa::nfa_accepts_from(
            a.next,
            a.finals,
            members(translate@[id].0),
            w,
        ),
    decreases w.len(),
{
    assert(sem_row_ok(a, ret, dfinals, translate, id));
    if w.len() > 0 {
        let sym = w[0];
        assert(sym.0 != EPSILON);
        assert(sem_step_ok(a, ret, translate, id, sym));
        assert(State(id as usize).0 as int == id);
        assert forall|k: int|
            0 <= k < w.drop_first().len() implies (#[trigger] w.drop_first()[k]).0 != EPSILON by {
            assert(w.drop_first()[k] == w[k + 1]);
        }
        let mv = nfa::move_set(a.next, members(translate@[id].0), sym);
        let cl = nfa::eps_closure_set(a.next, mv);
        match crate::dfa::lookup(ret@[id]@, sym) {
            Some(t) => {
                assert(crate::dfa::step(ret, State(id as usize), sym) == Some(t));
                lemma_dfa_nfa_sim(a, ret, dfinals, translate, t.0 as int, w.drop_first());
                assert(State(t.0 as int as usize) == t);
            },
            None => {
                assert(crate::dfa::step(ret, State(id as usize), sym) is None);
                assert forall|t: State| !cl.contains(t) by {
                    if cl.contains(t) {
                        let x = choose|x: State|
                            mv.contains(x) && nfa::eps_reach(a.next, x, t);
                    }
                }
                nfa::lemma_accepts_empty_set(a.next, a.finals, cl, w.drop_first());
            },
        }
    }
}

/// A witnessing assignment of canonical NFA-state sets to the DFA's ids:
/// distinct canonical sets, the epsilon-closed initial set at id 0, finality
/// exactly on sets holding an NFA final state, and every transition leading
/// to the id of the epsilon-closed move of its source's set.
pub open spec fn subset_assignment_ok(a: NFA, r: DFA, assoc: Seq<Vec<State>>) -> bool {
    &&& assoc.len() == r.next@.len()
    &&& assoc.len() >= 1
    &&& (forall|id: int| 0 <= id < assoc.len() ==> sorted_unique((#[trigger] assoc[id])@))
    &&& (forall|id: int, j: int|
        0 <= id < assoc.len() && 0 <= j < (#[trigger] assoc[id])@.len() ==> (
        #[trigger] assoc[id]@[j]).0 < a.next@.len())
    &&& (forall|i1: int, i2: int|
        0 <= i1 < i2 < assoc.len() ==> (#[trigger] assoc[i1])@ != (#[trigger] assoc[i2])@)
    &&& members(assoc[0]) == nfa::eps_closure_set(a.next, a.initials@.to_set())
    &&& (forall|id: int|
        0 <= id < assoc.len() ==> (r.finals@.contains(State(id as usize))
            <==> nfa::has_final(a.finals, members(#[trigger] assoc[id]))))
    &&& (forall|id: int, sym: Symbol|
        #![trigger crate::dfa::lookup(r.next@[id]@, sym)]
        0 <= id < assoc.len() && sym.0 != EPSILON ==> match crate::dfa::lookup(
            r.next@[id]@,
            sym,
        ) {
            Some(t) => t.0 < assoc.len() && members(assoc[t.0 as int]) == nfa::eps_closure_set(
                a.next,
                nfa::move_set(a.next, members(assoc[id]), sym),
            ),
            None => forall|t: State|
                !nfa::move_set(a.next, members(assoc[id]), sym).contains(t),
        })
}

/// The ids were assigned in FIFO discovery order: each id above 0 has a
/// first reference in the transition table, these first references appear in
/// strictly increasing scan order (row-major over rows, then entries), and
/// every id's first reference comes from a strictly smaller id.
pub open spec fn discovery_order_ok(r: DFA) -> bool {
    exists|disc: Seq<(int, int)>| #[trigger] discovery_witness_ok(r, disc)
}

/// `disc[j]` is the (row, entry) position of the first reference to id
/// `j + 1`, and these positions are scan-ordered.
pub open spec fn discovery_witness_ok(r: DFA, disc: Seq<(int, int)>) -> bool {
    &&& disc.len() == r.next@.len() - 1
    &&& (forall|j: int|
        0 <= j < disc.len() ==> 0 <= (#[trigger] disc[j]).0 < j + 1 && disc[j].0 < r.next@.len()
            && 0 <= disc[j].1 < r.next@[disc[j].0]@.len() && r.next@[disc[j].0]@[disc[j].1].1.0
            == j + 1)
    &&& (forall|j1: int, j2: int|
        0 <= j1 < j2 < disc.len() ==> ((#[trigger] disc[j1]).0 < (#[trigger] disc[j2]).0 || (
        disc[j1].0 == disc[j2].0 && disc[j1].1 < disc[j2].1)))
    &&& (forall|j: int, p: int, e: int|
        #![trigger disc[j], r.next@[p]@[e]]
        0 <= j < disc.len() && 0 <= p < r.next@.len() && 0 <= e < r.next@[p]@.len() && (p < disc[j].0
            || (p == disc[j].0 && e < disc[j].1)) ==> r.next@[p]@[e].1.0 != j + 1)
}

/// Subset construction: determinize an NFA into a DFA.
///
/// A DFA state stands for a canonical set of NFA states; ids are assigned in
/// discovery order, with id 0 for the epsilon-closed set of initial states. A
/// popped set is final iff it intersects the NFA's final states; per symbol,
/// the epsilon-closed union of the members' targets forms the next set.
///
/// The result is proved language-faithful: over the real alphabet, the DFA
/// matches exactly the strings the NFA accepts under its configuration-set
/// semantics.
#[verifier::loop_isolation(false)]
#[verifier::rlimit(100)]
pub fn nfa_to_dfa(nfa: NFA) -> (r: DFA)
    requires
        nfa::nfa_wf(nfa),
    ensures
        crate::dfa::dfa_wf(r),
        r.initial == State(0),
        r.next@.len() >= 1,
        forall|w: Seq<Symbol>|
            #![trigger crate::dfa::spec_matches(r, w)]
            #![trigger nfa::nfa_accepts(nfa, w)]
            (forall|k: int| 0 <= k < w.len() ==> (#[trigger] w[k]).0 != EPSILON) ==> (
            crate::dfa::spec_matches(r, w) <==> nfa::nfa_accepts(nfa, w)),
        exists|assoc: Seq<Vec<State>>| #[trigger] subset_assignment_ok(nfa, r, assoc),
        discovery_order_ok(r),
{
    let n = nfa.next.len();
    let mut queue: VecDeque<Vec<State>> = VecDeque::new();
    let mut translate: Vec<(Vec<State>, State)> = Vec::new();
    let mut ret: crate::dfa::NextElems = Vec::new();
    let mut finals: Vec<State> = Vec::new();
    let ghost mut disc: Seq<(int, int)> = Seq::empty();
    let ecl = e_closure(&nfa.next);

    let mut initial: Vec<State> = Vec::new();
    let ini_count = nfa.initials.len();
    let mut ii: usize = 0;
    while ii < ini_count
        invariant
            ii <= ini_count,
            sorted_unique(initial@),
            forall|t: State| #[trigger] initial@.contains(t) ==> t.0 < n,
            forall|t: State|
                #![trigger initial@.contains(t)]
                initial@.contains(t) <==> (exists|mm: int|
                    #![trigger ecl@[nfa.initials@[mm].0 as int]@.contains(t)]
                    0 <= mm < ii && ecl@[nfa.initials@[mm].0 as int]@.contains(t)),
        decreases ini_count - ii,
    {
        let ini = nfa.initials[ii];
        let cl_len = ecl[ini.0].len();
        let ghost base = initial@;
        let mut u: usize = 0;
        while u < cl_len
            invariant
                u <= cl_len,
                ini.0 < n,
                ini == nfa.initials@[ii as int],
                cl_len == ecl@[ini.0 as int]@.len(),
                sorted_unique(initial@),
                forall|t: State| #[trigger] initial@.contains(t) ==> t.0 < n,
                forall|t: State|
                    #![trigger initial@.contains(t)]
                    initial@.contains(t) <==> (base.contains(t) || (exists|uu: int|
                        0 <= uu < u && ecl@[ini.0 as int]@[uu] == t)),
            decreases cl_len - u,
        {
            let st = ecl[ini.0][u];
            proof {
                assert(ecl@[ini.0 as int]@.contains(st));
            }
            insert_sorted(&mut initial, st);
            proof {
                assert(ecl@[ini.0 as int]@[u as int] == st);
            }
            u += 1;
        }
        proof {
            assert forall|t: State|
                initial@.contains(t) implies (exists|mm: int|
                #![trigger ecl@[nfa.initials@[mm].0 as int]@.contains(t)]
                0 <= mm < ii + 1 && ecl@[nfa.initials@[mm].0 as int]@.contains(t)) by {
                if base.contains(t) {
                } else {
                    let uu = choose|uu: int| 0 <= uu < cl_len && ecl@[ini.0 as int]@[uu] == t;
                    assert(ecl@[nfa.initials@[ii as int].0 as int]@.contains(t));
                }
            }
            assert forall|t: State|
                (exists|mm: int|
                    #![trigger ecl@[nfa.initials@[mm].0 as int]@.contains(t)]
                    0 <= mm < ii + 1 && ecl@[nfa.initials@[mm].0 as int]@.contains(t)) implies
            initial@.contains(t) by {
                let mm = choose|mm: int|
                    #![trigger ecl@[nfa.initials@[mm].0 as int]@.contains(t)]
                    0 <= mm < ii + 1 && ecl@[nfa.initials@[mm].0 as int]@.contains(t);
                if mm < ii {
                    assert(base.contains(t));
                } else {
                    assert(ecl@[ini.0 as int]@.contains(t));
                    let uu = choose|uu: int|
                        0 <= uu < ecl@[ini.0 as int]@.len() && ecl@[ini.0 as int]@[uu] == t;
                }
            }
        }
        ii += 1;
    }
    proof {
        assert(forall|j: int|
            0 <= j < initial@.len() ==> initial@.contains(#[trigger] initial@[j]));
        assert(forall|j: int| 0 <= j < initial@.len() ==> (#[trigger] initial@[j]).0 < n);
        assert forall|t: State|
            initial@.contains(t) implies nfa::eps_closure_set(
            nfa.next,
            nfa.initials@.to_set(),
        ).contains(t) by {
            let mm = choose|mm: int|
                #![trigger ecl@[nfa.initials@[mm].0 as int]@.contains(t)]
                0 <= mm < ini_count && ecl@[nfa.initials@[mm].0 as int]@.contains(t);
            let x = nfa.initials@[mm];
            assert(nfa.initials@.contains(x));
            assert(nfa.initials@.to_set().contains(x));
            assert(State(x.0 as int as usize) == x);
            assert(nfa::eps_reach(nfa.next, x, t));
        }
        assert forall|t: State|
            nfa::eps_closure_set(nfa.next, nfa.initials@.to_set()).contains(t) implies
        initial@.contains(t) by {
            let x = choose|x: State|
                nfa.initials@.to_set().contains(x) && nfa::eps_reach(nfa.next, x, t);
            assert(nfa.initials@.contains(x));
            let mm = choose|mm: int| 0 <= mm < nfa.initials@.len() && nfa.initials@[mm] == x;
            assert(x.0 < n);
            assert(ecl@[x.0 as int]@.contains(State(x.0 as usize)));
            assert(State(x.0 as usize) == x);
            nfa::lemma_closed_contains_reach_at(nfa.next, &ecl, x.0 as int, x, t);
            assert(ecl@[nfa.initials@[mm].0 as int]@.contains(t));
        }
    }
    let ghost init_view: Seq<State> = initial@;
    let init_copy = copy_states(&initial);
    queue.push_back(init_copy);
    translate.push((initial, State(0)));
    proof {
        lemma_pow2_pos(n as nat);
        assert(translate@[0].1 == State(0));
        assert(queue@[0]@ == translate@[0].0@);
        assert(translate@[0].0@ == init_view);
    }

    while queue.len() > 0
        invariant
            translate@.len() == ret@.len() + queue@.len(),
            1 <= translate@.len() <= pow2(n as nat),
            translate@[0].0@ == init_view,
            forall|m: int|
                0 <= m < translate@.len() ==> (#[trigger] translate@[m]).1 == State(m as usize),
            forall|m: int|
                0 <= m < translate@.len() ==> sorted_unique((#[trigger] translate@[m]).0@) && (
                forall|j: int|
                    0 <= j < translate@[m].0@.len() ==> (#[trigger] translate@[m].0@[j]).0 < n),
            forall|m1: int, m2: int|
                0 <= m1 < m2 < translate@.len() ==> (#[trigger] translate@[m1]).0@ != (
                #[trigger] translate@[m2]).0@,
            forall|q: int|
                0 <= q < queue@.len() ==> (#[trigger] queue@[q])@ == translate@[ret@.len() + q].0@,
            forall|i: int|
                0 <= i < ret@.len() ==> crate::dfa::dfa_elem_wf(
                    #[trigger] ret@[i],
                    translate@.len() as int,
                ),
            forall|f: int| 0 <= f < finals@.len() ==> (#[trigger] finals@[f]).0 < ret@.len(),
            forall|id: int|
                0 <= id < ret@.len() ==> #[trigger] sem_row_ok(nfa, ret, finals, translate, id),
            disc.len() == translate@.len() - 1,
            forall|j: int|
                0 <= j < disc.len() ==> 0 <= (#[trigger] disc[j]).0 < j + 1 && disc[j].0
                    < ret@.len() && 0 <= disc[j].1 < ret@[disc[j].0]@.len()
                    && ret@[disc[j].0]@[disc[j].1].1.0 == j + 1,
            forall|j1: int, j2: int|
                0 <= j1 < j2 < disc.len() ==> ((#[trigger] disc[j1]).0 < (#[trigger] disc[j2]).0
                    || (disc[j1].0 == disc[j2].0 && disc[j1].1 < disc[j2].1)),
            forall|j: int, p: int, e: int|
                #![trigger disc[j], ret@[p]@[e]]
                0 <= j < disc.len() && 0 <= p < ret@.len() && 0 <= e < ret@[p]@.len() && (p
                    < disc[j].0 || (p == disc[j].0 && e < disc[j].1)) ==> ret@[p]@[e].1.0 != j + 1,
        decreases pow2(n as nat) - ret@.len(),
    {
        let ghost queue_at_head = queue@;
        let vecset = queue.pop_front().unwrap();
        proof {
            assert(vecset == queue_at_head[0]);
            assert(queue@ =~= queue_at_head.drop_first());
            assert(vecset@ == translate@[ret@.len() as int].0@);
            assert(forall|j: int| 0 <= j < vecset@.len() ==> (#[trigger] vecset@[j]).0 < n);
            assert(forall|q: int|
                0 <= q < queue@.len() ==> (#[trigger] queue@[q])@ == translate@[ret@.len() + 1
                    + q].0@);
        }
        let cur_id = ret.len();
        let vlen = vecset.len();

        let mut is_final = false;
        let mut idx: usize = 0;
        while idx < vlen
            invariant
                idx <= vlen,
                vlen == vecset@.len(),
                is_final <==> (exists|mm: int|
                    0 <= mm < idx && nfa.finals@.contains(#[trigger] vecset@[mm])),
            decreases vlen - idx,
        {
            if contains_state(&nfa.finals, vecset[idx]) {
                is_final = true;
                proof {
                    assert(nfa.finals@.contains(vecset@[idx as int]));
                }
            }
            idx += 1;
        }
        proof {
            assert(is_final == nfa::has_final(nfa.finals, members(vecset))) by {
                if is_final {
                    let mm = choose|mm: int|
                        0 <= mm < vlen && nfa.finals@.contains(#[trigger] vecset@[mm]);
                    assert(members(vecset).contains(vecset@[mm]));
                }
                if nfa::has_final(nfa.finals, members(vecset)) {
                    let f = choose|f: State|
                        members(vecset).contains(f) && nfa.finals@.contains(f);
                    assert(vecset@.contains(f));
                    let mm = choose|mm: int| 0 <= mm < vecset@.len() && vecset@[mm] == f;
                }
            }
        }
        let ghost finals_before = finals@;
        let ghost finals_old_vec = finals;
        if is_final {
            finals.push(State(cur_id));
        }
        proof {
            assert forall|id: int|
                0 <= id < ret@.len() implies #[trigger] sem_row_ok(
                nfa,
                ret,
                finals,
                translate,
                id,
            ) by {
                assert(sem_row_ok(nfa, ret, finals_old_vec, translate, id));
                assert(forall|sym2: Symbol|
                    sym2.0 != EPSILON ==> #[trigger] sem_step_ok(nfa, ret, translate, id, sym2));
                assert(finals@.contains(State(id as usize)) <==> finals_before.contains(
                    State(id as usize),
                )) by {
                    if is_final {
                        assert(finals@.last() == State(cur_id as usize));
                        if finals@.contains(State(id as usize)) && !finals_before.contains(
                            State(id as usize),
                        ) {
                            let m = choose|m: int|
                                0 <= m < finals@.len() && finals@[m] == State(id as usize);
                            if m < finals@.len() - 1 {
                                assert(finals_before[m] == State(id as usize));
                            }
                            assert(false);
                        }
                        if finals_before.contains(State(id as usize)) {
                            let m = choose|m: int|
                                0 <= m < finals_before.len() && finals_before[m] == State(
                                    id as usize,
                                );
                            assert(finals@[m] == State(id as usize));
                        }
                    }
                }
            }
            assert(finals@.contains(State(cur_id as usize)) == is_final) by {
                if is_final {
                    assert(finals@.last() == State(cur_id as usize));
                }
                if finals@.contains(State(cur_id as usize)) {
                    let m = choose|m: int|
                        0 <= m < finals@.len() && finals@[m] == State(cur_id as usize);
                    if !is_final {
                        assert(finals_before[m] == State(cur_id as usize));
                        assert(false);
                    }
                }
            }
        }

        let mut syms: Vec<Symbol> = Vec::new();
        let mut idx2: usize = 0;
        while idx2 < vlen
            invariant
                idx2 <= vlen,
                vlen == vecset@.len(),
                forall|m: int| 0 <= m < syms@.len() ==> (#[trigger] syms@[m]).0 != EPSILON,
                forall|m1: int, m2: int| 0 <= m1 < m2 < syms@.len() ==> syms@[m1] != syms@[m2],
                forall|mm: int, kk: int|
                    #![trigger nfa.next@[vecset@[mm].0 as int]@[kk]]
                    0 <= mm < idx2 && 0 <= kk < nfa.next@[vecset@[mm].0 as int]@.len()
                        && nfa.next@[vecset@[mm].0 as int]@[kk].0.0 != EPSILON ==> syms@.contains(
                        nfa.next@[vecset@[mm].0 as int]@[kk].0,
                    ),
            decreases vlen - idx2,
        {
            let st = vecset[idx2];
            let row_len = nfa.next[st.0].len();
            let mut k: usize = 0;
            while k < row_len
                invariant
                    k <= row_len,
                    st.0 < n,
                    st == vecset@[idx2 as int],
                    idx2 < vlen,
                    row_len == nfa.next@[st.0 as int]@.len(),
                    forall|m: int| 0 <= m < syms@.len() ==> (#[trigger] syms@[m]).0 != EPSILON,
                    forall|m1: int, m2: int| 0 <= m1 < m2 < syms@.len() ==> syms@[m1] != syms@[m2],
                    forall|mm: int, kk: int|
                        #![trigger nfa.next@[vecset@[mm].0 as int]@[kk]]
                        0 <= mm < idx2 && 0 <= kk < nfa.next@[vecset@[mm].0 as int]@.len()
                            && nfa.next@[vecset@[mm].0 as int]@[kk].0.0 != EPSILON
                            ==> syms@.contains(nfa.next@[vecset@[mm].0 as int]@[kk].0),
                    forall|kk: int|
                        #![trigger nfa.next@[st.0 as int]@[kk]]
                        0 <= kk < k && nfa.next@[st.0 as int]@[kk].0.0 != EPSILON
                            ==> syms@.contains(nfa.next@[st.0 as int]@[kk].0),
                decreases row_len - k,
            {
                let sym = nfa.next[st.0][k].0;
                if sym.0 != EPSILON {
                    match find_symbol(&syms, sym) {
                        Some(p) => {
                            proof {
                                assert(syms@[p as int] == sym);
                                assert(syms@.contains(sym));
                            }
                        },
                        None => {
                            let ghost syms_before = syms@;
                            syms.push(sym);
                            proof {
                                assert(forall|m: int|
                                    0 <= m < syms_before.len() ==> syms@[m] == syms_before[m]);
                                assert(syms@.last() == sym);
                                assert(syms@.contains(sym));
                                assert forall|s2: Symbol| syms_before.contains(s2) implies
                                    syms@.contains(s2) by {
                                    let m = choose|m: int|
                                        0 <= m < syms_before.len() && syms_before[m] == s2;
                                    assert(syms@[m] == s2);
                                }
                            }
                        },
                    }
                }
                k += 1;
            }
            idx2 += 1;
        }

        let ghost tl_head = translate@.len();
        let mut row: crate::dfa::NextElem = Vec::new();
        let s_count = syms.len();
        let mut m: usize = 0;
        while m < s_count
            invariant
                m <= s_count,
                translate@.len() >= tl_head,
                row@.len() == m,
                cur_id == ret@.len(),
                vecset@ == translate@[ret@.len() as int].0@,
                translate@[0].0@ == init_view,
                forall|k: int| 0 <= k < m ==> (#[trigger] row@[k]).0 == syms@[k],
                forall|k: int| 0 <= k < m ==> (#[trigger] row@[k]).1.0 < translate@.len(),
                forall|k: int|
                    0 <= k < m ==> members(translate@[(#[trigger] row@[k]).1.0 as int].0)
                        == nfa::eps_closure_set(
                        nfa.next,
                        nfa::move_set(nfa.next, members(vecset), syms@[k]),
                    ),
                translate@.len() == ret@.len() + queue@.len() + 1,
                1 <= translate@.len() <= pow2(n as nat),
                forall|mm: int|
                    0 <= mm < translate@.len() ==> (#[trigger] translate@[mm]).1 == State(
                        mm as usize,
                    ),
                forall|mm: int|
                    0 <= mm < translate@.len() ==> sorted_unique((#[trigger] translate@[mm]).0@) && (
                    forall|j: int|
                        0 <= j < translate@[mm].0@.len() ==> (#[trigger] translate@[mm].0@[j]).0
                            < n),
                forall|m1: int, m2: int|
                    0 <= m1 < m2 < translate@.len() ==> (#[trigger] translate@[m1]).0@ != (
                    #[trigger] translate@[m2]).0@,
                forall|q: int|
                    0 <= q < queue@.len() ==> (#[trigger] queue@[q])@ == translate@[ret@.len() + 1
                        + q].0@,
                forall|id: int|
                    0 <= id < ret@.len() ==> #[trigger] sem_row_ok(nfa, ret, finals, translate, id),
                disc.len() == translate@.len() - 1,
                forall|j: int|
                    0 <= j < disc.len() ==> 0 <= (#[trigger] disc[j]).0 < j + 1 && disc[j].0
                        <= ret@.len() && ((disc[j].0 < ret@.len() && 0 <= disc[j].1
                        < ret@[disc[j].0]@.len() && ret@[disc[j].0]@[disc[j].1].1.0 == j + 1) || (
                    disc[j].0 == ret@.len() && 0 <= disc[j].1 < row@.len()
                        && row@[disc[j].1].1.0 == j + 1)),
                forall|j1: int, j2: int|
                    0 <= j1 < j2 < disc.len() ==> ((#[trigger] disc[j1]).0 < (
                    #[trigger] disc[j2]).0 || (disc[j1].0 == disc[j2].0 && disc[j1].1
                        < disc[j2].1)),
                forall|j: int, p: int, e: int|
                    #![trigger disc[j], ret@[p]@[e]]
                    0 <= j < disc.len() && 0 <= p < ret@.len() && 0 <= e < ret@[p]@.len() && (p
                        < disc[j].0 || (p == disc[j].0 && e < disc[j].1)) ==> ret@[p]@[e].1.0 != j
                        + 1,
                forall|j: int, e: int|
                    #![trigger disc[j], row@[e]]
                    0 <= j < disc.len() && 0 <= e < row@.len() && disc[j].0 == ret@.len() && e
                        < disc[j].1 ==> row@[e].1.0 != j + 1,
            decreases s_count - m,
        {
            let sym = syms[m];
            let mut subset: Vec<State> = Vec::new();
            let mut idx3: usize = 0;
            while idx3 < vlen
                invariant
                    idx3 <= vlen,
                    vlen == vecset@.len(),
                    sorted_unique(subset@),
                    forall|t: State| #[trigger] subset@.contains(t) ==> t.0 < n,
                    forall|t: State|
                        #![trigger subset@.contains(t)]
                        subset@.contains(t) <==> (exists|mm: int, tt: State|
                            #![trigger nfa::nfa_edge(nfa.next, vecset@[mm], sym, tt), nfa::eps_reach(nfa.next, tt, t)]
                            0 <= mm < idx3 && nfa::nfa_edge(nfa.next, vecset@[mm], sym, tt)
                                && nfa::eps_reach(nfa.next, tt, t)),
                decreases vlen - idx3,
            {
                let st = vecset[idx3];
                let ghost sb = subset@;
                add_state_targets(&nfa.next, &ecl, &mut subset, st, sym);
                proof {
                    assert(st == vecset@[idx3 as int]);
                    assert forall|t: State|
                        subset@.contains(t) implies (exists|mm: int, tt: State|
                        #![trigger nfa::nfa_edge(nfa.next, vecset@[mm], sym, tt), nfa::eps_reach(nfa.next, tt, t)]
                        0 <= mm < idx3 + 1 && nfa::nfa_edge(nfa.next, vecset@[mm], sym, tt)
                            && nfa::eps_reach(nfa.next, tt, t)) by {
                        if !sb.contains(t) {
                            let tt = choose|tt: State|
                                nfa::nfa_edge(nfa.next, st, sym, tt) && nfa::eps_reach(
                                    nfa.next,
                                    tt,
                                    t,
                                );
                            assert(nfa::nfa_edge(nfa.next, vecset@[idx3 as int], sym, tt)
                                && nfa::eps_reach(nfa.next, tt, t));
                        }
                    }
                    assert forall|t: State|
                        (exists|mm: int, tt: State|
                            #![trigger nfa::nfa_edge(nfa.next, vecset@[mm], sym, tt), nfa::eps_reach(nfa.next, tt, t)]
                            0 <= mm < idx3 + 1 && nfa::nfa_edge(nfa.next, vecset@[mm], sym, tt)
                                && nfa::eps_reach(nfa.next, tt, t)) implies subset@.contains(
                        t,
                    ) by {
                        let (mm, tt) = choose|mm: int, tt: State|
                            #![trigger nfa::nfa_edge(nfa.next, vecset@[mm], sym, tt), nfa::eps_reach(nfa.next, tt, t)]
                            0 <= mm < idx3 + 1 && nfa::nfa_edge(nfa.next, vecset@[mm], sym, tt)
                                && nfa::eps_reach(nfa.next, tt, t);
                        if mm < idx3 {
                            assert(sb.contains(t));
                        } else {
                            assert(nfa::nfa_edge(nfa.next, st, sym, tt));
                        }
                    }
                }
                idx3 += 1;
            }
            proof {
                assert forall|t: State|
                    subset@.contains(t) implies nfa::eps_closure_set(
                    nfa.next,
                    nfa::move_set(nfa.next, members(vecset), sym),
                ).contains(t) by {
                    let (mm, tt) = choose|mm: int, tt: State|
                        #![trigger nfa::nfa_edge(nfa.next, vecset@[mm], sym, tt), nfa::eps_reach(nfa.next, tt, t)]
                        0 <= mm < vlen && nfa::nfa_edge(nfa.next, vecset@[mm], sym, tt)
                            && nfa::eps_reach(nfa.next, tt, t);
                    assert(vecset@.contains(vecset@[mm]));
                    assert(members(vecset).contains(vecset@[mm]));
                    assert(nfa::move_set(nfa.next, members(vecset), sym).contains(tt));
                }
                assert forall|t: State|
                    nfa::eps_closure_set(
                        nfa.next,
                        nfa::move_set(nfa.next, members(vecset), sym),
                    ).contains(t) implies subset@.contains(t) by {
                    let tt = choose|tt: State|
                        nfa::move_set(nfa.next, members(vecset), sym).contains(tt)
                            && nfa::eps_reach(nfa.next, tt, t);
                    let x = choose|x: State|
                        members(vecset).contains(x) && nfa::nfa_edge(nfa.next, x, sym, tt);
                    assert(vecset@.contains(x));
                    let mm = choose|mm: int| 0 <= mm < vecset@.len() && vecset@[mm] == x;
                    assert(nfa::nfa_edge(nfa.next, vecset@[mm], sym, tt) && nfa::eps_reach(
                        nfa.next,
                        tt,
                        t,
                    ));
                }
            }
            let ghost tl_before = translate;
            let ghost queue_before = queue@;
            let tl_len = translate.len();
            let id = match translate_lookup(&translate, &subset) {
                Some(id) => {
                    proof {
                        let mm = choose|mm: int|
                            0 <= mm < translate@.len() && (#[trigger] translate@[mm]).0@
                                == subset@ && translate@[mm].1 == id;
                        assert(translate@[mm].1 == State(mm as usize));
                        assert(mm < tl_len as int);
                        assert((mm as usize) as int == mm);
                        assert(id.0 as int == mm);
                        assert(translate@[id.0 as int].0@ == subset@);
                        assert(members(translate@[id.0 as int].0) =~= members(subset));
                    }
                    id
                },
                None => {
                    let new_id = State(translate.len());
                    proof {
                        let tslen = translate@.len() as int;
                        let ts = Seq::new(
                            (tslen + 1) as nat,
                            |mm: int|
                                if mm < tslen {
                                    translate@[mm].0@
                                } else {
                                    subset@
                                },
                        );
                        assert forall|mm: int| 0 <= mm < ts.len() implies sorted_unique(
                            #[trigger] ts[mm],
                        ) && (forall|j: int|
                            0 <= j < ts[mm].len() ==> (#[trigger] ts[mm][j]).0 < n) by {
                            if mm < tslen {
                                assert(ts[mm] == translate@[mm].0@);
                            } else {
                                assert(ts[mm] == subset@);
                                assert(forall|j: int|
                                    0 <= j < subset@.len() ==> subset@.contains(
                                        #[trigger] subset@[j],
                                    ));
                            }
                        }
                        assert forall|m1: int, m2: int| 0 <= m1 < m2 < ts.len() implies ts[m1]
                            != ts[m2] by {
                            if m2 < tslen {
                                assert(ts[m1] == translate@[m1].0@ && ts[m2] == translate@[m2].0@);
                            } else {
                                assert(ts[m1] == translate@[m1].0@ && ts[m2] == subset@);
                            }
                        }
                        lemma_distinct_subsets_bounded(ts, n as nat);
                    }
                    proof {
                        assert(forall|j: int|
                            0 <= j < subset@.len() ==> subset@.contains(#[trigger] subset@[j]));
                        assert(forall|j: int|
                            0 <= j < subset@.len() ==> (#[trigger] subset@[j]).0 < n);
                    }
                    let q_copy = copy_states(&subset);
                    queue.push_back(q_copy);
                    translate.push((subset, new_id));
                    proof {
                        disc = disc.push((ret@.len() as int, row@.len() as int));
                        assert(disc.last() == (ret@.len() as int, row@.len() as int));
                        // the new id was unknown to every entry written so far
                        assert forall|p: int, e: int|
                            0 <= p < ret@.len() && 0 <= e < ret@[p]@.len() implies
                        ret@[p]@[e].1.0 != new_id.0 by {
                            assert(crate::dfa::dfa_elem_wf(ret@[p], tl_before@.len() as int));
                        }
                        assert(forall|e: int|
                            0 <= e < row@.len() ==> (#[trigger] row@[e]).1.0 < tl_before@.len());
                        assert(translate@[new_id.0 as int].0@ == subset@);
                        assert(members(translate@[new_id.0 as int].0) =~= members(subset));
                        assert(forall|mm: int|
                            0 <= mm < tl_before@.len() ==> translate@[mm] == #[trigger] tl_before@[mm]);
                        assert forall|q: int|
                            0 <= q < queue@.len() implies (#[trigger] queue@[q])@
                            == translate@[ret@.len() + 1 + q].0@ by {
                            if q < queue_before.len() {
                                assert(queue@[q] == queue_before[q]);
                            } else {
                                assert(queue@[q] == q_copy);
                            }
                        }
                        assert forall|idp: int|
                            0 <= idp < ret@.len() implies #[trigger] sem_row_ok(
                            nfa,
                            ret,
                            finals,
                            translate,
                            idp,
                        ) by {
                            assert(sem_row_ok(nfa, ret, finals, tl_before, idp));
                            assert forall|sym2: Symbol| sym2.0 != EPSILON implies
                                #[trigger] sem_step_ok(nfa, ret, translate, idp, sym2) by {
                                assert(sem_step_ok(nfa, ret, tl_before, idp, sym2));
                                match crate::dfa::lookup(ret@[idp]@, sym2) {
                                    Some(t) => {
                                        assert(translate@[t.0 as int].0 == tl_before@[t.0 as int].0);
                                        assert(translate@[idp].0 == tl_before@[idp].0);
                                    },
                                    None => {
                                        assert(translate@[idp].0 == tl_before@[idp].0);
                                    },
                                }
                            }
                        }
                    }
                    new_id
                },
            };
            row.push((sym, id));
            proof {
                assert(row@.last() == (sym, id));
                assert(members(translate@[id.0 as int].0) =~= nfa::eps_closure_set(
                    nfa.next,
                    nfa::move_set(nfa.next, members(vecset), sym),
                ));
            }
            m += 1;
        }
        let ghost ret_before = ret@;
        let ghost ret_old_vec = ret;
        ret.push(row);
        proof {
            assert(forall|i: int| 0 <= i < ret_before.len() ==> ret@[i] == #[trigger] ret_before[i]);
            assert(ret@.last() == row);
            assert(ret@[cur_id as int] == row);
            assert forall|j: int|
                0 <= j < disc.len() implies 0 <= (#[trigger] disc[j]).0 < j + 1 && disc[j].0
                < ret@.len() && 0 <= disc[j].1 < ret@[disc[j].0]@.len()
                && ret@[disc[j].0]@[disc[j].1].1.0 == j + 1 by {
                if disc[j].0 == cur_id as int {
                    assert(ret@[disc[j].0] == row);
                }
            }
            assert forall|j: int, p: int, e: int|
                0 <= j < disc.len() && 0 <= p < ret@.len() && 0 <= e < ret@[p]@.len() && (p
                    < (#[trigger] disc[j]).0 || (p == disc[j].0 && e < disc[j].1)) implies (
            #[trigger] ret@[p]@[e]).1.0 != j + 1 by {
                if p < ret_before.len() {
                    assert(ret@[p] == ret_before[p]);
                } else {
                    assert(ret@[p] == row);
                }
            }
            assert(crate::dfa::dfa_elem_wf(row, translate@.len() as int)) by {
                assert(forall|k1: int, k2: int|
                    0 <= k1 < k2 < row@.len() ==> (#[trigger] row@[k1]).0 != (
                    #[trigger] row@[k2]).0);
            }
            assert forall|i: int| 0 <= i < ret_before.len() implies crate::dfa::dfa_elem_wf(
                #[trigger] ret@[i],
                translate@.len() as int,
            ) by {
                assert(crate::dfa::dfa_elem_wf(ret_before[i], tl_head as int));
                assert(ret@[i] == ret_before[i]);
            }
            // the new row is faithful to its set
            assert forall|idp: int|
                0 <= idp < ret@.len() implies #[trigger] sem_row_ok(
                nfa,
                ret,
                finals,
                translate,
                idp,
            ) by {
                if idp < ret_before.len() {
                    assert(sem_row_ok(nfa, ret_old_vec, finals, translate, idp));
                    assert forall|sym2: Symbol| sym2.0 != EPSILON implies #[trigger] sem_step_ok(
                        nfa,
                        ret,
                        translate,
                        idp,
                        sym2,
                    ) by {
                        assert(sem_step_ok(nfa, ret_old_vec, translate, idp, sym2));
                        assert(ret@[idp] == ret_old_vec@[idp]);
                    }
                } else {
                    assert(idp == cur_id);
                    assert(ret@[idp] == row);
                    assert(members(translate@[idp].0) == members(vecset)) by {
                        assert(translate@[idp].0@ == vecset@);
                        assert(members(translate@[idp].0) =~= members(vecset));
                    }
                    assert(finals@.contains(State(idp as usize)) <==> nfa::has_final(
                        nfa.finals,
                        members(translate@[idp].0),
                    ));
                    assert forall|sym2: Symbol| sym2.0 != EPSILON implies #[trigger] sem_step_ok(
                        nfa,
                        ret,
                        translate,
                        idp,
                        sym2,
                    ) by {
                        if exists|mm: int| 0 <= mm < syms@.len() && syms@[mm] == sym2 {
                            let mm = choose|mm: int|
                                0 <= mm < syms@.len() && syms@[mm] == sym2;
                            assert(row@[mm].0 == sym2);
                            assert forall|k1: int, k2: int|
                                0 <= k1 < k2 < row@.len() implies (#[trigger] row@[k1]).0 != (
                                #[trigger] row@[k2]).0 by {}
                            lemma_index_lookup(row@, sym2, mm);
                            assert(crate::dfa::lookup(ret@[idp]@, sym2) == Some(row@[mm].1));
                            assert(members(translate@[row@[mm].1.0 as int].0)
                                == nfa::eps_closure_set(
                                nfa.next,
                                nfa::move_set(nfa.next, members(vecset), sym2),
                            ));
                        } else {
                            assert(crate::dfa::lookup(ret@[idp]@, sym2) is None) by {
                                if crate::dfa::lookup(ret@[idp]@, sym2) is Some {
                                    let t = crate::dfa::lookup(ret@[idp]@, sym2)->Some_0;
                                    lemma_lookup_some_exists(row@, sym2, t);
                                    let kx = choose|kx: int|
                                        0 <= kx < row@.len() && row@[kx] == (sym2, t);
                                    assert(syms@[kx] == sym2);
                                }
                            }
                            assert forall|t: State|
                                !nfa::move_set(
                                    nfa.next,
                                    members(translate@[idp].0),
                                    sym2,
                                ).contains(t) by {
                                if nfa::move_set(
                                    nfa.next,
                                    members(translate@[idp].0),
                                    sym2,
                                ).contains(t) {
                                    let x = choose|x: State|
                                        members(translate@[idp].0).contains(x) && nfa::nfa_edge(
                                            nfa.next,
                                            x,
                                            sym2,
                                            t,
                                        );
                                    assert(translate@[idp].0@.contains(x));
                                    assert(vecset@.contains(x));
                                    let mm = choose|mm: int|
                                        0 <= mm < vecset@.len() && vecset@[mm] == x;
                                    let kk = choose|kk: int|
                                        0 <= kk < nfa.next@[x.0 as int]@.len() && (
                                        #[trigger] nfa.next@[x.0 as int]@[kk]).0 == sym2
                                            && nfa.next@[x.0 as int]@[kk].1@.contains(t);
                                    assert(nfa.next@[vecset@[mm].0 as int]@[kk].0.0 != EPSILON);
                                    assert(syms@.contains(sym2));
                                    let ms = choose|ms: int|
                                        0 <= ms < syms@.len() && syms@[ms] == sym2;
                                    assert(false);
                                }
                            }
                        }
                    }
                }
            }
        }
    }
    proof {
        assert(translate@.len() == ret@.len());
    }
    let rlen = ret.len();
    let result = DFA { next: ret, initial: State(0), finals };
    proof {
        assert(discovery_witness_ok(result, disc));
        assert(discovery_order_ok(result));
        let assoc = Seq::new(translate@.len(), |m: int| translate@[m].0);
        assert(subset_assignment_ok(nfa, result, assoc)) by {
            assert(forall|id: int| 0 <= id < assoc.len() ==> #[trigger] assoc[id] == translate@[id].0);
            assert(members(assoc[0]) =~= nfa::eps_closure_set(nfa.next, nfa.initials@.to_set()))
                by {
                assert(assoc[0]@ == init_view);
            }
            assert forall|id: int|
                0 <= id < assoc.len() implies (result.finals@.contains(State(id as usize))
                <==> nfa::has_final(nfa.finals, members(#[trigger] assoc[id]))) by {
                assert(sem_row_ok(nfa, result.next, result.finals, translate, id));
            }
            assert forall|id: int, sym: Symbol|
                #![trigger crate::dfa::lookup(result.next@[id]@, sym)]
                0 <= id < assoc.len() && sym.0 != EPSILON implies match crate::dfa::lookup(
                result.next@[id]@,
                sym,
            ) {
                Some(t) => t.0 < assoc.len() && members(assoc[t.0 as int])
                    == nfa::eps_closure_set(
                    nfa.next,
                    nfa::move_set(nfa.next, members(assoc[id]), sym),
                ),
                None => forall|t: State|
                    !nfa::move_set(nfa.next, members(assoc[id]), sym).contains(t),
            } by {
                assert(sem_row_ok(nfa, result.next, result.finals, translate, id));
                assert(sem_step_ok(nfa, result.next, translate, id, sym));
            }
        }
        assert forall|w: Seq<Symbol>|
            (forall|k: int| 0 <= k < w.len() ==> (#[trigger] w[k]).0 != EPSILON) implies (
        crate::dfa::spec_matches(result, w) <==> nfa::nfa_accepts(nfa, w)) by {
            lemma_dfa_nfa_sim(nfa, result.next, result.finals, translate, 0, w);
            assert(members(translate@[0].0) =~= nfa::eps_closure_set(
                nfa.next,
                nfa.initials@.to_set(),
            )) by {
                assert(translate@[0].0@ == init_view);
            }
        }
    }
    result
}

/// Union into `subset` the epsilon-closures of every `sym` target of `st`:
/// one member state's contribution to the next configuration.
///
/// The closure table `ecl` must be exact, as `e_closure` delivers it; the
/// result is pinned down as the old set plus everything epsilon-reachable
/// from a `sym` successor of `st`.
#[verifier::loop_isolation(false)]
fn add_state_targets(
    nfa_next: &nfa::NextElems,
    ecl: &Vec<Vec<State>>,
    subset: &mut Vec<State>,
    st: State,
    sym: Symbol,
)
    requires
        nfa::next_wf(*nfa_next),
        st.0 < nfa_next@.len(),
        ecl@.len() == nfa_next@.len(),
        forall|i: int| 0 <= i < ecl@.len() ==> (#[trigger] ecl@[i])@.contains(State(i as usize)),
        forall|i: int, s: State|
            #![trigger ecl@[i]@.contains(s)]
            0 <= i < ecl@.len() && ecl@[i]@.contains(s) ==> s.0 < nfa_next@.len()
                && nfa::eps_reach(*nfa_next, State(i as usize), s),
        forall|i: int, s: State, t: State|
            #![trigger ecl@[i]@.contains(s), nfa::nfa_edge(*nfa_next, s, Symbol(EPSILON), t)]
            0 <= i < ecl@.len() && ecl@[i]@.contains(s) && nfa::nfa_edge(
                *nfa_next,
                s,
                Symbol(EPSILON),
                t,
            ) ==> ecl@[i]@.contains(t),
        sorted_unique(old(subset)@),
        forall|t: State| #[trigger] old(subset)@.contains(t) ==> t.0 < nfa_next@.len(),
    ensures
        sorted_unique(final(subset)@),
        forall|t: State| #[trigger] final(subset)@.contains(t) ==> t.0 < nfa_next@.len(),
        forall|t: State|
            #![trigger final(subset)@.contains(t)]
            final(subset)@.contains(t) <==> (old(subset)@.contains(t) || (exists|tt: State|
                nfa::nfa_edge(*nfa_next, st, sym, tt) && nfa::eps_reach(*nfa_next, tt, t))),
{
    let n = nfa_next.len();
    let row_len = nfa_next[st.0].len();
    let mut k: usize = 0;
    while k < row_len
        invariant
            k <= row_len,
            row_len == nfa_next@[st.0 as int]@.len(),
            sorted_unique(subset@),
            forall|t: State| #[trigger] subset@.contains(t) ==> t.0 < n,
            forall|t: State|
                #![trigger subset@.contains(t)]
                subset@.contains(t) <==> (old(subset)@.contains(t) || (exists|kk: int, jj: int|
                    #![trigger ecl@[nfa_next@[st.0 as int]@[kk].1@[jj].0 as int]@.contains(t)]
                    0 <= kk < k && nfa_next@[st.0 as int]@[kk].0 == sym && 0 <= jj
                        < nfa_next@[st.0 as int]@[kk].1@.len()
                        && ecl@[nfa_next@[st.0 as int]@[kk].1@[jj].0 as int]@.contains(t))),
        decreases row_len - k,
    {
        if nfa_next[st.0][k].0.0 == sym.0 {
            proof {
                assert(nfa_next@[st.0 as int]@[k as int].0 == sym);
            }
            let tcount = nfa_next[st.0][k].1.len();
            let mut j: usize = 0;
            while j < tcount
                invariant
                    j <= tcount,
                    k < row_len,
                    tcount == nfa_next@[st.0 as int]@[k as int].1@.len(),
                    nfa_next@[st.0 as int]@[k as int].0 == sym,
                    sorted_unique(subset@),
                    forall|t: State| #[trigger] subset@.contains(t) ==> t.0 < n,
                    forall|t: State|
                        #![trigger subset@.contains(t)]
                        subset@.contains(t) <==> (old(subset)@.contains(t) || (exists|
                            kk: int,
                            jj: int,
                        |
                            #![trigger ecl@[nfa_next@[st.0 as int]@[kk].1@[jj].0 as int]@.contains(t)]
                            0 <= kk < k && nfa_next@[st.0 as int]@[kk].0 == sym && 0 <= jj
                                < nfa_next@[st.0 as int]@[kk].1@.len()
                                && ecl@[nfa_next@[st.0 as int]@[kk].1@[jj].0 as int]@.contains(t))
                            || (exists|jj: int|
                            #![trigger ecl@[nfa_next@[st.0 as int]@[k as int].1@[jj].0 as int]@.contains(t)]
                            0 <= jj < j
                                && ecl@[nfa_next@[st.0 as int]@[k as int].1@[jj].0 as int]@.contains(
                                t,
                            ))),
                decreases tcount - j,
            {
                let tgt = nfa_next[st.0][k].1[j];
                proof {
                    assert(nfa::nfa_elem_wf(nfa_next@[st.0 as int], n as int));
                    assert(tgt.0 < n);
                }
                let ccount = ecl[tgt.0].len();
                let ghost sub_u0 = subset@;
                let mut u: usize = 0;
                while u < ccount
                    invariant
                        u <= ccount,
                        j < tcount,
                        tgt == nfa_next@[st.0 as int]@[k as int].1@[j as int],
                        tgt.0 < n,
                        ccount == ecl@[tgt.0 as int]@.len(),
                        sorted_unique(subset@),
                        forall|t: State| #[trigger] subset@.contains(t) ==> t.0 < n,
                        forall|t: State|
                            #![trigger subset@.contains(t)]
                            subset@.contains(t) <==> (sub_u0.contains(t) || (exists|uu: int|
                                0 <= uu < u && ecl@[tgt.0 as int]@[uu] == t)),
                    decreases ccount - u,
                {
                    let cs = ecl[tgt.0][u];
                    proof {
                        assert(ecl@[tgt.0 as int]@.contains(cs));
                    }
                    insert_sorted(subset, cs);
                    proof {
                        assert(ecl@[tgt.0 as int]@[u as int] == cs);
                    }
                    u += 1;
                }
                proof {
                    assert forall|t: State|
                        subset@.contains(t) implies (sub_u0.contains(t)
                        || ecl@[tgt.0 as int]@.contains(t)) by {
                        if !sub_u0.contains(t) {
                            let uu = choose|uu: int|
                                0 <= uu < ccount && ecl@[tgt.0 as int]@[uu] == t;
                        }
                    }
                    assert forall|t: State| ecl@[tgt.0 as int]@.contains(t) implies
                        subset@.contains(t) by {
                        let uu = choose|uu: int|
                            0 <= uu < ecl@[tgt.0 as int]@.len() && ecl@[tgt.0 as int]@[uu] == t;
                    }
                    assert(nfa_next@[st.0 as int]@[k as int].1@[j as int] == tgt);
                    assert forall|t: State|
                        subset@.contains(t) implies (old(subset)@.contains(t) || (exists|
                            kk: int,
                            jj: int,
                        |
                            #![trigger ecl@[nfa_next@[st.0 as int]@[kk].1@[jj].0 as int]@.contains(t)]
                            0 <= kk < k && nfa_next@[st.0 as int]@[kk].0 == sym && 0 <= jj
                                < nfa_next@[st.0 as int]@[kk].1@.len()
                                && ecl@[nfa_next@[st.0 as int]@[kk].1@[jj].0 as int]@.contains(t))
                            || (exists|jj: int|
                            #![trigger ecl@[nfa_next@[st.0 as int]@[k as int].1@[jj].0 as int]@.contains(t)]
                            0 <= jj < j + 1
                                && ecl@[nfa_next@[st.0 as int]@[k as int].1@[jj].0 as int]@.contains(
                                t,
                            ))) by {
                        if sub_u0.contains(t) {
                        } else {
                            assert(ecl@[tgt.0 as int]@.contains(t));
                            assert(ecl@[nfa_next@[st.0 as int]@[k as int].1@[j as int].0 as int]@.contains(
                                t,
                            ));
                        }
                    }
                    assert forall|t: State|
                        (old(subset)@.contains(t) || (exists|kk: int, jj: int|
                            #![trigger ecl@[nfa_next@[st.0 as int]@[kk].1@[jj].0 as int]@.contains(t)]
                            0 <= kk < k && nfa_next@[st.0 as int]@[kk].0 == sym && 0 <= jj
                                < nfa_next@[st.0 as int]@[kk].1@.len()
                                && ecl@[nfa_next@[st.0 as int]@[kk].1@[jj].0 as int]@.contains(t))
                            || (exists|jj: int|
                            #![trigger ecl@[nfa_next@[st.0 as int]@[k as int].1@[jj].0 as int]@.contains(t)]
                            0 <= jj < j + 1
                                && ecl@[nfa_next@[st.0 as int]@[k as int].1@[jj].0 as int]@.contains(
                                t,
                            ))) implies subset@.contains(t) by {
                        if old(subset)@.contains(t) {
                            assert(sub_u0.contains(t));
                        } else if exists|kk: int, jj: int|
                            #![trigger ecl@[nfa_next@[st.0 as int]@[kk].1@[jj].0 as int]@.contains(t)]
                            0 <= kk < k && nfa_next@[st.0 as int]@[kk].0 == sym && 0 <= jj
                                < nfa_next@[st.0 as int]@[kk].1@.len()
                                && ecl@[nfa_next@[st.0 as int]@[kk].1@[jj].0 as int]@.contains(t) {
                            assert(sub_u0.contains(t));
                        } else {
                            let jj = choose|jj: int|
                                #![trigger ecl@[nfa_next@[st.0 as int]@[k as int].1@[jj].0 as int]@.contains(t)]
                                0 <= jj < j + 1
                                    && ecl@[nfa_next@[st.0 as int]@[k as int].1@[jj].0 as int]@.contains(
                                    t,
                                );
                            if jj < j {
                                assert(sub_u0.contains(t));
                            } else {
                                assert(ecl@[tgt.0 as int]@.contains(t));
                            }
                        }
                    }
                }
                j += 1;
            }
        }
        k += 1;
    }
    proof {
        assert forall|t: State|
            subset@.contains(t) implies (old(subset)@.contains(t) || (exists|tt: State|
                nfa::nfa_edge(*nfa_next, st, sym, tt) && nfa::eps_reach(*nfa_next, tt, t))) by {
            if !old(subset)@.contains(t) {
                let (kk, jj) = choose|kk: int, jj: int|
                    #![trigger ecl@[nfa_next@[st.0 as int]@[kk].1@[jj].0 as int]@.contains(t)]
                    0 <= kk < row_len && nfa_next@[st.0 as int]@[kk].0 == sym && 0 <= jj
                        < nfa_next@[st.0 as int]@[kk].1@.len()
                        && ecl@[nfa_next@[st.0 as int]@[kk].1@[jj].0 as int]@.contains(t);
                let tt = nfa_next@[st.0 as int]@[kk].1@[jj];
                assert(nfa_next@[st.0 as int]@[kk].1@.contains(tt));
                assert(nfa::nfa_edge(*nfa_next, st, sym, tt));
                assert(nfa::nfa_elem_wf(nfa_next@[st.0 as int], n as int));
                assert(State(tt.0 as int as usize) == tt);
                assert(nfa::eps_reach(*nfa_next, tt, t));
            }
        }
        assert forall|t: State, tt: State|
            nfa::nfa_edge(*nfa_next, st, sym, tt) && nfa::eps_reach(*nfa_next, tt, t) implies
        subset@.contains(t) by {
            let kk = choose|kk: int|
                0 <= kk < nfa_next@[st.0 as int]@.len() && (#[trigger] nfa_next@[st.0 as int]@[kk]).0
                    == sym && nfa_next@[st.0 as int]@[kk].1@.contains(tt);
            let jj = choose|jj: int|
                0 <= jj < nfa_next@[st.0 as int]@[kk].1@.len() && nfa_next@[st.0 as int]@[kk].1@[jj]
                    == tt;
            assert(nfa::nfa_elem_wf(nfa_next@[st.0 as int], n as int));
            assert(tt.0 < n);
            assert(ecl@[tt.0 as int]@.contains(State(tt.0 as usize)));
            assert(State(tt.0 as usize) == tt);
            nfa::lemma_closed_contains_reach_at(*nfa_next, ecl, tt.0 as int, tt, t);
            assert(ecl@[tt.0 as int]@.contains(t));
        }
    }
}

} // verus!
