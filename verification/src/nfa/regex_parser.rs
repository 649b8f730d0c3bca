//! Thompson construction: translating a regex syntax tree into an [`NFA`].
//!
//! States are allocated sequentially in an append-only arena, so a fragment's
//! entry state is the first id it allocates and its exit state is the last id
//! allocated when its translation finishes. Edges may point one past the end
//! of the arena ("the next state to be allocated"); the final state pushed by
//! [`build`] resolves them.

use vstd::prelude::*;

use crate::nfa::{NextElem, NextElems, NFA};
use crate::{State, Symbol, EPSILON};

verus! {

/// A regex syntax tree, as handed over by the external grammar parser.
pub enum Ast {
    Terminal(Symbol),
    Cons(Box<Ast>, Box<Ast>),
    Star(Box<Ast>),
    Or(Box<Ast>, Box<Ast>),
    Optional(Box<Ast>),
    Range(Box<Ast>, i32, i32),
}

/// Terminals never carry the epsilon sentinel: the syntax tree is over the
/// real alphabet only.
pub open spec fn ast_wf(ast: Ast) -> bool
    decreases ast,
{
    match ast {
        Ast::Terminal(sym) => sym.0 != EPSILON,
        Ast::Cons(a1, a2) => ast_wf(*a1) && ast_wf(*a2),
        Ast::Star(a) => ast_wf(*a),
        Ast::Or(a1, a2) => ast_wf(*a1) && ast_wf(*a2),
        Ast::Optional(a) => ast_wf(*a),
        Ast::Range(a, min, max) => ast_wf(*a),
    }
}

/// How many states translating `ast` appends to the arena.
pub open spec fn alloc_count(ast: Ast) -> nat
    decreases ast,
{
    match ast {
        Ast::Terminal(_) => 2,
        Ast::Cons(a1, a2) => 1 + alloc_count(*a1) + alloc_count(*a2),
        Ast::Star(a) => 2 + alloc_count(*a),
        Ast::Or(a1, a2) => 2 + alloc_count(*a1) + alloc_count(*a2),
        Ast::Optional(a) => 2 + alloc_count(*a),
        Ast::Range(a, min, max) => {
            let lo = if min >= 0 { min as nat } else { 0 };
            let hi = if max >= min { (max - min) as nat } else { 0 };
            1 + lo * (alloc_count(*a) + 1) + hi * (alloc_count(*a) + 2)
        },
    }
}

/// During construction every edge may point at most one past the end of the
/// arena: to a state already allocated or to the next one to be allocated.
pub open spec fn frag_wf(acc: NextElems) -> bool {
    forall|i: int, k: int, j: int|
        0 <= i < acc@.len() && 0 <= k < acc@[i]@.len() && 0 <= j < (#[trigger] acc@[i]@[k]).1@.len()
            ==> (#[trigger] acc@[i]@[k].1@[j]).0 <= acc@.len()
}

/// The state has an entry under the epsilon sentinel (dummy nodes always do).
pub open spec fn has_eps_entry(elem: NextElem) -> bool {
    exists|k: int| 0 <= k < elem@.len() && (#[trigger] elem@[k]).0 == Symbol(EPSILON)
}

/// An edge `a --sym--> b` is present in the arena `acc`.
pub open spec fn arena_edge(acc: NextElems, a: State, sym: Symbol, b: State) -> bool {
    exists|k: int|
        0 <= k < acc@[a.0 as int]@.len() && (#[trigger] acc@[a.0 as int]@[k]).0 == sym
            && acc@[a.0 as int]@[k].1@.contains(b)
}

/// The exact edges of the fragment a syntax tree builds at arena offset
/// `base`: the fixed per-construct Thompson shapes. An edge `p --sym--> t`
/// has its source inside the fragment; its target may point one past the
/// fragment's end (the dangling forward reference).
pub open spec fn frag_edge(ast: Ast, base: int, p: int, sym: Symbol, t: int) -> bool
    decreases ast, 0nat,
{
    match ast {
        Ast::Terminal(ts) => (p == base && sym == Symbol(EPSILON) && t == base + 1) || (p == base
            + 1 && sym == ts && t == base + 2),
        Ast::Cons(a1, a2) => (p == base && sym == Symbol(EPSILON) && t == base + 1) || frag_edge(
            *a1,
            base + 1,
            p,
            sym,
            t,
        ) || frag_edge(*a2, base + 1 + alloc_count(*a1), p, sym, t),
        Ast::Star(a) => {
            let end = base + 1 + alloc_count(*a);
            ||| (p == base && sym == Symbol(EPSILON) && (t == base + 1 || t == end))
            ||| frag_edge(*a, base + 1, p, sym, t)
            ||| (p == end && sym == Symbol(EPSILON) && (t == end + 1 || t == base))
        },
        Ast::Or(a1, a2) => {
            let m = base + 1 + alloc_count(*a1);
            let end = m + alloc_count(*a2);
            ||| (p == base && sym == Symbol(EPSILON) && (t == base + 1 || t == m))
            ||| (frag_edge(*a1, base + 1, p, sym, t) && !(p == m - 1 && t == m))
            ||| (p == m - 1 && t == end && frag_edge(*a1, base + 1, p, sym, m))
            ||| frag_edge(*a2, m, p, sym, t)
            ||| (p == end && sym == Symbol(EPSILON) && t == end + 1)
        },
        Ast::Optional(a) => {
            let end = base + 1 + alloc_count(*a);
            ||| (p == base && sym == Symbol(EPSILON) && (t == base + 1 || t == end))
            ||| frag_edge(*a, base + 1, p, sym, t)
            ||| (p == end && sym == Symbol(EPSILON) && t == end + 1)
        },
        Ast::Range(a, min, max) => {
            let lo = if min >= 0 { min as nat } else { 0 };
            let hi = if max >= min { (max - min) as nat } else { 0 };
            ||| (p == base && sym == Symbol(EPSILON) && t == base + 1)
            ||| rep_edges(*a, base + 1, lo, p, sym, t)
            ||| opt_edges(*a, base + 1 + lo * (alloc_count(*a) + 1), hi, p, sym, t)
        },
    }
}

/// Edges of `k` mandatory repetitions: each a fragment followed by a dummy.
pub open spec fn rep_edges(a: Ast, b: int, k: nat, p: int, sym: Symbol, t: int) -> bool
    decreases a, k,
{
    k > 0 && {
        let c = alloc_count(a) as int;
        ||| frag_edge(a, b, p, sym, t)
        ||| (p == b + c && sym == Symbol(EPSILON) && t == b + c + 1)
        ||| rep_edges(a, b + c + 1, (k - 1) as nat, p, sym, t)
    }
}

/// Edges of `k` optional repetitions: each an entry dummy with a skip to the
/// exit dummy, around a fragment.
pub open spec fn opt_edges(a: Ast, b: int, k: nat, p: int, sym: Symbol, t: int) -> bool
    decreases a, k,
{
    k > 0 && {
        let c = alloc_count(a) as int;
        ||| (p == b && sym == Symbol(EPSILON) && (t == b + 1 || t == b + 1 + c))
        ||| frag_edge(a, b + 1, p, sym, t)
        ||| (p == b + 1 + c && sym == Symbol(EPSILON) && t == b + 2 + c)
        ||| opt_edges(a, b + c + 2, (k - 1) as nat, p, sym, t)
    }
}

/// Fragment edges start inside the fragment and land no further than one
/// past its end.
pub proof fn lemma_frag_edge_range(ast: Ast, base: int, p: int, sym: Symbol, t: int)
    requires
        frag_edge(ast, base, p, sym, t),
    ensures
        base <= p < base + alloc_count(ast),
        base <= t <= base + alloc_count(ast),
    decreases ast, 0nat, 0nat,
{
    let cnt = alloc_count(ast) as int;
    match ast {
        Ast::Terminal(ts) => {},
        Ast::Cons(a1, a2) => {
            if frag_edge(*a1, base + 1, p, sym, t) {
                lemma_frag_edge_range(*a1, base + 1, p, sym, t);
            } else if frag_edge(*a2, base + 1 + alloc_count(*a1), p, sym, t) {
                lemma_frag_edge_range(*a2, base + 1 + alloc_count(*a1), p, sym, t);
            }
        },
        Ast::Star(a) => {
            if frag_edge(*a, base + 1, p, sym, t) {
                lemma_frag_edge_range(*a, base + 1, p, sym, t);
            }
        },
        Ast::Or(a1, a2) => {
            let m = base + 1 + alloc_count(*a1);
            if frag_edge(*a1, base + 1, p, sym, t) && !(p == m - 1 && t == m) {
                lemma_frag_edge_range(*a1, base + 1, p, sym, t);
            } else if p == m - 1 && t == m + alloc_count(*a2) && frag_edge(
                *a1,
                base + 1,
                p,
                sym,
                m,
            ) {
                lemma_frag_edge_range(*a1, base + 1, p, sym, m);
            } else if frag_edge(*a2, m, p, sym, t) {
                lemma_frag_edge_range(*a2, m, p, sym, t);
            }
        },
        Ast::Optional(a) => {
            if frag_edge(*a, base + 1, p, sym, t) {
                lemma_frag_edge_range(*a, base + 1, p, sym, t);
            }
        },
        Ast::Range(a, min, max) => {
            let lo = if min >= 0 { min as nat } else { 0 };
            let hi = if max >= min { (max - min) as nat } else { 0 };
            let c = alloc_count(*a) as int;
            if rep_edges(*a, base + 1, lo, p, sym, t) {
                lemma_rep_edges_range(*a, base + 1, lo, p, sym, t);
                assert(lo * (c + 1) <= lo * (c + 1) + hi * (c + 2)) by (nonlinear_arith)
                    requires
                        hi >= 0 && c >= 0,
                ;
            } else if opt_edges(*a, base + 1 + lo * (c + 1), hi, p, sym, t) {
                lemma_opt_edges_range(*a, base + 1 + lo * (c + 1), hi, p, sym, t);
                assert(lo * (c + 1) >= 0 && lo * (c + 1) + hi * (c + 2) >= lo * (c + 1)) by (
                nonlinear_arith)
                    requires
                        lo >= 0 && hi >= 0 && c >= 0,
                ;
            }
        },
    }
}

proof fn lemma_rep_edges_range(a: Ast, b: int, k: nat, p: int, sym: Symbol, t: int)
    requires
        rep_edges(a, b, k, p, sym, t),
    ensures
        b <= p < b + k * (alloc_count(a) + 1),
        b <= t <= b + k * (alloc_count(a) + 1),
    decreases a, k, 1nat,
{
    let c = alloc_count(a) as int;
    assert(k * (c + 1) == (k - 1) * (c + 1) + (c + 1)) by (nonlinear_arith)
        requires
            k >= 1 && c >= 0,
    ;
    assert((k - 1) * (c + 1) >= 0) by (nonlinear_arith)
        requires
            k >= 1 && c >= 0,
    ;
    if frag_edge(a, b, p, sym, t) {
        lemma_frag_edge_range(a, b, p, sym, t);
    } else if p == b + c && sym == Symbol(EPSILON) && t == b + c + 1 {
    } else {
        lemma_rep_edges_range(a, b + c + 1, (k - 1) as nat, p, sym, t);
    }
}

proof fn lemma_opt_edges_range(a: Ast, b: int, k: nat, p: int, sym: Symbol, t: int)
    requires
        opt_edges(a, b, k, p, sym, t),
    ensures
        b <= p < b + k * (alloc_count(a) + 2),
        b <= t <= b + k * (alloc_count(a) + 2),
    decreases a, k, 1nat,
{
    let c = alloc_count(a) as int;
    assert(k * (c + 2) == (k - 1) * (c + 2) + (c + 2)) by (nonlinear_arith)
        requires
            k >= 1 && c >= 0,
    ;
    assert((k - 1) * (c + 2) >= 0) by (nonlinear_arith)
        requires
            k >= 1 && c >= 0,
    ;
    if p == b && sym == Symbol(EPSILON) && (t == b + 1 || t == b + 1 + c) {
    } else if frag_edge(a, b + 1, p, sym, t) {
        lemma_frag_edge_range(a, b + 1, p, sym, t);
    } else if p == b + 1 + c && sym == Symbol(EPSILON) && t == b + 2 + c {
    } else {
        lemma_opt_edges_range(a, b + c + 2, (k - 1) as nat, p, sym, t);
    }
}

/// The arena has an edge `p --sym--> t`, by state indices.
pub open spec fn arena_edge_idx(acc: NextElems, p: int, sym: Symbol, t: int) -> bool {
    exists|k: int|
        0 <= k < acc@[p]@.len() && (#[trigger] acc@[p]@[k]).0 == sym && acc@[p]@[k].1@.contains(
            State(t as usize),
        )
}

/// The arena rows from `base` to `base + alloc_count(ast)` carry exactly the
/// fragment's edges.
pub open spec fn region_matches(acc: NextElems, ast: Ast, base: int) -> bool {
    forall|p: int, sym: Symbol, t: int|
        #![trigger frag_edge(ast, base, p, sym, t)]
        #![trigger arena_edge_idx(acc, p, sym, t)]
        base <= p < base + alloc_count(ast) && 0 <= t <= usize::MAX ==> (arena_edge_idx(
            acc,
            p,
            sym,
            t,
        ) <==> frag_edge(ast, base, p, sym, t))
}

/// The arena rows from `base` on carry exactly `k` mandatory repetitions.
pub open spec fn region_matches_rep(acc: NextElems, a: Ast, base: int, k: nat) -> bool {
    forall|p: int, sym: Symbol, t: int|
        #![trigger rep_edges(a, base, k, p, sym, t)]
        #![trigger arena_edge_idx(acc, p, sym, t)]
        base <= p < base + k * (alloc_count(a) + 1) && 0 <= t <= usize::MAX ==> (arena_edge_idx(
            acc,
            p,
            sym,
            t,
        ) <==> rep_edges(a, base, k, p, sym, t))
}

/// The arena rows from `base` on carry exactly `k` optional repetitions.
pub open spec fn region_matches_opt(acc: NextElems, a: Ast, base: int, k: nat) -> bool {
    forall|p: int, sym: Symbol, t: int|
        #![trigger opt_edges(a, base, k, p, sym, t)]
        #![trigger arena_edge_idx(acc, p, sym, t)]
        base <= p < base + k * (alloc_count(a) + 2) && 0 <= t <= usize::MAX ==> (arena_edge_idx(
            acc,
            p,
            sym,
            t,
        ) <==> opt_edges(a, base, k, p, sym, t))
}

/// Allocate one state whose transitions are `symbol -> next`, returning its id.
///
/// The targets may point up to one state past the current end of the arena.
pub fn new_node(acc: &mut NextElems, symbol: Symbol, next: Vec<State>) -> (r: State)
    requires
        frag_wf(*old(acc)),
        old(acc)@.len() < usize::MAX,
        forall|j: int| 0 <= j < next@.len() ==> (#[trigger] next@[j]).0 <= old(acc)@.len() + 1,
    ensures
        r == State(old(acc)@.len() as usize),
        final(acc)@.len() == old(acc)@.len() + 1,
        forall|i: int| 0 <= i < old(acc)@.len() ==> final(acc)@[i] == old(acc)@[i],
        final(acc)@[old(acc)@.len() as int]@ =~= seq![(symbol, next)],
        frag_wf(*final(acc)),
{
    let len: State = State(acc.len());
    let mut hmap: NextElem = Vec::new();
    hmap.push((symbol, next));
    acc.push(hmap);
    len
}

/// Allocate a dummy state: an epsilon edge to the next state to be allocated.
pub fn new_dummy_node(acc: &mut NextElems) -> (r: State)
    requires
        frag_wf(*old(acc)),
        old(acc)@.len() + 1 < usize::MAX,
    ensures
        r == State(old(acc)@.len() as usize),
        final(acc)@.len() == old(acc)@.len() + 1,
        forall|i: int| 0 <= i < old(acc)@.len() ==> final(acc)@[i] == old(acc)@[i],
        final(acc)@[old(acc)@.len() as int]@.len() == 1,
        final(acc)@[old(acc)@.len() as int]@[0].0 == Symbol(EPSILON),
        final(acc)@[old(acc)@.len() as int]@[0].1@ =~= seq![State((old(acc)@.len() + 1) as usize)],
        has_eps_entry(final(acc)@[old(acc)@.len() as int]),
        frag_wf(*final(acc)),
{
    let target: usize = acc.len() + 1;
    let mut targets: Vec<State> = Vec::new();
    targets.push(State(target));
    let r = new_node(acc, Symbol::null(), targets);
    assert(acc@[old(acc)@.len() as int]@[0].0 == Symbol(EPSILON));
    r
}

/// Add an epsilon edge `from -> to` to a state that already has an epsilon entry.
pub fn add_e_transfer(acc: &mut NextElems, from: State, to: State)
    requires
        frag_wf(*old(acc)),
        from.0 < old(acc)@.len(),
        to.0 <= old(acc)@.len(),
        has_eps_entry(old(acc)@[from.0 as int]),
    ensures
        final(acc)@.len() == old(acc)@.len(),
        forall|i: int| 0 <= i < final(acc)@.len() && i != from.0 ==> final(acc)@[i] == old(acc)@[i],
        final(acc)@[from.0 as int]@.len() == old(acc)@[from.0 as int]@.len(),
        forall|k: int|
            0 <= k < final(acc)@[from.0 as int]@.len() ==> (#[trigger] final(acc)@[from.0 as int]@[k]).0
                == old(acc)@[from.0 as int]@[k].0,
        // exactly one entry changes: the first epsilon entry gains `to` at its
        // end, every other entry keeps its targets
        exists|k: int|
            #![trigger old(acc)@[from.0 as int]@[k]]
            0 <= k < old(acc)@[from.0 as int]@.len() && old(acc)@[from.0 as int]@[k].0 == Symbol(
                EPSILON,
            ) && final(acc)@[from.0 as int]@[k].1@ == old(acc)@[from.0 as int]@[k].1@.push(to)
                && (forall|kk: int|
                0 <= kk < old(acc)@[from.0 as int]@.len() && kk != k
                    ==> #[trigger] final(acc)@[from.0 as int]@[kk] == old(acc)@[from.0 as int]@[kk]),
        frag_wf(*final(acc)),
        has_eps_entry(final(acc)@[from.0 as int]),
        arena_edge(*final(acc), from, Symbol(EPSILON), to),
{
    let n = acc[from.0].len();
    let mut k: usize = 0;
    while k < n && acc[from.0][k].0.0 != EPSILON
        invariant
            *acc == *old(acc),
            n == acc@[from.0 as int]@.len(),
            from.0 < acc@.len(),
            k <= n,
            exists|m: int|
                k <= m < n && (#[trigger] acc@[from.0 as int]@[m]).0 == Symbol(EPSILON),
        decreases n - k,
    {
        k += 1;
        assert(exists|m: int|
            k <= m < n && (#[trigger] acc@[from.0 as int]@[m]).0 == Symbol(EPSILON));
    }
    assert(k < n && acc@[from.0 as int]@[k as int].0 == Symbol(EPSILON));
    let ghost row_before = acc@[from.0 as int];
    acc[from.0][k].1.push(to);
    assert(acc@[from.0 as int]@[k as int].1@.contains(to)) by {
        assert(acc@[from.0 as int]@[k as int].1@.last() == to);
    }
    proof {
        assert(acc@[from.0 as int]@[k as int].1@ == row_before@[k as int].1@.push(to));
        assert(forall|kk: int|
            0 <= kk < row_before@.len() && kk != k ==> #[trigger] acc@[from.0 as int]@[kk]
                == row_before@[kk]);
    }
}

/// `t` unless it equals `from`, in which case `to`.
pub open spec fn retarget(t: State, from: State, to: State) -> State {
    if t == from {
        to
    } else {
        t
    }
}

/// Rewrite every edge of state `state` that points at `from` to point at `to`
/// instead: backpatching a forward reference once its true id is known.
pub fn backpatch(acc: &mut NextElems, state: State, from: State, to: State)
    requires
        frag_wf(*old(acc)),
        state.0 < old(acc)@.len(),
        to.0 <= old(acc)@.len(),
    ensures
        final(acc)@.len() == old(acc)@.len(),
        forall|i: int| 0 <= i < final(acc)@.len() && i != state.0 ==> final(acc)@[i] == old(acc)@[i],
        final(acc)@[state.0 as int]@.len() == old(acc)@[state.0 as int]@.len(),
        forall|k: int|
            0 <= k < final(acc)@[state.0 as int]@.len()
                ==> (#[trigger] final(acc)@[state.0 as int]@[k]).0
                    == old(acc)@[state.0 as int]@[k].0
                && final(acc)@[state.0 as int]@[k].1@.len()
                    == old(acc)@[state.0 as int]@[k].1@.len(),
        forall|k: int, j: int|
            0 <= k < final(acc)@[state.0 as int]@.len()
                && 0 <= j < (#[trigger] final(acc)@[state.0 as int]@[k]).1@.len()
                ==> #[trigger] final(acc)@[state.0 as int]@[k].1@[j]
                    == retarget(old(acc)@[state.0 as int]@[k].1@[j], from, to),
        frag_wf(*final(acc)),
{
    let s = state.0;
    let n = acc[s].len();
    let mut k: usize = 0;
    while k < n
        invariant
            frag_wf(*acc),
            s < acc@.len(),
            acc@.len() == old(acc)@.len(),
            to.0 <= acc@.len(),
            n == acc@[s as int]@.len(),
            n == old(acc)@[s as int]@.len(),
            k <= n,
            forall|i: int| 0 <= i < acc@.len() && i != s ==> acc@[i] == old(acc)@[i],
            forall|kk: int|
                0 <= kk < n ==> (#[trigger] acc@[s as int]@[kk]).0 == old(acc)@[s as int]@[kk].0
                    && acc@[s as int]@[kk].1@.len() == old(acc)@[s as int]@[kk].1@.len(),
            forall|kk: int, j: int|
                0 <= kk < n && 0 <= j < acc@[s as int]@[kk].1@.len() ==> #[trigger] acc@[s as int]@[kk].1@[j]
                    == if kk < k {
                    retarget(old(acc)@[s as int]@[kk].1@[j], from, to)
                } else {
                    old(acc)@[s as int]@[kk].1@[j]
                },
        decreases n - k,
    {
        let m = acc[s][k].1.len();
        let mut j: usize = 0;
        while j < m
            invariant
                frag_wf(*acc),
                s < acc@.len(),
                acc@.len() == old(acc)@.len(),
                to.0 <= acc@.len(),
                n == acc@[s as int]@.len(),
                n == old(acc)@[s as int]@.len(),
                k < n,
                m == acc@[s as int]@[k as int].1@.len(),
                j <= m,
                forall|i: int| 0 <= i < acc@.len() && i != s ==> acc@[i] == old(acc)@[i],
                forall|kk: int|
                    0 <= kk < n ==> (#[trigger] acc@[s as int]@[kk]).0 == old(acc)@[s as int]@[kk].0
                        && acc@[s as int]@[kk].1@.len() == old(acc)@[s as int]@[kk].1@.len(),
                forall|kk: int, jj: int|
                    0 <= kk < n && 0 <= jj < acc@[s as int]@[kk].1@.len() ==> #[trigger] acc@[s as int]@[kk].1@[jj]
                        == if kk < k || (kk == k && jj < j) {
                        retarget(old(acc)@[s as int]@[kk].1@[jj], from, to)
                    } else {
                        old(acc)@[s as int]@[kk].1@[jj]
                    },
            decreases m - j,
        {
            if acc[s][k].1[j].0 == from.0 {
                acc[s][k].1[j] = to;
            }
            j += 1;
        }
        k += 1;
    }
}

/// Rows equal between two arenas carry the same edges.
proof fn lemma_row_same_edges(acc1: NextElems, acc2: NextElems, p: int)
    requires
        0 <= p < acc1@.len(),
        0 <= p < acc2@.len(),
        acc2@[p] == acc1@[p],
    ensures
        forall|sym: Symbol, t: int|
            #![trigger arena_edge_idx(acc2, p, sym, t)]
            arena_edge_idx(acc2, p, sym, t) == arena_edge_idx(acc1, p, sym, t),
{
}

/// A fragment region left untouched keeps matching its fragment.
proof fn lemma_region_preserved(acc1: NextElems, acc2: NextElems, ast: Ast, base: int)
    requires
        region_matches(acc1, ast, base),
        0 <= base,
        base + alloc_count(ast) <= acc1@.len(),
        base + alloc_count(ast) <= acc2@.len(),
        forall|p: int| base <= p < base + alloc_count(ast) ==> #[trigger] acc2@[p] == acc1@[p],
    ensures
        region_matches(acc2, ast, base),
{
    assert forall|p: int, sym: Symbol, t: int|
        base <= p < base + alloc_count(ast) && 0 <= t <= usize::MAX implies (arena_edge_idx(
        acc2,
        p,
        sym,
        t,
    ) <==> frag_edge(ast, base, p, sym, t)) by {
        lemma_row_same_edges(acc1, acc2, p);
    }
}

/// A repetition region left untouched keeps matching its repetitions.
proof fn lemma_region_preserved_rep(acc1: NextElems, acc2: NextElems, a: Ast, base: int, k: nat)
    requires
        region_matches_rep(acc1, a, base, k),
        0 <= base,
        base + k * (alloc_count(a) + 1) <= acc1@.len(),
        base + k * (alloc_count(a) + 1) <= acc2@.len(),
        forall|p: int|
            base <= p < base + k * (alloc_count(a) + 1) ==> #[trigger] acc2@[p] == acc1@[p],
    ensures
        region_matches_rep(acc2, a, base, k),
{
    assert forall|p: int, sym: Symbol, t: int|
        base <= p < base + k * (alloc_count(a) + 1) && 0 <= t <= usize::MAX implies (
    arena_edge_idx(acc2, p, sym, t) <==> rep_edges(a, base, k, p, sym, t)) by {
        lemma_row_same_edges(acc1, acc2, p);
    }
}

/// Retargeting one row's edges maps its edge set exactly.
proof fn lemma_row_retarget(e1: NextElem, e2: NextElem, from: State, to: State)
    requires
        from != to,
        e2@.len() == e1@.len(),
        forall|k: int| 0 <= k < e2@.len() ==> (#[trigger] e2@[k]).0 == e1@[k].0,
        forall|k: int|
            0 <= k < e2@.len() ==> (#[trigger] e2@[k]).1@.len() == e1@[k].1@.len(),
        forall|k: int, j: int|
            #![trigger e2@[k].1@[j]]
            0 <= k < e2@.len() && 0 <= j < e2@[k].1@.len() ==> e2@[k].1@[j] == retarget(
                e1@[k].1@[j],
                from,
                to,
            ),
    ensures
        forall|sym: Symbol, x: State|
            #![trigger row_edge(e2, sym, x)]
            row_edge(e2, sym, x) <==> ((x == to && (row_edge(e1, sym, from) || row_edge(
                e1,
                sym,
                to,
            ))) || (x != to && x != from && row_edge(e1, sym, x))),
{
    assert forall|sym: Symbol, x: State|
        row_edge(e2, sym, x) implies ((x == to && (row_edge(e1, sym, from) || row_edge(
        e1,
        sym,
        to,
    ))) || (x != to && x != from && row_edge(e1, sym, x))) by {
        let k = choose|k: int|
            0 <= k < e2@.len() && (#[trigger] e2@[k]).0 == sym && e2@[k].1@.contains(x);
        let j = choose|j: int| 0 <= j < e2@[k].1@.len() && e2@[k].1@[j] == x;
        assert(e2@[k].1@[j] == retarget(e1@[k].1@[j], from, to));
        if e1@[k].1@[j] == from {
            assert(x == to);
            assert(e1@[k].1@.contains(from));
        } else {
            assert(x == e1@[k].1@[j] && x != from);
            assert(e1@[k].1@.contains(x));
        }
    }
    assert forall|sym: Symbol, x: State|
        ((x == to && (row_edge(e1, sym, from) || row_edge(e1, sym, to))) || (x != to && x != from
            && row_edge(e1, sym, x))) implies row_edge(e2, sym, x) by {
        if x == to && row_edge(e1, sym, from) {
            let k = choose|k: int|
                0 <= k < e1@.len() && (#[trigger] e1@[k]).0 == sym && e1@[k].1@.contains(from);
            let j = choose|j: int| 0 <= j < e1@[k].1@.len() && e1@[k].1@[j] == from;
            assert(e2@[k].1@[j] == to);
            assert(e2@[k].1@.contains(to));
        } else if x == to && row_edge(e1, sym, to) {
            let k = choose|k: int|
                0 <= k < e1@.len() && (#[trigger] e1@[k]).0 == sym && e1@[k].1@.contains(to);
            let j = choose|j: int| 0 <= j < e1@[k].1@.len() && e1@[k].1@[j] == to;
            assert(e2@[k].1@[j] == to);
            assert(e2@[k].1@.contains(to));
        } else if x != to && x != from && row_edge(e1, sym, x) {
            let k = choose|k: int|
                0 <= k < e1@.len() && (#[trigger] e1@[k]).0 == sym && e1@[k].1@.contains(x);
            let j = choose|j: int| 0 <= j < e1@[k].1@.len() && e1@[k].1@[j] == x;
            assert(e2@[k].1@[j] == x);
            assert(e2@[k].1@.contains(x));
        }
    }
}

/// The row has an edge on `sym` to `x`.
pub open spec fn row_edge(e: NextElem, sym: Symbol, x: State) -> bool {
    exists|k: int| 0 <= k < e@.len() && (#[trigger] e@[k]).0 == sym && e@[k].1@.contains(x)
}

/// Translating any syntax tree allocates at least one state (the entry dummy).
proof fn lemma_alloc_count_pos(ast: Ast)
    ensures
        alloc_count(ast) >= 1,
{
    match ast {
        Ast::Terminal(_) => {},
        Ast::Cons(a1, a2) => {},
        Ast::Star(a) => {},
        Ast::Or(a1, a2) => {},
        Ast::Optional(a) => {},
        Ast::Range(a, min, max) => {},
    }
}

/// Translate one syntax tree, appending its fragment to the arena.
///
/// Returns the fragment's entry state (a dummy that always carries an epsilon
/// entry) and its exit state, which is the last state allocated globally when
/// the translation finishes. Edges out of the exit point one past the arena's
/// end until the caller allocates the next state. The fragment's edges are
/// pinned exactly: the new region carries precisely the per-construct
/// Thompson shape of the tree.
#[verifier::rlimit(100)]
fn parse_rec(ast: &Ast, acc: &mut NextElems) -> (r: (State, State))
    requires
        frag_wf(*old(acc)),
        old(acc)@.len() + alloc_count(*ast) + 1 < usize::MAX,
    ensures
        final(acc)@.len() == old(acc)@.len() + alloc_count(*ast),
        forall|i: int| 0 <= i < old(acc)@.len() ==> final(acc)@[i] == old(acc)@[i],
        frag_wf(*final(acc)),
        r.0 == State(old(acc)@.len() as usize),
        r.1.0 == final(acc)@.len() - 1,
        has_eps_entry(final(acc)@[r.0.0 as int]),
        region_matches(*final(acc), *ast, old(acc)@.len() as int),
    decreases *ast, 0nat,
{
    proof {
        lemma_alloc_count_pos(*ast);
    }
    let ghost base = old(acc)@.len() as int;
    let start = new_dummy_node(acc);
    match ast {
        Ast::Terminal(id) => {
            let mut targets: Vec<State> = Vec::new();
            targets.push(State(start.0 + 2));
            new_node(acc, *id, targets);
            proof {
                assert(acc@[base]@.len() == 1 && acc@[base]@[0].0 == Symbol(EPSILON)
                    && acc@[base]@[0].1@ =~= seq![State((base + 1) as usize)]);
                assert(acc@[base + 1]@.len() == 1 && acc@[base + 1]@[0].0 == *id
                    && acc@[base + 1]@[0].1@ =~= seq![State((base + 2) as usize)]);
                assert forall|p: int, sym: Symbol, t: int|
                    base <= p < base + alloc_count(*ast) && 0 <= t <= usize::MAX implies (
                arena_edge_idx(*acc, p, sym, t) <==> frag_edge(*ast, base, p, sym, t)) by {
                    if p == base {
                        assert(arena_edge_idx(*acc, p, sym, t) <==> (sym == Symbol(EPSILON) && t
                            == base + 1)) by {
                            if arena_edge_idx(*acc, p, sym, t) {
                                let k = choose|k: int|
                                    0 <= k < acc@[p]@.len() && (#[trigger] acc@[p]@[k]).0 == sym
                                        && acc@[p]@[k].1@.contains(State(t as usize));
                                assert(State(t as usize) == State((base + 1) as usize));
                            }
                            if sym == Symbol(EPSILON) && t == base + 1 {
                                assert(acc@[p]@[0].1@[0] == State(t as usize));
                                assert(acc@[p]@[0].1@.contains(State(t as usize)));
                            }
                        }
                    } else {
                        assert(p == base + 1);
                        assert(arena_edge_idx(*acc, p, sym, t) <==> (sym == *id && t == base + 2))
                            by {
                            if arena_edge_idx(*acc, p, sym, t) {
                                let k = choose|k: int|
                                    0 <= k < acc@[p]@.len() && (#[trigger] acc@[p]@[k]).0 == sym
                                        && acc@[p]@[k].1@.contains(State(t as usize));
                                assert(State(t as usize) == State((base + 2) as usize));
                            }
                            if sym == *id && t == base + 2 {
                                assert(acc@[p]@[0].1@[0] == State(t as usize));
                                assert(acc@[p]@[0].1@.contains(State(t as usize)));
                            }
                        }
                    }
                }
            }
        },
        Ast::Cons(a1, a2) => {
            proof {
                lemma_alloc_count_pos(**a1);
                lemma_alloc_count_pos(**a2);
            }
            parse_rec(&**a1, acc);
            let ghost acc1 = *acc;
            parse_rec(&**a2, acc);
            proof {
                let c1 = alloc_count(**a1) as int;
                let c2 = alloc_count(**a2) as int;
                lemma_region_preserved(acc1, *acc, **a1, base + 1);
                assert(acc@[base]@.len() == 1 && acc@[base]@[0].0 == Symbol(EPSILON)
                    && acc@[base]@[0].1@ =~= seq![State((base + 1) as usize)]);
                assert forall|p: int, sym: Symbol, t: int|
                    base <= p < base + alloc_count(*ast) && 0 <= t <= usize::MAX implies (
                arena_edge_idx(*acc, p, sym, t) <==> frag_edge(*ast, base, p, sym, t)) by {
                    if p == base {
                        if arena_edge_idx(*acc, p, sym, t) {
                            let k = choose|k: int|
                                0 <= k < acc@[p]@.len() && (#[trigger] acc@[p]@[k]).0 == sym
                                    && acc@[p]@[k].1@.contains(State(t as usize));
                            assert(State(t as usize) == State((base + 1) as usize));
                        }
                        if sym == Symbol(EPSILON) && t == base + 1 {
                            assert(acc@[p]@[0].1@[0] == State(t as usize));
                            assert(acc@[p]@[0].1@.contains(State(t as usize)));
                        }
                        if frag_edge(**a1, base + 1, p, sym, t) {
                            lemma_frag_edge_range(**a1, base + 1, p, sym, t);
                        }
                        if frag_edge(**a2, base + 1 + c1, p, sym, t) {
                            lemma_frag_edge_range(**a2, base + 1 + c1, p, sym, t);
                        }
                    } else if p < base + 1 + c1 {
                        if frag_edge(**a2, base + 1 + c1, p, sym, t) {
                            lemma_frag_edge_range(**a2, base + 1 + c1, p, sym, t);
                        }
                    } else {
                        if frag_edge(**a1, base + 1, p, sym, t) {
                            lemma_frag_edge_range(**a1, base + 1, p, sym, t);
                        }
                    }
                }
            }
        },
        Ast::Star(a) => {
            parse_rec(&**a, acc);
            let ghost acc_a = *acc;
            let end = new_dummy_node(acc);
            add_e_transfer(acc, end, start);  // might return
            add_e_transfer(acc, start, end);  // might skip
            proof {
                let ca = alloc_count(**a) as int;
                let e = base + 1 + ca;
                assert(forall|p: int|
                    base + 1 <= p < base + 1 + ca ==> #[trigger] acc@[p] == acc_a@[p]);
                lemma_region_preserved(acc_a, *acc, **a, base + 1);
                assert(acc@[base]@.len() == 1 && acc@[base]@[0].0 == Symbol(EPSILON)
                    && acc@[base]@[0].1@ =~= seq![State((base + 1) as usize), State(e as usize)]);
                assert(acc@[e]@.len() == 1 && acc@[e]@[0].0 == Symbol(EPSILON) && acc@[e]@[0].1@
                    =~= seq![State((e + 1) as usize), State(base as usize)]);
                assert forall|p: int, sym: Symbol, t: int|
                    base <= p < base + alloc_count(*ast) && 0 <= t <= usize::MAX implies (
                arena_edge_idx(*acc, p, sym, t) <==> frag_edge(*ast, base, p, sym, t)) by {
                    if p == base {
                        if arena_edge_idx(*acc, p, sym, t) {
                            let k = choose|k: int|
                                0 <= k < acc@[p]@.len() && (#[trigger] acc@[p]@[k]).0 == sym
                                    && acc@[p]@[k].1@.contains(State(t as usize));
                            let j = choose|j: int|
                                0 <= j < acc@[p]@[k].1@.len() && acc@[p]@[k].1@[j] == State(
                                    t as usize,
                                );
                        }
                        if sym == Symbol(EPSILON) && t == base + 1 {
                            assert(acc@[p]@[0].1@[0] == State(t as usize));
                            assert(acc@[p]@[0].1@.contains(State(t as usize)));
                        }
                        if sym == Symbol(EPSILON) && t == e {
                            assert(acc@[p]@[0].1@[1] == State(t as usize));
                            assert(acc@[p]@[0].1@.contains(State(t as usize)));
                        }
                        if frag_edge(**a, base + 1, p, sym, t) {
                            lemma_frag_edge_range(**a, base + 1, p, sym, t);
                        }
                    } else if p < e {
                        if frag_edge(**a, base + 1, p, sym, t) {
                            lemma_frag_edge_range(**a, base + 1, p, sym, t);
                        }
                    } else {
                        assert(p == e);
                        if arena_edge_idx(*acc, p, sym, t) {
                            let k = choose|k: int|
                                0 <= k < acc@[p]@.len() && (#[trigger] acc@[p]@[k]).0 == sym
                                    && acc@[p]@[k].1@.contains(State(t as usize));
                            let j = choose|j: int|
                                0 <= j < acc@[p]@[k].1@.len() && acc@[p]@[k].1@[j] == State(
                                    t as usize,
                                );
                        }
                        if sym == Symbol(EPSILON) && t == e + 1 {
                            assert(acc@[p]@[0].1@[0] == State(t as usize));
                            assert(acc@[p]@[0].1@.contains(State(t as usize)));
                        }
                        if sym == Symbol(EPSILON) && t == base {
                            assert(acc@[p]@[0].1@[1] == State(t as usize));
                            assert(acc@[p]@[0].1@.contains(State(t as usize)));
                        }
                        if frag_edge(**a, base + 1, p, sym, t) {
                            lemma_frag_edge_range(**a, base + 1, p, sym, t);
                        }
                    }
                }
            }
        },
        Ast::Or(a1, a2) => {
            proof {
                lemma_alloc_count_pos(**a1);
                lemma_alloc_count_pos(**a2);
            }
            let (_, a1_end) = parse_rec(&**a1, acc);
            let ghost acc1 = *acc;
            let (a2_start, _) = parse_rec(&**a2, acc);
            let ghost acc_a2 = *acc;
            let end = new_dummy_node(acc);
            let ghost acc2 = *acc;
            backpatch(acc, a1_end, a2_start, end);  // a1 should continue after a2's end
            add_e_transfer(acc, start, a2_start);  // make start skip to a2
            proof {
                let c1 = alloc_count(**a1) as int;
                let c2 = alloc_count(**a2) as int;
                let m = base + 1 + c1;
                let e = m + c2;
                assert(a1_end == State((m - 1) as usize) && a2_start == State(m as usize) && end
                    == State(e as usize));
                // the a1 region, except its patched exit row, is unchanged
                lemma_region_preserved(acc1, acc2, **a1, base + 1);
                assert(forall|p: int| base + 1 <= p < m - 1 ==> #[trigger] acc@[p] == acc2@[p]);
                // the a2 region is unchanged by the later steps
                assert(forall|p: int| m <= p < m + c2 ==> #[trigger] acc@[p] == acc_a2@[p]);
                lemma_region_preserved(acc_a2, *acc, **a2, m);
                assert(acc@[base]@.len() == 1 && acc@[base]@[0].0 == Symbol(EPSILON)
                    && acc@[base]@[0].1@ =~= seq![State((base + 1) as usize), State(m as usize)]);
                assert(acc@[e]@.len() == 1 && acc@[e]@[0].0 == Symbol(EPSILON) && acc@[e]@[0].1@
                    =~= seq![State((e + 1) as usize)]);
                lemma_row_retarget(acc2@[m - 1], acc@[m - 1], a2_start, end);
                assert forall|p: int, sym: Symbol, t: int|
                    base <= p < base + alloc_count(*ast) && 0 <= t <= usize::MAX implies (
                arena_edge_idx(*acc, p, sym, t) <==> frag_edge(*ast, base, p, sym, t)) by {
                    if frag_edge(**a1, base + 1, p, sym, t) {
                        lemma_frag_edge_range(**a1, base + 1, p, sym, t);
                    }
                    if frag_edge(**a2, m, p, sym, t) {
                        lemma_frag_edge_range(**a2, m, p, sym, t);
                    }
                    if p == base {
                        if arena_edge_idx(*acc, p, sym, t) {
                            let k = choose|k: int|
                                0 <= k < acc@[p]@.len() && (#[trigger] acc@[p]@[k]).0 == sym
                                    && acc@[p]@[k].1@.contains(State(t as usize));
                            let j = choose|j: int|
                                0 <= j < acc@[p]@[k].1@.len() && acc@[p]@[k].1@[j] == State(
                                    t as usize,
                                );
                        }
                        if sym == Symbol(EPSILON) && t == base + 1 {
                            assert(acc@[p]@[0].1@[0] == State(t as usize));
                            assert(acc@[p]@[0].1@.contains(State(t as usize)));
                        }
                        if sym == Symbol(EPSILON) && t == m {
                            assert(acc@[p]@[0].1@[1] == State(t as usize));
                            assert(acc@[p]@[0].1@.contains(State(t as usize)));
                        }
                        if p == m - 1 && frag_edge(**a1, base + 1, p, sym, m) {
                            lemma_frag_edge_range(**a1, base + 1, p, sym, m);
                        }
                    } else if p == m - 1 {
                        // the patched exit row of a1
                        assert(arena_edge_idx(*acc, p, sym, t) == row_edge(acc@[p], sym, State(
                            t as usize,
                        )));
                        assert(arena_edge_idx(acc2, p, sym, t) == row_edge(acc2@[p], sym, State(
                            t as usize,
                        )));
                        if frag_edge(**a1, base + 1, p, sym, m) {
                            lemma_frag_edge_range(**a1, base + 1, p, sym, m);
                        }
                        assert(State(t as usize) == end <==> t == e);
                        assert(State(t as usize) == a2_start <==> t == m);
                        if t == e {
                            assert(!(arena_edge_idx(acc2, p, sym, e)
                                || frag_edge(**a1, base + 1, p, sym, e))) by {
                                if frag_edge(**a1, base + 1, p, sym, e) {
                                    lemma_frag_edge_range(**a1, base + 1, p, sym, e);
                                }
                                if arena_edge_idx(acc2, p, sym, e) {
                                    assert(frag_edge(**a1, base + 1, p, sym, e));
                                }
                            }
                        }
                    } else if p < m - 1 {
                        lemma_row_same_edges(acc2, *acc, p);
                    } else if p < e {
                        // a2's region
                    } else {
                        assert(p == e);
                        if arena_edge_idx(*acc, p, sym, t) {
                            let k = choose|k: int|
                                0 <= k < acc@[p]@.len() && (#[trigger] acc@[p]@[k]).0 == sym
                                    && acc@[p]@[k].1@.contains(State(t as usize));
                            assert(State(t as usize) == State((e + 1) as usize));
                        }
                        if sym == Symbol(EPSILON) && t == e + 1 {
                            assert(acc@[p]@[0].1@[0] == State(t as usize));
                            assert(acc@[p]@[0].1@.contains(State(t as usize)));
                        }
                    }
                }
            }
        },
        Ast::Optional(a) => {
            parse_rec(&**a, acc);
            let ghost acc_a = *acc;
            let end = new_dummy_node(acc);
            add_e_transfer(acc, start, end);  // might skip
            proof {
                let ca = alloc_count(**a) as int;
                let e = base + 1 + ca;
                assert(forall|p: int|
                    base + 1 <= p < base + 1 + ca ==> #[trigger] acc@[p] == acc_a@[p]);
                lemma_region_preserved(acc_a, *acc, **a, base + 1);
                assert(acc@[base]@.len() == 1 && acc@[base]@[0].0 == Symbol(EPSILON)
                    && acc@[base]@[0].1@ =~= seq![State((base + 1) as usize), State(e as usize)]);
                assert(acc@[e]@.len() == 1 && acc@[e]@[0].0 == Symbol(EPSILON) && acc@[e]@[0].1@
                    =~= seq![State((e + 1) as usize)]);
                assert forall|p: int, sym: Symbol, t: int|
                    base <= p < base + alloc_count(*ast) && 0 <= t <= usize::MAX implies (
                arena_edge_idx(*acc, p, sym, t) <==> frag_edge(*ast, base, p, sym, t)) by {
                    if frag_edge(**a, base + 1, p, sym, t) {
                        lemma_frag_edge_range(**a, base + 1, p, sym, t);
                    }
                    if p == base {
                        if arena_edge_idx(*acc, p, sym, t) {
                            let k = choose|k: int|
                                0 <= k < acc@[p]@.len() && (#[trigger] acc@[p]@[k]).0 == sym
                                    && acc@[p]@[k].1@.contains(State(t as usize));
                            let j = choose|j: int|
                                0 <= j < acc@[p]@[k].1@.len() && acc@[p]@[k].1@[j] == State(
                                    t as usize,
                                );
                        }
                        if sym == Symbol(EPSILON) && t == base + 1 {
                            assert(acc@[p]@[0].1@[0] == State(t as usize));
                            assert(acc@[p]@[0].1@.contains(State(t as usize)));
                        }
                        if sym == Symbol(EPSILON) && t == e {
                            assert(acc@[p]@[0].1@[1] == State(t as usize));
                            assert(acc@[p]@[0].1@.contains(State(t as usize)));
                        }
                    } else if p == e {
                        if arena_edge_idx(*acc, p, sym, t) {
                            let k = choose|k: int|
                                0 <= k < acc@[p]@.len() && (#[trigger] acc@[p]@[k]).0 == sym
                                    && acc@[p]@[k].1@.contains(State(t as usize));
                            assert(State(t as usize) == State((e + 1) as usize));
                        }
                        if sym == Symbol(EPSILON) && t == e + 1 {
                            assert(acc@[p]@[0].1@[0] == State(t as usize));
                            assert(acc@[p]@[0].1@.contains(State(t as usize)));
                        }
                    }
                }
            }
        },
        Ast::Range(a, min, max) => {
            proof {
                lemma_alloc_count_pos(**a);
                let c = alloc_count(**a) as int;
                let lo: nat = if *min >= 0 {
                    *min as nat
                } else {
                    0
                };
                let hi: nat = if *max >= *min {
                    (*max - *min) as nat
                } else {
                    0
                };
                assert(lo * (c + 1) >= 0 && hi * (c + 2) >= 0) by (nonlinear_arith)
                    requires
                        lo >= 0 && hi >= 0 && c >= 0,
                ;
            }
            build_reps(&**a, acc, 0, *min);
            let ghost acc_rep = *acc;
            build_opts(&**a, acc, *min, *max);
            proof {
                let c = alloc_count(**a) as int;
                let lo: nat = if *min >= 0 {
                    *min as nat
                } else {
                    0
                };
                let hi: nat = if *max >= *min {
                    (*max - *min) as nat
                } else {
                    0
                };
                let ob = base + 1 + lo * (c + 1);
                assert(forall|p: int|
                    base + 1 <= p < base + 1 + lo * (c + 1) ==> #[trigger] acc@[p] == acc_rep@[p]);
                lemma_region_preserved_rep(acc_rep, *acc, **a, base + 1, lo);
                assert(acc@[base]@.len() == 1 && acc@[base]@[0].0 == Symbol(EPSILON)
                    && acc@[base]@[0].1@ =~= seq![State((base + 1) as usize)]);
                assert forall|p: int, sym: Symbol, t: int|
                    base <= p < base + alloc_count(*ast) && 0 <= t <= usize::MAX implies (
                arena_edge_idx(*acc, p, sym, t) <==> frag_edge(*ast, base, p, sym, t)) by {
                    if rep_edges(**a, base + 1, lo, p, sym, t) {
                        lemma_rep_edges_range(**a, base + 1, lo, p, sym, t);
                    }
                    if opt_edges(**a, ob, hi, p, sym, t) {
                        lemma_opt_edges_range(**a, ob, hi, p, sym, t);
                    }
                    if p == base {
                        if arena_edge_idx(*acc, p, sym, t) {
                            let k = choose|k: int|
                                0 <= k < acc@[p]@.len() && (#[trigger] acc@[p]@[k]).0 == sym
                                    && acc@[p]@[k].1@.contains(State(t as usize));
                            assert(State(t as usize) == State((base + 1) as usize));
                        }
                        if sym == Symbol(EPSILON) && t == base + 1 {
                            assert(acc@[p]@[0].1@[0] == State(t as usize));
                            assert(acc@[p]@[0].1@.contains(State(t as usize)));
                        }
                    }
                }
            }
        },
    }
    let exit = State(acc.len() - 1);
    (start, exit)
}

/// Append the mandatory repetitions of a bounded repeat, one fragment plus a
/// trailing dummy per remaining count.
#[verifier::rlimit(100)]
fn build_reps(a: &Ast, acc: &mut NextElems, cur: i32, min: i32)
    requires
        frag_wf(*old(acc)),
        old(acc)@.len() + (if min > cur {
            (min - cur) as nat
        } else {
            0
        }) * (alloc_count(*a) + 1) + 1 < usize::MAX,
    ensures
        final(acc)@.len() == old(acc)@.len() + (if min > cur {
            (min - cur) as nat
        } else {
            0
        }) * (alloc_count(*a) + 1),
        forall|i: int| 0 <= i < old(acc)@.len() ==> final(acc)@[i] == old(acc)@[i],
        frag_wf(*final(acc)),
        region_matches_rep(
            *final(acc),
            *a,
            old(acc)@.len() as int,
            if min > cur {
                (min - cur) as nat
            } else {
                0
            },
        ),
    decreases *a, (if min > cur {
        (min - cur) as int
    } else {
        0
    }), 2nat,
{
    let ghost b = old(acc)@.len() as int;
    let ghost c = alloc_count(*a) as int;
    let ghost k: nat = if min > cur {
        (min - cur) as nat
    } else {
        0
    };
    if cur < min {
        proof {
            assert(k * (c + 1) == (k - 1) * (c + 1) + (c + 1)) by (nonlinear_arith)
                requires
                    k >= 1 && c >= 0,
            ;
            assert((k - 1) * (c + 1) >= 0) by (nonlinear_arith)
                requires
                    k >= 1 && c >= 0,
            ;
        }
        parse_rec(a, acc);
        let ghost acc1 = *acc;
        new_dummy_node(acc);
        let ghost acc2 = *acc;
        build_reps(a, acc, cur + 1, min);
        proof {
            lemma_region_preserved(acc1, *acc, *a, b);
            assert(acc@[b + c]@.len() == 1 && acc@[b + c]@[0].0 == Symbol(EPSILON)
                && acc@[b + c]@[0].1@ =~= seq![State((b + c + 1) as usize)]);
            assert forall|p: int, sym: Symbol, t: int|
                b <= p < b + k * (c + 1) && 0 <= t <= usize::MAX implies (arena_edge_idx(
                *acc,
                p,
                sym,
                t,
            ) <==> rep_edges(*a, b, k, p, sym, t)) by {
                if frag_edge(*a, b, p, sym, t) {
                    lemma_frag_edge_range(*a, b, p, sym, t);
                }
                if rep_edges(*a, b + c + 1, (k - 1) as nat, p, sym, t) {
                    lemma_rep_edges_range(*a, b + c + 1, (k - 1) as nat, p, sym, t);
                }
                if p == b + c {
                    if arena_edge_idx(*acc, p, sym, t) {
                        let kk = choose|kk: int|
                            0 <= kk < acc@[p]@.len() && (#[trigger] acc@[p]@[kk]).0 == sym
                                && acc@[p]@[kk].1@.contains(State(t as usize));
                        assert(State(t as usize) == State((b + c + 1) as usize));
                    }
                    if sym == Symbol(EPSILON) && t == b + c + 1 {
                        assert(acc@[p]@[0].1@[0] == State(t as usize));
                        assert(acc@[p]@[0].1@.contains(State(t as usize)));
                    }
                }
            }
        }
    } else {
        proof {
            assert(k * (c + 1) == 0) by (nonlinear_arith)
                requires
                    k == 0 && c >= 0,
            ;
        }
    }
}

/// Append the optional repetitions of a bounded repeat: entry dummy with a
/// skip to the exit dummy, around each remaining fragment.
#[verifier::rlimit(100)]
fn build_opts(a: &Ast, acc: &mut NextElems, cur: i32, max: i32)
    requires
        frag_wf(*old(acc)),
        old(acc)@.len() + (if max > cur {
            (max - cur) as nat
        } else {
            0
        }) * (alloc_count(*a) + 2) + 1 < usize::MAX,
    ensures
        final(acc)@.len() == old(acc)@.len() + (if max > cur {
            (max - cur) as nat
        } else {
            0
        }) * (alloc_count(*a) + 2),
        forall|i: int| 0 <= i < old(acc)@.len() ==> final(acc)@[i] == old(acc)@[i],
        frag_wf(*final(acc)),
        region_matches_opt(
            *final(acc),
            *a,
            old(acc)@.len() as int,
            if max > cur {
                (max - cur) as nat
            } else {
                0
            },
        ),
    decreases *a, (if max > cur {
        (max - cur) as int
    } else {
        0
    }), 3nat,
{
    let ghost b = old(acc)@.len() as int;
    let ghost c = alloc_count(*a) as int;
    let ghost k: nat = if max > cur {
        (max - cur) as nat
    } else {
        0
    };
    if cur < max {
        proof {
            assert(k * (c + 2) == (k - 1) * (c + 2) + (c + 2)) by (nonlinear_arith)
                requires
                    k >= 1 && c >= 0,
            ;
            assert((k - 1) * (c + 2) >= 0) by (nonlinear_arith)
                requires
                    k >= 1 && c >= 0,
            ;
        }
        let n1 = new_dummy_node(acc);
        parse_rec(a, acc);
        let n2 = new_dummy_node(acc);
        add_e_transfer(acc, n1, n2);
        let ghost acc3 = *acc;
        build_opts(a, acc, cur + 1, max);
        proof {
            lemma_region_preserved(acc3, *acc, *a, b + 1);
            assert(acc@[b]@.len() == 1 && acc@[b]@[0].0 == Symbol(EPSILON) && acc@[b]@[0].1@ =~=
                seq![State((b + 1) as usize), State((b + 1 + c) as usize)]);
            assert(acc@[b + 1 + c]@.len() == 1 && acc@[b + 1 + c]@[0].0 == Symbol(EPSILON)
                && acc@[b + 1 + c]@[0].1@ =~= seq![State((b + 2 + c) as usize)]);
            assert forall|p: int, sym: Symbol, t: int|
                b <= p < b + k * (c + 2) && 0 <= t <= usize::MAX implies (arena_edge_idx(
                *acc,
                p,
                sym,
                t,
            ) <==> opt_edges(*a, b, k, p, sym, t)) by {
                if frag_edge(*a, b + 1, p, sym, t) {
                    lemma_frag_edge_range(*a, b + 1, p, sym, t);
                }
                if opt_edges(*a, b + c + 2, (k - 1) as nat, p, sym, t) {
                    lemma_opt_edges_range(*a, b + c + 2, (k - 1) as nat, p, sym, t);
                }
                if p == b {
                    if arena_edge_idx(*acc, p, sym, t) {
                        let kk = choose|kk: int|
                            0 <= kk < acc@[p]@.len() && (#[trigger] acc@[p]@[kk]).0 == sym
                                && acc@[p]@[kk].1@.contains(State(t as usize));
                        let j = choose|j: int|
                            0 <= j < acc@[p]@[kk].1@.len() && acc@[p]@[kk].1@[j] == State(
                                t as usize,
                            );
                    }
                    if sym == Symbol(EPSILON) && t == b + 1 {
                        assert(acc@[p]@[0].1@[0] == State(t as usize));
                        assert(acc@[p]@[0].1@.contains(State(t as usize)));
                    }
                    if sym == Symbol(EPSILON) && t == b + 1 + c {
                        assert(acc@[p]@[0].1@[1] == State(t as usize));
                        assert(acc@[p]@[0].1@.contains(State(t as usize)));
                    }
                } else if p == b + 1 + c {
                    if arena_edge_idx(*acc, p, sym, t) {
                        let kk = choose|kk: int|
                            0 <= kk < acc@[p]@.len() && (#[trigger] acc@[p]@[kk]).0 == sym
                                && acc@[p]@[kk].1@.contains(State(t as usize));
                        assert(State(t as usize) == State((b + 2 + c) as usize));
                    }
                    if sym == Symbol(EPSILON) && t == b + 2 + c {
                        assert(acc@[p]@[0].1@[0] == State(t as usize));
                        assert(acc@[p]@[0].1@.contains(State(t as usize)));
                    }
                }
            }
        }
    } else {
        proof {
            assert(k * (c + 2) == 0) by (nonlinear_arith)
                requires
                    k == 0 && c >= 0,
            ;
        }
    }
}

/// Translate a whole syntax tree into an NFA: Thompson construction, with the
/// initial state 0 and the single final state being the last state allocated.
///
/// The automaton is pinned exactly: its edges are precisely the syntax
/// tree's per-construct Thompson shapes, and the final state has none.
pub fn build(ast: &Ast) -> (r: NFA)
    requires
        ast_wf(*ast),
        alloc_count(*ast) + 1 < usize::MAX,
    ensures
        crate::nfa::nfa_wf(r),
        r.next@.len() == alloc_count(*ast) + 1,
        r.initials@ =~= seq![State(0)],
        r.finals@ =~= seq![State(alloc_count(*ast) as usize)],
        r.next@[alloc_count(*ast) as int]@.len() == 0,
        region_matches(r.next, *ast, 0),
{
    proof {
        lemma_alloc_count_pos(*ast);
    }
    let mut next: NextElems = Vec::new();
    parse_rec(ast, &mut next);
    let ghost pre_push = next;
    let empty_elem: NextElem = Vec::new();
    next.push(empty_elem);
    proof {
        assert(forall|p: int|
            0 <= p < alloc_count(*ast) ==> #[trigger] next@[p] == pre_push@[p]);
        lemma_region_preserved(pre_push, next, *ast, 0);
    }
    let n = next.len();
    let mut initials: Vec<State> = Vec::new();
    initials.push(State(0));
    let mut finals: Vec<State> = Vec::new();
    finals.push(State(n - 1));
    NFA { next, initials, finals }
}

} // verus!
