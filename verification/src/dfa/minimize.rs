//! DFA minimization by table-filling (Myhill-Nerode) partition refinement.
//!
//! Pairs of states are marked distinguishable (differing finality, differing
//! symbol domains, or a distinguishable successor pair) until a fixpoint; each
//! state's representative is the smallest-id state not marked against it, and
//! one state per representative survives, renumbered in ascending order.
//!
//! Minimization is proved language-preserving: the minimized automaton accepts
//! exactly the strings the original accepted, from state 0.

use vstd::prelude::*;

use crate::dfa::convert::sorted_unique;
use crate::dfa::{
    accepts_from, contains_state, lemma_index_lookup, lemma_lookup_in_range, lemma_lookup_none,
    lemma_lookup_some_exists, next_wf, step, NextElem, NextElems,
};
use crate::{State, Symbol};

verus! {

/// Both states have transitions on exactly the same symbols.
pub open spec fn same_domains(next: NextElems, i: State, j: State) -> bool {
    forall|sym: Symbol| (#[trigger] step(next, i, sym)) is Some <==> step(next, j, sym) is Some
}

/// The marking cannot tell `i` from `j` within `k` refinement rounds: equal
/// finality and, below depth `k`, equal domains with successors alike.
pub open spec fn similar(next: NextElems, finals: Vec<State>, k: nat, i: State, j: State) -> bool
    decreases k,
{
    &&& (finals@.contains(i) <==> finals@.contains(j))
    &&& (k > 0 ==> same_domains(next, i, j) && (forall|sym: Symbol|
        ((#[trigger] step(next, i, sym)) is Some && step(next, j, sym) is Some) ==> similar(
            next,
            finals,
            (k - 1) as nat,
            step(next, i, sym)->Some_0,
            step(next, j, sym)->Some_0,
        )))
}

/// The states survive every refinement round unseparated: the relation the
/// table-filling fixpoint computes, and the one merged states satisfy.
pub open spec fn mergeable(next: NextElems, finals: Vec<State>, i: State, j: State) -> bool {
    forall|k: nat| similar(next, finals, k, i, j)
}

pub proof fn lemma_similar_sym(next: NextElems, finals: Vec<State>, k: nat, i: State, j: State)
    requires
        similar(next, finals, k, i, j),
    ensures
        similar(next, finals, k, j, i),
    decreases k,
{
    if k > 0 {
        assert forall|sym: Symbol|
            ((#[trigger] step(next, j, sym)) is Some && step(next, i, sym) is Some) implies similar(
            next,
            finals,
            (k - 1) as nat,
            step(next, j, sym)->Some_0,
            step(next, i, sym)->Some_0,
        ) by {
            lemma_similar_sym(
                next,
                finals,
                (k - 1) as nat,
                step(next, i, sym)->Some_0,
                step(next, j, sym)->Some_0,
            );
        }
    }
}

pub proof fn lemma_similar_trans(
    next: NextElems,
    finals: Vec<State>,
    k: nat,
    a: State,
    b: State,
    c: State,
)
    requires
        similar(next, finals, k, a, b),
        similar(next, finals, k, b, c),
    ensures
        similar(next, finals, k, a, c),
    decreases k,
{
    if k > 0 {
        assert forall|sym: Symbol|
            ((#[trigger] step(next, a, sym)) is Some && step(next, c, sym) is Some) implies similar(
            next,
            finals,
            (k - 1) as nat,
            step(next, a, sym)->Some_0,
            step(next, c, sym)->Some_0,
        ) by {
            assert(step(next, b, sym) is Some);
            lemma_similar_trans(
                next,
                finals,
                (k - 1) as nat,
                step(next, a, sym)->Some_0,
                step(next, b, sym)->Some_0,
                step(next, c, sym)->Some_0,
            );
        }
    }
}

/// Mergeable states accept exactly the same strings.
pub proof fn lemma_mergeable_language(
    next: NextElems,
    finals: Vec<State>,
    i: State,
    j: State,
    w: Seq<Symbol>,
)
    requires
        mergeable(next, finals, i, j),
    ensures
        accepts_from(next, finals, i, w) == accepts_from(next, finals, j, w),
    decreases w.len(),
{
    if w.len() == 0 {
        assert(similar(next, finals, 0, i, j));
    } else {
        assert(similar(next, finals, 1, i, j));
        let sym = w[0];
        if step(next, i, sym) is Some {
            assert(step(next, j, sym) is Some);
            let ti = step(next, i, sym)->Some_0;
            let tj = step(next, j, sym)->Some_0;
            assert forall|k: nat| similar(next, finals, k, ti, tj) by {
                assert(similar(next, finals, k + 1, i, j));
            }
            lemma_mergeable_language(next, finals, ti, tj, w.drop_first());
        } else {
            assert(step(next, j, sym) is None);
        }
    }
}

/// Two canonical (sorted, deduplicated) state sets with the same members are
/// the same sequence.
pub proof fn lemma_sorted_unique_eq(a: Seq<State>, b: Seq<State>)
    requires
        sorted_unique(a),
        sorted_unique(b),
        forall|s: State| a.contains(s) <==> b.contains(s),
    ensures
        a == b,
    decreases a.len(),
{
    if a.len() == 0 {
        if b.len() > 0 {
            assert(b.contains(b[0]));
            assert(false);
        }
        assert(a =~= b);
    } else {
        assert(a.contains(a[0]));
        assert(b.contains(a[0]));
        assert(b.len() > 0);
        let ma = choose|m: int| 0 <= m < b.len() && b[m] == a[0];
        assert(b[0].0 <= a[0].0);
        assert(a.contains(b[0]));
        let mb = choose|m: int| 0 <= m < a.len() && a[m] == b[0];
        assert(a[0].0 <= b[0].0);
        assert(a[0] == b[0]);
        assert(sorted_unique(a.drop_first()));
        assert(sorted_unique(b.drop_first()));
        assert forall|s: State| a.drop_first().contains(s) implies b.drop_first().contains(s) by {
            let m = choose|m: int| 0 <= m < a.drop_first().len() && a.drop_first()[m] == s;
            assert(a[m + 1] == s);
            assert(b.contains(s));
            let m2 = choose|m2: int| 0 <= m2 < b.len() && b[m2] == s;
            assert(s.0 > a[0].0);
            assert(m2 > 0);
            assert(b.drop_first()[m2 - 1] == s);
        }
        assert forall|s: State| b.drop_first().contains(s) implies a.drop_first().contains(s) by {
            let m = choose|m: int| 0 <= m < b.drop_first().len() && b.drop_first()[m] == s;
            assert(b[m + 1] == s);
            assert(a.contains(s));
            let m2 = choose|m2: int| 0 <= m2 < a.len() && a[m2] == s;
            assert(s.0 > b[0].0);
            assert(m2 > 0);
            assert(a.drop_first()[m2 - 1] == s);
        }
        lemma_sorted_unique_eq(a.drop_first(), b.drop_first());
        assert(a =~= b) by {
            assert(forall|m: int|
                1 <= m < a.len() ==> #[trigger] a[m] == a.drop_first()[m - 1] && b[m]
                    == b.drop_first()[m - 1]);
        }
    }
}


/// Marking a distinguishable pair keeps the relation symmetric.
pub proof fn lemma_mergeable_sym(next: NextElems, finals: Vec<State>, i: State, j: State)
    requires
        !mergeable(next, finals, i, j),
    ensures
        !mergeable(next, finals, j, i),
{
    let k0 = choose|k: nat| !similar(next, finals, k, i, j);
    if similar(next, finals, k0, j, i) {
        lemma_similar_sym(next, finals, k0, j, i);
    }
    assert(!similar(next, finals, k0, j, i));
}

/// A square boolean matrix over the state ids.
spec fn mat_ok(m: Vec<Vec<bool>>, n: int) -> bool {
    m@.len() == n && forall|i: int| 0 <= i < n ==> (#[trigger] m@[i])@.len() == n
}

/// The marking is symmetric and never marks a state against itself.
spec fn mat_sym(m: Vec<Vec<bool>>) -> bool {
    &&& forall|i: int, j: int|
        0 <= i < m@.len() && 0 <= j < m@.len() ==> (#[trigger] m@[i]@[j]) == m@[j]@[i]
    &&& forall|i: int| 0 <= i < m@.len() ==> !(#[trigger] m@[i]@[i])
}

/// Every mark is justified: marked pairs are not mergeable.
spec fn marks_sound(next: NextElems, finals: Vec<State>, m: Vec<Vec<bool>>) -> bool {
    forall|i: int, j: int|
        0 <= i < m@.len() && 0 <= j < m@.len() && (#[trigger] m@[i]@[j]) ==> !mergeable(
            next,
            finals,
            State(i as usize),
            State(j as usize),
        )
}

/// The fixpoint condition: no unmarked pair could still be marked.
spec fn unmarked_closed(next: NextElems, finals: Vec<State>, m: Vec<Vec<bool>>) -> bool {
    forall|i: int, j: int|
        #![trigger m@[i]@[j]]
        0 <= i < m@.len() && 0 <= j < m@.len() && !m@[i]@[j] ==> pair_closed(next, finals, m, i, j)
}

/// One unmarked pair passes every check against the current marking.
spec fn pair_closed(next: NextElems, finals: Vec<State>, m: Vec<Vec<bool>>, i: int, j: int) -> bool {
    &&& (finals@.contains(State(i as usize)) <==> finals@.contains(State(j as usize)))
    &&& same_domains(next, State(i as usize), State(j as usize))
    &&& forall|sym: Symbol|
        ((#[trigger] step(next, State(i as usize), sym)) is Some && step(
            next,
            State(j as usize),
            sym,
        ) is Some) ==> !m@[step(next, State(i as usize), sym)->Some_0.0 as int]@[step(
            next,
            State(j as usize),
            sym,
        )->Some_0.0 as int]
}

/// At the fixpoint, unmarked pairs are similar at every depth.
proof fn lemma_unmarked_similar(
    next: NextElems,
    finals: Vec<State>,
    m: Vec<Vec<bool>>,
    k: nat,
    si: State,
    sj: State,
)
    requires
        next_wf(next, finals),
        mat_ok(m, next@.len() as int),
        unmarked_closed(next, finals, m),
        si.0 < m@.len(),
        sj.0 < m@.len(),
        !m@[si.0 as int]@[sj.0 as int],
    ensures
        similar(next, finals, k, si, sj),
    decreases k,
{
    let n = next@.len() as int;
    assert(pair_closed(next, finals, m, si.0 as int, sj.0 as int)) by {
        assert(State(si.0 as int as usize) == si && State(sj.0 as int as usize) == sj);
    }
    if k > 0 {
        assert forall|sym: Symbol|
            ((#[trigger] step(next, si, sym)) is Some && step(next, sj, sym) is Some) implies
        similar(
            next,
            finals,
            (k - 1) as nat,
            step(next, si, sym)->Some_0,
            step(next, sj, sym)->Some_0,
        ) by {
            let ti = step(next, si, sym)->Some_0;
            let tj = step(next, sj, sym)->Some_0;
            assert(crate::dfa::dfa_elem_wf(next@[si.0 as int], n));
            assert(crate::dfa::dfa_elem_wf(next@[sj.0 as int], n));
            lemma_lookup_in_range(next@[si.0 as int]@, sym, n);
            lemma_lookup_in_range(next@[sj.0 as int]@, sym, n);
            assert(!m@[ti.0 as int]@[tj.0 as int]);
            lemma_unmarked_similar(next, finals, m, (k - 1) as nat, ti, tj);
        }
    }
}

/// The number of unmarked cells of the matrix: the refinement's measure.
spec fn rows_unmarked(rows: Seq<Vec<bool>>) -> nat
    decreases rows.len(),
{
    if rows.len() == 0 {
        0
    } else {
        rows_unmarked(rows.drop_last()) + crate::visits::count_false(rows.last()@)
    }
}

proof fn lemma_rows_unmarked_update(rows: Seq<Vec<bool>>, i: int, row2: Vec<bool>, j: int)
    requires
        0 <= i < rows.len(),
        0 <= j < rows[i]@.len(),
        !rows[i]@[j],
        row2@ == rows[i]@.update(j, true),
    ensures
        rows_unmarked(rows.update(i, row2)) + 1 == rows_unmarked(rows),
    decreases rows.len(),
{
    if i == rows.len() - 1 {
        assert(rows.update(i, row2).drop_last() =~= rows.drop_last());
        assert(rows.update(i, row2).last() == row2);
        crate::visits::lemma_count_false_update(rows[i]@, j);
    } else {
        assert(rows.update(i, row2).drop_last() =~= rows.drop_last().update(i, row2));
        assert(rows.update(i, row2).last() == rows.last());
        assert(rows.drop_last()[i] == rows[i]);
        lemma_rows_unmarked_update(rows.drop_last(), i, row2, j);
    }
}

/// Mark the unordered pair `{i, j}` distinguishable.
fn mark_pair(m: &mut Vec<Vec<bool>>, i: usize, j: usize, Ghost(n): Ghost<int>)
    requires
        mat_ok(*old(m), n),
        mat_sym(*old(m)),
        i < old(m)@.len(),
        j < old(m)@.len(),
        i != j,
        !old(m)@[i as int]@[j as int],
    ensures
        mat_ok(*final(m), n),
        mat_sym(*final(m)),
        final(m)@[i as int]@[j as int],
        forall|a: int, b: int|
            0 <= a < final(m)@.len() && 0 <= b < final(m)@.len() && !(a == i && b == j) && !(a == j
                && b == i) ==> (#[trigger] final(m)@[a]@[b]) == old(m)@[a]@[b],
        rows_unmarked(final(m)@) + 2 == rows_unmarked(old(m)@),
{
    let ghost m0 = *m;
    m[i][j] = true;
    proof {
        assert(m@ =~= m0@.update(i as int, m@[i as int]));
        assert(m@[i as int]@ =~= m0@[i as int]@.update(j as int, true));
        lemma_rows_unmarked_update(m0@, i as int, m@[i as int], j as int);
    }
    let ghost m1 = *m;
    m[j][i] = true;
    proof {
        assert(m1@[j as int]@[i as int] == m0@[j as int]@[i as int]);
        assert(!m1@[j as int]@[i as int]);
        assert(m@ =~= m1@.update(j as int, m@[j as int]));
        assert(m@[j as int]@ =~= m1@[j as int]@.update(i as int, true));
        lemma_rows_unmarked_update(m1@, j as int, m@[j as int], i as int);
    }
}

/// Whether two transition rows are defined on exactly the same symbols.
#[verifier::loop_isolation(false)]
fn same_domains_check(a: &NextElem, b: &NextElem) -> (r: bool)
    requires
        forall|k1: int, k2: int|
            0 <= k1 < k2 < a@.len() ==> (#[trigger] a@[k1]).0 != (#[trigger] a@[k2]).0,
        forall|k1: int, k2: int|
            0 <= k1 < k2 < b@.len() ==> (#[trigger] b@[k1]).0 != (#[trigger] b@[k2]).0,
    ensures
        r == (forall|sym: Symbol|
            (#[trigger] crate::dfa::lookup(a@, sym)) is Some <==> crate::dfa::lookup(b@, sym) is Some),
{
    let alen = a.len();
    let mut k: usize = 0;
    while k < alen
        invariant
            k <= alen,
            alen == a@.len(),
            forall|kk: int|
                0 <= kk < k ==> crate::dfa::lookup(b@, (#[trigger] a@[kk]).0) is Some,
        decreases alen - k,
    {
        let sym = a[k].0;
        match crate::dfa::next_of(b, sym) {
            Some(_) => {},
            None => {
                proof {
                    lemma_index_lookup(a@, sym, k as int);
                }
                return false;
            },
        }
        k += 1;
    }
    let blen = b.len();
    let mut k2: usize = 0;
    while k2 < blen
        invariant
            k2 <= blen,
            blen == b@.len(),
            forall|kk: int|
                0 <= kk < k2 ==> crate::dfa::lookup(a@, (#[trigger] b@[kk]).0) is Some,
            forall|kk: int|
                0 <= kk < a@.len() ==> crate::dfa::lookup(b@, (#[trigger] a@[kk]).0) is Some,
        decreases blen - k2,
    {
        let sym = b[k2].0;
        match crate::dfa::next_of(a, sym) {
            Some(_) => {},
            None => {
                proof {
                    lemma_index_lookup(b@, sym, k2 as int);
                }
                return false;
            },
        }
        k2 += 1;
    }
    proof {
        assert forall|sym: Symbol|
            (#[trigger] crate::dfa::lookup(a@, sym)) is Some implies crate::dfa::lookup(
            b@,
            sym,
        ) is Some by {
            let t = crate::dfa::lookup(a@, sym)->Some_0;
            lemma_lookup_some_exists(a@, sym, t);
        }
        assert forall|sym: Symbol|
            (#[trigger] crate::dfa::lookup(b@, sym)) is Some implies crate::dfa::lookup(
            a@,
            sym,
        ) is Some by {
            let t = crate::dfa::lookup(b@, sym)->Some_0;
            lemma_lookup_some_exists(b@, sym, t);
        }
    }
    true
}


/// Unmarked pairs agree on finality (the initial marking's guarantee).
spec fn fin_ok(finals: Vec<State>, m: Vec<Vec<bool>>) -> bool {
    forall|a: int, b: int|
        #![trigger m@[a]@[b]]
        0 <= a < m@.len() && 0 <= b < m@.len() && !m@[a]@[b] ==> (finals@.contains(
            State(a as usize),
        ) <==> finals@.contains(State(b as usize)))
}

/// For each state, the ascending list of the states minimization may merge
/// with it, itself included: exactly the states left unmarked against it by
/// the table-filling fixpoint, which are the states `mergeable` with it.
#[verifier::loop_isolation(false)]
#[verifier::rlimit(60)]
pub fn find_same(dfa: &NextElems, finals: &Vec<State>) -> (same: Vec<Vec<State>>)
    requires
        next_wf(*dfa, *finals),
    ensures
        same@.len() == dfa@.len(),
        forall|i: int| 0 <= i < same@.len() ==> sorted_unique((#[trigger] same@[i])@),
        forall|i: int| 0 <= i < same@.len() ==> (#[trigger] same@[i])@.contains(State(i as usize)),
        forall|i: int, m: int|
            0 <= i < same@.len() && 0 <= m < (#[trigger] same@[i])@.len() ==> (
            #[trigger] same@[i]@[m]).0 < dfa@.len(),
        forall|i: int, sj: State|
            #![trigger same@[i]@.contains(sj)]
            0 <= i < same@.len() && sj.0 < dfa@.len() ==> (same@[i]@.contains(sj) <==> mergeable(
                *dfa,
                *finals,
                State(i as usize),
                sj,
            )),
{
    let n = dfa.len();
    let mut different: Vec<Vec<bool>> = Vec::new();
    let mut bi: usize = 0;
    while bi < n
        invariant
            bi <= n,
            different@.len() == bi,
            forall|a: int|
                0 <= a < bi ==> (#[trigger] different@[a])@.len() == n && forall|b: int|
                    0 <= b < n ==> !(#[trigger] different@[a]@[b]),
        decreases n - bi,
    {
        different.push(crate::visits::falses(n));
        bi += 1;
    }

    let mut i: usize = 0;
    while i < n
        invariant
            i <= n,
            mat_ok(different, n as int),
            mat_sym(different),
            marks_sound(*dfa, *finals, different),
            forall|a: int, b: int|
                #![trigger different@[a]@[b]]
                0 <= a < i && a < b < n && !different@[a]@[b] ==> (finals@.contains(
                    State(a as usize),
                ) <==> finals@.contains(State(b as usize))),
        decreases n - i,
    {
        let fi = contains_state(finals, State(i));
        let mut j: usize = i + 1;
        while j < n
            invariant
                i < n,
                i + 1 <= j <= n,
                fi == finals@.contains(State(i as usize)),
                mat_ok(different, n as int),
                mat_sym(different),
                marks_sound(*dfa, *finals, different),
                forall|a: int, b: int|
                    #![trigger different@[a]@[b]]
                    0 <= a < i && a < b < n && !different@[a]@[b] ==> (finals@.contains(
                        State(a as usize),
                    ) <==> finals@.contains(State(b as usize))),
                forall|b: int|
                    #![trigger different@[i as int]@[b]]
                    i < b < j && !different@[i as int]@[b] ==> (finals@.contains(State(i as usize))
                        <==> finals@.contains(State(b as usize))),
            decreases n - j,
        {
            let fj = contains_state(finals, State(j));
            if fi != fj {
                if !different[i][j] {
                    proof {
                        assert(!similar(*dfa, *finals, 0, State(i as usize), State(j as usize)));
                        assert(!mergeable(*dfa, *finals, State(i as usize), State(j as usize)));
                        lemma_mergeable_sym(
                            *dfa,
                            *finals,
                            State(i as usize),
                            State(j as usize),
                        );
                    }
                    let ghost d0 = different;
                    mark_pair(&mut different, i, j, Ghost(n as int));
                    proof {
                        assert forall|a: int, b: int|
                            0 <= a < n && 0 <= b < n && (#[trigger] different@[a]@[b]) implies
                        !mergeable(*dfa, *finals, State(a as usize), State(b as usize)) by {
                            if !((a == i && b == j) || (a == j && b == i)) {
                                assert(different@[a]@[b] == d0@[a]@[b]);
                            }
                        }
                    }
                }
            }
            j += 1;
        }
        i += 1;
    }
    proof {
        assert forall|a: int, b: int|
            0 <= a < n && 0 <= b < n && !(#[trigger] different@[a]@[b]) implies (finals@.contains(
            State(a as usize),
        ) <==> finals@.contains(State(b as usize))) by {
            if a < b {
            } else if b < a {
                assert(different@[b]@[a] == different@[a]@[b]);
            }
        }
        assert(fin_ok(*finals, different));
    }

    let mut fixpoint = false;
    while !fixpoint
        invariant
            mat_ok(different, n as int),
            mat_sym(different),
            marks_sound(*dfa, *finals, different),
            fin_ok(*finals, different),
            fixpoint ==> unmarked_closed(*dfa, *finals, different),
        decreases rows_unmarked(different@) + (if fixpoint {
            0int
        } else {
            1int
        }),
    {
        let ghost count_at_head = rows_unmarked(different@);
        fixpoint = true;
        let mut i2: usize = 0;
        while i2 < n
            invariant
                i2 <= n,
                mat_ok(different, n as int),
                mat_sym(different),
                marks_sound(*dfa, *finals, different),
                fin_ok(*finals, different),
                rows_unmarked(different@) <= count_at_head,
                !fixpoint ==> rows_unmarked(different@) < count_at_head,
                fixpoint ==> forall|a: int, b: int|
                    #![trigger different@[a]@[b]]
                    0 <= a < i2 && a < b < n && !different@[a]@[b] ==> pair_closed(
                        *dfa,
                        *finals,
                        different,
                        a,
                        b,
                    ),
            decreases n - i2,
        {
            let mut j2: usize = i2 + 1;
            while j2 < n
                invariant
                    i2 < n,
                    i2 + 1 <= j2 <= n,
                    mat_ok(different, n as int),
                    mat_sym(different),
                    marks_sound(*dfa, *finals, different),
                    fin_ok(*finals, different),
                    rows_unmarked(different@) <= count_at_head,
                    !fixpoint ==> rows_unmarked(different@) < count_at_head,
                    fixpoint ==> forall|a: int, b: int|
                        #![trigger different@[a]@[b]]
                        0 <= a < i2 && a < b < n && !different@[a]@[b] ==> pair_closed(
                            *dfa,
                            *finals,
                            different,
                            a,
                            b,
                        ),
                    fixpoint ==> forall|b: int|
                        #![trigger different@[i2 as int]@[b]]
                        i2 < b < j2 && !different@[i2 as int]@[b] ==> pair_closed(
                            *dfa,
                            *finals,
                            different,
                            i2 as int,
                            b,
                        ),
                decreases n - j2,
            {
                let si = State(i2);
                let sj = State(j2);
                if !different[i2][j2] {
                    proof {
                        assert(crate::dfa::dfa_elem_wf(dfa@[i2 as int], n as int));
                        assert(crate::dfa::dfa_elem_wf(dfa@[j2 as int], n as int));
                    }
                    let sd = same_domains_check(&dfa[i2], &dfa[j2]);
                    if !sd {
                        proof {
                            let sym0 = choose|sym: Symbol|
                                !((#[trigger] crate::dfa::lookup(dfa@[i2 as int]@, sym)) is Some
                                    <==> crate::dfa::lookup(dfa@[j2 as int]@, sym) is Some);
                            assert(step(*dfa, si, sym0) == crate::dfa::lookup(
                                dfa@[i2 as int]@,
                                sym0,
                            ));
                            assert(step(*dfa, sj, sym0) == crate::dfa::lookup(
                                dfa@[j2 as int]@,
                                sym0,
                            ));
                            assert(!same_domains(*dfa, si, sj));
                            assert(!similar(*dfa, *finals, 1, si, sj));
                            assert(!mergeable(*dfa, *finals, si, sj));
                            lemma_mergeable_sym(*dfa, *finals, si, sj);
                        }
                        let ghost d0 = different;
                        mark_pair(&mut different, i2, j2, Ghost(n as int));
                        fixpoint = false;
                        proof {
                            assert forall|a: int, b: int|
                                0 <= a < n && 0 <= b < n && (#[trigger] different@[a]@[b]) implies
                            !mergeable(*dfa, *finals, State(a as usize), State(b as usize)) by {
                                if !((a == i2 && b == j2) || (a == j2 && b == i2)) {
                                    assert(different@[a]@[b] == d0@[a]@[b]);
                                }
                            }
                            assert forall|a: int, b: int|
                                0 <= a < n && 0 <= b < n && !(#[trigger] different@[a]@[b]) implies
                            (finals@.contains(State(a as usize)) <==> finals@.contains(
                                State(b as usize),
                            )) by {
                                assert(different@[a]@[b] == d0@[a]@[b]);
                            }
                        }
                    } else {
                        let row_len = dfa[i2].len();
                        let mut kk: usize = 0;
                        let mut bad = false;
                        while kk < row_len
                            invariant
                                kk <= row_len,
                                row_len == dfa@[i2 as int]@.len(),
                                i2 < n,
                                j2 < n,
                                si == State(i2 as usize),
                                sj == State(j2 as usize),
                                mat_ok(different, n as int),
                                bad ==> !mergeable(*dfa, *finals, si, sj),
                                !bad ==> forall|kkk: int|
                                    0 <= kkk < kk ==> !different@[(#[trigger] dfa@[i2 as int]@[kkk]).1.0 as int]@[step(
                                        *dfa,
                                        sj,
                                        dfa@[i2 as int]@[kkk].0,
                                    )->Some_0.0 as int],
                            decreases row_len - kk,
                        {
                            let sym = dfa[i2][kk].0;
                            let t1 = dfa[i2][kk].1;
                            proof {
                                lemma_index_lookup(dfa@[i2 as int]@, sym, kk as int);
                                assert(step(*dfa, si, sym) == Some(t1));
                                assert(step(*dfa, sj, sym) is Some);
                            }
                            match crate::dfa::next_of(&dfa[j2], sym) {
                                Some(t2) => {
                                    proof {
                                        lemma_lookup_in_range(dfa@[j2 as int]@, sym, n as int);
                                        assert(t2.0 < n);
                                    }
                                    if different[t1.0][t2.0] {
                                        proof {
                                            assert(!mergeable(*dfa, *finals, t1, t2));
                                            let k0 = choose|k: nat|
                                                !similar(*dfa, *finals, k, t1, t2);
                                            assert(!similar(*dfa, *finals, k0 + 1, si, sj));
                                            assert(!mergeable(*dfa, *finals, si, sj));
                                        }
                                        bad = true;
                                    }
                                },
                                None => {
                                    proof {
                                        assert(false);
                                    }
                                },
                            }
                            proof {
                                if !bad {
                                    assert(!different@[(dfa@[i2 as int]@[kk as int]).1.0 as int]@[step(
                                        *dfa,
                                        sj,
                                        dfa@[i2 as int]@[kk as int].0,
                                    )->Some_0.0 as int]);
                                }
                            }
                            kk += 1;
                        }
                        if bad {
                            proof {
                                lemma_mergeable_sym(*dfa, *finals, si, sj);
                            }
                            let ghost d0 = different;
                            mark_pair(&mut different, i2, j2, Ghost(n as int));
                            fixpoint = false;
                            proof {
                                assert forall|a: int, b: int|
                                    0 <= a < n && 0 <= b < n && (#[trigger] different@[a]@[b]) implies
                                !mergeable(*dfa, *finals, State(a as usize), State(b as usize)) by {
                                    if !((a == i2 && b == j2) || (a == j2 && b == i2)) {
                                        assert(different@[a]@[b] == d0@[a]@[b]);
                                    }
                                }
                                assert forall|a: int, b: int|
                                    0 <= a < n && 0 <= b < n && !(#[trigger] different@[a]@[b]) implies
                                (finals@.contains(State(a as usize)) <==> finals@.contains(
                                    State(b as usize),
                                )) by {
                                    assert(different@[a]@[b] == d0@[a]@[b]);
                                }
                            }
                        } else {
                            proof {
                                assert(pair_closed(*dfa, *finals, different, i2 as int, j2 as int))
                                    by {
                                    assert(same_domains(*dfa, si, sj));
                                    assert forall|sym: Symbol|
                                        ((#[trigger] step(*dfa, si, sym)) is Some && step(
                                            *dfa,
                                            sj,
                                            sym,
                                        ) is Some) implies !different@[step(*dfa, si, sym)->Some_0.0 as int]@[step(
                                        *dfa,
                                        sj,
                                        sym,
                                    )->Some_0.0 as int] by {
                                        let t1 = step(*dfa, si, sym)->Some_0;
                                        lemma_lookup_some_exists(dfa@[i2 as int]@, sym, t1);
                                        let kkk = choose|k: int|
                                            0 <= k < dfa@[i2 as int]@.len() && dfa@[i2 as int]@[k]
                                                == (sym, t1);
                                    }
                                }
                            }
                        }
                    }
                }
                j2 += 1;
            }
            i2 += 1;
        }
        proof {
            if fixpoint {
                assert forall|a: int, b: int|
                    0 <= a < n && 0 <= b < n && !(#[trigger] different@[a]@[b]) implies pair_closed(
                    *dfa,
                    *finals,
                    different,
                    a,
                    b,
                ) by {
                    if a == b {
                        assert forall|sym: Symbol|
                            ((#[trigger] step(*dfa, State(a as usize), sym)) is Some && step(
                                *dfa,
                                State(b as usize),
                                sym,
                            ) is Some) implies !different@[step(
                            *dfa,
                            State(a as usize),
                            sym,
                        )->Some_0.0 as int]@[step(*dfa, State(b as usize), sym)->Some_0.0 as int] by {
                            let t = step(*dfa, State(a as usize), sym)->Some_0;
                            assert(crate::dfa::dfa_elem_wf(dfa@[a], n as int));
                            lemma_lookup_in_range(dfa@[a]@, sym, n as int);
                            assert(!different@[t.0 as int]@[t.0 as int]);
                        }
                    } else if b < a {
                        assert(different@[b]@[a] == different@[a]@[b]);
                        assert(pair_closed(*dfa, *finals, different, b, a));
                        assert forall|sym: Symbol|
                            ((#[trigger] step(*dfa, State(a as usize), sym)) is Some && step(
                                *dfa,
                                State(b as usize),
                                sym,
                            ) is Some) implies !different@[step(
                            *dfa,
                            State(a as usize),
                            sym,
                        )->Some_0.0 as int]@[step(*dfa, State(b as usize), sym)->Some_0.0 as int] by {
                            let ta = step(*dfa, State(a as usize), sym)->Some_0;
                            let tb = step(*dfa, State(b as usize), sym)->Some_0;
                            assert(crate::dfa::dfa_elem_wf(dfa@[a], n as int));
                            assert(crate::dfa::dfa_elem_wf(dfa@[b], n as int));
                            lemma_lookup_in_range(dfa@[a]@, sym, n as int);
                            lemma_lookup_in_range(dfa@[b]@, sym, n as int);
                            assert(!different@[tb.0 as int]@[ta.0 as int]);
                            assert(different@[ta.0 as int]@[tb.0 as int] == different@[tb.0 as int]@[ta.0 as int]);
                        }
                    }
                }
                assert(unmarked_closed(*dfa, *finals, different));
            }
        }
    }

    proof {
        assert forall|si: State, sj: State|
            si.0 < n && sj.0 < n implies (!different@[si.0 as int]@[sj.0 as int] <==> mergeable(
            *dfa,
            *finals,
            si,
            sj,
        )) by {
            if !different@[si.0 as int]@[sj.0 as int] {
                assert forall|k: nat| similar(*dfa, *finals, k, si, sj) by {
                    lemma_unmarked_similar(*dfa, *finals, different, k, si, sj);
                }
            } else {
                assert(State(si.0 as int as usize) == si && State(sj.0 as int as usize) == sj);
                assert(!mergeable(*dfa, *finals, si, sj));
            }
        }
    }
    let ghost conv = different;
    let mut ret: Vec<Vec<State>> = Vec::new();
    let mut ri: usize = 0;
    while ri < n
        invariant
            ri <= n,
            ret@.len() == ri,
            forall|a: int| 0 <= a < ri ==> sorted_unique((#[trigger] ret@[a])@),
            forall|a: int| 0 <= a < ri ==> (#[trigger] ret@[a])@.contains(State(a as usize)),
            forall|a: int, m: int|
                0 <= a < ri && 0 <= m < (#[trigger] ret@[a])@.len() ==> (#[trigger] ret@[a]@[m]).0
                    < n,
            forall|a: int, sj: State|
                #![trigger ret@[a]@.contains(sj)]
                0 <= a < ri && sj.0 < n ==> (ret@[a]@.contains(sj) <==> mergeable(
                    *dfa,
                    *finals,
                    State(a as usize),
                    sj,
                )),
        decreases n - ri,
    {
        let mut row: Vec<State> = Vec::new();
        let mut rj: usize = 0;
        while rj < n
            invariant
                rj <= n,
                ri < n,
                sorted_unique(row@),
                forall|m: int| 0 <= m < row@.len() ==> (#[trigger] row@[m]).0 < rj,
                forall|sj: State|
                    #![trigger row@.contains(sj)]
                    sj.0 < rj ==> (row@.contains(sj) <==> !different@[ri as int]@[sj.0 as int]),
            decreases n - rj,
        {
            let ghost row_head = row@;
            let marked = different[ri][rj];
            if !marked {
                row.push(State(rj));
                proof {
                    assert(row@.last() == State(rj));
                }
            }
            proof {
                assert forall|sj: State| #![trigger row@.contains(sj)] sj.0 < rj + 1 implies (
                row@.contains(sj) <==> !different@[ri as int]@[sj.0 as int]) by {
                    if sj.0 == rj {
                        assert(sj == State(rj as usize));
                        if marked {
                            if row@.contains(sj) {
                                let m = choose|m: int| 0 <= m < row@.len() && row@[m] == sj;
                                assert(false);
                            }
                        } else {
                            assert(row@.contains(sj));
                        }
                    } else {
                        if !marked {
                            assert(row@.contains(sj) <==> row_head.contains(sj)) by {
                                if row@.contains(sj) {
                                    let m = choose|m: int| 0 <= m < row@.len() && row@[m] == sj;
                                    if m < row@.len() - 1 {
                                        assert(row_head[m] == sj);
                                    } else {
                                        assert(false);
                                    }
                                }
                                if row_head.contains(sj) {
                                    let m = choose|m: int|
                                        0 <= m < row_head.len() && row_head[m] == sj;
                                    assert(row@[m] == sj);
                                }
                            }
                        }
                        assert(row_head.contains(sj) <==> !different@[ri as int]@[sj.0 as int]);
                    }
                }
                if !marked {
                    assert(sorted_unique(row@)) by {
                        assert(forall|m: int|
                            0 <= m < row_head.len() ==> row@[m] == #[trigger] row_head[m]);
                    }
                }
            }
            rj += 1;
        }
        let ghost row_final = row@;
        proof {
            assert(!different@[ri as int]@[ri as int]);
            assert(row_final.contains(State(ri as usize)));
        }
        ret.push(row);
        proof {
            assert(ret@.last()@ == row_final);
        }
        ri += 1;
    }
    ret
}

/// Mergeability is symmetric.
pub proof fn lemma_mergeable_symm(next: NextElems, finals: Vec<State>, i: State, j: State)
    requires
        mergeable(next, finals, i, j),
    ensures
        mergeable(next, finals, j, i),
{
    assert forall|k: nat| similar(next, finals, k, j, i) by {
        lemma_similar_sym(next, finals, k, i, j);
    }
}

/// Mergeability is transitive.
pub proof fn lemma_mergeable_trans(
    next: NextElems,
    finals: Vec<State>,
    a: State,
    b: State,
    c: State,
)
    requires
        mergeable(next, finals, a, b),
        mergeable(next, finals, b, c),
    ensures
        mergeable(next, finals, a, c),
{
    assert forall|k: nat| similar(next, finals, k, a, c) by {
        lemma_similar_trans(next, finals, k, a, b, c);
    }
}

/// A strictly ascending id sequence grows at least as fast as its index.
proof fn lemma_sorted_lb(s: Seq<State>, k: int)
    requires
        sorted_unique(s),
        0 <= k < s.len(),
    ensures
        s[k].0 >= k,
    decreases k,
{
    if k > 0 {
        lemma_sorted_lb(s, k - 1);
        assert(s[k - 1].0 < s[k].0);
    }
}

/// The position of `t` in the list of kept states, if present.
fn index_of(kept: &Vec<State>, t: State) -> (r: Option<usize>)
    ensures
        match r {
            Some(idx) => idx < kept@.len() && kept@[idx as int] == t,
            None => !kept@.contains(t),
        },
{
    let n = kept.len();
    let mut k: usize = 0;
    while k < n
        invariant
            k <= n,
            n == kept@.len(),
            forall|m: int| 0 <= m < k ==> kept@[m] != t,
        decreases n - k,
    {
        if kept[k].0 == t.0 {
            assert(kept@[k as int] == t);
            return Some(k);
        }
        k += 1;
    }
    proof {
        if kept@.contains(t) {
            let m = choose|m: int| 0 <= m < kept@.len() && kept@[m] == t;
            assert(false);
        }
    }
    None
}

/// The minimized automaton simulates the original: state `k` of the new
/// automaton accepts exactly what the kept state `kept[k]` accepted, because
/// every new transition lands on a state mergeable with the old target.
proof fn lemma_sim(
    onext: NextElems,
    ofinals: Vec<State>,
    nnext: NextElems,
    nfinals: Vec<State>,
    kept: Seq<State>,
    k: int,
    w: Seq<Symbol>,
)
    requires
        0 <= k < kept.len(),
        kept.len() == nnext@.len(),
        forall|kk: int|
            0 <= kk < kept.len() ==> (nfinals@.contains(State(kk as usize)) <==> ofinals@.contains(
                #[trigger] kept[kk],
            )),
        forall|kk: int, sym: Symbol|
            0 <= kk < kept.len() && (#[trigger] step(onext, kept[kk], sym)) is None ==> step(
                nnext,
                State(kk as usize),
                sym,
            ) is None,
        forall|kk: int, sym: Symbol|
            0 <= kk < kept.len() && (#[trigger] step(onext, kept[kk], sym)) is Some ==> exists|
                kk2: int,
            |
                0 <= kk2 < kept.len() && step(nnext, State(kk as usize), sym) == Some(
                    State(kk2 as usize),
                ) && mergeable(onext, ofinals, step(onext, kept[kk], sym)->Some_0, kept[kk2]),
    ensures
        accepts_from(nnext, nfinals, State(k as usize), w) == accepts_from(
            onext,
            ofinals,
            kept[k],
            w,
        ),
    decreases w.len(),
{
    if w.len() > 0 {
        let sym = w[0];
        if step(onext, kept[k], sym) is Some {
            let t = step(onext, kept[k], sym)->Some_0;
            let kk2 = choose|kk2: int|
                0 <= kk2 < kept.len() && step(nnext, State(k as usize), sym) == Some(
                    State(kk2 as usize),
                ) && mergeable(onext, ofinals, t, kept[kk2]);
            lemma_sim(onext, ofinals, nnext, nfinals, kept, kk2, w.drop_first());
            lemma_mergeable_language(onext, ofinals, t, kept[kk2], w.drop_first());
        } else {
            assert(step(nnext, State(k as usize), sym) is None);
        }
    }
}


/// A witnessing list of the kept original states: ascending, each the
/// smallest id of its class, covering every class; the new rows mirror the
/// kept states' rows with each target sent to the index of a state mergeable
/// with it, and the new finals are exactly the translated kept finals.
pub open spec fn kept_assignment_ok(
    onext: NextElems,
    ofinals: Vec<State>,
    nnext: NextElems,
    nfinals: Vec<State>,
    kept: Seq<State>,
) -> bool {
    &&& kept.len() == nnext@.len()
    &&& sorted_unique(kept)
    &&& (forall|k: int| 0 <= k < kept.len() ==> (#[trigger] kept[k]).0 < onext@.len())
    &&& (forall|k: int, x: State|
        #![trigger kept[k], mergeable(onext, ofinals, x, kept[k])]
        0 <= k < kept.len() && x.0 < kept[k].0 ==> !mergeable(onext, ofinals, x, kept[k]))
    &&& (forall|i: int|
        #![trigger onext@[i]]
        0 <= i < onext@.len() ==> (exists|k: int|
            0 <= k < kept.len() && mergeable(
                onext,
                ofinals,
                State(i as usize),
                #[trigger] kept[k],
            )))
    &&& (forall|k: int|
        0 <= k < kept.len() ==> (#[trigger] nnext@[k])@.len() == onext@[kept[k].0 as int]@.len())
    &&& (forall|k: int, e: int|
        0 <= k < kept.len() && 0 <= e < (#[trigger] nnext@[k])@.len() ==> (
        #[trigger] nnext@[k]@[e]).0 == onext@[kept[k].0 as int]@[e].0 && nnext@[k]@[e].1.0
            < kept.len() && mergeable(
            onext,
            ofinals,
            onext@[kept[k].0 as int]@[e].1,
            kept[nnext@[k]@[e].1.0 as int],
        ))
    &&& (forall|x: State|
        #![trigger nfinals@.contains(x)]
        nfinals@.contains(x) <==> (x.0 < kept.len() && ofinals@.contains(kept[x.0 as int])))
}

/// Minimize the automaton in place: keep one state per equivalence class
/// (the smallest-id member), renumber ascending, retarget transitions and
/// translate the final-state set.
///
/// The result is structurally valid, never larger, and accepts exactly the
/// strings the original accepted from state 0.
#[verifier::loop_isolation(false)]
#[verifier::rlimit(100)]
pub fn minimize_dfa(dfa: &mut NextElems, finals: &mut Vec<State>)
    requires
        next_wf(*old(dfa), *old(finals)),
    ensures
        next_wf(*final(dfa), *final(finals)),
        final(dfa)@.len() <= old(dfa)@.len(),
        old(dfa)@.len() >= 1 ==> final(dfa)@.len() >= 1,
        forall|w: Seq<Symbol>|
            old(dfa)@.len() >= 1 ==> accepts_from(*final(dfa), *final(finals), State(0), w)
                == accepts_from(*old(dfa), *old(finals), State(0), w),
        forall|x: State, y: State|
            #![trigger mergeable(*final(dfa), *final(finals), x, y)]
            old(dfa)@.len() >= 1 && x.0 < final(dfa)@.len() && y.0 < final(dfa)@.len() && x != y
                ==> !mergeable(*final(dfa), *final(finals), x, y),
        (forall|x: State, y: State|
            #![trigger mergeable(*old(dfa), *old(finals), x, y)]
            x.0 < old(dfa)@.len() && y.0 < old(dfa)@.len() && x != y ==> !mergeable(
                *old(dfa),
                *old(finals),
                x,
                y,
            )) ==> (final(dfa)@.len() == old(dfa)@.len() && (forall|i: int|
            0 <= i < old(dfa)@.len() ==> (#[trigger] final(dfa)@[i])@ == old(dfa)@[i]@) && (forall|
            x: State,
        |
            #![trigger final(finals)@.contains(x)]
            final(finals)@.contains(x) <==> old(finals)@.contains(x))),
        exists|kept: Seq<State>| #[trigger] kept_assignment_ok(
            *old(dfa),
            *old(finals),
            *final(dfa),
            *final(finals),
            kept,
        ),
{
    let n = dfa.len();
    let same = find_same(dfa, finals);
    proof {
        assert forall|i: int| 0 <= i < n implies (#[trigger] same@[i])@.len() >= 1 && same@[i]@[0].0
            <= i && same@[i]@[0].0 < n && mergeable(
            *dfa,
            *finals,
            State(i as usize),
            same@[i]@[0],
        ) by {
            assert(same@[i]@.contains(State(i as usize)));
            let m = choose|m: int| 0 <= m < same@[i]@.len() && same@[i]@[m] == State(i as usize);
            if m > 0 {
                assert(same@[i]@[0].0 < same@[i]@[m].0);
            }
            assert(same@[i]@.contains(same@[i]@[0]));
        }
        assert forall|i: int|
            0 <= i < n implies same@[(#[trigger] same@[i])@[0].0 as int]@[0] == same@[i]@[0] by {
            let r = same@[i]@[0];
            assert(mergeable(*dfa, *finals, State(i as usize), r));
            lemma_mergeable_symm(*dfa, *finals, State(i as usize), r);
            assert(State(r.0 as int as usize) == r);
            assert forall|sj: State| same@[r.0 as int]@.contains(sj) implies same@[i]@.contains(
                sj,
            ) by {
                let mm = choose|mm: int|
                    0 <= mm < same@[r.0 as int]@.len() && same@[r.0 as int]@[mm] == sj;
                assert(sj.0 < n);
                assert(mergeable(*dfa, *finals, r, sj));
                lemma_mergeable_trans(*dfa, *finals, State(i as usize), r, sj);
            }
            assert forall|sj: State| same@[i]@.contains(sj) implies same@[r.0 as int]@.contains(
                sj,
            ) by {
                let mm = choose|mm: int| 0 <= mm < same@[i]@.len() && same@[i]@[mm] == sj;
                assert(sj.0 < n);
                assert(mergeable(*dfa, *finals, State(i as usize), sj));
                lemma_mergeable_symm(*dfa, *finals, State(i as usize), r);
                lemma_mergeable_trans(*dfa, *finals, r, State(i as usize), sj);
            }
            lemma_sorted_unique_eq(same@[r.0 as int]@, same@[i]@);
        }
    }
    let mut new_dfa: NextElems = Vec::new();
    let mut kept: Vec<State> = Vec::new();
    let mut sid: usize = 0;
    while sid < n
        invariant
            sid <= n,
            new_dfa@.len() == kept@.len(),
            sorted_unique(kept@),
            forall|kk: int| 0 <= kk < kept@.len() ==> (#[trigger] kept@[kk]).0 < sid,
            forall|kk: int|
                0 <= kk < kept@.len() ==> same@[(#[trigger] kept@[kk]).0 as int]@[0] == kept@[kk],
            forall|i: int|
                0 <= i < sid ==> ((#[trigger] same@[i])@[0].0 == i <==> kept@.contains(
                    State(i as usize),
                )),
            forall|kk: int|
                0 <= kk < new_dfa@.len() ==> (#[trigger] new_dfa@[kk])@.len()
                    == dfa@[kept@[kk].0 as int]@.len(),
            forall|kk: int, e: int|
                0 <= kk < new_dfa@.len() && 0 <= e < (#[trigger] new_dfa@[kk])@.len() ==> (
                #[trigger] new_dfa@[kk]@[e]).0 == dfa@[kept@[kk].0 as int]@[e].0
                    && new_dfa@[kk]@[e].1 == same@[dfa@[kept@[kk].0 as int]@[e].1.0 as int]@[0],
        decreases n - sid,
    {
        let rep = same[sid][0];
        if rep.0 == sid {
            let ghost kept0 = kept@;
            kept.push(State(sid));
            proof {
                assert(kept@.last() == State(sid));
                assert forall|t: State| kept@.contains(t) implies kept0.contains(t) || t == State(
                    sid,
                ) by {
                    let m = choose|m: int| 0 <= m < kept@.len() && kept@[m] == t;
                    if m < kept@.len() - 1 {
                        assert(kept0[m] == t);
                    }
                }
                assert forall|t: State| kept0.contains(t) implies kept@.contains(t) by {
                    let m = choose|m: int| 0 <= m < kept0.len() && kept0[m] == t;
                    assert(kept@[m] == t);
                }
            }
            let row_len = dfa[sid].len();
            let mut new_row: NextElem = Vec::new();
            let mut e: usize = 0;
            while e < row_len
                invariant
                    e <= row_len,
                    sid < n,
                    row_len == dfa@[sid as int]@.len(),
                    new_row@.len() == e,
                    forall|ee: int|
                        0 <= ee < e ==> (#[trigger] new_row@[ee]).0 == dfa@[sid as int]@[ee].0
                            && new_row@[ee].1 == same@[dfa@[sid as int]@[ee].1.0 as int]@[0],
                decreases row_len - e,
            {
                let sym = dfa[sid][e].0;
                let tgt = dfa[sid][e].1;
                proof {
                    assert(crate::dfa::dfa_elem_wf(dfa@[sid as int], n as int));
                }
                let new_tgt = same[tgt.0][0];
                new_row.push((sym, new_tgt));
                e += 1;
            }
            new_dfa.push(new_row);
        } else {
            proof {
                if kept@.contains(State(sid as usize)) {
                    let m = choose|m: int|
                        0 <= m < kept@.len() && kept@[m] == State(sid as usize);
                    assert(false);
                }
            }
        }
        sid += 1;
    }
    let kcount = kept.len();
    proof {
        if kcount > 0 {
            lemma_sorted_lb(kept@, kcount as int - 1);
        }
        if n >= 1 {
            assert(same@[0]@[0].0 == 0);
            assert(kept@.contains(State(0usize)));
            let m = choose|m: int| 0 <= m < kept@.len() && kept@[m] == State(0usize);
            if m > 0 {
                assert(kept@[0].0 < kept@[m].0);
                assert(false);
            }
            assert(kept@[0] == State(0usize));
        }
    }
    let mut k: usize = 0;
    while k < kcount
        invariant
            k <= kcount,
            kcount == kept@.len(),
            new_dfa@.len() == kcount,
            forall|kk: int|
                0 <= kk < kcount ==> (#[trigger] new_dfa@[kk])@.len()
                    == dfa@[kept@[kk].0 as int]@.len(),
            forall|kk: int, e: int|
                0 <= kk < kcount && 0 <= e < (#[trigger] new_dfa@[kk])@.len() ==> (
                #[trigger] new_dfa@[kk]@[e]).0 == dfa@[kept@[kk].0 as int]@[e].0,
            forall|kk: int, e: int|
                0 <= kk < k && 0 <= e < (#[trigger] new_dfa@[kk])@.len() ==> (
                #[trigger] new_dfa@[kk]@[e]).1.0 < kcount && kept@[new_dfa@[kk]@[e].1.0 as int]
                    == same@[dfa@[kept@[kk].0 as int]@[e].1.0 as int]@[0],
            forall|kk: int, e: int|
                k <= kk < kcount && 0 <= e < (#[trigger] new_dfa@[kk])@.len() ==> (
                #[trigger] new_dfa@[kk]@[e]).1 == same@[dfa@[kept@[kk].0 as int]@[e].1.0 as int]@[0],
        decreases kcount - k,
    {
        let row_len = new_dfa[k].len();
        let mut e: usize = 0;
        while e < row_len
            invariant
                e <= row_len,
                k < kcount,
                kcount == kept@.len(),
                new_dfa@.len() == kcount,
                row_len == new_dfa@[k as int]@.len(),
                forall|kk: int|
                    0 <= kk < kcount ==> (#[trigger] new_dfa@[kk])@.len()
                        == dfa@[kept@[kk].0 as int]@.len(),
                forall|kk: int, ee: int|
                    0 <= kk < kcount && 0 <= ee < (#[trigger] new_dfa@[kk])@.len() ==> (
                    #[trigger] new_dfa@[kk]@[ee]).0 == dfa@[kept@[kk].0 as int]@[ee].0,
                forall|kk: int, ee: int|
                    0 <= kk < k && 0 <= ee < (#[trigger] new_dfa@[kk])@.len() ==> (
                    #[trigger] new_dfa@[kk]@[ee]).1.0 < kcount && kept@[new_dfa@[kk]@[ee].1.0 as int]
                        == same@[dfa@[kept@[kk].0 as int]@[ee].1.0 as int]@[0],
                forall|ee: int|
                    0 <= ee < e ==> (#[trigger] new_dfa@[k as int]@[ee]).1.0 < kcount
                        && kept@[new_dfa@[k as int]@[ee].1.0 as int] == same@[dfa@[kept@[k as int].0 as int]@[ee].1.0 as int]@[0],
                forall|ee: int|
                    e <= ee < row_len ==> (#[trigger] new_dfa@[k as int]@[ee]).1 == same@[dfa@[kept@[k as int].0 as int]@[ee].1.0 as int]@[0],
                forall|kk: int, ee: int|
                    k < kk < kcount && 0 <= ee < (#[trigger] new_dfa@[kk])@.len() ==> (
                    #[trigger] new_dfa@[kk]@[ee]).1 == same@[dfa@[kept@[kk].0 as int]@[ee].1.0 as int]@[0],
            decreases row_len - e,
        {
            let t = new_dfa[k][e].1;
            proof {
                let old_tgt = dfa@[kept@[k as int].0 as int]@[e as int].1;
                assert(crate::dfa::dfa_elem_wf(dfa@[kept@[k as int].0 as int], n as int));
                assert(old_tgt.0 < n);
                assert(t == same@[old_tgt.0 as int]@[0]);
                assert(t.0 < n);
                assert(same@[t.0 as int]@[0] == t);
                assert(kept@.contains(State(t.0 as usize)));
                assert(State(t.0 as usize) == t);
            }
            match index_of(&kept, t) {
                Some(idx) => {
                    let ghost nd0 = new_dfa;
                    let sym0 = new_dfa[k][e].0;
                    new_dfa[k][e] = (sym0, State(idx));
                    proof {
                        assert(new_dfa@[k as int]@[e as int] == (sym0, State(idx)));
                        assert(forall|kk: int|
                            0 <= kk < kcount && kk != k ==> new_dfa@[kk] == nd0@[kk]);
                        assert(forall|ee: int|
                            0 <= ee < row_len && ee != e ==> new_dfa@[k as int]@[ee] == nd0@[k as int]@[ee]);
                        assert(kept@[idx as int] == t);
                    }
                },
                None => {
                    proof {
                        assert(false);
                    }
                },
            }
            e += 1;
        }
        k += 1;
    }
    let mut new_finals: Vec<State> = Vec::new();
    let fcount = finals.len();
    let mut fi: usize = 0;
    while fi < fcount
        invariant
            fi <= fcount,
            fcount == finals@.len(),
            kcount == kept@.len(),
            forall|m: int|
                0 <= m < new_finals@.len() ==> (#[trigger] new_finals@[m]).0 < kcount
                    && finals@.contains(kept@[new_finals@[m].0 as int]),
            forall|x: State|
                #![trigger new_finals@.contains(x)]
                x.0 < kcount && (exists|f: int| 0 <= f < fi && finals@[f] == kept@[x.0 as int])
                    ==> new_finals@.contains(x),
        decreases fcount - fi,
    {
        let f = finals[fi];
        match index_of(&kept, f) {
            Some(idx) => {
                let ghost nf0 = new_finals@;
                new_finals.push(State(idx));
                proof {
                    assert(new_finals@.last() == State(idx));
                    assert(finals@.contains(finals@[fi as int]));
                    assert forall|x: State| nf0.contains(x) implies new_finals@.contains(x) by {
                        let m = choose|m: int| 0 <= m < nf0.len() && nf0[m] == x;
                        assert(new_finals@[m] == x);
                    }
                    assert forall|x: State|
                        x.0 < kcount && (exists|ff: int|
                            0 <= ff < fi + 1 && finals@[ff] == kept@[x.0 as int]) implies
                    new_finals@.contains(x) by {
                        let ff = choose|ff: int|
                            0 <= ff < fi + 1 && finals@[ff] == kept@[x.0 as int];
                        if ff < fi {
                            assert(nf0.contains(x));
                        } else {
                            assert(kept@[x.0 as int] == f);
                            assert(kept@[idx as int] == f);
                            if idx != x.0 {
                                assert(kept@[idx as int].0 != kept@[x.0 as int].0);
                                assert(false);
                            }
                            assert(x == State(idx));
                            assert(new_finals@.contains(State(idx)));
                        }
                    }
                }
            },
            None => {
                proof {
                    assert forall|x: State|
                        x.0 < kcount && (exists|ff: int|
                            0 <= ff < fi + 1 && finals@[ff] == kept@[x.0 as int]) implies
                    new_finals@.contains(x) by {
                        let ff = choose|ff: int|
                            0 <= ff < fi + 1 && finals@[ff] == kept@[x.0 as int];
                        if ff == fi {
                            assert(kept@.contains(kept@[x.0 as int]));
                            assert(false);
                        }
                    }
                }
            },
        }
        fi += 1;
    }
    let ghost onext = *dfa;
    let ghost ofinals = *finals;
    *dfa = new_dfa;
    *finals = new_finals;
    proof {
        let nnext = *dfa;
        let nfinals = *finals;
        // the construction witness
        assert(kept_assignment_ok(onext, ofinals, nnext, nfinals, kept@)) by {
            assert forall|k: int, x: State|
                0 <= k < kept@.len() && x.0 < kept@[k].0 implies !mergeable(
                onext,
                ofinals,
                x,
                kept@[k],
            ) by {
                if mergeable(onext, ofinals, x, kept@[k]) {
                    let i = kept@[k].0 as int;
                    assert(same@[i]@[0] == kept@[k]);
                    lemma_mergeable_symm(onext, ofinals, x, kept@[k]);
                    assert(State(i as usize) == kept@[k]);
                    assert(same@[i]@.contains(x));
                    let m = choose|m: int| 0 <= m < same@[i]@.len() && same@[i]@[m] == x;
                    if m > 0 {
                        assert(same@[i]@[0].0 < same@[i]@[m].0);
                    }
                    assert(false);
                }
            }
            assert forall|i: int|
                #![trigger onext@[i]]
                0 <= i < n implies (exists|k: int|
                0 <= k < kept@.len() && mergeable(
                    onext,
                    ofinals,
                    State(i as usize),
                    #[trigger] kept@[k],
                )) by {
                let r = same@[i]@[0];
                assert(mergeable(onext, ofinals, State(i as usize), r));
                assert(same@[r.0 as int]@[0] == r);
                assert(kept@.contains(r));
                let k = choose|k: int| 0 <= k < kept@.len() && kept@[k] == r;
                assert(mergeable(onext, ofinals, State(i as usize), kept@[k]));
            }
            assert forall|k: int, e: int|
                #![trigger nnext@[k]@[e]]
                0 <= k < kept@.len() && 0 <= e < nnext@[k]@.len() implies (
            nnext@[k]@[e]).0 == onext@[kept@[k].0 as int]@[e].0 && nnext@[k]@[e].1.0 < kept@.len()
                && mergeable(
                onext,
                ofinals,
                onext@[kept@[k].0 as int]@[e].1,
                kept@[nnext@[k]@[e].1.0 as int],
            ) by {
                let old_tgt = onext@[kept@[k].0 as int]@[e].1;
                assert(crate::dfa::dfa_elem_wf(onext@[kept@[k].0 as int], n as int));
                assert(old_tgt.0 < n);
                assert(kept@[nnext@[k]@[e].1.0 as int] == same@[old_tgt.0 as int]@[0]);
                assert(mergeable(onext, ofinals, State(old_tgt.0 as usize), same@[old_tgt.0 as int]@[0]));
                assert(State(old_tgt.0 as usize) == old_tgt);
            }
            assert forall|x: State| nfinals@.contains(x) implies (x.0 < kept@.len()
                && ofinals@.contains(kept@[x.0 as int])) by {
                let m = choose|m: int| 0 <= m < nfinals@.len() && nfinals@[m] == x;
            }
            assert forall|x: State|
                x.0 < kept@.len() && ofinals@.contains(kept@[x.0 as int]) implies
            nfinals@.contains(x) by {
                let ff = choose|ff: int|
                    0 <= ff < ofinals@.len() && ofinals@[ff] == kept@[x.0 as int];
            }
        }
        // structural validity
        assert forall|kk: int|
            0 <= kk < kcount implies crate::dfa::dfa_elem_wf(
            #[trigger] nnext@[kk],
            kcount as int,
        ) by {
            let oi = kept@[kk].0 as int;
            assert(crate::dfa::dfa_elem_wf(onext@[oi], n as int));
            assert(forall|e: int|
                0 <= e < nnext@[kk]@.len() ==> (#[trigger] nnext@[kk]@[e]).0 == onext@[oi]@[e].0);
        }
        assert(next_wf(nnext, nfinals));
        if n >= 1 {
            // finality correspondence
            assert forall|kk: int|
                0 <= kk < kcount implies (nfinals@.contains(State(kk as usize))
                <==> ofinals@.contains(#[trigger] kept@[kk])) by {
                if ofinals@.contains(kept@[kk]) {
                    let ff = choose|ff: int| 0 <= ff < ofinals@.len() && ofinals@[ff] == kept@[kk];
                    assert(State(kk as usize).0 < kcount);
                    assert(kept@[State(kk as usize).0 as int] == kept@[kk]);
                    assert(nfinals@.contains(State(kk as usize)));
                }
                if nfinals@.contains(State(kk as usize)) {
                    let m = choose|m: int|
                        0 <= m < nfinals@.len() && nfinals@[m] == State(kk as usize);
                }
            }
            // transition correspondence
            assert forall|kk: int, sym: Symbol|
                0 <= kk < kcount && (#[trigger] step(onext, kept@[kk], sym)) is None implies step(
                nnext,
                State(kk as usize),
                sym,
            ) is None by {
                let oi = kept@[kk].0 as int;
                lemma_lookup_none(onext@[oi]@, sym);
                if step(nnext, State(kk as usize), sym) is Some {
                    let t2 = step(nnext, State(kk as usize), sym)->Some_0;
                    lemma_lookup_some_exists(nnext@[kk]@, sym, t2);
                    let ee = choose|ee: int|
                        0 <= ee < nnext@[kk]@.len() && nnext@[kk]@[ee] == (sym, t2);
                    assert(onext@[oi]@[ee].0 == sym);
                    assert(false);
                }
            }
            assert forall|kk: int, sym: Symbol|
                0 <= kk < kcount && (#[trigger] step(onext, kept@[kk], sym)) is Some implies exists|
                kk2: int,
            |
                0 <= kk2 < kcount && step(nnext, State(kk as usize), sym) == Some(
                    State(kk2 as usize),
                ) && mergeable(onext, ofinals, step(onext, kept@[kk], sym)->Some_0, kept@[kk2]) by {
                let oi = kept@[kk].0 as int;
                let t = step(onext, kept@[kk], sym)->Some_0;
                lemma_lookup_some_exists(onext@[oi]@, sym, t);
                let ee = choose|ee: int| 0 <= ee < onext@[oi]@.len() && onext@[oi]@[ee] == (sym, t);
                assert(crate::dfa::dfa_elem_wf(onext@[oi], n as int));
                assert(t.0 < n);
                let rep_t = same@[t.0 as int]@[0];
                assert(nnext@[kk]@[ee].0 == sym);
                assert(nnext@[kk]@[ee].1.0 < kcount && kept@[nnext@[kk]@[ee].1.0 as int] == rep_t);
                let kk2 = nnext@[kk]@[ee].1.0 as int;
                assert forall|e1: int, e2: int|
                    0 <= e1 < e2 < nnext@[kk]@.len() implies (#[trigger] nnext@[kk]@[e1]).0 != (
                    #[trigger] nnext@[kk]@[e2]).0 by {
                    assert(nnext@[kk]@[e1].0 == onext@[oi]@[e1].0);
                    assert(nnext@[kk]@[e2].0 == onext@[oi]@[e2].0);
                }
                lemma_index_lookup(nnext@[kk]@, sym, ee);
                assert(step(nnext, State(kk as usize), sym) == Some(State(kk2 as usize)));
                assert(mergeable(onext, ofinals, State(t.0 as usize), rep_t));
                assert(State(t.0 as usize) == t && kept@[kk2] == rep_t);
            }
            assert(onext == *old(dfa) && ofinals == *old(finals));
            assert forall|w: Seq<Symbol>|
                #![trigger accepts_from(onext, ofinals, State(0), w)]
                accepts_from(nnext, nfinals, State(0), w) == accepts_from(
                    onext,
                    ofinals,
                    State(0),
                    w,
                ) by {
                assert(kept@[0] == State(0usize));
                lemma_sim(onext, ofinals, nnext, nfinals, kept@, 0, w);
            }
            // minimality: no two distinct surviving states can still be merged
            assert forall|x: State, y: State|
                x.0 < kcount && y.0 < kcount && x != y implies !mergeable(
                nnext,
                nfinals,
                x,
                y,
            ) by {
                if mergeable(nnext, nfinals, x, y) {
                    let k1 = x.0 as int;
                    let k2 = y.0 as int;
                    assert(State(k1 as usize) == x && State(k2 as usize) == y);
                    assert forall|k: nat| similar(onext, ofinals, k, kept@[k1], kept@[k2]) by {
                        assert(similar(nnext, nfinals, k, x, y));
                        lemma_sim_similar_back(
                            onext,
                            ofinals,
                            nnext,
                            nfinals,
                            kept@,
                            k,
                            k1,
                            k2,
                        );
                    }
                    let a = kept@[k1];
                    let b = kept@[k2];
                    assert(mergeable(onext, ofinals, a, b));
                    lemma_mergeable_symm(onext, ofinals, a, b);
                    assert(State(a.0 as int as usize) == a && State(b.0 as int as usize) == b);
                    assert forall|sj: State|
                        same@[a.0 as int]@.contains(sj) implies same@[b.0 as int]@.contains(
                        sj,
                    ) by {
                        let mm = choose|mm: int|
                            0 <= mm < same@[a.0 as int]@.len() && same@[a.0 as int]@[mm] == sj;
                        assert(sj.0 < n);
                        assert(mergeable(onext, ofinals, a, sj));
                        lemma_mergeable_trans(onext, ofinals, b, a, sj);
                    }
                    assert forall|sj: State|
                        same@[b.0 as int]@.contains(sj) implies same@[a.0 as int]@.contains(
                        sj,
                    ) by {
                        let mm = choose|mm: int|
                            0 <= mm < same@[b.0 as int]@.len() && same@[b.0 as int]@[mm] == sj;
                        assert(sj.0 < n);
                        assert(mergeable(onext, ofinals, b, sj));
                        lemma_mergeable_trans(onext, ofinals, a, b, sj);
                    }
                    lemma_sorted_unique_eq(same@[a.0 as int]@, same@[b.0 as int]@);
                    assert(a == same@[a.0 as int]@[0] && b == same@[b.0 as int]@[0]);
                    assert(a == b);
                    if k1 < k2 {
                        assert(kept@[k1].0 < kept@[k2].0);
                    }
                    if k2 < k1 {
                        assert(kept@[k2].0 < kept@[k1].0);
                    }
                    assert(false);
                }
            }
        }
        // stability: an automaton with no mergeable pair comes back unchanged
        if forall|x: State, y: State|
            #![trigger mergeable(onext, ofinals, x, y)]
            x.0 < n && y.0 < n && x != y ==> !mergeable(onext, ofinals, x, y) {
            if n == 0 {
                assert(kept@.len() == 0);
                assert(ofinals@.len() == 0) by {
                    if ofinals@.len() > 0 {
                        assert(ofinals@[0].0 < 0);
                    }
                }
                assert(nfinals@.len() == 0) by {
                    if nfinals@.len() > 0 {
                        assert(ofinals@.contains(kept@[nfinals@[0].0 as int]));
                    }
                }
            } else {
                assert forall|i: int| 0 <= i < n implies (#[trigger] same@[i])@ =~= seq![
                    State(i as usize),
                ] by {
                    assert forall|sj: State| same@[i]@.contains(sj) implies sj == State(
                        i as usize,
                    ) by {
                        let mm = choose|mm: int|
                            0 <= mm < same@[i]@.len() && same@[i]@[mm] == sj;
                        assert(sj.0 < n);
                        assert(mergeable(onext, ofinals, State(i as usize), sj));
                    }
                    assert(same@[i]@.contains(same@[i]@[0]));
                    if same@[i]@.len() >= 2 {
                        assert(same@[i]@.contains(same@[i]@[1]));
                        assert(same@[i]@[0].0 < same@[i]@[1].0);
                        assert(false);
                    }
                    assert(same@[i]@.contains(State(i as usize)));
                }
                assert forall|j: int| 0 <= j < n implies #[trigger] kept@.contains(
                    State(j as usize),
                ) by {
                    assert(same@[j]@[0] == State(j as usize));
                }
                assert forall|k: int| 0 <= k < n implies k < kept@.len() && kept@[k] == State(
                    k as usize,
                ) by {
                    lemma_kept_identity(kept@, k);
                }
                proof_kept_full(kept@, n as int);
                lemma_sorted_lb(kept@, kcount as int - 1);
                assert(kept@[kcount as int - 1].0 < n);
                assert(kcount == n);
                assert forall|i: int| 0 <= i < n implies (#[trigger] nnext@[i])@ =~= onext@[i]@ by {
                    assert(kept@[i] == State(i as usize));
                    assert(nnext@[i]@.len() == onext@[i]@.len());
                    assert forall|e: int|
                        0 <= e < nnext@[i]@.len() implies #[trigger] nnext@[i]@[e]
                        == onext@[i]@[e] by {
                        let old_t = onext@[i]@[e].1;
                        assert(crate::dfa::dfa_elem_wf(onext@[i], n as int));
                        assert(old_t.0 < n);
                        assert(same@[old_t.0 as int]@[0] == State(old_t.0 as usize));
                        assert(State(old_t.0 as usize) == old_t);
                        assert(nnext@[i]@[e].1.0 < kcount && kept@[nnext@[i]@[e].1.0 as int]
                            == old_t);
                        assert(kept@[nnext@[i]@[e].1.0 as int] == State(
                            nnext@[i]@[e].1.0 as usize,
                        ));
                        assert(nnext@[i]@[e].1 == old_t);
                        assert(nnext@[i]@[e].0 == onext@[i]@[e].0);
                    }
                }
                assert forall|x: State| nfinals@.contains(x) implies ofinals@.contains(x) by {
                    let m = choose|m: int| 0 <= m < nfinals@.len() && nfinals@[m] == x;
                    assert(kept@[x.0 as int] == State(x.0 as usize));
                    assert(State(x.0 as usize) == x);
                }
                assert forall|x: State| ofinals@.contains(x) implies nfinals@.contains(x) by {
                    let ff = choose|ff: int| 0 <= ff < ofinals@.len() && ofinals@[ff] == x;
                    assert(x.0 < n);
                    assert(kept@[x.0 as int] == State(x.0 as usize));
                    assert(State(x.0 as usize) == x);
                    assert(ofinals@[ff] == kept@[x.0 as int]);
                    assert(nfinals@.contains(x));
                }
            }
        }
    }
}


/// A strictly ascending id sequence containing every id below `n` has at
/// least `n` entries.
proof fn proof_kept_full(s: Seq<State>, n: int)
    requires
        sorted_unique(s),
        1 <= n <= usize::MAX,
        forall|j: int| 0 <= j < n ==> #[trigger] s.contains(State(j as usize)),
    ensures
        s.len() >= n,
{
    lemma_kept_identity(s, n - 1);
}

/// A strictly ascending id sequence containing every id up to `k` is the
/// identity up to `k`.
proof fn lemma_kept_identity(s: Seq<State>, k: int)
    requires
        sorted_unique(s),
        0 <= k <= usize::MAX,
        forall|j: int| 0 <= j <= k ==> #[trigger] s.contains(State(j as usize)),
    ensures
        k < s.len(),
        s[k] == State(k as usize),
    decreases k,
{
    assert(s.contains(State(k as usize)));
    let m = choose|m: int| 0 <= m < s.len() && s[m] == State(k as usize);
    lemma_sorted_lb(s, m);
    assert(s[m].0 == k as usize && (k as usize) as int == k);
    assert(m <= k);
    if k == 0 {
        assert(m == 0);
    } else {
        lemma_kept_identity(s, k - 1);
        if m < k {
            assert(s[m] == State(m as usize));
            assert(false);
        }
    }
}

/// Similarity transfers back from the minimized automaton to the original:
/// states alike in the new automaton have kept originals alike in the old one.
proof fn lemma_sim_similar_back(
    onext: NextElems,
    ofinals: Vec<State>,
    nnext: NextElems,
    nfinals: Vec<State>,
    kept: Seq<State>,
    k: nat,
    k1: int,
    k2: int,
)
    requires
        0 <= k1 < kept.len(),
        0 <= k2 < kept.len(),
        kept.len() == nnext@.len(),
        forall|kk: int|
            0 <= kk < kept.len() ==> (nfinals@.contains(State(kk as usize)) <==> ofinals@.contains(
                #[trigger] kept[kk],
            )),
        forall|kk: int, sym: Symbol|
            0 <= kk < kept.len() && (#[trigger] step(onext, kept[kk], sym)) is None ==> step(
                nnext,
                State(kk as usize),
                sym,
            ) is None,
        forall|kk: int, sym: Symbol|
            0 <= kk < kept.len() && (#[trigger] step(onext, kept[kk], sym)) is Some ==> exists|
                kk2: int,
            |
                0 <= kk2 < kept.len() && step(nnext, State(kk as usize), sym) == Some(
                    State(kk2 as usize),
                ) && mergeable(onext, ofinals, step(onext, kept[kk], sym)->Some_0, kept[kk2]),
        similar(nnext, nfinals, k, State(k1 as usize), State(k2 as usize)),
    ensures
        similar(onext, ofinals, k, kept[k1], kept[k2]),
    decreases k,
{
    if k > 0 {
        assert(same_domains(onext, kept[k1], kept[k2])) by {
            assert forall|sym: Symbol|
                (#[trigger] step(onext, kept[k1], sym)) is Some implies step(
                onext,
                kept[k2],
                sym,
            ) is Some by {
                assert(step(nnext, State(k1 as usize), sym) is Some);
                assert(step(nnext, State(k2 as usize), sym) is Some);
                if step(onext, kept[k2], sym) is None {
                    assert(step(nnext, State(k2 as usize), sym) is None);
                }
            }
            assert forall|sym: Symbol|
                (#[trigger] step(onext, kept[k2], sym)) is Some implies step(
                onext,
                kept[k1],
                sym,
            ) is Some by {
                assert(step(nnext, State(k2 as usize), sym) is Some);
                assert(step(nnext, State(k1 as usize), sym) is Some);
                if step(onext, kept[k1], sym) is None {
                    assert(step(nnext, State(k1 as usize), sym) is None);
                }
            }
        }
        assert forall|sym: Symbol|
            ((#[trigger] step(onext, kept[k1], sym)) is Some && step(onext, kept[k2], sym) is Some)
            implies similar(
            onext,
            ofinals,
            (k - 1) as nat,
            step(onext, kept[k1], sym)->Some_0,
            step(onext, kept[k2], sym)->Some_0,
        ) by {
            let t1 = step(onext, kept[k1], sym)->Some_0;
            let t2 = step(onext, kept[k2], sym)->Some_0;
            let m1 = choose|m1: int|
                0 <= m1 < kept.len() && step(nnext, State(k1 as usize), sym) == Some(
                    State(m1 as usize),
                ) && mergeable(onext, ofinals, t1, kept[m1]);
            let m2 = choose|m2: int|
                0 <= m2 < kept.len() && step(nnext, State(k2 as usize), sym) == Some(
                    State(m2 as usize),
                ) && mergeable(onext, ofinals, t2, kept[m2]);
            assert(similar(nnext, nfinals, (k - 1) as nat, State(m1 as usize), State(m2 as usize)));
            lemma_sim_similar_back(onext, ofinals, nnext, nfinals, kept, (k - 1) as nat, m1, m2);
            assert(similar(onext, ofinals, (k - 1) as nat, t1, kept[m1]));
            assert(similar(onext, ofinals, (k - 1) as nat, t2, kept[m2]));
            lemma_similar_trans(onext, ofinals, (k - 1) as nat, t1, kept[m1], kept[m2]);
            lemma_similar_sym(onext, ofinals, (k - 1) as nat, t2, kept[m2]);
            lemma_similar_trans(onext, ofinals, (k - 1) as nat, t1, kept[m2], t2);
        }
    }
}

} // verus!
