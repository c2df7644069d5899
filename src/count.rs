//! Counting consumers: how many times a node is named as an input by the
//! nodes that still have to run.
use vstd::prelude::*;

verus! {

/// Number of times `v` occurs in `s`.
pub open spec fn occurrences(s: Seq<usize>, v: usize) -> nat
    decreases s.len(),
{
    if s.len() == 0 {
        0
    } else {
        occurrences(s.drop_last(), v) + if s.last() == v {
            1nat
        } else {
            0nat
        }
    }
}

/// Number of times `v` is named as an input by the nodes `u` with `pending[u]`.
pub open spec fn uses(g: Seq<Seq<usize>>, pending: Seq<bool>, v: usize) -> nat
    decreases g.len(),
{
    if g.len() == 0 {
        0
    } else {
        let n = g.len() - 1;
        uses(g.subrange(0, n), pending.subrange(0, n), v) + if pending[n] {
            occurrences(g[n], v)
        } else {
            0nat
        }
    }
}

/// Every one of `n` nodes still to run.
pub open spec fn all_pending(n: nat) -> Seq<bool> {
    Seq::new(n, |i: int| true)
}

/// A count never exceeds the length.
pub proof fn lemma_occurrences_bound(s: Seq<usize>, v: usize)
    ensures
        occurrences(s, v) <= s.len(),
    decreases s.len(),
{
    if s.len() > 0 {
        lemma_occurrences_bound(s.drop_last(), v);
    }
}

/// A value absent from `s` is counted zero times.
pub proof fn lemma_occurrences_empty(s: Seq<usize>, v: usize)
    requires
        !s.contains(v),
    ensures
        occurrences(s, v) == 0,
    decreases s.len(),
{
    if s.len() > 0 {
        assert(s.drop_last().len() < s.len());
        if s.drop_last().contains(v) {
            let i = choose|i: int| 0 <= i < s.drop_last().len() && s.drop_last()[i] == v;
            assert(s[i] == v);
        }
        lemma_occurrences_empty(s.drop_last(), v);
    }
}

/// A value that occurs in `s` is counted at least once.
pub proof fn lemma_occurrences_present(s: Seq<usize>, v: usize)
    requires
        s.contains(v),
    ensures
        occurrences(s, v) >= 1,
    decreases s.len(),
{
    let n = s.len() - 1;
    if s[n] != v {
        let i = choose|i: int| 0 <= i < s.len() && s[i] == v;
        assert(s.drop_last()[i] == v);
        lemma_occurrences_present(s.drop_last(), v);
    }
}

/// Counting up to index `j + 1` adds the occurrence at `j`.
pub proof fn lemma_occurrences_take(s: Seq<usize>, j: int, v: usize)
    requires
        0 <= j < s.len(),
    ensures
        occurrences(s.subrange(0, j + 1), v) == occurrences(s.subrange(0, j), v) + if s[j] == v {
            1nat
        } else {
            0nat
        },
        occurrences(s.subrange(0, j + 1), v) <= occurrences(s, v),
    decreases s.len(),
{
    assert(s.subrange(0, j + 1).drop_last() =~= s.subrange(0, j));
    if j + 1 < s.len() {
        lemma_occurrences_take(s.drop_last(), j, v);
        assert(s.drop_last().subrange(0, j + 1) =~= s.subrange(0, j + 1));
        assert(s.drop_last().subrange(0, j) =~= s.subrange(0, j));
    } else {
        assert(s.subrange(0, j + 1) =~= s);
    }
}

/// Changing the list of one node changes the count by the difference of its occurrences.
pub proof fn lemma_uses_update(g: Seq<Seq<usize>>, pending: Seq<bool>, u: int, s: Seq<usize>, v: usize)
    requires
        pending.len() == g.len(),
        0 <= u < g.len(),
    ensures
        uses(g.update(u, s), pending, v) + (if pending[u] {
            occurrences(g[u], v)
        } else {
            0nat
        }) == uses(g, pending, v) + (if pending[u] {
            occurrences(s, v)
        } else {
            0nat
        }),
    decreases g.len(),
{
    let n = g.len() - 1;
    let h = g.update(u, s);
    if u < n {
        assert(h.subrange(0, n) =~= g.subrange(0, n).update(u, s));
        lemma_uses_update(g.subrange(0, n), pending.subrange(0, n), u, s, v);
    } else {
        assert(h.subrange(0, n) =~= g.subrange(0, n));
    }
}

/// Retiring one node removes its occurrences from the count.
pub proof fn lemma_uses_retire(g: Seq<Seq<usize>>, pending: Seq<bool>, u: int, v: usize)
    requires
        pending.len() == g.len(),
        0 <= u < g.len(),
    ensures
        uses(g, pending.update(u, false), v) + (if pending[u] {
            occurrences(g[u], v)
        } else {
            0nat
        }) == uses(g, pending, v),
    decreases g.len(),
{
    let n = g.len() - 1;
    let retired = pending.update(u, false);
    if u < n {
        assert(retired.subrange(0, n) =~= pending.subrange(0, n).update(u, false));
        lemma_uses_retire(g.subrange(0, n), pending.subrange(0, n), u, v);
    } else {
        assert(retired.subrange(0, n) =~= pending.subrange(0, n));
    }
}

/// A new node without inputs changes no count.
pub proof fn lemma_uses_push(g: Seq<Seq<usize>>, pending: Seq<bool>, b: bool, v: usize)
    requires
        pending.len() == g.len(),
    ensures
        uses(g.push(Seq::empty()), pending.push(b), v) == uses(g, pending, v),
{
    assert(g.push(Seq::empty()).subrange(0, g.len() as int) =~= g);
    assert(pending.push(b).subrange(0, g.len() as int) =~= pending);
    assert(occurrences(Seq::<usize>::empty(), v) == 0);
}

/// A pending node's occurrences are part of the count.
pub proof fn lemma_uses_bounds(g: Seq<Seq<usize>>, pending: Seq<bool>, u: int, v: usize)
    requires
        pending.len() == g.len(),
        0 <= u < g.len(),
    ensures
        pending[u] ==> occurrences(g[u], v) <= uses(g, pending, v),
    decreases g.len(),
{
    let n = g.len() - 1;
    if u < n {
        lemma_uses_bounds(g.subrange(0, n), pending.subrange(0, n), u, v);
    }
}

/// No node that is still to run names `v`: the count is zero.
pub proof fn lemma_uses_zero(g: Seq<Seq<usize>>, pending: Seq<bool>, v: usize)
    requires
        pending.len() == g.len(),
        forall|u: int| 0 <= u < g.len() && #[trigger] pending[u] ==> !g[u].contains(v),
    ensures
        uses(g, pending, v) == 0,
    decreases g.len(),
{
    if g.len() > 0 {
        let n = g.len() - 1;
        if pending[n] {
            lemma_occurrences_empty(g[n], v);
        }
        assert forall|u: int| 0 <= u < n && #[trigger] pending.subrange(0, n)[u] implies !g.subrange(
            0,
            n,
        )[u].contains(v) by {
            assert(pending.subrange(0, n)[u] == pending[u]);
            assert(g.subrange(0, n)[u] == g[u]);
        }
        lemma_uses_zero(g.subrange(0, n), pending.subrange(0, n), v);
    }
}

} // verus!
