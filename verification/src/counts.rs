//! Counting of vertex occurrences over the edges of a 3-uniform hypergraph.
//!
//! An edge `i` is the triple of endpoint slots `(v0[i], v1[i], v2[i])`; a
//! vertex may fill several slots of one edge.  These counts drive both the
//! degree/CSR construction and the peeling argument of the builder.

use vstd::prelude::*;

verus! {

/// 1 when slot `s` names vertex `v`, else 0.
pub open spec fn ec1(v: int, s: u32) -> int {
    if s == v {
        1
    } else {
        0
    }
}

/// How many of edge `i`'s three endpoint slots name vertex `v` (0 to 3).
pub open spec fn edge_count(v: int, v0: Seq<u32>, v1: Seq<u32>, v2: Seq<u32>, i: int) -> int {
    ec1(v, v0[i]) + ec1(v, v1[i]) + ec1(v, v2[i])
}

/// Occurrences of vertex `v` among the endpoints of edges `0..k`.
pub open spec fn prefix_count(v: int, v0: Seq<u32>, v1: Seq<u32>, v2: Seq<u32>, k: int) -> int
    decreases k,
{
    if k <= 0 {
        0
    } else {
        prefix_count(v, v0, v1, v2, k - 1) + edge_count(v, v0, v1, v2, k - 1)
    }
}

/// Occurrences of vertex `v` among the endpoints of the live (not yet
/// removed) edges `0..k`.
pub open spec fn live_count(
    v: int,
    v0: Seq<u32>,
    v1: Seq<u32>,
    v2: Seq<u32>,
    removed: Seq<bool>,
    k: int,
) -> int
    decreases k,
{
    if k <= 0 {
        0
    } else {
        live_count(v, v0, v1, v2, removed, k - 1) + if removed[k - 1] {
            0
        } else {
            edge_count(v, v0, v1, v2, k - 1)
        }
    }
}

pub proof fn lemma_prefix_count_bounds(v: int, v0: Seq<u32>, v1: Seq<u32>, v2: Seq<u32>, k: int)
    requires
        0 <= k,
    ensures
        0 <= prefix_count(v, v0, v1, v2, k) <= 3 * k,
    decreases k,
{
    if k > 0 {
        lemma_prefix_count_bounds(v, v0, v1, v2, k - 1);
    }
}

pub proof fn lemma_prefix_count_mono(
    v: int,
    v0: Seq<u32>,
    v1: Seq<u32>,
    v2: Seq<u32>,
    k1: int,
    k2: int,
)
    requires
        0 <= k1 <= k2,
    ensures
        prefix_count(v, v0, v1, v2, k1) <= prefix_count(v, v0, v1, v2, k2),
    decreases k2,
{
    if k1 < k2 {
        lemma_prefix_count_mono(v, v0, v1, v2, k1, k2 - 1);
    }
}

pub proof fn lemma_live_count_nonneg(
    v: int,
    v0: Seq<u32>,
    v1: Seq<u32>,
    v2: Seq<u32>,
    removed: Seq<bool>,
    k: int,
)
    ensures
        0 <= live_count(v, v0, v1, v2, removed, k),
    decreases k,
{
    if k > 0 {
        lemma_live_count_nonneg(v, v0, v1, v2, removed, k - 1);
    }
}

/// With no edge removed, the live count is the full count.
pub proof fn lemma_live_count_all_false(
    v: int,
    v0: Seq<u32>,
    v1: Seq<u32>,
    v2: Seq<u32>,
    removed: Seq<bool>,
    k: int,
)
    requires
        forall|j: int| 0 <= j < k ==> !removed[j],
    ensures
        live_count(v, v0, v1, v2, removed, k) == prefix_count(v, v0, v1, v2, k),
    decreases k,
{
    if k > 0 {
        lemma_live_count_all_false(v, v0, v1, v2, removed, k - 1);
    }
}

/// The live count is at least the contribution of any single live edge.
pub proof fn lemma_live_count_term(
    v: int,
    v0: Seq<u32>,
    v1: Seq<u32>,
    v2: Seq<u32>,
    removed: Seq<bool>,
    e: int,
    k: int,
)
    requires
        0 <= e < k,
        !removed[e],
    ensures
        live_count(v, v0, v1, v2, removed, k) >= edge_count(v, v0, v1, v2, e),
    decreases k,
{
    if e == k - 1 {
        lemma_live_count_nonneg(v, v0, v1, v2, removed, k - 1);
    } else {
        lemma_live_count_term(v, v0, v1, v2, removed, e, k - 1);
    }
}

/// The live count is at least the joint contribution of two distinct live
/// edges.
pub proof fn lemma_live_count_two_terms(
    v: int,
    v0: Seq<u32>,
    v1: Seq<u32>,
    v2: Seq<u32>,
    removed: Seq<bool>,
    e1: int,
    e2: int,
    k: int,
)
    requires
        0 <= e1 < k,
        0 <= e2 < k,
        e1 != e2,
        !removed[e1],
        !removed[e2],
    ensures
        live_count(v, v0, v1, v2, removed, k) >= edge_count(v, v0, v1, v2, e1) + edge_count(
            v,
            v0,
            v1,
            v2,
            e2,
        ),
    decreases k,
{
    if e1 == k - 1 {
        lemma_live_count_term(v, v0, v1, v2, removed, e2, k - 1);
    } else if e2 == k - 1 {
        lemma_live_count_term(v, v0, v1, v2, removed, e1, k - 1);
    } else {
        lemma_live_count_two_terms(v, v0, v1, v2, removed, e1, e2, k - 1);
    }
}

/// A vertex off every live edge has live count 0.
pub proof fn lemma_live_count_zero(
    v: int,
    v0: Seq<u32>,
    v1: Seq<u32>,
    v2: Seq<u32>,
    removed: Seq<bool>,
    k: int,
)
    requires
        forall|e: int| 0 <= e < k && !removed[e] ==> edge_count(v, v0, v1, v2, e) == 0,
    ensures
        live_count(v, v0, v1, v2, removed, k) == 0,
    decreases k,
{
    if k > 0 {
        lemma_live_count_zero(v, v0, v1, v2, removed, k - 1);
    }
}

/// A vertex on exactly one live edge has that edge's contribution as its
/// whole live count.
pub proof fn lemma_live_count_single(
    v: int,
    v0: Seq<u32>,
    v1: Seq<u32>,
    v2: Seq<u32>,
    removed: Seq<bool>,
    e0: int,
    k: int,
)
    requires
        0 <= e0 < k,
        !removed[e0],
        forall|e: int| 0 <= e < k && !removed[e] && e != e0 ==> edge_count(v, v0, v1, v2, e) == 0,
    ensures
        live_count(v, v0, v1, v2, removed, k) == edge_count(v, v0, v1, v2, e0),
    decreases k,
{
    if e0 == k - 1 {
        lemma_live_count_zero(v, v0, v1, v2, removed, k - 1);
    } else {
        lemma_live_count_single(v, v0, v1, v2, removed, e0, k - 1);
    }
}

/// A sequence whose values cover every integer below `n` has at least `n`
/// entries.
pub proof fn lemma_covering_seq_len(s: Seq<u32>, n: int)
    requires
        0 <= n <= u32::MAX as int + 1,
        forall|e: u32| (e as int) < n ==> s.contains(e),
    ensures
        s.len() >= n,
{
    broadcast use vstd::seq_lib::seq_to_set_is_finite;

    let si = Seq::new(s.len(), |t: int| s[t] as int);
    assert forall|e: int| vstd::set_lib::set_int_range(0, n).contains(e) implies si.to_set().contains(
        e,
    ) by {
        assert(s.contains(e as u32));
        let t = choose|t: int| 0 <= t < s.len() && s[t] == e as u32;
        assert(si[t] == e);
        assert(si.contains(e));
    }
    vstd::set_lib::lemma_int_range(0, n);
    vstd::set_lib::lemma_len_subset(vstd::set_lib::set_int_range(0, n), si.to_set());
    si.lemma_cardinality_of_set();
}

/// Removing edge `e` lowers the live count of every vertex by exactly that
/// edge's contribution.
pub proof fn lemma_live_count_remove(
    v: int,
    v0: Seq<u32>,
    v1: Seq<u32>,
    v2: Seq<u32>,
    removed: Seq<bool>,
    e: int,
    k: int,
)
    requires
        0 <= e < removed.len(),
        !removed[e],
        k <= removed.len(),
    ensures
        live_count(v, v0, v1, v2, removed.update(e, true), k) == live_count(
            v,
            v0,
            v1,
            v2,
            removed,
            k,
        ) - if e < k {
            edge_count(v, v0, v1, v2, e)
        } else {
            0
        },
    decreases k,
{
    if k > 0 {
        lemma_live_count_remove(v, v0, v1, v2, removed, e, k - 1);
    }
}

/// Occurrences of vertices `0..k` among the endpoints of one edge `e`.
pub open spec fn edge_slot_sum(k: int, v0: Seq<u32>, v1: Seq<u32>, v2: Seq<u32>, e: int) -> int
    decreases k,
{
    if k <= 0 {
        0
    } else {
        edge_slot_sum(k - 1, v0, v1, v2, e) + edge_count(k - 1, v0, v1, v2, e)
    }
}

/// An edge whose three slots all lie below `k` contributes exactly 3 to the
/// vertices below `k`.
pub proof fn lemma_edge_slot_sum_full(k: int, v0: Seq<u32>, v1: Seq<u32>, v2: Seq<u32>, e: int)
    requires
        0 <= k,
        (v0[e] as int) < k,
        (v1[e] as int) < k,
        (v2[e] as int) < k,
    ensures
        edge_slot_sum(k, v0, v1, v2, e) == 3,
{
    lemma_edge_slot_sum_parts(k, v0, v1, v2, e);
}

proof fn lemma_edge_slot_sum_parts(k: int, v0: Seq<u32>, v1: Seq<u32>, v2: Seq<u32>, e: int)
    requires
        0 <= k,
    ensures
        edge_slot_sum(k, v0, v1, v2, e) == (if (v0[e] as int) < k {
            1int
        } else {
            0int
        }) + (if (v1[e] as int) < k {
            1int
        } else {
            0int
        }) + (if (v2[e] as int) < k {
            1int
        } else {
            0int
        }),
    decreases k,
{
    if k > 0 {
        lemma_edge_slot_sum_parts(k - 1, v0, v1, v2, e);
    }
}

/// Total occurrences of vertices `0..k` over all edges `0..n`.
pub open spec fn col_sum(k: int, v0: Seq<u32>, v1: Seq<u32>, v2: Seq<u32>, n: int) -> int
    decreases k,
{
    if k <= 0 {
        0
    } else {
        col_sum(k - 1, v0, v1, v2, n) + prefix_count(k - 1, v0, v1, v2, n)
    }
}

/// Exchanging the two summation orders: adding edge `n - 1` adds its slot
/// contribution to every vertex column.
proof fn lemma_col_sum_exchange(k: int, v0: Seq<u32>, v1: Seq<u32>, v2: Seq<u32>, n: int)
    requires
        1 <= n,
        0 <= k,
    ensures
        col_sum(k, v0, v1, v2, n) == col_sum(k, v0, v1, v2, n - 1) + edge_slot_sum(
            k,
            v0,
            v1,
            v2,
            n - 1,
        ),
    decreases k,
{
    if k > 0 {
        lemma_col_sum_exchange(k - 1, v0, v1, v2, n);
    }
}

/// With every endpoint below `m`, the CSR edge array over `n` edges has
/// exactly `3 * n` entries.
pub proof fn lemma_col_sum_total(m: int, v0: Seq<u32>, v1: Seq<u32>, v2: Seq<u32>, n: int)
    requires
        0 <= n,
        0 <= m,
        forall|i: int| 0 <= i < n ==> (v0[i] as int) < m && (v1[i] as int) < m && (v2[i] as int)
            < m,
    ensures
        col_sum(m, v0, v1, v2, n) == 3 * n,
    decreases n,
{
    if n == 0 {
        lemma_col_sum_empty(m, v0, v1, v2);
    } else {
        lemma_col_sum_total(m, v0, v1, v2, n - 1);
        lemma_col_sum_exchange(m, v0, v1, v2, n);
        lemma_edge_slot_sum_full(m, v0, v1, v2, n - 1);
    }
}

proof fn lemma_col_sum_empty(k: int, v0: Seq<u32>, v1: Seq<u32>, v2: Seq<u32>)
    ensures
        col_sum(k, v0, v1, v2, 0) == 0,
    decreases k,
{
    if k > 0 {
        lemma_col_sum_empty(k - 1, v0, v1, v2);
    }
}

/// Column totals only grow with the vertex bound.
pub proof fn lemma_col_sum_mono(
    k1: int,
    k2: int,
    v0: Seq<u32>,
    v1: Seq<u32>,
    v2: Seq<u32>,
    n: int,
)
    requires
        0 <= k1 <= k2,
        0 <= n,
    ensures
        col_sum(k1, v0, v1, v2, n) <= col_sum(k2, v0, v1, v2, n),
    decreases k2,
{
    if k1 < k2 {
        lemma_col_sum_mono(k1, k2 - 1, v0, v1, v2, n);
        lemma_prefix_count_bounds(k2 - 1, v0, v1, v2, n);
    }
}

/// A sequence of pairwise-distinct values below `n` has at most `n` entries.
pub proof fn lemma_distinct_bounded_len(s: Seq<u32>, n: int)
    requires
        0 <= n,
        forall|t: int| 0 <= t < s.len() ==> (s[t] as int) < n,
        forall|t1: int, t2: int| 0 <= t1 < t2 < s.len() ==> s[t1] != s[t2],
    ensures
        s.len() <= n,
{
    let si = Seq::new(s.len(), |t: int| s[t] as int);
    assert forall|i: int, j: int|
        (0 <= i < si.len() && 0 <= j < si.len() && i != j) implies si[i] != si[j] by {
        if i < j {
            assert(s[i] != s[j]);
        } else {
            assert(s[j] != s[i]);
        }
    }
    si.unique_seq_to_set();
    assert forall|x: int| si.to_set().contains(x) implies vstd::set_lib::set_int_range(
        0,
        n,
    ).contains(x) by {
        let t = choose|t: int| 0 <= t < si.len() && si[t] == x;
        assert(0 <= si[t] < n);
    }
    vstd::set_lib::lemma_int_range(0, n);
    vstd::set_lib::lemma_len_subset(si.to_set(), vstd::set_lib::set_int_range(0, n));
}

/// A sequence of `n` pairwise-distinct values below `n` holds every value
/// below `n`.
pub proof fn lemma_distinct_covers(s: Seq<u32>, n: int)
    requires
        0 <= n,
        s.len() == n,
        forall|t: int| 0 <= t < s.len() ==> (s[t] as int) < n,
        forall|t1: int, t2: int| 0 <= t1 < t2 < s.len() ==> s[t1] != s[t2],
    ensures
        forall|e: u32| (e as int) < n ==> s.contains(e),
{
    let si = Seq::new(s.len(), |t: int| s[t] as int);
    assert forall|i: int, j: int|
        (0 <= i < si.len() && 0 <= j < si.len() && i != j) implies si[i] != si[j] by {
        if i < j {
            assert(s[i] != s[j]);
        } else {
            assert(s[j] != s[i]);
        }
    }
    si.unique_seq_to_set();
    assert forall|x: int| si.to_set().contains(x) implies vstd::set_lib::set_int_range(
        0,
        n,
    ).contains(x) by {
        let t = choose|t: int| 0 <= t < si.len() && si[t] == x;
        assert(0 <= si[t] < n);
    }
    vstd::set_lib::lemma_int_range(0, n);
    vstd::set_lib::lemma_len_subset(si.to_set(), vstd::set_lib::set_int_range(0, n));
    vstd::set_lib::lemma_subset_equality(si.to_set(), vstd::set_lib::set_int_range(0, n));
    assert forall|e: u32| (e as int) < n implies s.contains(e) by {
        assert(vstd::set_lib::set_int_range(0, n).contains(e as int));
        assert(si.to_set().contains(e as int));
        assert(si.contains(e as int));
        let t = choose|t: int| 0 <= t < si.len() && si[t] == e as int;
        assert(s[t] == e);
    }
}

} // verus!
