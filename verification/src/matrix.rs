//! The mathematical model of the graph: a square matrix of natural numbers,
//! its row sums, column sums and total, and what recording an interaction
//! does to it.

use vstd::prelude::*;

verus! {

/// The sum of the entries of `s`.
pub open spec fn sum(s: Seq<nat>) -> nat
    decreases s.len(),
{
    if s.len() == 0 {
        0
    } else {
        sum(s.drop_last()) + s.last()
    }
}

/// The matrix with `n` rows and `n` columns that holds zero everywhere.
pub open spec fn zero_matrix(n: nat) -> Seq<Seq<nat>> {
    Seq::new(n, |u: int| Seq::new(n, |v: int| 0nat))
}

/// Every row of `m` has `cols` entries.
pub open spec fn has_width(m: Seq<Seq<nat>>, cols: nat) -> bool {
    forall|u: int| 0 <= u < m.len() ==> (#[trigger] m[u]).len() == cols
}

/// `m` has as many columns as rows.
pub open spec fn is_square(m: Seq<Seq<nat>>) -> bool {
    has_width(m, m.len())
}

/// Column `v` of `m`, read from the first row to the last.
pub open spec fn column(m: Seq<Seq<nat>>, v: int) -> Seq<nat> {
    Seq::new(m.len(), |u: int| m[u][v])
}

/// The sum of row `i`: the weight of all edges that leave node `i`.
pub open spec fn out_degree(m: Seq<Seq<nat>>, i: int) -> nat {
    sum(m[i])
}

/// The sum of column `i`: the weight of all edges that enter node `i`.
pub open spec fn in_degree(m: Seq<Seq<nat>>, i: int) -> nat {
    sum(column(m, i))
}

/// The out-degrees of the nodes `0..m.len()`, in node order.
pub open spec fn out_degrees(m: Seq<Seq<nat>>) -> Seq<nat> {
    Seq::new(m.len(), |i: int| out_degree(m, i))
}

/// The in-degrees of the first `cols` nodes, in node order.
pub open spec fn in_degrees(m: Seq<Seq<nat>>, cols: nat) -> Seq<nat> {
    Seq::new(cols, |i: int| in_degree(m, i))
}

/// The sum of all entries of `m`, taken row by row.
pub open spec fn matrix_total(m: Seq<Seq<nat>>) -> nat {
    sum(out_degrees(m))
}

/// `m` after one more interaction from `u` to `v`: the entry at `(u, v)` is
/// one larger. A pair that names no cell of `m` leaves `m` as it is.
pub open spec fn record(m: Seq<Seq<nat>>, u: int, v: int) -> Seq<Seq<nat>> {
    if 0 <= u < m.len() && 0 <= v < m[u].len() {
        m.update(u, m[u].update(v, m[u][v] + 1))
    } else {
        m
    }
}

/// `m` after the interactions `edges`, recorded first to last.
pub open spec fn record_all(m: Seq<Seq<nat>>, edges: Seq<(int, int)>) -> Seq<Seq<nat>>
    decreases edges.len(),
{
    if edges.len() == 0 {
        m
    } else {
        record(record_all(m, edges.drop_last()), edges.last().0, edges.last().1)
    }
}

/// Every pair of `edges` names a cell of an `n` by `n` matrix.
pub open spec fn edges_in_range(edges: Seq<(int, int)>, n: nat) -> bool {
    forall|k: int|
        0 <= k < edges.len() ==> 0 <= (#[trigger] edges[k]).0 < n && 0 <= edges[k].1 < n
}

/// Appending an entry adds it to the sum.
pub proof fn lemma_sum_push(s: Seq<nat>, x: nat)
    ensures
        sum(s.push(x)) == sum(s) + x,
{
    assert(s.push(x).drop_last() =~= s);
}

/// A sequence of zeros sums to zero.
pub proof fn lemma_sum_zeros(s: Seq<nat>)
    requires
        forall|i: int| 0 <= i < s.len() ==> s[i] == 0,
    ensures
        sum(s) == 0,
    decreases s.len(),
{
    if s.len() > 0 {
        lemma_sum_zeros(s.drop_last());
    }
}

/// No entry exceeds the sum.
pub proof fn lemma_sum_bounds_entry(s: Seq<nat>, i: int)
    requires
        0 <= i < s.len(),
    ensures
        s[i] <= sum(s),
    decreases s.len(),
{
    if i < s.len() - 1 {
        lemma_sum_bounds_entry(s.drop_last(), i);
    }
}

/// Replacing one entry changes the sum by the difference of the two values.
pub proof fn lemma_sum_update(s: Seq<nat>, i: int, x: nat)
    requires
        0 <= i < s.len(),
    ensures
        sum(s.update(i, x)) + s[i] == sum(s) + x,
    decreases s.len(),
{
    if i == s.len() - 1 {
        assert(s.update(i, x).drop_last() =~= s.drop_last());
    } else {
        assert(s.update(i, x).drop_last() =~= s.drop_last().update(i, x));
        lemma_sum_update(s.drop_last(), i, x);
    }
}

/// The sum of an entrywise sum is the sum of the two sums.
pub proof fn lemma_sum_entrywise(a: Seq<nat>, b: Seq<nat>)
    requires
        a.len() == b.len(),
    ensures
        sum(Seq::new(a.len(), |i: int| a[i] + b[i])) == sum(a) + sum(b),
    decreases a.len(),
{
    let c = Seq::new(a.len(), |i: int| a[i] + b[i]);
    if a.len() > 0 {
        let a0 = a.drop_last();
        let b0 = b.drop_last();
        assert(c.drop_last() =~= Seq::new(a0.len(), |i: int| a0[i] + b0[i]));
        lemma_sum_entrywise(a0, b0);
    }
}

/// Adding the column sums gives the same total as adding the row sums.
pub proof fn lemma_column_sums_total(m: Seq<Seq<nat>>, cols: nat)
    requires
        has_width(m, cols),
    ensures
        sum(in_degrees(m, cols)) == matrix_total(m),
    decreases m.len(),
{
    if m.len() == 0 {
        assert forall|i: int| 0 <= i < cols implies in_degrees(m, cols)[i] == 0 by {
            assert(column(m, i).len() == 0);
        }
        lemma_sum_zeros(in_degrees(m, cols));
    } else {
        let top = m.drop_last();
        let last = m.last();
        lemma_column_sums_total(top, cols);
        assert(out_degrees(m).drop_last() =~= out_degrees(top));
        assert(matrix_total(m) == matrix_total(top) + sum(last));
        assert forall|i: int| 0 <= i < cols implies #[trigger] in_degrees(m, cols)[i]
            == in_degrees(top, cols)[i] + last[i] by {
            assert(column(m, i).drop_last() =~= column(top, i));
        }
        assert(in_degrees(m, cols) =~= Seq::new(
            cols,
            |i: int| in_degrees(top, cols)[i] + last[i],
        ));
        lemma_sum_entrywise(in_degrees(top, cols), last);
    }
}

/// In a square matrix no entry exceeds the sum of its row or of its column,
/// and neither sum exceeds the total.
pub proof fn lemma_total_bounds(m: Seq<Seq<nat>>, u: int, v: int)
    requires
        is_square(m),
        0 <= u < m.len(),
        0 <= v < m.len(),
    ensures
        m[u][v] <= out_degree(m, u) <= matrix_total(m),
        m[u][v] <= in_degree(m, v) <= matrix_total(m),
{
    lemma_sum_bounds_entry(m[u], v);
    lemma_sum_bounds_entry(out_degrees(m), u);
    lemma_sum_bounds_entry(column(m, v), u);
    lemma_column_sums_total(m, m.len());
    lemma_sum_bounds_entry(in_degrees(m, m.len()), v);
}

/// Recording an interaction between two nodes of a square matrix keeps it
/// square, raises the one entry by one, leaves all others alone and raises
/// the total by one.
pub proof fn lemma_record(m: Seq<Seq<nat>>, u: int, v: int)
    requires
        is_square(m),
        0 <= u < m.len(),
        0 <= v < m.len(),
    ensures
        is_square(record(m, u, v)),
        record(m, u, v).len() == m.len(),
        record(m, u, v)[u][v] == m[u][v] + 1,
        forall|a: int, b: int|
            0 <= a < m.len() && 0 <= b < m.len() && (a != u || b != v) ==> record(m, u, v)[a][b]
                == m[a][b],
        matrix_total(record(m, u, v)) == matrix_total(m) + 1,
{
    let r = record(m, u, v);
    assert(m[u].len() == m.len());
    assert forall|a: int| 0 <= a < r.len() implies (#[trigger] r[a]).len() == r.len() by {
        assert(m[a].len() == m.len());
    }
    lemma_sum_update(m[u], v, m[u][v] + 1);
    assert(out_degrees(r) =~= out_degrees(m).update(u, out_degree(m, u) + 1));
    lemma_sum_update(out_degrees(m), u, out_degree(m, u) + 1);
}

/// Recording leaves a square matrix square and of the size it had, whatever
/// the pair.
pub proof fn lemma_record_keeps_shape(m: Seq<Seq<nat>>, u: int, v: int)
    requires
        is_square(m),
    ensures
        is_square(record(m, u, v)),
        record(m, u, v).len() == m.len(),
{
    if 0 <= u < m.len() {
        assert(m[u].len() == m.len());
        if 0 <= v < m.len() {
            lemma_record(m, u, v);
        }
    }
}

/// Whatever is recorded in a zero matrix, it stays square and of the size it
/// had.
pub proof fn lemma_record_all_square(n: nat, edges: Seq<(int, int)>)
    ensures
        is_square(record_all(zero_matrix(n), edges)),
        record_all(zero_matrix(n), edges).len() == n,
    decreases edges.len(),
{
    if edges.len() > 0 {
        let e = edges.last();
        lemma_record_all_square(n, edges.drop_last());
        lemma_record_keeps_shape(record_all(zero_matrix(n), edges.drop_last()), e.0, e.1);
    }
}

/// After any sequence of recordings, starting from the zero matrix, the
/// weight of an edge is the number of times that very pair was recorded; a
/// pair that was never recorded has weight zero.
pub proof fn lemma_weight_counts_recordings(n: nat, edges: Seq<(int, int)>, u: int, v: int)
    requires
        0 <= u < n,
        0 <= v < n,
    ensures
        record_all(zero_matrix(n), edges)[u][v] == edges.to_multiset().count((u, v)),
    decreases edges.len(),
{
    broadcast use vstd::multiset::group_multiset_axioms;

    if edges.len() == 0 {
        assert(edges.to_multiset().len() == 0) by {
            edges.to_multiset_ensures();
        }
    } else {
        let before = edges.drop_last();
        let e = edges.last();
        let m = record_all(zero_matrix(n), before);
        lemma_weight_counts_recordings(n, before, u, v);
        lemma_record_all_square(n, before);
        if 0 <= e.0 < n {
            assert(m[e.0].len() == n);
            if 0 <= e.1 < n {
                lemma_record(m, e.0, e.1);
            }
        }
        assert(edges =~= before.push(e));
        vstd::seq_lib::to_multiset_build(before, e);
    }
}

/// After any sequence of recorded interactions, starting from the zero
/// matrix, the out-degrees add up to the number of recordings, and so do the
/// in-degrees.
pub proof fn lemma_degree_sums_count_recordings(n: nat, edges: Seq<(int, int)>)
    requires
        edges_in_range(edges, n),
    ensures
        sum(out_degrees(record_all(zero_matrix(n), edges))) == edges.len(),
        sum(in_degrees(record_all(zero_matrix(n), edges), n)) == edges.len(),
    decreases edges.len(),
{
    lemma_record_all_square(n, edges);
    lemma_column_sums_total(record_all(zero_matrix(n), edges), n);
    if edges.len() == 0 {
        let z = zero_matrix(n);
        assert forall|i: int| 0 <= i < n implies out_degrees(z)[i] == 0 by {
            lemma_sum_zeros(z[i]);
        }
        lemma_sum_zeros(out_degrees(z));
    } else {
        let e = edges.last();
        lemma_degree_sums_count_recordings(n, edges.drop_last());
        lemma_record_all_square(n, edges.drop_last());
        lemma_record(record_all(zero_matrix(n), edges.drop_last()), e.0, e.1);
    }
}

} // verus!
