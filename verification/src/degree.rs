//! Degree centrality: how much weight enters a node, leaves it, or both.

use vstd::prelude::*;
use crate::error::CentralityError;
use crate::graph::{EdgeWeightedDigraph, MAX_INTERACTIONS};
use crate::matrix::{column, edges_in_range, in_degree, in_degrees, lemma_column_sums_total,
    lemma_degree_sums_count_recordings, lemma_sum_push, lemma_total_bounds, matrix_total,
    out_degree, out_degrees, record_all, sum, zero_matrix};

verus! {

/// Which degree of a node is meant.
#[derive(Clone, Copy, Debug, PartialEq, Eq, Structural)]
pub enum DegreeKind {
    /// The weight of the edges that enter the node.
    In,
    /// The weight of the edges that leave the node.
    Out,
    /// The in-degree and the out-degree together.
    Combined,
}

/// The kind that a metric name stands for, if it stands for one.
pub open spec fn metric_kind(name: Seq<char>) -> Option<DegreeKind> {
    if name == "in-degree"@ {
        Some(DegreeKind::In)
    } else if name == "out-degree"@ {
        Some(DegreeKind::Out)
    } else if name == "combined"@ {
        Some(DegreeKind::Combined)
    } else {
        None
    }
}

/// The degree of node `i` in the weight matrix `m`.
pub open spec fn degree(m: Seq<Seq<nat>>, kind: DegreeKind, i: int) -> nat {
    match kind {
        DegreeKind::In => in_degree(m, i),
        DegreeKind::Out => out_degree(m, i),
        DegreeKind::Combined => in_degree(m, i) + out_degree(m, i),
    }
}

/// One `(node, degree)` pair for each node of `m`, in node order.
pub open spec fn degree_scores(m: Seq<Seq<nat>>, kind: DegreeKind) -> Seq<(usize, usize)> {
    Seq::new(m.len(), |i: int| (i as usize, degree(m, kind, i) as usize))
}

/// The scores of a result list, without the nodes.
pub open spec fn scores_of(results: Seq<(usize, usize)>) -> Seq<nat> {
    Seq::new(results.len(), |i: int| results[i].1 as nat)
}

/// Reads a metric name.
pub fn parse_kind(name: &str) -> (r: Result<DegreeKind, CentralityError>)
    ensures
        r == match metric_kind(name@) {
            Some(kind) => Ok::<DegreeKind, CentralityError>(kind),
            None => Err::<DegreeKind, CentralityError>(CentralityError::InvalidMetricKind),
        },
{
    let given = name.to_owned();
    if given == "in-degree".to_owned() {
        Ok(DegreeKind::In)
    } else if given == "out-degree".to_owned() {
        Ok(DegreeKind::Out)
    } else if given == "combined".to_owned() {
        Ok(DegreeKind::Combined)
    } else {
        Err(CentralityError::InvalidMetricKind)
    }
}

/// The sum of the first `k` entries of `s` is the sum so far plus the next entry.
proof fn lemma_sum_take_next(s: Seq<nat>, k: int)
    requires
        0 <= k < s.len(),
    ensures
        sum(s.take(k + 1)) == sum(s.take(k)) + s[k],
        sum(s.take(s.len() as int)) == sum(s),
{
    assert(s.take(k + 1) =~= s.take(k).push(s[k]));
    lemma_sum_push(s.take(k), s[k]);
    assert(s.take(s.len() as int) =~= s);
}

/// The sum of a prefix does not exceed the sum of the whole.
proof fn lemma_sum_take_bound(s: Seq<nat>, k: int)
    requires
        0 <= k <= s.len(),
    ensures
        sum(s.take(k)) <= sum(s),
    decreases s.len() - k,
{
    if k < s.len() {
        lemma_sum_take_next(s, k);
        lemma_sum_take_bound(s, k + 1);
    } else {
        assert(s.take(k) =~= s);
    }
}

impl EdgeWeightedDigraph {
    /// The weight of all edges that leave node `i`.
    fn row_sum(&self, i: usize) -> (total: usize)
        requires
            self.wf(),
            i < self@.len(),
        ensures
            total == out_degree(self@, i as int),
            total <= MAX_INTERACTIONS,
    {
        let n = self.node_count();
        let ghost row = self@[i as int];
        let mut total: usize = 0;
        let mut v: usize = 0;
        proof {
            lemma_total_bounds(self@, i as int, 0);
            lemma_sum_take_bound(row, 0);
        }
        while v < n
            invariant
                self.wf(),
                n == self@.len(),
                i < n,
                row == self@[i as int],
                row.len() == n,
                v <= n,
                total == sum(row.take(v as int)),
                sum(row) <= MAX_INTERACTIONS,
            decreases n - v,
        {
            let w = self.weight_at(i, v);
            proof {
                lemma_sum_take_next(row, v as int);
                lemma_sum_take_bound(row, v + 1);
            }
            total = total + w;
            v += 1;
        }
        proof {
            assert(row.take(n as int) =~= row);
        }
        total
    }

    /// The weight of all edges that enter node `i`.
    fn column_sum(&self, i: usize) -> (total: usize)
        requires
            self.wf(),
            i < self@.len(),
        ensures
            total == in_degree(self@, i as int),
            total <= MAX_INTERACTIONS,
    {
        let n = self.node_count();
        let ghost col = column(self@, i as int);
        let mut total: usize = 0;
        let mut u: usize = 0;
        proof {
            lemma_total_bounds(self@, 0, i as int);
            lemma_sum_take_bound(col, 0);
        }
        while u < n
            invariant
                self.wf(),
                n == self@.len(),
                i < n,
                col == column(self@, i as int),
                u <= n,
                total == sum(col.take(u as int)),
                sum(col) <= MAX_INTERACTIONS,
            decreases n - u,
        {
            let w = self.weight_at(u, i);
            proof {
                lemma_sum_take_next(col, u as int);
                lemma_sum_take_bound(col, u + 1);
            }
            total = total + w;
            u += 1;
        }
        proof {
            assert(col.take(n as int) =~= col);
        }
        total
    }

    /// The degree of every node, one `(node, degree)` pair per node in node
    /// order.
    pub fn degrees(&self, kind: DegreeKind) -> (results: Vec<(usize, usize)>)
        requires
            self.wf(),
        ensures
            results@ == degree_scores(self@, kind),
            forall|i: int|
                0 <= i < self@.len() ==> (#[trigger] results@[i]).0 == i && results@[i].1
                    == degree(self@, kind, i),
    {
        let n = self.node_count();
        let mut results: Vec<(usize, usize)> = Vec::new();
        let mut i: usize = 0;
        while i < n
            invariant
                self.wf(),
                n == self@.len(),
                i <= n,
                results@.len() == i,
                forall|k: int|
                    0 <= k < i ==> (#[trigger] results@[k]).0 == k && results@[k].1 == degree(
                        self@,
                        kind,
                        k,
                    ),
            decreases n - i,
        {
            let incoming = self.column_sum(i);
            let outgoing = self.row_sum(i);
            let score = match kind {
                DegreeKind::In => incoming,
                DegreeKind::Out => outgoing,
                DegreeKind::Combined => incoming + outgoing,
            };
            results.push((i, score));
            i += 1;
        }
        assert(results@ =~= degree_scores(self@, kind));
        results
    }

    /// The degree of every node for the metric called `type_str`, which is
    /// one of `in-degree`, `out-degree` and `combined`; any other name is
    /// refused.
    pub fn degree_centrality(&self, type_str: &str) -> (r: Result<
        Vec<(usize, usize)>,
        CentralityError,
    >)
        requires
            self.wf(),
        ensures
            match r {
                Ok(results) => metric_kind(type_str@) is Some && results@ == degree_scores(
                    self@,
                    metric_kind(type_str@).unwrap(),
                ),
                Err(e) => metric_kind(type_str@) is None && e
                    == CentralityError::InvalidMetricKind,
            },
    {
        match parse_kind(type_str) {
            Ok(kind) => Ok(self.degrees(kind)),
            Err(e) => Err(e),
        }
    }
}

/// In a well-formed graph no degree is cut short by the machine's integers:
/// each score of `degree_scores` is the degree itself.
pub proof fn lemma_degree_scores_exact(g: EdgeWeightedDigraph, kind: DegreeKind, i: int)
    requires
        g.wf(),
        0 <= i < g@.len(),
    ensures
        degree_scores(g@, kind)[i].0 == i,
        degree_scores(g@, kind)[i].1 == degree(g@, kind, i),
        degree(g@, kind, i) <= 2 * matrix_total(g@),
{
    lemma_total_bounds(g@, i, i);
}

/// For every node the in-degree score and the out-degree score add up to
/// the combined score.
pub proof fn lemma_combined_is_in_plus_out(g: EdgeWeightedDigraph, i: int)
    requires
        g.wf(),
        0 <= i < g@.len(),
    ensures
        degree_scores(g@, DegreeKind::In)[i].1 + degree_scores(g@, DegreeKind::Out)[i].1
            == degree_scores(g@, DegreeKind::Combined)[i].1,
{
    lemma_degree_scores_exact(g, DegreeKind::In, i);
    lemma_degree_scores_exact(g, DegreeKind::Out, i);
    lemma_degree_scores_exact(g, DegreeKind::Combined, i);
}

/// Over all nodes, the out-degree scores add up to the number of recorded
/// interactions, and so do the in-degree scores.
pub proof fn lemma_degree_scores_sum_to_interactions(g: EdgeWeightedDigraph)
    requires
        g.wf(),
    ensures
        sum(scores_of(degree_scores(g@, DegreeKind::Out))) == matrix_total(g@),
        sum(scores_of(degree_scores(g@, DegreeKind::In))) == matrix_total(g@),
{
    let m = g@;
    assert forall|i: int| 0 <= i < m.len() implies #[trigger] scores_of(
        degree_scores(m, DegreeKind::Out),
    )[i] == out_degrees(m)[i] by {
        lemma_degree_scores_exact(g, DegreeKind::Out, i);
    }
    assert forall|i: int| 0 <= i < m.len() implies #[trigger] scores_of(
        degree_scores(m, DegreeKind::In),
    )[i] == in_degrees(m, m.len())[i] by {
        lemma_degree_scores_exact(g, DegreeKind::In, i);
    }
    assert(scores_of(degree_scores(m, DegreeKind::Out)) =~= out_degrees(m));
    assert(scores_of(degree_scores(m, DegreeKind::In)) =~= in_degrees(m, m.len()));
    lemma_column_sums_total(m, m.len());
}

/// In a graph that holds the interactions `edges` and no others, the
/// out-degree scores add up to the number of those interactions, and so do
/// the in-degree scores: each interaction adds one to one row sum and to one
/// column sum.
pub proof fn lemma_degree_scores_sum_to_recordings(
    g: EdgeWeightedDigraph,
    edges: Seq<(int, int)>,
)
    requires
        g.wf(),
        edges_in_range(edges, g@.len()),
        g@ == record_all(zero_matrix(g@.len()), edges),
    ensures
        sum(scores_of(degree_scores(g@, DegreeKind::Out))) == edges.len(),
        sum(scores_of(degree_scores(g@, DegreeKind::In))) == edges.len(),
{
    lemma_degree_scores_sum_to_interactions(g);
    lemma_degree_sums_count_recordings(g@.len(), edges);
}

/// The degree scores are a function of the weights alone: graphs with the
/// same weights, and so one graph asked twice, give the same result.
pub proof fn lemma_degree_scores_repeatable(
    first: EdgeWeightedDigraph,
    second: EdgeWeightedDigraph,
    kind: DegreeKind,
)
    requires
        first@ == second@,
    ensures
        degree_scores(first@, kind) == degree_scores(second@, kind),
{
}

} // verus!
