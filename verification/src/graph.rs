//! The graph store: a dense matrix of interaction counts.

use vstd::prelude::*;
use crate::error::CentralityError;
use crate::matrix::{is_square, lemma_record, lemma_sum_zeros, lemma_total_bounds, matrix_total,
    out_degrees, record, zero_matrix};

verus! {

/// The largest number of interactions a graph records. It is chosen so that
/// the combined degree of a node, which counts a self-loop twice, always fits
/// a `usize`.
pub const MAX_INTERACTIONS: usize = usize::MAX / 2;

/// The weight matrix that the stored rows stand for.
pub open spec fn matrix_of(rows: Seq<Seq<usize>>) -> Seq<Seq<nat>> {
    Seq::new(rows.len(), |u: int| Seq::new(rows[u].len(), |v: int| rows[u][v] as nat))
}

/// A directed graph on the nodes `0..n` whose edge weights count how often
/// an interaction from one node to another was recorded.
pub struct EdgeWeightedDigraph {
    graph: Vec<Vec<usize>>,
    recorded: usize,
}

impl View for EdgeWeightedDigraph {
    type V = Seq<Seq<nat>>;

    /// The weight matrix: `self@[u][v]` is the weight of the edge from `u` to `v`.
    closed spec fn view(&self) -> Seq<Seq<nat>> {
        matrix_of(self.graph.deep_view())
    }
}

impl EdgeWeightedDigraph {
    /// The number of interactions that the graph keeps count of.
    pub closed spec fn counted(&self) -> nat {
        self.recorded as nat
    }

    /// The representation invariant: the matrix is square, every node is a
    /// `usize`, the graph knows how many interactions it holds, and they are
    /// not too many.
    pub open spec fn wf(&self) -> bool {
        &&& is_square(self@)
        &&& self@.len() <= usize::MAX
        &&& self.counted() == matrix_total(self@)
        &&& self.counted() <= MAX_INTERACTIONS
    }

    /// A graph on `n` nodes without any recorded interaction.
    pub fn new(n: usize) -> (g: Self)
        ensures
            g.wf(),
            g@ == zero_matrix(n as nat),
            matrix_total(g@) == 0,
    {
        let mut rows: Vec<Vec<usize>> = Vec::new();
        let mut u: usize = 0;
        while u < n
            invariant
                u <= n,
                rows@.len() == u,
                forall|i: int|
                    0 <= i < u ==> (#[trigger] rows@[i])@ == Seq::new(n as nat, |v: int| 0usize),
            decreases n - u,
        {
            let mut row: Vec<usize> = Vec::new();
            let mut v: usize = 0;
            while v < n
                invariant
                    v <= n,
                    row@ == Seq::new(v as nat, |j: int| 0usize),
                decreases n - v,
            {
                row.push(0);
                v += 1;
            }
            rows.push(row);
            u += 1;
        }
        let g = EdgeWeightedDigraph { graph: rows, recorded: 0 };
        proof {
            assert(g@ =~~= zero_matrix(n as nat));
            assert forall|i: int| 0 <= i < n implies out_degrees(g@)[i] == 0 by {
                lemma_sum_zeros(g@[i]);
            }
            lemma_sum_zeros(out_degrees(g@));
        }
        g
    }

    /// The number of nodes.
    pub fn node_count(&self) -> (n: usize)
        ensures
            n == self@.len(),
    {
        self.graph.len()
    }

    /// The number of interactions recorded so far.
    pub fn interactions(&self) -> (count: usize)
        requires
            self.wf(),
        ensures
            count == matrix_total(self@),
            count <= MAX_INTERACTIONS,
    {
        self.recorded
    }

    /// The rows of the weight matrix, as they are stored.
    pub fn rows(&self) -> (rows: &Vec<Vec<usize>>)
        ensures
            matrix_of(rows.deep_view()) == self@,
    {
        &self.graph
    }

    /// Records one interaction from `start` to `end`: the weight of that edge
    /// grows by one. Refuses a pair that names a node the graph does not have,
    /// and then leaves the graph as it was.
    pub fn add_weight(&mut self, start: usize, end: usize) -> (r: Result<(), CentralityError>)
        requires
            old(self).wf(),
            start < old(self)@.len() && end < old(self)@.len() ==> matrix_total(old(self)@)
                < MAX_INTERACTIONS,
        ensures
            final(self).wf(),
            final(self)@ == record(old(self)@, start as int, end as int),
            final(self)@.len() == old(self)@.len(),
            r is Ok <==> start < old(self)@.len() && end < old(self)@.len(),
            r is Ok ==> matrix_total(final(self)@) == matrix_total(old(self)@) + 1,
            r is Err ==> r == Err::<(), CentralityError>(CentralityError::IndexOutOfRange)
                && final(self)@ == old(self)@,
    {
        let n = self.graph.len();
        if start >= n || end >= n {
            return Err(CentralityError::IndexOutOfRange);
        }
        proof {
            assert(self@[start as int].len() == n);
            lemma_total_bounds(self@, start as int, end as int);
            lemma_record(self@, start as int, end as int);
        }
        let weight = self.graph[start][end];
        self.graph[start][end] = weight + 1;
        self.recorded = self.recorded + 1;
        assert(self@ =~~= record(old(self)@, start as int, end as int));
        Ok(())
    }

    /// The weight of the edge from `start` to `end`, or a refusal where the
    /// pair names a node the graph does not have.
    pub fn get_weight(&self, start: usize, end: usize) -> (r: Result<usize, CentralityError>)
        requires
            self.wf(),
        ensures
            start < self@.len() && end < self@.len() ==> r == Ok::<usize, CentralityError>(
                self@[start as int][end as int] as usize,
            ) && self@[start as int][end as int] <= MAX_INTERACTIONS,
            !(start < self@.len() && end < self@.len()) ==> r == Err::<usize, CentralityError>(
                CentralityError::IndexOutOfRange,
            ),
    {
        let n = self.graph.len();
        if start >= n || end >= n {
            return Err(CentralityError::IndexOutOfRange);
        }
        proof {
            assert(self@[start as int].len() == n);
            lemma_total_bounds(self@, start as int, end as int);
        }
        Ok(self.graph[start][end])
    }

    /// The weight of the edge from `u` to `v`, both known to be nodes.
    pub(crate) fn weight_at(&self, u: usize, v: usize) -> (w: usize)
        requires
            self.wf(),
            u < self@.len(),
            v < self@.len(),
        ensures
            w == self@[u as int][v as int],
    {
        assert(self@[u as int].len() == self@.len());
        self.graph[u][v]
    }
}

} // verus!
