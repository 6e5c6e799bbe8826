//! Reachability centrality: for each node, the number of other nodes from
//! which it can be reached along edges of positive weight.
//!
//! The tally is made by one breadth-first search per source node. The
//! metric goes by the name of simple betweenness centrality, and so does the
//! ranked entry point, but it is no betweenness in the classical sense: no
//! shortest paths between other pairs of nodes are counted.

use vstd::prelude::*;
use vstd::set_lib::{lemma_int_range, lemma_len_subset, set_int_range};
use crate::graph::EdgeWeightedDigraph;
use crate::ranking::{rank_descending, ranked};

verus! {

/// There is an edge from `u` to `v`: both are nodes and the weight is positive.
pub open spec fn has_edge(m: Seq<Seq<nat>>, u: int, v: int) -> bool {
    0 <= u < m.len() && 0 <= v < m.len() && m[u][v] > 0
}

/// `walk` is a non-empty sequence of nodes in which each node has an edge to
/// the next.
pub open spec fn is_walk(m: Seq<Seq<nat>>, walk: Seq<int>) -> bool {
    &&& walk.len() > 0
    &&& forall|i: int| 0 <= i < walk.len() ==> 0 <= #[trigger] walk[i] < m.len()
    &&& forall|i: int, j: int|
        0 <= i && j == i + 1 && j < walk.len() ==> has_edge(
            m,
            #[trigger] walk[i],
            #[trigger] walk[j],
        )
}

/// `to` can be reached from `from` along edges. Every node reaches itself.
pub open spec fn reachable(m: Seq<Seq<nat>>, from: int, to: int) -> bool {
    exists|walk: Seq<int>|
        #[trigger] is_walk(m, walk) && walk.first() == from && walk.last() == to
}

/// The nodes below `limit`, other than `v` itself, from which `v` can be reached.
pub open spec fn sources_below(m: Seq<Seq<nat>>, v: int, limit: int) -> Set<int> {
    Set::new(|s: int| 0 <= s < limit && s != v && reachable(m, s, v))
}

/// The number of nodes, other than `v` itself, from which `v` can be reached.
pub open spec fn reach_count(m: Seq<Seq<nat>>, v: int) -> nat {
    sources_below(m, v, m.len() as int).len()
}

/// One `(node, count)` pair for each node of `m`, in node order.
pub open spec fn reach_table(m: Seq<Seq<nat>>) -> Seq<(usize, usize)> {
    Seq::new(m.len(), |v: int| (v as usize, reach_count(m, v) as usize))
}

/// The test "this entry has a positive score".
pub open spec fn has_score() -> spec_fn((usize, usize)) -> bool {
    |entry: (usize, usize)| entry.1 > 0
}

/// The `(node, count)` pairs of the nodes that can be reached from at least
/// one other node, in node order.
pub open spec fn reach_scores(m: Seq<Seq<nat>>) -> Seq<(usize, usize)> {
    reach_table(m).filter(has_score())
}

/// Every node reaches itself.
pub proof fn lemma_reaches_itself(m: Seq<Seq<nat>>, s: int)
    requires
        0 <= s < m.len(),
    ensures
        reachable(m, s, s),
{
    let walk = seq![s];
    assert(is_walk(m, walk));
    assert(walk.first() == s && walk.last() == s);
}

/// What reaches a node reaches the nodes that this node has an edge to.
pub proof fn lemma_reach_step(m: Seq<Seq<nat>>, s: int, u: int, w: int)
    requires
        reachable(m, s, u),
        has_edge(m, u, w),
    ensures
        reachable(m, s, w),
{
    let walk = choose|walk: Seq<int>| #[trigger]
        is_walk(m, walk) && walk.first() == s && walk.last() == u;
    let longer = walk.push(w);
    assert forall|i: int, j: int| 0 <= i && j == i + 1 && j < longer.len() implies has_edge(
        m,
        #[trigger] longer[i],
        #[trigger] longer[j],
    ) by {
        if j < walk.len() {
            assert(has_edge(m, walk[i], walk[j]));
        }
    }
    assert(is_walk(m, longer));
    assert(longer.first() == s && longer.last() == w);
}

/// A set of nodes that holds the first node of a walk, and with each node
/// the nodes that it has an edge to, holds the last node of the walk.
proof fn lemma_walk_stays_inside(m: Seq<Seq<nat>>, inside: Seq<bool>, walk: Seq<int>)
    requires
        inside.len() == m.len(),
        is_walk(m, walk),
        inside[walk.first()],
        forall|u: int, w: int|
            0 <= u < m.len() && inside[u] && #[trigger] has_edge(m, u, w) ==> inside[w],
    ensures
        inside[walk.last()],
    decreases walk.len(),
{
    if walk.len() > 1 {
        let shorter = walk.drop_last();
        assert forall|i: int, j: int|
            0 <= i && j == i + 1 && j < shorter.len() implies has_edge(
            m,
            #[trigger] shorter[i],
            #[trigger] shorter[j],
        ) by {
            assert(has_edge(m, walk[i], walk[j]));
        }
        assert(is_walk(m, shorter));
        lemma_walk_stays_inside(m, inside, shorter);
        let i = walk.len() - 2;
        assert(has_edge(m, walk[i], walk[i + 1]));
        assert(shorter.last() == walk[i]);
    }
}

/// The sources below a limit are finitely many, at most as many as the limit.
pub proof fn lemma_sources_bounded(m: Seq<Seq<nat>>, v: int, limit: int)
    requires
        0 <= limit,
    ensures
        sources_below(m, v, limit).finite(),
        sources_below(m, v, limit).len() <= limit,
{
    lemma_int_range(0, limit);
    assert(sources_below(m, v, limit).subset_of(set_int_range(0, limit)));
    lemma_len_subset(sources_below(m, v, limit), set_int_range(0, limit));
}

/// Raising the limit by one adds the node at the old limit to the sources
/// if it is another node than `v` and reaches `v`, and nothing otherwise.
pub proof fn lemma_sources_next(m: Seq<Seq<nat>>, v: int, limit: int)
    requires
        0 <= limit,
    ensures
        sources_below(m, v, limit + 1).len() == sources_below(m, v, limit).len() + (if limit != v
            && reachable(m, limit, v) {
            1int
        } else {
            0int
        }),
{
    lemma_sources_bounded(m, v, limit);
    let smaller = sources_below(m, v, limit);
    let larger = sources_below(m, v, limit + 1);
    if limit != v && reachable(m, limit, v) {
        assert(larger =~= smaller.insert(limit));
        vstd::set::axiom_set_insert_len(smaller, limit);
    } else {
        assert(larger =~= smaller);
    }
}

/// Distinct numbers below `n` are at most `n` many.
proof fn lemma_distinct_below(q: Seq<usize>, n: nat)
    requires
        forall|i: int| 0 <= i < q.len() ==> q[i] < n,
        forall|i: int, j: int| 0 <= i < j < q.len() ==> q[i] != q[j],
    ensures
        q.len() <= n,
    decreases n,
{
    if n == 0 {
        if q.len() > 0 {
            assert(q[0] < n);
        }
    } else if exists|i: int| 0 <= i < q.len() && q[i] == n - 1 {
        let at = choose|i: int| 0 <= i < q.len() && q[i] == n - 1;
        let rest = q.remove(at);
        assert forall|i: int| 0 <= i < rest.len() implies rest[i] < n - 1 by {
            let k = if i < at { i } else { i + 1 };
            assert(rest[i] == q[k]);
            if k < at {
                assert(q[k] != q[at]);
            } else {
                assert(q[at] != q[k]);
            }
        }
        assert forall|i: int, j: int| 0 <= i < j < rest.len() implies rest[i] != rest[j] by {
            let a = if i < at { i } else { i + 1 };
            let b = if j < at { j } else { j + 1 };
            assert(rest[i] == q[a] && rest[j] == q[b]);
        }
        lemma_distinct_below(rest, (n - 1) as nat);
    } else {
        assert forall|i: int| 0 <= i < q.len() implies q[i] < n - 1 by {
            assert(q[i] < n);
        }
        lemma_distinct_below(q, (n - 1) as nat);
    }
}

/// What holds of one breadth-first search from `source` at any moment.
/// `queue` lists the nodes found so far in the order in which they were
/// found, the first `done` of them have had their edges followed, and
/// `counts` is `before` raised by one at each node found, but for `source`.
spec fn search_state(
    m: Seq<Seq<nat>>,
    source: int,
    before: Seq<usize>,
    visited: Seq<bool>,
    queue: Seq<usize>,
    counts: Seq<usize>,
    done: int,
) -> bool {
    &&& m.len() <= usize::MAX
    &&& visited.len() == m.len()
    &&& counts.len() == m.len()
    &&& before.len() == m.len()
    &&& 0 <= source < m.len()
    &&& 0 <= done <= queue.len()
    &&& visited[source]
    &&& forall|i: int|
        0 <= i < queue.len() ==> (#[trigger] queue[i]) < m.len() && visited[queue[i] as int]
    &&& forall|i: int, j: int| 0 <= i < j < queue.len() ==> queue[i] != queue[j]
    &&& forall|v: int|
        0 <= v < m.len() && #[trigger] visited[v] ==> queue.contains(v as usize) && reachable(
            m,
            source,
            v,
        )
    &&& forall|i: int, w: int|
        0 <= i < done && #[trigger] has_edge(m, queue[i] as int, w) ==> visited[w]
    &&& forall|v: int|
        0 <= v < m.len() ==> #[trigger] counts[v] == before[v] + (if visited[v] && v != source {
            1int
        } else {
            0int
        })
}

/// The search may begin with the source alone found.
proof fn lemma_search_begins(
    m: Seq<Seq<nat>>,
    source: int,
    before: Seq<usize>,
    visited: Seq<bool>,
)
    requires
        before.len() == m.len(),
        visited.len() == m.len(),
        0 <= source < m.len() <= usize::MAX,
        visited[source],
        forall|v: int| 0 <= v < m.len() && v != source ==> !visited[v],
    ensures
        search_state(m, source, before, visited, seq![source as usize], before, 0),
{
    let queue = seq![source as usize];
    lemma_reaches_itself(m, source);
    assert(queue[0] == source);
    assert forall|v: int| 0 <= v < m.len() && #[trigger] visited[v] implies queue.contains(
        v as usize,
    ) && reachable(m, source, v) by {
        assert(v == source);
    }
}

/// Finding a node that was not yet visited, over an edge from a visited
/// node, keeps the search in order.
proof fn lemma_search_finds(
    m: Seq<Seq<nat>>,
    source: int,
    before: Seq<usize>,
    visited: Seq<bool>,
    queue: Seq<usize>,
    counts: Seq<usize>,
    done: int,
    from: int,
    found: int,
)
    requires
        search_state(m, source, before, visited, queue, counts, done),
        0 <= from < m.len(),
        visited[from],
        has_edge(m, from, found),
        !visited[found],
        before[found] < usize::MAX,
    ensures
        counts[found] == before[found],
        search_state(
            m,
            source,
            before,
            visited.update(found, true),
            queue.push(found as usize),
            counts.update(found, (counts[found] + 1) as usize),
            done,
        ),
{
    let visited2 = visited.update(found, true);
    let queue2 = queue.push(found as usize);
    let counts2 = counts.update(found, (counts[found] + 1) as usize);
    assert(counts[found] == before[found]);
    lemma_reach_step(m, source, from, found);
    assert forall|i: int| 0 <= i < queue2.len() implies (#[trigger] queue2[i]) < m.len()
        && visited2[queue2[i] as int] by {
        if i < queue.len() {
            assert(queue2[i] == queue[i]);
        }
    }
    assert forall|i: int, j: int| 0 <= i < j < queue2.len() implies queue2[i] != queue2[j] by {
        assert(queue2[i] == queue[i]);
        assert(visited[queue[i] as int]);
        if j < queue.len() {
            assert(queue2[j] == queue[j]);
        }
    }
    assert forall|v: int| 0 <= v < m.len() && #[trigger] visited2[v] implies queue2.contains(
        v as usize,
    ) && reachable(m, source, v) by {
        if v == found {
            assert(queue2[queue.len() as int] == v as usize);
        } else {
            assert(visited[v]);
            let i = choose|i: int| 0 <= i < queue.len() && queue[i] == v as usize;
            assert(queue2[i] == v as usize);
        }
    }
    assert forall|i: int, w: int|
        0 <= i < done && #[trigger] has_edge(m, queue2[i] as int, w) implies visited2[w] by {
        assert(queue2[i] == queue[i]);
        assert(has_edge(m, queue[i] as int, w));
    }
    assert forall|v: int| 0 <= v < m.len() implies #[trigger] counts2[v] == before[v] + (
    if visited2[v] && v != source {
        1int
    } else {
        0int
    }) by {
        if v != found {
            assert(counts2[v] == counts[v]);
        }
    }
}

/// Once all edges of the next node in the queue lead to visited nodes, that
/// node is done.
proof fn lemma_search_advances(
    m: Seq<Seq<nat>>,
    source: int,
    before: Seq<usize>,
    visited: Seq<bool>,
    queue: Seq<usize>,
    counts: Seq<usize>,
    done: int,
)
    requires
        search_state(m, source, before, visited, queue, counts, done),
        done < queue.len(),
        forall|w: int| 0 <= w < m.len() && m[queue[done] as int][w] > 0 ==> visited[w],
    ensures
        search_state(m, source, before, visited, queue, counts, done + 1),
{
    assert forall|i: int, w: int|
        0 <= i < done + 1 && #[trigger] has_edge(m, queue[i] as int, w) implies visited[w] by {
        if i < done {
        } else {
            assert(m[queue[done] as int][w] > 0);
        }
    }
}

/// When every found node is done, the visited nodes are exactly those that
/// the source reaches, and the counts have grown by one at each of them but
/// the source.
proof fn lemma_search_ends(
    m: Seq<Seq<nat>>,
    source: int,
    before: Seq<usize>,
    visited: Seq<bool>,
    queue: Seq<usize>,
    counts: Seq<usize>,
)
    requires
        search_state(m, source, before, visited, queue, counts, queue.len() as int),
        forall|v: int|
            0 <= v < m.len() ==> (#[trigger] before[v]) == sources_below(m, v, source).len(),
    ensures
        forall|v: int|
            0 <= v < m.len() ==> (#[trigger] counts[v]) == sources_below(m, v, source + 1).len(),
{
    assert forall|u: int, w: int|
        0 <= u < m.len() && visited[u] && #[trigger] has_edge(m, u, w) implies visited[w] by {
        assert(queue.contains(u as usize));
        let i = choose|i: int| 0 <= i < queue.len() && queue[i] == u as usize;
        assert(has_edge(m, queue[i] as int, w));
    }
    assert forall|v: int| 0 <= v < m.len() implies (#[trigger] counts[v]) == sources_below(
        m,
        v,
        source + 1,
    ).len() by {
        lemma_sources_next(m, v, source);
        if reachable(m, source, v) {
            let walk = choose|walk: Seq<int>| #[trigger]
                is_walk(m, walk) && walk.first() == source && walk.last() == v;
            lemma_walk_stays_inside(m, visited, walk);
        }
        assert(visited[v] <==> reachable(m, source, v));
        assert(before[v] == sources_below(m, v, source).len());
    }
}

/// No count is cut short by the machine's integers: where the nodes are
/// `usize` values, each entry of `reach_table` holds the node and its count
/// themselves, and no count exceeds the number of the other nodes.
pub proof fn lemma_reach_table_exact(m: Seq<Seq<nat>>, v: int)
    requires
        m.len() <= usize::MAX,
        0 <= v < m.len(),
    ensures
        reach_table(m)[v].0 == v,
        reach_table(m)[v].1 == reach_count(m, v),
        reach_count(m, v) < m.len(),
{
    let n = m.len() as int;
    let others = set_int_range(0, n).remove(v);
    lemma_int_range(0, n);
    assert(sources_below(m, v, n).subset_of(others));
    lemma_len_subset(sources_below(m, v, n), others);
}

/// The reachability scores and their ranking are a function of the weights
/// alone: graphs with the same weights, and so one graph asked twice, give
/// the same result.
pub proof fn lemma_reach_scores_repeatable(first: EdgeWeightedDigraph, second: EdgeWeightedDigraph)
    requires
        first@ == second@,
    ensures
        reach_scores(first@) == reach_scores(second@),
        ranked(reach_scores(first@)) == ranked(reach_scores(second@)),
{
}

impl EdgeWeightedDigraph {
    /// One breadth-first search from `source`: raises by one the count of
    /// every other node that `source` reaches.
    fn tally_reached_from(&self, source: usize, counts: &mut Vec<usize>)
        requires
            self.wf(),
            source < self@.len(),
            old(counts)@.len() == self@.len(),
            forall|v: int|
                0 <= v < self@.len() ==> (#[trigger] old(counts)@[v]) == sources_below(
                    self@,
                    v,
                    source as int,
                ).len(),
        ensures
            final(counts)@.len() == self@.len(),
            forall|v: int|
                0 <= v < self@.len() ==> (#[trigger] final(counts)@[v]) == sources_below(
                    self@,
                    v,
                    source + 1,
                ).len(),
    {
        let n = self.node_count();
        let ghost m = self@;
        let ghost before = counts@;
        let mut visited: Vec<bool> = Vec::new();
        let mut k: usize = 0;
        while k < n
            invariant
                k <= n,
                visited@.len() == k,
                forall|v: int| 0 <= v < k ==> !visited@[v],
            decreases n - k,
        {
            visited.push(false);
            k += 1;
        }
        visited[source] = true;
        let mut queue: Vec<usize> = Vec::new();
        queue.push(source);
        let mut head: usize = 0;
        proof {
            assert(queue@ =~= seq![source]);
            lemma_search_begins(m, source as int, before, visited@);
            assert forall|v: int| 0 <= v < n implies (#[trigger] before[v]) <= source by {
                lemma_sources_bounded(m, v, source as int);
            }
        }
        while head < queue.len()
            invariant
                self.wf(),
                m == self@,
                n == m.len(),
                source < n,
                search_state(m, source as int, before, visited@, queue@, counts@, head as int),
                forall|v: int| 0 <= v < n ==> (#[trigger] before[v]) <= source,
            decreases n - head,
        {
            proof {
                lemma_distinct_below(queue@, n as nat);
            }
            let node = queue[head];
            let mut j: usize = 0;
            while j < n
                invariant
                    self.wf(),
                    m == self@,
                    n == m.len(),
                    source < n,
                    j <= n,
                    head < queue@.len(),
                    node == queue@[head as int],
                    node < n,
                    search_state(m, source as int, before, visited@, queue@, counts@, head as int),
                    forall|v: int| 0 <= v < n ==> (#[trigger] before[v]) <= source,
                    forall|w: int| 0 <= w < j && m[node as int][w] > 0 ==> visited@[w],
                decreases n - j,
            {
                if self.weight_at(node, j) > 0 && !visited[j] {
                    proof {
                        assert(before[j as int] <= source);
                        lemma_search_finds(
                            m,
                            source as int,
                            before,
                            visited@,
                            queue@,
                            counts@,
                            head as int,
                            node as int,
                            j as int,
                        );
                    }
                    visited[j] = true;
                    queue.push(j);
                    let seen = counts[j];
                    counts[j] = seen + 1;
                }
                j += 1;
            }
            proof {
                lemma_search_advances(
                    m,
                    source as int,
                    before,
                    visited@,
                    queue@,
                    counts@,
                    head as int,
                );
            }
            head += 1;
        }
        proof {
            lemma_search_ends(m, source as int, before, visited@, queue@, counts@);
        }
    }

    /// For each node that can be reached from at least one other node, the
    /// number of nodes that reach it, as `(node, count)` pairs in node order.
    pub fn reachability_centrality(&self) -> (results: Vec<(usize, usize)>)
        requires
            self.wf(),
        ensures
            results@ == reach_scores(self@),
    {
        let n = self.node_count();
        let ghost m = self@;
        let mut counts: Vec<usize> = Vec::new();
        let mut k: usize = 0;
        while k < n
            invariant
                k <= n,
                counts@.len() == k,
                forall|v: int| 0 <= v < k ==> counts@[v] == 0,
            decreases n - k,
        {
            counts.push(0);
            k += 1;
        }
        proof {
            assert forall|v: int| 0 <= v < n implies (#[trigger] counts@[v]) == sources_below(
                m,
                v,
                0,
            ).len() by {
                assert(sources_below(m, v, 0) =~= Set::empty());
            }
        }
        let mut source: usize = 0;
        while source < n
            invariant
                self.wf(),
                m == self@,
                n == m.len(),
                source <= n,
                counts@.len() == n,
                forall|v: int|
                    0 <= v < n ==> (#[trigger] counts@[v]) == sources_below(
                        m,
                        v,
                        source as int,
                    ).len(),
            decreases n - source,
        {
            self.tally_reached_from(source, &mut counts);
            source += 1;
        }
        let mut results: Vec<(usize, usize)> = Vec::new();
        let mut v: usize = 0;
        proof {
            assert(reach_table(m).take(0).filter(has_score()) =~= Seq::empty()) by {
                reveal(Seq::filter);
            }
        }
        while v < n
            invariant
                n == m.len(),
                v <= n,
                counts@.len() == n,
                forall|w: int| 0 <= w < n ==> (#[trigger] counts@[w]) == reach_count(m, w),
                results@ == reach_table(m).take(v as int).filter(has_score()),
            decreases n - v,
        {
            let count = counts[v];
            proof {
                let table = reach_table(m);
                assert(table.take(v + 1) =~= table.take(v as int).push(table[v as int]));
                table.take(v as int).lemma_filter_push(table[v as int], has_score());
                assert(table[v as int] == (v, count));
            }
            if count > 0 {
                results.push((v, count));
            }
            v += 1;
        }
        proof {
            assert(reach_table(m).take(n as int) =~= reach_table(m));
        }
        results
    }

    /// The reachability centrality of the graph, ranked: highest count
    /// first, nodes of equal count by ascending node index. Nodes that no
    /// other node reaches are left out.
    pub fn simple_betweenness_centrality(&self) -> (ranking: Vec<(usize, usize)>)
        requires
            self.wf(),
        ensures
            ranking@ == ranked(reach_scores(self@)),
    {
        let results = self.reachability_centrality();
        rank_descending(&results)
    }
}

} // verus!
