//! Hop distances between the stations of a network, by breadth-first search.

use vstd::prelude::*;

verus! {

/// Every neighbour listed in `adj` is itself a node of the graph.
pub open spec fn well_formed_graph(adj: Seq<Vec<usize>>) -> bool {
    forall|u: int, j: int|
        0 <= u < adj.len() && 0 <= j < adj[u]@.len() ==> (#[trigger] adj[u]@[j]) < adj.len()
}

/// There is a directed edge from `u` to `t`.
pub open spec fn has_edge(adj: Seq<Vec<usize>>, u: int, t: int) -> bool {
    &&& 0 <= u < adj.len()
    &&& exists|j: int| 0 <= j < adj[u]@.len() && #[trigger] adj[u]@[j] as int == t
}

/// `t` can be reached from `s` by following at most `k` edges.
pub open spec fn reachable_in(adj: Seq<Vec<usize>>, s: int, t: int, k: nat) -> bool
    decreases k,
{
    if k == 0 {
        t == s
    } else {
        ||| reachable_in(adj, s, t, (k - 1) as nat)
        ||| exists|u: int| reachable_in(adj, s, u, (k - 1) as nat) && #[trigger] has_edge(adj, u, t)
    }
}

/// `d` is the length of a shortest path from `s` to `t`.
pub open spec fn is_shortest_distance(adj: Seq<Vec<usize>>, s: int, t: int, d: nat) -> bool {
    &&& reachable_in(adj, s, t, d)
    &&& (d > 0 ==> !reachable_in(adj, s, t, (d - 1) as nat))
}

/// No path at all leads from `s` to `t`.
pub open spec fn is_unreachable(adj: Seq<Vec<usize>>, s: int, t: int) -> bool {
    forall|k: nat| !#[trigger] reachable_in(adj, s, t, k)
}

/// `row[t]` is the hop distance from `s` to `t`, or `u32::MAX` where `t` cannot be reached.
pub open spec fn is_distance_row(adj: Seq<Vec<usize>>, s: int, row: Seq<u32>) -> bool {
    &&& row.len() == adj.len()
    &&& forall|t: int|
        0 <= t < row.len() ==> if #[trigger] row[t] == u32::MAX {
            is_unreachable(adj, s, t)
        } else {
            is_shortest_distance(adj, s, t, row[t] as nat)
        }
}

/// Every node is at distance 0 from itself.
pub proof fn lemma_distance_to_self_is_zero(adj: Seq<Vec<usize>>, s: int, row: Seq<u32>)
    requires
        is_distance_row(adj, s, row),
        0 <= s < row.len(),
    ensures
        row[s] == 0,
{
    if row[s] == u32::MAX {
        assert(reachable_in(adj, s, s, 0));
    } else if row[s] > 0 {
        lemma_reachable_monotone(adj, s, s, 0, (row[s] - 1) as nat);
    }
}

/// `more` has the nodes of `adj` and at least its edges.
pub open spec fn has_more_edges(adj: Seq<Vec<usize>>, more: Seq<Vec<usize>>) -> bool {
    &&& adj.len() == more.len()
    &&& forall|u: int, t: int| #[trigger] has_edge(adj, u, t) ==> has_edge(more, u, t)
}

proof fn lemma_reachable_with_more_edges(adj: Seq<Vec<usize>>, more: Seq<Vec<usize>>, s: int, t: int, k: nat)
    requires
        has_more_edges(adj, more),
        reachable_in(adj, s, t, k),
    ensures
        reachable_in(more, s, t, k),
    decreases k,
{
    if k > 0 {
        if reachable_in(adj, s, t, (k - 1) as nat) {
            lemma_reachable_with_more_edges(adj, more, s, t, (k - 1) as nat);
        } else {
            let u = choose|u: int| reachable_in(adj, s, u, (k - 1) as nat) && #[trigger] has_edge(adj, u, t);
            lemma_reachable_with_more_edges(adj, more, s, u, (k - 1) as nat);
            assert(has_edge(more, u, t));
        }
    }
}

/// Adding edges never lengthens a distance, nor cuts off a node that was reachable.
pub proof fn lemma_more_edges_never_lengthen(
    adj: Seq<Vec<usize>>,
    more: Seq<Vec<usize>>,
    s: int,
    row: Seq<u32>,
    more_row: Seq<u32>,
)
    requires
        has_more_edges(adj, more),
        is_distance_row(adj, s, row),
        is_distance_row(more, s, more_row),
    ensures
        forall|t: int| 0 <= t < row.len() ==> #[trigger] more_row[t] <= row[t],
{
    assert forall|t: int| 0 <= t < row.len() implies #[trigger] more_row[t] <= row[t] by {
        if row[t] != u32::MAX {
            assert(is_shortest_distance(adj, s, t, row[t] as nat));
            lemma_reachable_with_more_edges(adj, more, s, t, row[t] as nat);
            if more_row[t] == u32::MAX {
                assert(!reachable_in(more, s, t, row[t] as nat));
            } else {
                lemma_shortest_is_minimal(more, s, t, more_row[t] as nat, row[t] as nat);
            }
        }
    }
}

/// Paths of at most `j` edges are also paths of at most `k` edges, for `j <= k`.
pub proof fn lemma_reachable_monotone(adj: Seq<Vec<usize>>, s: int, t: int, j: nat, k: nat)
    requires
        j <= k,
        reachable_in(adj, s, t, j),
    ensures
        reachable_in(adj, s, t, k),
    decreases k - j,
{
    if j < k {
        lemma_reachable_monotone(adj, s, t, j, (k - 1) as nat);
    }
}

/// A shortest distance is no longer than any path length.
pub proof fn lemma_shortest_is_minimal(adj: Seq<Vec<usize>>, s: int, t: int, d: nat, k: nat)
    requires
        is_shortest_distance(adj, s, t, d),
        reachable_in(adj, s, t, k),
    ensures
        d <= k,
{
    if d > k {
        lemma_reachable_monotone(adj, s, t, k, (d - 1) as nat);
    }
}

proof fn lemma_reachable_in_range(adj: Seq<Vec<usize>>, s: int, t: int, k: nat)
    requires
        well_formed_graph(adj),
        0 <= s < adj.len(),
        reachable_in(adj, s, t, k),
    ensures
        0 <= t < adj.len(),
    decreases k,
{
    if k > 0 {
        if !reachable_in(adj, s, t, (k - 1) as nat) {
            let u = choose|u: int| reachable_in(adj, s, u, (k - 1) as nat) && #[trigger] has_edge(adj, u, t);
            let j = choose|j: int| 0 <= j < adj[u]@.len() && #[trigger] adj[u]@[j] as int == t;
            assert(adj[u]@[j] < adj.len());
        } else {
            lemma_reachable_in_range(adj, s, t, (k - 1) as nat);
        }
    }
}

/// When the nodes ever reached form a set closed under edges that holds `s`,
/// every node reachable from `s` is in it.
proof fn lemma_closed_set_holds_reachable(
    adj: Seq<Vec<usize>>,
    s: int,
    row: Seq<u32>,
    queue: Seq<usize>,
    t: int,
    k: nat,
)
    requires
        well_formed_graph(adj),
        0 <= s < adj.len(),
        adj.len() <= usize::MAX,
        row.len() == adj.len(),
        row[s] != u32::MAX,
        forall|x: int| 0 <= x < adj.len() ==> (#[trigger] row[x] != u32::MAX <==> queue.contains(x as usize)),
        forall|i: int, w: int|
            0 <= i < queue.len() && has_edge(adj, #[trigger] queue[i] as int, w) ==> #[trigger] row[w] != u32::MAX,
        reachable_in(adj, s, t, k),
    ensures
        row[t] != u32::MAX,
    decreases k,
{
    if k > 0 {
        if reachable_in(adj, s, t, (k - 1) as nat) {
            lemma_closed_set_holds_reachable(adj, s, row, queue, t, (k - 1) as nat);
        } else {
            let u = choose|u: int| reachable_in(adj, s, u, (k - 1) as nat) && #[trigger] has_edge(adj, u, t);
            lemma_reachable_in_range(adj, s, u, (k - 1) as nat);
            lemma_closed_set_holds_reachable(adj, s, row, queue, u, (k - 1) as nat);
            assert(queue.contains(u as usize));
            let i = choose|i: int| 0 <= i < queue.len() && queue[i] == u as usize;
            assert(has_edge(adj, queue[i] as int, t));
        }
    }
}

proof fn lemma_distinct_bounded(q: Seq<usize>, n: int)
    requires
        0 <= n,
        q.no_duplicates(),
        forall|i: int| 0 <= i < q.len() ==> #[trigger] q[i] < n,
    ensures
        q.len() <= n,
{
    let f = |x: usize| x as int;
    assert(vstd::relations::injective(f));
    q.lemma_no_duplicates_injective(f);
    let qi = q.map_values(f);
    qi.unique_seq_to_set();
    assert forall|x: int| qi.to_set().contains(x) implies vstd::set_lib::set_int_range(0, n).contains(x) by {
        assert(qi.contains(x));
        let i = choose|i: int| 0 <= i < qi.len() && qi[i] == x;
        assert(q[i] < n);
    }
    vstd::set_lib::lemma_int_range(0, n);
    vstd::set_lib::lemma_len_subset(qi.to_set(), vstd::set_lib::set_int_range(0, n));
}

/// Breadth-first search from `start`: the hop distance to every node, `u32::MAX` for
/// the nodes that no path reaches.
pub fn distances_from(neighbour_map: &Vec<Vec<usize>>, start: usize) -> (row: Vec<u32>)
    requires
        well_formed_graph(neighbour_map@),
        neighbour_map.len() < u32::MAX,
        start < neighbour_map.len(),
    ensures
        is_distance_row(neighbour_map@, start as int, row@),
{
    let ghost adj = neighbour_map@;
    let n = neighbour_map.len();
    let mut row: Vec<u32> = Vec::new();
    let mut i: usize = 0;
    while i < n
        invariant
            i <= n,
            row.len() == i,
            forall|t: int| 0 <= t < i ==> row@[t] == u32::MAX,
        decreases n - i,
    {
        row.push(u32::MAX);
        i += 1;
    }
    row.set(start, 0);
    let mut queue: Vec<usize> = Vec::new();
    queue.push(start);
    assert(is_shortest_distance(adj, start as int, start as int, 0));
    assert forall|t: int| 0 <= t < n implies (#[trigger] row@[t] != u32::MAX <==> queue@.contains(t as usize)) by {
        if t == start as int {
            assert(queue@[0] == start);
        }
    }
    let mut head: usize = 0;
    while head < queue.len()
        invariant
            adj == neighbour_map@,
            n == adj.len(),
            well_formed_graph(adj),
            n < u32::MAX,
            start < n,
            row.len() == n,
            1 <= queue.len() <= n,
            head <= queue.len(),
            queue@[0] == start,
            queue@.no_duplicates(),
            forall|i: int| 0 <= i < queue.len() ==> #[trigger] queue@[i] < n,
            forall|t: int| 0 <= t < n ==> (#[trigger] row@[t] != u32::MAX <==> queue@.contains(t as usize)),
            forall|i: int| 0 <= i < queue.len() ==> row@[#[trigger] queue@[i] as int] <= i,
            forall|i: int, j: int|
                0 <= i <= j < queue.len() ==> row@[#[trigger] queue@[i] as int] <= row@[#[trigger] queue@[j] as int],
            head < queue.len() ==> row@[queue@[queue.len() - 1] as int] <= row@[queue@[head as int] as int] + 1,
            forall|i: int|
                0 <= i < queue.len() ==> is_shortest_distance(
                    adj,
                    start as int,
                    #[trigger] queue@[i] as int,
                    row@[queue@[i] as int] as nat,
                ),
            forall|i: int, w: int|
                0 <= i < head && has_edge(adj, #[trigger] queue@[i] as int, w) ==> #[trigger] row@[w] != u32::MAX,
            head < queue.len() ==> forall|k: nat, t: int|
                0 <= t < n && k <= row@[queue@[head as int] as int] && #[trigger] reachable_in(adj, start as int, t, k)
                    ==> row@[t] != u32::MAX,
        decreases n - head,
    {
        let v = queue[head];
        let d = row[v];
        let nbrs = &neighbour_map[v];
        let ghost q0 = queue@;
        let mut j: usize = 0;
        while j < nbrs.len()
            invariant
                adj == neighbour_map@,
                n == adj.len(),
                well_formed_graph(adj),
                n < u32::MAX,
                start < n,
                row.len() == n,
                head < q0.len(),
                v == q0[head as int],
                nbrs@ == adj[v as int]@,
                d == row@[v as int],
                d <= head,
                queue@.len() >= q0.len(),
                queue@.subrange(0, q0.len() as int) == q0,
                queue.len() <= n,
                queue@[0] == start,
                queue@.no_duplicates(),
                forall|i: int| 0 <= i < queue.len() ==> #[trigger] queue@[i] < n,
                forall|t: int| 0 <= t < n ==> (#[trigger] row@[t] != u32::MAX <==> queue@.contains(t as usize)),
                forall|i: int| 0 <= i < queue.len() ==> row@[#[trigger] queue@[i] as int] <= i,
                forall|i: int, j: int|
                    0 <= i <= j < queue.len() ==> row@[#[trigger] queue@[i] as int] <= row@[#[trigger] queue@[j] as int],
                row@[queue@[queue.len() - 1] as int] <= d + 1,
                forall|i: int|
                    0 <= i < queue.len() ==> is_shortest_distance(
                        adj,
                        start as int,
                        #[trigger] queue@[i] as int,
                        row@[queue@[i] as int] as nat,
                    ),
                forall|i: int, w: int|
                    0 <= i < head && has_edge(adj, #[trigger] queue@[i] as int, w) ==> #[trigger] row@[w] != u32::MAX,
                forall|jj: int| 0 <= jj < j ==> row@[#[trigger] nbrs@[jj] as int] != u32::MAX,
                forall|k: nat, t: int|
                    0 <= t < n && k <= d && #[trigger] reachable_in(adj, start as int, t, k) ==> row@[t] != u32::MAX,
            decreases nbrs.len() - j,
        {
            let w = nbrs[j];
            assert(w < n);
            if row[w] == u32::MAX {
                let ghost pq = queue@;
                let ghost prow = row@;
                proof {
                    assert(has_edge(adj, v as int, w as int)) by {
                        assert(adj[v as int]@[j as int] as int == w as int);
                    }
                    assert(reachable_in(adj, start as int, v as int, d as nat));
                    assert(reachable_in(adj, start as int, w as int, (d + 1) as nat));
                    assert(!reachable_in(adj, start as int, w as int, d as nat));
                    assert(!pq.contains(w));
                    assert(pq.push(w).no_duplicates());
                    lemma_distinct_bounded(pq.push(w), n as int);
                }
                row.set(w, d + 1);
                queue.push(w);
                proof {
                    assert(queue@ == pq.push(w));
                    assert(row@ == prow.update(w as int, (d + 1) as u32));
                    assert forall|t: int| 0 <= t < n implies (#[trigger] row@[t] != u32::MAX
                        <==> queue@.contains(t as usize)) by {
                        if t != w as int {
                            if queue@.contains(t as usize) {
                                let i = choose|i: int| 0 <= i < queue@.len() && queue@[i] == t as usize;
                                assert(pq[i] == t as usize);
                            }
                            if pq.contains(t as usize) {
                                let i = choose|i: int| 0 <= i < pq.len() && pq[i] == t as usize;
                                assert(queue@[i] == t as usize);
                            }
                        } else {
                            assert(queue@[queue.len() - 1] == w);
                        }
                    }
                    assert forall|i: int| 0 <= i < pq.len() implies #[trigger] queue@[i] != w by {
                        assert(pq[i] == queue@[i]);
                    }
                    assert(queue@.subrange(0, q0.len() as int) == q0) by {
                        assert(pq.subrange(0, q0.len() as int) == q0);
                    }
                }
            }
            j += 1;
        }
        proof {
            assert forall|w: int| has_edge(adj, v as int, w) implies #[trigger] row@[w] != u32::MAX by {
                let jj = choose|jj: int| 0 <= jj < adj[v as int]@.len() && #[trigger] adj[v as int]@[jj] as int == w;
                assert(nbrs@[jj] as int == w);
            }
            assert forall|i: int, w: int| 0 <= i < head + 1 && has_edge(adj, #[trigger] queue@[i] as int, w)
                implies #[trigger] row@[w] != u32::MAX by {
                if i == head {
                    assert(queue@[i] == q0[i]);
                }
            }
            let h1 = head + 1;
            if h1 < queue.len() {
                let d1 = row@[queue@[h1 as int] as int];
                assert(queue@[head as int] == v) by {
                    assert(queue@.subrange(0, q0.len() as int)[head as int] == q0[head as int]);
                }
                assert(d <= d1 <= d + 1);
                assert forall|k: nat, t: int|
                    0 <= t < n && k <= d1 && #[trigger] reachable_in(adj, start as int, t, k)
                    implies row@[t] != u32::MAX by {
                    if k > d {
                        if !reachable_in(adj, start as int, t, (k - 1) as nat) {
                            let u = choose|u: int|
                                reachable_in(adj, start as int, u, (k - 1) as nat) && #[trigger] has_edge(adj, u, t);
                            lemma_reachable_in_range(adj, start as int, u, (k - 1) as nat);
                            assert(row@[u] != u32::MAX);
                            assert(queue@.contains(u as usize));
                            let i = choose|i: int| 0 <= i < queue.len() && queue@[i] == u as usize;
                            assert(is_shortest_distance(adj, start as int, queue@[i] as int, row@[queue@[i] as int] as nat));
                            lemma_shortest_is_minimal(adj, start as int, u, row@[u] as nat, d as nat);
                            if i > head {
                                assert(row@[queue@[h1 as int] as int] <= row@[queue@[i] as int]);
                            }
                            assert(has_edge(adj, queue@[i] as int, t));
                        }
                    }
                }
            }
        }
        head += 1;
    }
    proof {
        assert forall|t: int| 0 <= t < row.len() implies if #[trigger] row@[t] == u32::MAX {
            is_unreachable(adj, start as int, t)
        } else {
            is_shortest_distance(adj, start as int, t, row@[t] as nat)
        } by {
            if row@[t] == u32::MAX {
                assert forall|k: nat| !#[trigger] reachable_in(adj, start as int, t, k) by {
                    if reachable_in(adj, start as int, t, k) {
                        lemma_closed_set_holds_reachable(adj, start as int, row@, queue@, t, k);
                    }
                }
            } else {
                assert(queue@.contains(t as usize));
                let i = choose|i: int| 0 <= i < queue.len() && queue@[i] == t as usize;
                assert(is_shortest_distance(adj, start as int, queue@[i] as int, row@[queue@[i] as int] as nat));
            }
        }
    }
    row
}

/// The distance matrix of the network: row `i` holds the hop distances from the node
/// `stations[i]` to every node, with `u32::MAX` where no path leads.
pub fn get_dist_matrix(neighbour_map: &Vec<Vec<usize>>, stations: &Vec<usize>) -> (dist_matrix: Vec<Vec<u32>>)
    requires
        well_formed_graph(neighbour_map@),
        neighbour_map.len() < u32::MAX,
        forall|i: int| 0 <= i < stations.len() ==> #[trigger] stations@[i] < neighbour_map.len(),
    ensures
        dist_matrix.len() == stations.len(),
        forall|i: int|
            0 <= i < stations.len() ==> is_distance_row(neighbour_map@, stations@[i] as int, #[trigger] dist_matrix@[i]@),
{
    let mut dist_matrix: Vec<Vec<u32>> = Vec::new();
    let mut i: usize = 0;
    while i < stations.len()
        invariant
            well_formed_graph(neighbour_map@),
            neighbour_map.len() < u32::MAX,
            forall|i: int| 0 <= i < stations.len() ==> #[trigger] stations@[i] < neighbour_map.len(),
            i <= stations.len(),
            dist_matrix.len() == i,
            forall|j: int|
                0 <= j < i ==> is_distance_row(neighbour_map@, stations@[j] as int, #[trigger] dist_matrix@[j]@),
        decreases stations.len() - i,
    {
        let row = distances_from(neighbour_map, stations[i]);
        dist_matrix.push(row);
        i += 1;
    }
    dist_matrix
}

} // verus!
