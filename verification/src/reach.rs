//! Reachability in a directed graph given by adjacency lists.
use vstd::prelude::*;

verus! {

/// `p` is a walk in the graph: nonempty, every node in range, and every
/// consecutive pair joined by an arc.
pub open spec fn is_walk(adj: Seq<Seq<usize>>, p: Seq<int>) -> bool {
    &&& p.len() >= 1
    &&& forall|k: int| 0 <= k < p.len() ==> 0 <= #[trigger] p[k] < adj.len()
    &&& forall|k: int| 0 <= k < p.len() - 1 ==> adj[#[trigger] p[k]].contains(p[k + 1] as usize)
}

/// Node `b` can be reached from node `a` along arcs (every node reaches itself).
pub open spec fn reachable(adj: Seq<Seq<usize>>, a: int, b: int) -> bool {
    exists|p: Seq<int>| #[trigger] is_walk(adj, p) && p[0] == a && p.last() == b
}

/// Every arc target is a node of the graph.
pub open spec fn well_formed(adj: Seq<Seq<usize>>) -> bool {
    forall|v: int, k: int| 0 <= v < adj.len() && 0 <= k < adj[v].len() ==> #[trigger] adj[v][k] < adj.len()
}

/// The views of the adjacency lists.
pub open spec fn adj_view(adj: Seq<Vec<usize>>) -> Seq<Seq<usize>> {
    adj.map_values(|l: Vec<usize>| l@)
}

/// Number of `true` entries.
pub open spec fn count_true(s: Seq<bool>) -> nat
    decreases s.len(),
{
    if s.len() == 0 {
        0
    } else {
        count_true(s.drop_last()) + if s.last() {
            1nat
        } else {
            0nat
        }
    }
}

proof fn lemma_count_true_bound(s: Seq<bool>)
    ensures
        count_true(s) <= s.len(),
    decreases s.len(),
{
    if s.len() > 0 {
        lemma_count_true_bound(s.drop_last());
    }
}

proof fn lemma_count_true_update(s: Seq<bool>, i: int)
    requires
        0 <= i < s.len(),
        !s[i],
    ensures
        count_true(s.update(i, true)) == count_true(s) + 1,
    decreases s.len(),
{
    let t = s.update(i, true);
    if i == s.len() - 1 {
        assert(t.drop_last() =~= s.drop_last());
    } else {
        assert(t.drop_last() =~= s.drop_last().update(i, true));
        lemma_count_true_update(s.drop_last(), i);
    }
}

/// All entries are true exactly when the count of true entries is the length.
pub(crate) proof fn lemma_count_true_all(s: Seq<bool>)
    ensures
        count_true(s) == s.len() <==> forall|i: int| 0 <= i < s.len() ==> s[i],
    decreases s.len(),
{
    if s.len() > 0 {
        lemma_count_true_all(s.drop_last());
        lemma_count_true_bound(s.drop_last());
        if forall|i: int| 0 <= i < s.len() ==> s[i] {
            assert forall|i: int| 0 <= i < s.drop_last().len() implies s.drop_last()[i] by {
                assert(s[i]);
            }
        }
        if count_true(s) == s.len() {
            assert forall|i: int| 0 <= i < s.len() implies s[i] by {
                if i < s.len() - 1 {
                    assert(s.drop_last()[i]);
                }
            }
        }
    }
}

proof fn lemma_count_true_none(s: Seq<bool>)
    requires
        forall|i: int| 0 <= i < s.len() ==> !s[i],
    ensures
        count_true(s) == 0,
    decreases s.len(),
{
    if s.len() > 0 {
        lemma_count_true_none(s.drop_last());
    }
}

/// Extending a walk by one arc.
proof fn lemma_walk_extend(adj: Seq<Seq<usize>>, p: Seq<int>, w: int)
    requires
        is_walk(adj, p),
        0 <= w < adj.len(),
        adj[p.last()].contains(w as usize),
    ensures
        is_walk(adj, p.push(w)),
        p.push(w)[0] == p[0],
        p.push(w).last() == w,
{
    let q = p.push(w);
    assert forall|k: int| 0 <= k < q.len() - 1 implies adj[#[trigger] q[k]].contains(q[k + 1] as usize) by {
        if k < p.len() - 1 {
            assert(q[k] == p[k] && q[k + 1] == p[k + 1]);
        } else {
            assert(q[k] == p.last());
        }
    }
}

/// Along a walk that starts in a set closed under arcs, every node is in the set.
proof fn lemma_closed_set_contains_walk(adj: Seq<Seq<usize>>, vis: Seq<bool>, p: Seq<int>, n: int)
    requires
        vis.len() == adj.len(),
        adj.len() <= usize::MAX,
        is_walk(adj, p),
        0 <= n < p.len(),
        vis[p[0]],
        forall|v: int, k: int|
            0 <= v < adj.len() && vis[v] && 0 <= k < adj[v].len() ==> vis[#[trigger] adj[v][k] as int],
    ensures
        vis[p[n]],
    decreases n,
{
    if n > 0 {
        lemma_closed_set_contains_walk(adj, vis, p, n - 1);
        let u = p[n - 1];
        assert(adj[u].contains(p[n] as usize));
        let k = choose|k: int| 0 <= k < adj[u].len() && adj[u][k] == p[n] as usize;
        assert(vis[adj[u][k] as int]);
    }
}

/// The nodes reachable from `start`: entry `v` is true exactly when `v` can be
/// reached from `start`; also returns how many nodes are reachable.
pub fn reachable_from(adj: &Vec<Vec<usize>>, start: usize) -> (r: (Vec<bool>, usize))
    requires
        well_formed(adj_view(adj@)),
        start < adj@.len(),
    ensures
        r.0@.len() == adj@.len(),
        forall|v: int| 0 <= v < adj@.len() ==> (#[trigger] r.0@[v] <==> reachable(adj_view(adj@), start as int, v)),
        r.1 == count_true(r.0@),
{
    let ghost g = adj_view(adj@);
    let n = adj.len();
    let mut visited: Vec<bool> = Vec::new();
    let mut i: usize = 0;
    while i < n
        invariant
            i <= n,
            n == adj@.len(),
            visited@.len() == i,
            forall|v: int| 0 <= v < i ==> !visited@[v],
        decreases n - i,
    {
        visited.push(false);
        i = i + 1;
    }
    proof {
        lemma_count_true_none(visited@);
        let p0 = seq![start as int];
        assert(is_walk(g, p0));
        lemma_count_true_update(visited@, start as int);
    }
    let ghost unvisited = visited@;
    visited.set(start, true);
    let mut count: usize = 1;
    let mut stack: Vec<usize> = Vec::new();
    stack.push(start);
    proof {
        assert forall|v: int| 0 <= v < n && #[trigger] visited@[v] implies v == start as int by {
            if v != start as int {
                assert(visited@[v] == unvisited[v]);
            }
        }
        assert(stack@[0] == start);
        assert forall|v: int| 0 <= v < n && #[trigger] visited@[v] implies reachable(g, start as int, v) by {
            assert(is_walk(g, seq![start as int]));
        }
    }
    while stack.len() > 0
        invariant
            n == adj@.len(),
            g == adj_view(adj@),
            well_formed(g),
            visited@.len() == n,
            visited@[start as int],
            count == count_true(visited@),
            forall|v: int| 0 <= v < n && #[trigger] visited@[v] ==> reachable(g, start as int, v),
            forall|k: int| 0 <= k < stack@.len() ==> #[trigger] stack@[k] < n && visited@[stack@[k] as int],
            forall|v: int, k: int|
                0 <= v < n && visited@[v] && !stack@.contains(v as usize) && 0 <= k < g[v].len()
                    ==> visited@[#[trigger] g[v][k] as int],
        decreases 2 * (n - count) + stack@.len(),
    {
        proof {
            lemma_count_true_bound(visited@);
        }
        let ghost measure = 2 * (n - count) + stack@.len();
        let ghost full_stack = stack@;
        let v = stack.pop().unwrap();
        let ghost popped_stack = stack@;
        proof {
            assert(full_stack == popped_stack.push(v));
            assert forall|u: int| 0 <= u < n && u != v && !popped_stack.contains(u as usize)
                implies !#[trigger] full_stack.contains(u as usize) by {
                if full_stack.contains(u as usize) {
                    let q = choose|q: int| 0 <= q < full_stack.len() && full_stack[q] == u as usize;
                    if q < popped_stack.len() {
                        assert(popped_stack[q] == u as usize);
                    }
                }
            }
        }
        let nbrs = &adj[v];
        assert(nbrs@ == g[v as int]);
        let mut k: usize = 0;
        while k < nbrs.len()
            invariant
                n == adj@.len(),
                g == adj_view(adj@),
                well_formed(g),
                v < n,
                nbrs@ == g[v as int],
                k <= nbrs@.len(),
                visited@.len() == n,
                visited@[start as int],
                visited@[v as int],
                count == count_true(visited@),
                count <= n,
                stack@.len() >= popped_stack.len(),
                2 * (n - count) + stack@.len() + 1 <= measure,
                forall|j: int| 0 <= j < popped_stack.len() ==> stack@[j] == popped_stack[j],
                forall|u: int| 0 <= u < n && #[trigger] visited@[u] ==> reachable(g, start as int, u),
                forall|j: int| 0 <= j < stack@.len() ==> #[trigger] stack@[j] < n && visited@[stack@[j] as int],
                forall|j: int| 0 <= j < k ==> visited@[#[trigger] nbrs@[j] as int],
                forall|u: int, j: int|
                    0 <= u < n && u != v && visited@[u] && !stack@.contains(u as usize) && 0 <= j < g[u].len()
                        ==> visited@[#[trigger] g[u][j] as int],
            decreases nbrs@.len() - k,
        {
            let w = nbrs[k];
            assert(g[v as int][k as int] == w);
            if !visited[w] {
                proof {
                    let pv = choose|p: Seq<int>| #[trigger] is_walk(g, p) && p[0] == start as int && p.last() == v as int;
                    assert(g[v as int].contains(w));
                    lemma_walk_extend(g, pv, w as int);
                    lemma_count_true_update(visited@, w as int);
                    lemma_count_true_bound(visited@.update(w as int, true));
                }
                visited.set(w, true);
                count = count + 1;
                let ghost before_push = stack@;
                stack.push(w);
                proof {
                    assert forall|u: int, j: int|
                        0 <= u < n && u != v && visited@[u] && !stack@.contains(u as usize) && 0 <= j < g[u].len()
                            implies visited@[#[trigger] g[u][j] as int] by {
                        if u != w as int {
                            if before_push.contains(u as usize) {
                                let q = choose|q: int| 0 <= q < before_push.len() && before_push[q] == u as usize;
                                assert(stack@[q] == u as usize);
                            }
                        } else {
                            assert(stack@[stack@.len() - 1] == w);
                        }
                    }
                }
            }
            k = k + 1;
        }
        proof {
            assert forall|u: int, j: int|
                0 <= u < n && visited@[u] && !stack@.contains(u as usize) && 0 <= j < g[u].len()
                    implies visited@[#[trigger] g[u][j] as int] by {
                if u == v as int {
                    assert(visited@[nbrs@[j] as int]);
                }
            }
        }
    }
    proof {
        assert forall|v: int| 0 <= v < n implies (#[trigger] visited@[v] <==> reachable(g, start as int, v)) by {
            if reachable(g, start as int, v) {
                let p = choose|p: Seq<int>| #[trigger] is_walk(g, p) && p[0] == start as int && p.last() == v;
                lemma_closed_set_contains_walk(g, visited@, p, p.len() - 1);
            }
        }
    }
    (visited, count)
}

} // verus!
