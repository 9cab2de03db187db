use vstd::prelude::*;
use crate::graph::{fresh, lemma_unvisited_update, lemma_walk_sees, sweep, unvisited, walk, Graph};

verus! {

/// Whether `list` names each of its nodes once, and names exactly the nodes
/// that `marked` marks and `before` did not.
pub open spec fn lists_new(list: Seq<usize>, before: Seq<bool>, marked: Seq<bool>) -> bool {
    &&& marked.len() == before.len()
    &&& list.no_duplicates()
    &&& forall|m: int| 0 <= m < list.len() ==> #[trigger] list[m] < before.len() && !before[list[m] as int]
    &&& forall|x: usize|
        x < before.len() ==> (#[trigger] marked[x as int] <==> before[x as int] || list.contains(x))
}

/// What is in a value followed by two runs.
pub proof fn lemma_contains_joined(c: usize, a: Seq<usize>, b: Seq<usize>, x: usize)
    ensures
        (seq![c] + a + b).contains(x) <==> x == c || a.contains(x) || b.contains(x),
{
    let all = seq![c] + a + b;
    if all.contains(x) {
        let m = choose|m: int| 0 <= m < all.len() && all[m] == x;
        if m == 0 {
        } else if m < 1 + a.len() {
            assert(a[m - 1] == x);
        } else {
            assert(b[m - 1 - a.len()] == x);
        }
    }
    if x == c {
        assert(all[0] == x);
    }
    if a.contains(x) {
        let m = choose|m: int| 0 <= m < a.len() && a[m] == x;
        assert(all[m + 1] == x);
    }
    if b.contains(x) {
        let m = choose|m: int| 0 <= m < b.len() && b[m] == x;
        assert(all[m + 1 + a.len()] == x);
    }
}

/// A value followed by two runs names nothing twice, where neither run does,
/// the value is in neither, and the runs share nothing.
pub proof fn lemma_joined_once(c: usize, a: Seq<usize>, b: Seq<usize>)
    requires
        a.no_duplicates(),
        b.no_duplicates(),
        !a.contains(c),
        !b.contains(c),
        forall|m: int| 0 <= m < b.len() ==> !a.contains(#[trigger] b[m]),
    ensures
        (seq![c] + a + b).no_duplicates(),
{
    let all = seq![c] + a + b;
    assert forall|i: int, j: int| 0 <= i < all.len() && 0 <= j < all.len() && i != j implies all[i]
        != all[j] by {
        let n = a.len() as int;
        if i > 0 && i <= n {
            assert(all[i] == a[i - 1]);
        }
        if j > 0 && j <= n {
            assert(all[j] == a[j - 1]);
        }
        if i > n {
            assert(all[i] == b[i - 1 - n]);
        }
        if j > n {
            assert(all[j] == b[j - 1 - n]);
        }
    }
}

/// The links that `fresh` takes are those among the first `k` that lead to
/// nodes not seen.
pub proof fn lemma_fresh(links: Seq<usize>, seen: Seq<bool>, k: int)
    requires
        0 <= k <= links.len(),
    ensures
        forall|m: int|
            0 <= m < fresh(links, seen, k).len() ==> #[trigger] fresh(links, seen, k)[m]
                < seen.len() && !seen[fresh(links, seen, k)[m] as int] && exists|j: int|
                0 <= j < k && links[j] == fresh(links, seen, k)[m],
        forall|j: int|
            0 <= j < k && #[trigger] links[j] < seen.len() && !seen[links[j] as int] ==> fresh(
                links,
                seen,
                k,
            ).contains(links[j]),
    decreases k,
{
    if k > 0 {
        lemma_fresh(links, seen, k - 1);
        let before = fresh(links, seen, k - 1);
        let now = fresh(links, seen, k);
        let e = links[k - 1];
        if e < seen.len() && !seen[e as int] {
            assert(now == before.push(e));
            assert(now[before.len() as int] == e);
            assert forall|j: int|
                0 <= j < k && #[trigger] links[j] < seen.len() && !seen[links[j] as int] implies now.contains(
                links[j],
            ) by {
                if j < k - 1 {
                    let m = choose|m: int| 0 <= m < before.len() && before[m] == links[j];
                    assert(now[m] == links[j]);
                }
            }
        }
    }
}

impl<T> Graph<T> {
    /// Whether the links of node `v` from the link `k` on lead to nodes that
    /// `marked` marks.
    pub open spec fn links_marked(&self, v: int, k: int, marked: Seq<bool>) -> bool {
        forall|j: int|
            k <= j < self.nodes@[v].children@.len() ==> marked[(
            #[trigger] self.nodes@[v].children@[j]).idx as int]
    }

    /// A link makes a way.
    pub proof fn lemma_link_is_way(&self, v: int, j: int)
        requires
            self.valid(),
            0 <= v < self.nodes@.len(),
            0 <= j < self.nodes@[v].children@.len(),
        ensures
            self.reachable(v, self.nodes@[v].children@[j].idx as int),
    {
        let c = self.nodes@[v].children@[j].idx as int;
        let way = seq![v, c];
        assert(self.linked(v, c));
        assert(self.is_way(way));
        assert(way.first() == v && way.last() == c);
    }

    /// What can be reached from a node that can be reached can be reached.
    pub proof fn lemma_reach_on(&self, a: int, b: int, c: int)
        requires
            self.reachable(a, b),
            self.reachable(b, c),
        ensures
            self.reachable(a, c),
    {
        let there = choose|way: Seq<int>| self.is_way(way) && way.first() == a && #[trigger] way.last() == b;
        let on = choose|way: Seq<int>| self.is_way(way) && way.first() == b && #[trigger] way.last() == c;
        self.lemma_ways_join(there, on);
        let way = there + on.drop_first();
        assert(self.is_way(way) && way.first() == a && way.last() == c);
    }

    /// What a walk in depth through the links of node `v` sees: each node
    /// once, none that was seen before, and each of them can be reached from
    /// `v`. When it ends, the links of `v` and of every node that it saw lead
    /// to nodes that are seen.
    pub proof fn lemma_walk(&self, v: int, k: int, seen: Seq<bool>, fuel: nat)
        requires
            self.valid(),
            0 <= v < self.nodes@.len(),
            0 <= k <= self.nodes@[v].children@.len(),
            seen.len() == self.nodes@.len(),
            unvisited(seen) <= fuel,
        ensures
            lists_new(
                walk(self.adjacency(), v, k, seen, fuel).0,
                seen,
                walk(self.adjacency(), v, k, seen, fuel).1,
            ),
            self.links_marked(v, k, walk(self.adjacency(), v, k, seen, fuel).1),
            forall|m: int|
                0 <= m < walk(self.adjacency(), v, k, seen, fuel).0.len() ==> self.reachable(
                    v,
                    #[trigger] walk(self.adjacency(), v, k, seen, fuel).0[m] as int,
                ) && self.links_marked(
                    walk(self.adjacency(), v, k, seen, fuel).0[m] as int,
                    0,
                    walk(self.adjacency(), v, k, seen, fuel).1,
                ),
        decreases fuel, self.nodes@[v].children@.len() - k,
    {
        let adj = self.adjacency();
        let n = self.nodes@.len();
        if k < adj[v].len() {
            let c = adj[v][k];
            assert(c == self.nodes@[v].children@[k].idx);
            if seen[c as int] {
                self.lemma_walk(v, k + 1, seen, fuel);
            } else {
                let marked = seen.update(c as int, true);
                lemma_unvisited_update(seen, c as int);
                let first = walk(adj, c as int, 0, marked, (fuel - 1) as nat);
                lemma_walk_sees(adj, c as int, 0, marked, (fuel - 1) as nat);
                let rest = walk(adj, v, k + 1, first.1, fuel);
                self.lemma_walk(c as int, 0, marked, (fuel - 1) as nat);
                self.lemma_walk(v, k + 1, first.1, fuel);
                let out = seq![c] + first.0 + rest.0;
                let after = rest.1;
                assert(walk(adj, v, k, seen, fuel) == (out, after));
                self.lemma_link_is_way(v, k);
                assert(!first.0.contains(c)) by {
                    if first.0.contains(c) {
                        let m = choose|m: int| 0 <= m < first.0.len() && first.0[m] == c;
                        assert(!marked[first.0[m] as int]);
                    }
                }
                assert(first.1[c as int]);
                assert(!rest.0.contains(c)) by {
                    if rest.0.contains(c) {
                        let m = choose|m: int| 0 <= m < rest.0.len() && rest.0[m] == c;
                        assert(!first.1[rest.0[m] as int]);
                    }
                }
                assert forall|m: int| 0 <= m < rest.0.len() implies !first.0.contains(
                    #[trigger] rest.0[m],
                ) by {
                    let x = rest.0[m];
                    assert(!first.1[x as int]);
                }
                lemma_joined_once(c, first.0, rest.0);
                assert forall|x: usize| x < n implies (#[trigger] after[x as int] <==> seen[x as int]
                    || out.contains(x)) by {
                    lemma_contains_joined(c, first.0, rest.0, x);
                    assert(first.1[x as int] <==> marked[x as int] || first.0.contains(x));
                    assert(after[x as int] <==> first.1[x as int] || rest.0.contains(x));
                }
                assert forall|m: int| 0 <= m < out.len() implies #[trigger] out[m] < n
                    && !seen[out[m] as int] && self.reachable(v, out[m] as int)
                    && self.links_marked(out[m] as int, 0, after) by {
                    let a = first.0.len() as int;
                    if m == 0 {
                        assert(out[m] == c);
                        assert(self.links_marked(c as int, 0, first.1));
                        assert forall|j: int|
                            0 <= j < self.nodes@[c as int].children@.len() implies after[(
                        #[trigger] self.nodes@[c as int].children@[j]).idx as int] by {
                            let d = self.nodes@[c as int].children@[j].idx;
                            assert(first.1[d as int]);
                            assert(after[d as int] <==> first.1[d as int] || rest.0.contains(d));
                        }
                    } else if m <= a {
                        let x = first.0[m - 1];
                        assert(out[m] == x);
                        assert(!marked[x as int]);
                        self.lemma_reach_on(v, c as int, x as int);
                        assert(self.links_marked(x as int, 0, first.1));
                        assert forall|j: int|
                            0 <= j < self.nodes@[x as int].children@.len() implies after[(
                        #[trigger] self.nodes@[x as int].children@[j]).idx as int] by {
                            let d = self.nodes@[x as int].children@[j].idx;
                            assert(first.1[d as int]);
                            assert(after[d as int] <==> first.1[d as int] || rest.0.contains(d));
                        }
                    } else {
                        let x = rest.0[m - 1 - a];
                        assert(out[m] == x);
                        assert(!first.1[x as int]);
                        assert(first.1[x as int] <==> marked[x as int] || first.0.contains(x));
                    }
                }
                assert forall|j: int| k <= j < self.nodes@[v].children@.len() implies after[(
                #[trigger] self.nodes@[v].children@[j]).idx as int] by {
                    if j == k {
                        assert(after[c as int] <==> first.1[c as int] || rest.0.contains(c));
                    }
                }
            }
        } else {
            assert(walk(adj, v, k, seen, fuel) == (Seq::<usize>::empty(), seen));
        }
    }

    /// Every node on a way that starts at a marked node is marked, where
    /// the links of every marked node lead to marked nodes.
    pub proof fn lemma_way_stays(&self, marked: Seq<bool>, way: Seq<int>, m: int)
        requires
            marked.len() == self.nodes@.len(),
            self.is_way(way),
            marked[way.first()],
            way.first() <= usize::MAX,
            forall|x: usize|
                x < marked.len() && marked[x as int] ==> #[trigger] self.links_marked(
                    x as int,
                    0,
                    marked,
                ),
            0 <= m < way.len(),
        ensures
            marked[way[m]],
            way[m] <= usize::MAX,
        decreases m,
    {
        if m > 0 {
            self.lemma_way_stays(marked, way, m - 1);
            let x = way[m - 1] as usize;
            assert(self.linked(x as int, way[m]));
            assert(self.links_marked(x as int, 0, marked));
        }
    }

    /// The walk in depth from node `from` as a whole: what it sees beside
    /// `from`, and what is marked when it ends.
    pub open spec fn dfs_found(&self, from: usize) -> (Seq<usize>, Seq<bool>) {
        walk(
            self.adjacency(),
            from as int,
            0,
            Seq::new(self.nodes@.len(), |i: int| false).update(from as int, true),
            self.nodes@.len(),
        )
    }

    /// When a walk in depth from `from` ends, `from` is marked, the links of
    /// every marked node lead to marked nodes, and every marked node is
    /// `from` or a node that the walk saw and that can be reached from `from`.
    pub proof fn lemma_dfs_found(&self, from: usize)
        requires
            self.valid(),
            from < self.nodes@.len(),
        ensures
            self.dfs_found(from).1.len() == self.nodes@.len(),
            self.dfs_found(from).1[from as int],
            self.dfs_found(from).0.no_duplicates(),
            !self.dfs_found(from).0.contains(from),
            forall|m: int|
                0 <= m < self.dfs_found(from).0.len() ==> #[trigger] self.dfs_found(from).0[m]
                    < self.nodes@.len() && self.reachable(
                    from as int,
                    self.dfs_found(from).0[m] as int,
                ),
            forall|x: usize|
                x < self.nodes@.len() && self.dfs_found(from).1[x as int] ==> x == from
                    || #[trigger] self.dfs_found(from).0.contains(x),
            forall|x: usize|
                x < self.nodes@.len() && self.dfs_found(from).1[x as int]
                    ==> #[trigger] self.links_marked(x as int, 0, self.dfs_found(from).1),
    {
        let n = self.nodes@.len();
        let seen = Seq::new(n, |i: int| false).update(from as int, true);
        crate::graph::lemma_unvisited_bound(seen);
        let found = self.dfs_found(from);
        self.lemma_walk(from as int, 0, seen, n);
        assert(found.1[from as int]);
        assert(!found.0.contains(from)) by {
            if found.0.contains(from) {
                let m = choose|m: int| 0 <= m < found.0.len() && found.0[m] == from;
                assert(!seen[found.0[m] as int]);
            }
        }
        assert forall|x: usize| x < n && found.1[x as int] implies x == from
            || #[trigger] found.0.contains(x) by {
            assert(found.1[x as int] <==> seen[x as int] || found.0.contains(x));
        }
        assert forall|x: usize| x < n && found.1[x as int] implies #[trigger] self.links_marked(
            x as int,
            0,
            found.1,
        ) by {
            if x != from {
                assert(found.1[x as int] <==> seen[x as int] || found.0.contains(x));
                let m = choose|m: int| 0 <= m < found.0.len() && found.0[m] == x;
                assert(self.links_marked(found.0[m] as int, 0, found.1));
            }
        }
    }

    /// A walk in depth from node `from` sees each node that can be reached
    /// from `from` by links, each once, and no other node.
    pub proof fn law_dfs_is_reachability(&self, from: usize)
        requires
            self.valid(),
            from < self.nodes@.len(),
        ensures
            self.dfs_order(from).no_duplicates(),
            forall|x: usize|
                x < self.nodes@.len() ==> (self.dfs_order(from).contains(x) <==> self.reachable(
                    from as int,
                    x as int,
                )),
            forall|m: int|
                0 <= m < self.dfs_order(from).len() ==> #[trigger] self.dfs_order(from)[m]
                    < self.nodes@.len(),
    {
        let n = self.nodes@.len();
        let found = self.dfs_found(from);
        self.lemma_dfs_found(from);
        let order = self.dfs_order(from);
        let nothing = Seq::<usize>::empty();
        assert(order =~= seq![from] + found.0 + nothing);
        lemma_joined_once(from, found.0, nothing);
        assert forall|m: int| 0 <= m < order.len() implies #[trigger] order[m] < n by {
            if m > 0 {
                assert(order[m] == found.0[m - 1]);
            }
        }
        assert forall|x: usize| x < n implies (order.contains(x) <==> self.reachable(
            from as int,
            x as int,
        )) by {
            lemma_contains_joined(from, found.0, nothing, x);
            if order.contains(x) {
                if x == from {
                    let way = seq![x as int];
                    assert(self.is_way(way) && way.first() == x && way.last() == x);
                } else {
                    let m = choose|m: int| 0 <= m < found.0.len() && found.0[m] == x;
                    assert(self.reachable(from as int, found.0[m] as int));
                }
            }
            if self.reachable(from as int, x as int) {
                let way = choose|way: Seq<int>|
                    self.is_way(way) && way.first() == from as int && #[trigger] way.last()
                        == x as int;
                self.lemma_way_stays(found.1, way, way.len() - 1);
                assert(found.1[x as int]);
            }
        }
    }

    /// What a walk in breadth sees with the nodes of `queue` waiting, all of
    /// which can be reached from `start`: each node once, none that was seen
    /// before, and each of them can be reached from `start`. Every node that
    /// waited, and every node to which a link of a node that the walk saw
    /// leads, was seen before or is seen by the walk.
    pub proof fn lemma_sweep(&self, start: int, queue: Seq<usize>, seen: Seq<bool>)
        requires
            self.valid(),
            seen.len() == self.nodes@.len(),
            forall|i: int|
                0 <= i < queue.len() ==> #[trigger] queue[i] < self.nodes@.len() && self.reachable(
                    start,
                    queue[i] as int,
                ),
        ensures
            sweep(self.adjacency(), queue, seen).no_duplicates(),
            forall|m: int|
                0 <= m < sweep(self.adjacency(), queue, seen).len() ==> #[trigger] sweep(
                    self.adjacency(),
                    queue,
                    seen,
                )[m] < self.nodes@.len() && !seen[sweep(self.adjacency(), queue, seen)[m] as int]
                    && self.reachable(start, sweep(self.adjacency(), queue, seen)[m] as int)
                    && self.links_listed(
                    sweep(self.adjacency(), queue, seen)[m] as int,
                    seen,
                    sweep(self.adjacency(), queue, seen),
                ),
            forall|i: int|
                0 <= i < queue.len() ==> seen[#[trigger] queue[i] as int] || sweep(
                    self.adjacency(),
                    queue,
                    seen,
                ).contains(queue[i]),
        decreases unvisited(seen), queue.len(),
    {
        let adj = self.adjacency();
        let n = self.nodes@.len();
        let out = sweep(adj, queue, seen);
        if queue.len() > 0 {
            let v = queue[0];
            let rest = queue.drop_first();
            assert(v < n);
            if seen[v as int] {
                assert forall|i: int| 0 <= i < rest.len() implies #[trigger] rest[i] < n
                    && self.reachable(start, rest[i] as int) by {
                    assert(rest[i] == queue[i + 1]);
                }
                self.lemma_sweep(start, rest, seen);
                assert forall|i: int| 0 <= i < queue.len() implies seen[#[trigger] queue[i] as int]
                    || out.contains(queue[i]) by {
                    if i > 0 {
                        assert(queue[i] == rest[i - 1]);
                    }
                }
            } else {
                let links = adj[v as int];
                let fr = fresh(links, seen, links.len() as int);
                let next = rest + fr;
                let marked = seen.update(v as int, true);
                let tail = sweep(adj, next, marked);
                let nothing = Seq::<usize>::empty();
                lemma_unvisited_update(seen, v as int);
                lemma_fresh(links, seen, links.len() as int);
                assert(out == seq![v] + tail);
                assert(out =~= seq![v] + tail + nothing);
                assert forall|i: int| 0 <= i < next.len() implies #[trigger] next[i] < n
                    && self.reachable(start, next[i] as int) by {
                    if i < rest.len() {
                        assert(next[i] == queue[i + 1]);
                    } else {
                        let e = fr[i - rest.len()];
                        assert(next[i] == e);
                        let j = choose|j: int| 0 <= j < links.len() && links[j] == e;
                        assert(self.nodes@[v as int].children@[j].idx == e);
                        self.lemma_link_is_way(v as int, j);
                        self.lemma_reach_on(start, v as int, e as int);
                    }
                }
                self.lemma_sweep(start, next, marked);
                assert(!tail.contains(v)) by {
                    if tail.contains(v) {
                        let m = choose|m: int| 0 <= m < tail.len() && tail[m] == v;
                        assert(!marked[tail[m] as int]);
                    }
                }
                lemma_joined_once(v, tail, nothing);
                assert forall|i: int| 0 <= i < queue.len() implies seen[#[trigger] queue[i] as int]
                    || out.contains(queue[i]) by {
                    lemma_contains_joined(v, tail, nothing, queue[i]);
                    if i > 0 {
                        assert(queue[i] == next[i - 1]);
                    }
                }
                assert forall|m: int| 0 <= m < out.len() implies #[trigger] out[m] < n
                    && !seen[out[m] as int] && self.reachable(start, out[m] as int)
                    && self.links_listed(out[m] as int, seen, out) by {
                    let x = out[m];
                    if m > 0 {
                        assert(x == tail[m - 1]);
                        assert(!marked[x as int]);
                        assert(self.links_listed(x as int, marked, tail));
                    }
                    assert forall|j: int|
                        0 <= j < self.nodes@[x as int].children@.len() implies seen[(
                    #[trigger] self.nodes@[x as int].children@[j]).idx as int] || out.contains(
                        self.nodes@[x as int].children@[j].idx,
                    ) by {
                        let d = self.nodes@[x as int].children@[j].idx;
                        lemma_contains_joined(v, tail, nothing, d);
                        if m == 0 {
                            assert(links[j] == d);
                            if !seen[d as int] {
                                assert(fr.contains(d));
                                let q = choose|q: int| 0 <= q < fr.len() && fr[q] == d;
                                assert(next[rest.len() + q] == d);
                            }
                        }
                    }
                }
            }
        }
    }

    /// Whether each link of node `v` leads to a node that `seen` marks or
    /// `list` names.
    pub open spec fn links_listed(&self, v: int, seen: Seq<bool>, list: Seq<usize>) -> bool {
        forall|j: int|
            0 <= j < self.nodes@[v].children@.len() ==> seen[(
            #[trigger] self.nodes@[v].children@[j]).idx as int] || list.contains(
                self.nodes@[v].children@[j].idx,
            )
    }

    /// A walk in breadth from node `from` sees each node that can be reached
    /// from `from` by links, each once, and no other node.
    pub proof fn law_bfs_is_reachability(&self, from: usize)
        requires
            self.valid(),
            from < self.nodes@.len(),
        ensures
            self.bfs_order(from).no_duplicates(),
            forall|x: usize|
                x < self.nodes@.len() ==> (self.bfs_order(from).contains(x) <==> self.reachable(
                    from as int,
                    x as int,
                )),
            forall|m: int|
                0 <= m < self.bfs_order(from).len() ==> #[trigger] self.bfs_order(from)[m]
                    < self.nodes@.len(),
    {
        let n = self.nodes@.len();
        let none = Seq::new(n, |i: int| false);
        let order = self.bfs_order(from);
        let queue = seq![from];
        let alone = seq![from as int];
        assert(self.is_way(alone) && alone.first() == from && alone.last() == from);
        self.lemma_sweep(from as int, queue, none);
        assert(none[queue[0] as int] || order.contains(queue[0]));
        let marked = Seq::new(n, |x: int| order.contains(x as usize));
        assert forall|x: usize| x < n && marked[x as int] implies #[trigger] self.links_marked(
            x as int,
            0,
            marked,
        ) by {
            let m = choose|m: int| 0 <= m < order.len() && order[m] == x;
            assert(self.links_listed(order[m] as int, none, order));
        }
        assert forall|x: usize| x < n implies (order.contains(x) <==> self.reachable(
            from as int,
            x as int,
        )) by {
            if order.contains(x) {
                let m = choose|m: int| 0 <= m < order.len() && order[m] == x;
                assert(self.reachable(from as int, order[m] as int));
            }
            if self.reachable(from as int, x as int) {
                let way = choose|way: Seq<int>|
                    self.is_way(way) && way.first() == from as int && #[trigger] way.last()
                        == x as int;
                self.lemma_way_stays(marked, way, way.len() - 1);
                assert(marked[x as int]);
            }
        }
    }
}

} // verus!
