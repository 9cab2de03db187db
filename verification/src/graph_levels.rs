use vstd::prelude::*;
use crate::graph::{fresh, lemma_unvisited_update, sweep, unvisited, Graph};
use crate::graph_walk::lemma_fresh;

verus! {

/// Whether `x` waits in `queue` with a label of at most `bound`.
pub open spec fn waits(queue: Seq<usize>, lab: Seq<int>, x: usize, bound: int) -> bool {
    exists|i: int| 0 <= i < queue.len() && #[trigger] queue[i] == x && lab[i] <= bound
}

impl<T> Graph<T> {
    /// Node `j` can be reached from node `i` by a way of at most `steps`
    /// links.
    pub open spec fn within(&self, i: int, j: int, steps: int) -> bool {
        exists|way: Seq<int>|
            self.is_way(way) && way.first() == i && #[trigger] way.last() == j && way.len() <= steps
                + 1
    }

    /// `order` names no node before one that is nearer to node `from`: what
    /// lies within some number of steps and is named, is named after
    /// nothing that lies farther.
    pub open spec fn by_distance(&self, from: usize, order: Seq<usize>) -> bool {
        forall|i: int, j: int, d: int|
            #![trigger self.within(from as int, order[j] as int, d), order[i]]
            0 <= i < j < order.len() && self.within(from as int, order[j] as int, d)
                ==> self.within(from as int, order[i] as int, d)
    }

    /// The state of a walk in breadth from node `from` in which the nodes of
    /// `queue` wait, each with the number of steps in `lab` after which it
    /// was found, and `level` is the number of the first: the numbers do not
    /// fall along the queue and are `level` or one more; every node within
    /// fewer steps than `level` is seen; and every node not seen to which a
    /// link of a seen node leads waits with at most one step more than any
    /// number of steps within which that node lies.
    pub open spec fn sweeping(
        &self,
        from: usize,
        queue: Seq<usize>,
        lab: Seq<int>,
        seen: Seq<bool>,
        level: int,
    ) -> bool {
        &&& seen.len() == self.nodes@.len()
        &&& lab.len() == queue.len()
        &&& forall|i: int|
            0 <= i < queue.len() ==> #[trigger] queue[i] < self.nodes@.len() && level <= lab[i]
                <= level + 1 && self.within(from as int, queue[i] as int, lab[i])
        &&& forall|i: int, j: int| 0 <= i <= j < lab.len() ==> #[trigger] lab[i] <= #[trigger] lab[j]
        &&& queue.len() > 0 ==> lab[0] == level
        &&& forall|x: usize, d: int|
            x < self.nodes@.len() && d < level && #[trigger] self.within(from as int, x as int, d)
                ==> seen[x as int]
        &&& !seen[from as int] ==> queue.len() > 0 && queue[0] == from && level == 0
        &&& forall|y: usize, d: int, k: int|
            y < self.nodes@.len() && seen[y as int] && #[trigger] self.within(
                from as int,
                y as int,
                d,
            ) && 0 <= k < self.nodes@[y as int].children@.len() && !seen[(
            #[trigger] self.nodes@[y as int].children@[k]).idx as int] ==> waits(
                queue,
                lab,
                self.nodes@[y as int].children@[k].idx,
                d + 1,
            )
    }

    /// The number of nodes is the length of a vector.
    pub proof fn lemma_nodes_fit(&self)
        ensures
            self.nodes@.len() <= usize::MAX,
    {
        assert(self.nodes.len() == self.nodes@.len());
    }

    /// What lies within some steps lies within more.
    pub proof fn lemma_within_more(&self, i: int, j: int, d: int, e: int)
        requires
            self.within(i, j, d),
            d <= e,
        ensures
            self.within(i, j, e),
    {
        let way = choose|way: Seq<int>|
            self.is_way(way) && way.first() == i && #[trigger] way.last() == j && way.len() <= d + 1;
        assert(self.is_way(way) && way.first() == i && way.last() == j && way.len() <= e + 1);
    }

    /// A node lies within no steps of itself, and of no other node.
    pub proof fn lemma_within_none(&self, i: int, j: int)
        requires
            0 <= i < self.nodes@.len(),
        ensures
            self.within(i, i, 0),
            self.within(i, j, 0) ==> j == i,
            forall|d: int| d < 0 ==> !#[trigger] self.within(i, j, d),
    {
        let alone = seq![i];
        assert(self.is_way(alone) && alone.first() == i && alone.last() == i && alone.len() <= 1);
    }

    /// A link from a node within some steps leads to a node within one step
    /// more.
    pub proof fn lemma_within_step(&self, i: int, a: int, d: int, k: int)
        requires
            self.valid(),
            self.within(i, a, d),
            0 <= k < self.nodes@[a].children@.len(),
        ensures
            self.within(i, self.nodes@[a].children@[k].idx as int, d + 1),
    {
        let way = choose|way: Seq<int>|
            self.is_way(way) && way.first() == i && #[trigger] way.last() == a && way.len() <= d + 1;
        let c = self.nodes@[a].children@[k].idx as int;
        let on = seq![a, c];
        assert(0 <= way[way.len() - 1] < self.nodes@.len());
        assert(self.linked(a, c));
        assert(self.is_way(on));
        self.lemma_ways_join(way, on);
        let whole = way + on.drop_first();
        assert(self.is_way(whole) && whole.first() == i && whole.last() == c && whole.len() <= d
            + 2);
    }

    /// A node within some steps is a node within one step less, or a link
    /// leads to it from such a node.
    pub proof fn lemma_within_before(&self, i: int, x: int, d: int) -> (p: int)
        requires
            self.within(i, x, d),
            d >= 1,
        ensures
            self.within(i, p, d - 1),
            self.linked(p, x),
            0 <= p < self.nodes@.len(),
    {
        let way = choose|way: Seq<int>|
            self.is_way(way) && way.first() == i && #[trigger] way.last() == x && way.len() <= d + 1;
        if way.len() == 1 {
            assert(0 <= way[0] < self.nodes@.len());
            assert(self.is_way(way) && way.first() == i && way.last() == x && way.len() <= d);
            x
        } else {
            let short = way.drop_last();
            let p = way[way.len() - 2];
            assert(0 <= way[way.len() - 2] < self.nodes@.len());
            assert(self.linked(way[way.len() - 2], way[way.len() - 2 + 1]));
            assert(self.is_way(short)) by {
                assert forall|m: int| 0 <= m < short.len() implies 0 <= #[trigger] short[m]
                    < self.nodes@.len() by {
                    assert(short[m] == way[m]);
                }
                assert forall|m: int| 0 <= m < short.len() - 1 implies self.linked(
                    #[trigger] short[m],
                    short[m + 1],
                ) by {
                    assert(short[m] == way[m] && short[m + 1] == way[m + 1]);
                    assert(self.linked(way[m], way[m + 1]));
                }
            }
            assert(short.first() == i && short.last() == p && short.len() <= d);
            p
        }
    }

    /// A node that is not seen and lies within `level` steps waits with the
    /// number `level`.
    pub proof fn lemma_waiting_now(
        &self,
        from: usize,
        queue: Seq<usize>,
        lab: Seq<int>,
        seen: Seq<bool>,
        level: int,
        x: usize,
    ) -> (i: int)
        requires
            self.valid(),
            from < self.nodes@.len(),
            self.sweeping(from, queue, lab, seen, level),
            x < self.nodes@.len(),
            !seen[x as int],
            self.within(from as int, x as int, level),
        ensures
            0 <= i < queue.len(),
            queue[i] == x,
            lab[i] == level,
    {
        self.lemma_nodes_fit();
        self.lemma_within_none(from as int, x as int);
        if level <= 0 {
            if level < 0 {
                assert(!self.within(from as int, x as int, level));
            }
            0
        } else {
            let p = self.lemma_within_before(from as int, x as int, level);
            let y = p as usize;
            assert(self.within(from as int, y as int, level - 1));
            assert(seen[y as int]);
            let k = choose|k: int|
                0 <= k < self.nodes@[p].children@.len() && (
                #[trigger] self.nodes@[p].children@[k]).idx == x as int;
            assert(!seen[self.nodes@[y as int].children@[k].idx as int]);
            assert(waits(queue, lab, self.nodes@[y as int].children@[k].idx, level - 1 + 1));
            let i = choose|i: int| 0 <= i < queue.len() && #[trigger] queue[i] == x && lab[i] <= level;
            i
        }
    }

    /// The number of the node that waits first once the first has left.
    pub open spec fn next_level(lab: Seq<int>, level: int, visit: bool) -> int {
        if lab.len() > 1 {
            lab[1]
        } else if visit {
            level + 1
        } else {
            level
        }
    }

    /// Every node within fewer steps than the next node in the queue waited
    /// for is seen, but for the node that waits first.
    pub proof fn lemma_level_done(
        &self,
        from: usize,
        queue: Seq<usize>,
        lab: Seq<int>,
        seen: Seq<bool>,
        level: int,
        visit: bool,
        x: usize,
        d: int,
    )
        requires
            self.valid(),
            from < self.nodes@.len(),
            self.sweeping(from, queue, lab, seen, level),
            queue.len() > 0,
            x < self.nodes@.len(),
            d < Self::next_level(lab, level, visit),
            self.within(from as int, x as int, d),
            x != queue[0],
        ensures
            seen[x as int],
    {
        if !seen[x as int] && d >= level {
            if queue.len() > 1 {
                assert(queue[1] < self.nodes@.len());
            }
            self.lemma_within_more(from as int, x as int, d, level);
            let i = self.lemma_waiting_now(from, queue, lab, seen, level, x);
            assert(lab[1] <= lab[i]);
        }
    }

    /// The walk goes on in order when the node that waits first was seen
    /// before and is passed over.
    pub proof fn lemma_sweeping_skip(
        &self,
        from: usize,
        queue: Seq<usize>,
        lab: Seq<int>,
        seen: Seq<bool>,
        level: int,
    )
        requires
            self.valid(),
            from < self.nodes@.len(),
            self.sweeping(from, queue, lab, seen, level),
            queue.len() > 0,
            seen[queue[0] as int],
        ensures
            self.sweeping(
                from,
                queue.drop_first(),
                lab.drop_first(),
                seen,
                Self::next_level(lab, level, false),
            ),
    {
        let n = self.nodes@.len();
        let f = from as int;
        let rest = queue.drop_first();
        let lab2 = lab.drop_first();
        let level2 = Self::next_level(lab, level, false);
        if queue.len() > 1 {
            assert(queue[1] < n);
            assert(lab[0] <= lab[1]);
        }
        assert forall|i: int| 0 <= i < rest.len() implies #[trigger] rest[i] < n && level2
            <= lab2[i] <= level2 + 1 && self.within(f, rest[i] as int, lab2[i]) by {
            assert(rest[i] == queue[i + 1] && lab2[i] == lab[i + 1]);
            assert(lab[1] <= lab[i + 1]);
        }
        assert forall|i: int, j: int| 0 <= i <= j < lab2.len() implies #[trigger] lab2[i]
            <= #[trigger] lab2[j] by {
            assert(lab[i + 1] <= lab[j + 1]);
        }
        assert forall|x: usize, d: int|
            x < n && d < level2 && #[trigger] self.within(f, x as int, d) implies seen[x as int] by {
            if x != queue[0] {
                self.lemma_level_done(from, queue, lab, seen, level, false, x, d);
            }
        }
        assert forall|y: usize, d: int, k: int|
            y < n && seen[y as int] && #[trigger] self.within(f, y as int, d) && 0 <= k
                < self.nodes@[y as int].children@.len() && !seen[(
            #[trigger] self.nodes@[y as int].children@[k]).idx as int] implies waits(
            rest,
            lab2,
            self.nodes@[y as int].children@[k].idx,
            d + 1,
        ) by {
            let x = self.nodes@[y as int].children@[k].idx;
            assert(waits(queue, lab, x, d + 1));
            let i = choose|i: int| 0 <= i < queue.len() && #[trigger] queue[i] == x && lab[i] <= d + 1;
            assert(rest[i - 1] == x && lab2[i - 1] == lab[i]);
        }
    }

    /// The walk goes on in order when the node that waits first is seen and
    /// the nodes not seen to which its links lead are let wait.
    pub proof fn lemma_sweeping_visit(
        &self,
        from: usize,
        queue: Seq<usize>,
        lab: Seq<int>,
        seen: Seq<bool>,
        level: int,
    )
        requires
            self.valid(),
            from < self.nodes@.len(),
            self.sweeping(from, queue, lab, seen, level),
            queue.len() > 0,
            !seen[queue[0] as int],
        ensures
            self.sweeping(
                from,
                queue.drop_first() + fresh(
                    self.adjacency()[queue[0] as int],
                    seen,
                    self.adjacency()[queue[0] as int].len() as int,
                ),
                lab.drop_first() + Seq::new(
                    fresh(
                        self.adjacency()[queue[0] as int],
                        seen,
                        self.adjacency()[queue[0] as int].len() as int,
                    ).len(),
                    |i: int| level + 1,
                ),
                seen.update(queue[0] as int, true),
                Self::next_level(lab, level, true),
            ),
    {
        let n = self.nodes@.len();
        let f = from as int;
        let v = queue[0];
        let rest = queue.drop_first();
        let links = self.adjacency()[v as int];
        let fr = fresh(links, seen, links.len() as int);
        let next = rest + fr;
        let lab2 = lab.drop_first() + Seq::new(fr.len(), |i: int| level + 1);
        let marked = seen.update(v as int, true);
        let level2 = Self::next_level(lab, level, true);
        assert(v < n);
        lemma_fresh(links, seen, links.len() as int);
        assert(self.within(f, v as int, level));
        if queue.len() > 1 {
            assert(queue[1] < n);
            assert(lab[0] <= lab[1]);
        }
        assert forall|i: int| 0 <= i < next.len() implies #[trigger] next[i] < n && level2
            <= lab2[i] <= level2 + 1 && self.within(f, next[i] as int, lab2[i]) by {
            if i < rest.len() {
                assert(next[i] == queue[i + 1] && lab2[i] == lab[i + 1]);
                assert(lab[1] <= lab[i + 1]);
            } else {
                let e = fr[i - rest.len()];
                assert(next[i] == e && lab2[i] == level + 1);
                let j = choose|j: int| 0 <= j < links.len() && links[j] == e;
                assert(self.nodes@[v as int].children@[j].idx == e);
                self.lemma_within_step(f, v as int, level, j);
            }
        }
        assert forall|i: int, j: int| 0 <= i <= j < lab2.len() implies #[trigger] lab2[i]
            <= #[trigger] lab2[j] by {
            if j < rest.len() {
                assert(lab[i + 1] <= lab[j + 1]);
            } else if i < rest.len() {
                assert(queue[i + 1] < n);
                assert(lab2[i] == lab[i + 1]);
            }
        }
        assert forall|x: usize, d: int|
            x < n && d < level2 && #[trigger] self.within(f, x as int, d) implies marked[x as int] by {
            if x != v {
                self.lemma_level_done(from, queue, lab, seen, level, true, x, d);
            }
        }
        assert forall|y: usize, d: int, k: int|
            y < n && marked[y as int] && #[trigger] self.within(f, y as int, d) && 0 <= k
                < self.nodes@[y as int].children@.len() && !marked[(
            #[trigger] self.nodes@[y as int].children@[k]).idx as int] implies waits(
            next,
            lab2,
            self.nodes@[y as int].children@[k].idx,
            d + 1,
        ) by {
            let x = self.nodes@[y as int].children@[k].idx;
            if y == v {
                if d < level {
                    assert(seen[v as int]);
                }
                assert(links[k] == x);
                assert(fr.contains(x));
                let q = choose|q: int| 0 <= q < fr.len() && fr[q] == x;
                assert(next[rest.len() + q] == x && lab2[rest.len() + q] == level + 1);
            } else {
                assert(waits(queue, lab, x, d + 1));
                let i = choose|i: int|
                    0 <= i < queue.len() && #[trigger] queue[i] == x && lab[i] <= d + 1;
                assert(next[i - 1] == x && lab2[i - 1] == lab[i]);
            }
        }
        if next.len() > 0 {
            if rest.len() == 0 {
                assert(lab2[0] == level + 1);
            } else {
                assert(lab2[0] == lab[1]);
            }
        }
    }

    /// A walk in breadth sees no node before one that is nearer to the
    /// start, and none that was seen before.
    pub proof fn lemma_sweep_order(
        &self,
        from: usize,
        queue: Seq<usize>,
        lab: Seq<int>,
        seen: Seq<bool>,
        level: int,
    )
        requires
            self.valid(),
            from < self.nodes@.len(),
            self.sweeping(from, queue, lab, seen, level),
        ensures
            self.by_distance(from, sweep(self.adjacency(), queue, seen)),
            forall|m: int|
                0 <= m < sweep(self.adjacency(), queue, seen).len() ==> #[trigger] sweep(
                    self.adjacency(),
                    queue,
                    seen,
                )[m] < self.nodes@.len() && !seen[sweep(self.adjacency(), queue, seen)[m] as int],
        decreases unvisited(seen), queue.len(),
    {
        let adj = self.adjacency();
        let n = self.nodes@.len();
        let out = sweep(adj, queue, seen);
        let f = from as int;
        if queue.len() > 0 {
            let v = queue[0];
            let rest = queue.drop_first();
            assert(v < n);
            if seen[v as int] {
                self.lemma_sweeping_skip(from, queue, lab, seen, level);
                self.lemma_sweep_order(
                    from,
                    rest,
                    lab.drop_first(),
                    seen,
                    Self::next_level(lab, level, false),
                );
            } else {
                let links = adj[v as int];
                let fr = fresh(links, seen, links.len() as int);
                let next = rest + fr;
                let lab2 = lab.drop_first() + Seq::new(fr.len(), |i: int| level + 1);
                let marked = seen.update(v as int, true);
                let tail = sweep(adj, next, marked);
                lemma_unvisited_update(seen, v as int);
                assert(out == seq![v] + tail);
                assert(self.within(f, v as int, level));
                self.lemma_sweeping_visit(from, queue, lab, seen, level);
                self.lemma_sweep_order(from, next, lab2, marked, Self::next_level(lab, level, true));
                assert forall|m: int| 0 <= m < out.len() implies #[trigger] out[m] < n
                    && !seen[out[m] as int] by {
                    if m > 0 {
                        assert(out[m] == tail[m - 1]);
                        assert(!marked[tail[m - 1] as int]);
                    }
                }
                assert forall|i: int, j: int, d: int|
                    #![trigger self.within(f, out[j] as int, d), out[i]]
                    0 <= i < j < out.len() && self.within(f, out[j] as int, d) implies self.within(
                    f,
                    out[i] as int,
                    d,
                ) by {
                    assert(out[j] == tail[j - 1]);
                    assert(!marked[tail[j - 1] as int]);
                    if i == 0 {
                        if d < level {
                            assert(seen[tail[j - 1] as int]);
                        }
                        self.lemma_within_more(f, v as int, level, d);
                    } else {
                        assert(out[i] == tail[i - 1]);
                    }
                }
            }
        }
    }

    /// A walk in breadth from node `from` sees the nodes in the order of
    /// their distance from `from`: no node before one that can be reached
    /// in fewer steps.
    pub proof fn law_bfs_by_distance(&self, from: usize)
        requires
            self.valid(),
            from < self.nodes@.len(),
        ensures
            self.by_distance(from, self.bfs_order(from)),
    {
        let n = self.nodes@.len();
        let none = Seq::new(n, |i: int| false);
        let queue = seq![from];
        let lab = seq![0int];
        self.lemma_within_none(from as int, from as int);
        assert(self.sweeping(from, queue, lab, none, 0)) by {
            assert forall|x: usize, d: int|
                x < n && d < 0 && #[trigger] self.within(from as int, x as int, d) implies none[x as int] by {
                self.lemma_within_none(from as int, x as int);
            }
        }
        self.lemma_sweep_order(from, queue, lab, none, 0);
    }
}

} // verus!
