use vstd::prelude::*;
use crate::graph::Graph;

verus! {

impl<T> Graph<T> {
    /// `way` is a way through the graph: a run of nodes each of which is
    /// the one before it or has a link from it.
    pub open spec fn is_way(&self, way: Seq<int>) -> bool {
        &&& way.len() >= 1
        &&& forall|m: int| 0 <= m < way.len() ==> 0 <= #[trigger] way[m] < self.nodes@.len()
        &&& forall|m: int| 0 <= m < way.len() - 1 ==> self.linked(#[trigger] way[m], way[m + 1])
    }

    /// Node `j` can be reached from node `i` by links.
    pub open spec fn reachable(&self, i: int, j: int) -> bool {
        exists|way: Seq<int>| self.is_way(way) && way.first() == i && #[trigger] way.last() == j
    }

    /// A way to a node and a way on from that node make one way.
    pub proof fn lemma_ways_join(&self, there: Seq<int>, on: Seq<int>)
        requires
            self.is_way(there),
            self.is_way(on),
            there.last() == on.first(),
        ensures
            self.is_way(there + on.drop_first()),
            (there + on.drop_first()).first() == there.first(),
            (there + on.drop_first()).last() == on.last(),
    {
        let way = there + on.drop_first();
        let n = there.len() as int;
        assert forall|m: int| 0 <= m < way.len() implies 0 <= #[trigger] way[m]
            < self.nodes@.len() by {
            if m < n {
                assert(way[m] == there[m]);
            } else {
                assert(way[m] == on[m - n + 1]);
            }
        }
        assert forall|m: int| 0 <= m < way.len() - 1 implies self.linked(
            #[trigger] way[m],
            way[m + 1],
        ) by {
            if m < n - 1 {
                assert(way[m] == there[m] && way[m + 1] == there[m + 1]);
                assert(self.linked(there[m], there[m + 1]));
            } else if m == n - 1 {
                assert(way[m] == on[0] && way[m + 1] == on[1]);
                assert(self.linked(on[0], on[1]));
            } else {
                let q = m - n + 1;
                assert(way[m] == on[q] && way[m + 1] == on[q + 1]);
                assert(self.linked(on[q], on[q + 1]));
            }
        }
        assert(way[0] == there[0]);
        if on.len() == 1 {
            assert(way =~= there);
        } else {
            assert(way[way.len() - 1] == on[on.len() - 1]);
        }
    }

    /// What can be reached through the first `k` nodes can be reached.
    pub proof fn lemma_via_is_reachable(&self, k: nat, i: int, j: int)
        requires
            k <= self.nodes@.len(),
            0 <= i < self.nodes@.len(),
            0 <= j < self.nodes@.len(),
            self.via(k, i, j),
        ensures
            self.reachable(i, j),
        decreases k,
    {
        if k == 0 {
            let way = seq![i, j];
            assert(self.is_way(way));
            assert(way.first() == i && way.last() == j);
        } else if self.via((k - 1) as nat, i, j) {
            self.lemma_via_is_reachable((k - 1) as nat, i, j);
        } else {
            self.lemma_via_is_reachable((k - 1) as nat, i, k - 1);
            self.lemma_via_is_reachable((k - 1) as nat, k - 1, j);
            let there = choose|way: Seq<int>|
                self.is_way(way) && way.first() == i && #[trigger] way.last() == k - 1;
            let on = choose|way: Seq<int>|
                self.is_way(way) && way.first() == k - 1 && #[trigger] way.last() == j;
            self.lemma_ways_join(there, on);
            assert((there + on.drop_first()).last() == j);
        }
    }

    /// The end of a way whose nodes between start and end are among the
    /// first `k` can be reached from its start through the first `k` nodes.
    pub proof fn lemma_way_is_via(&self, k: nat, way: Seq<int>)
        requires
            self.is_way(way),
            forall|m: int| 0 < m < way.len() - 1 ==> #[trigger] way[m] < k,
        ensures
            self.via(k, way.first(), way.last()),
        decreases k, way.len(),
    {
        if k == 0 {
            if way.len() >= 2 {
                assert(way.len() == 2) by {
                    if way.len() > 2 {
                        assert(way[1] < 0);
                    }
                }
                assert(self.linked(way[0], way[1]));
            }
        } else if exists|m: int| 0 < m < way.len() - 1 && way[m] == k - 1 {
            let a = choose|m: int| 0 < m < way.len() - 1 && way[m] == k - 1;
            let there = way.subrange(0, a + 1);
            let on = way.subrange(a, way.len() as int);
            assert(self.is_way(there)) by {
                assert forall|m: int| 0 <= m < there.len() - 1 implies self.linked(
                    #[trigger] there[m],
                    there[m + 1],
                ) by {
                    assert(there[m] == way[m] && there[m + 1] == way[m + 1]);
                }
            }
            assert(self.is_way(on)) by {
                assert forall|m: int| 0 <= m < on.len() - 1 implies self.linked(
                    #[trigger] on[m],
                    on[m + 1],
                ) by {
                    assert(on[m] == way[a + m] && on[m + 1] == way[a + m + 1]);
                }
                assert forall|m: int| 0 <= m < on.len() implies 0 <= #[trigger] on[m]
                    < self.nodes@.len() by {
                    assert(on[m] == way[a + m]);
                }
            }
            assert forall|m: int| 0 < m < on.len() - 1 implies #[trigger] on[m] < k by {
                assert(on[m] == way[a + m]);
            }
            self.lemma_way_is_via(k, there);
            self.lemma_way_is_via(k, on);
            self.lemma_via_pivot((k - 1) as nat, way.first(), way.last());
            self.lemma_via_pivot((k - 1) as nat, way.first(), k - 1);
            self.lemma_via_pivot((k - 1) as nat, k - 1, way.last());
        } else {
            assert forall|m: int| 0 < m < way.len() - 1 implies #[trigger] way[m] < k - 1 by {}
            self.lemma_way_is_via((k - 1) as nat, way);
        }
    }

    /// What the table of `warshall` tells of two nodes is whether the
    /// second can be reached from the first by links.
    pub proof fn law_table_is_reachability(&self, i: int, j: int)
        requires
            0 <= i < self.nodes@.len(),
            0 <= j < self.nodes@.len(),
        ensures
            self.via(self.nodes@.len(), i, j) <==> self.reachable(i, j),
    {
        let n = self.nodes@.len();
        if self.via(n, i, j) {
            self.lemma_via_is_reachable(n, i, j);
        }
        if self.reachable(i, j) {
            let way = choose|way: Seq<int>|
                self.is_way(way) && way.first() == i && #[trigger] way.last() == j;
            self.lemma_way_is_via(n, way);
        }
    }
}

} // verus!
