use std::collections::VecDeque;
use vstd::prelude::*;
use crate::decimal::{decimal, to_decimal};

verus! {

/// A link from a node to the node at index `idx`, with a weight.
#[derive(Debug, Clone, Copy)]
pub struct Child {
    pub idx: usize,
    pub weight: u32,
}

impl Child {
    /// A link to the node at `idx` with weight 0.
    pub fn new(idx: usize) -> (child: Child)
        ensures
            child.idx == idx,
            child.weight == 0,
    {
        Child { idx, weight: 0 }
    }

    /// A link to the node at `idx` with the weight `weight`.
    pub fn new_with_weight(idx: usize, weight: u32) -> (child: Child)
        ensures
            child.idx == idx,
            child.weight == weight,
    {
        Child { idx, weight }
    }

    /// The link as text: the index in base ten, followed in a weighted graph
    /// by a space and the weight in base ten.
    pub fn get_clean_value(&self, weighted: bool) -> (text: String)
        ensures
            text@ == (if weighted {
                decimal(self.idx as nat) + seq![' '] + decimal(self.weight as nat)
            } else {
                decimal(self.idx as nat)
            }),
    {
        if weighted {
            proof {
                reveal_strlit(" ");
            }
            let mut text = to_decimal(self.idx as u64).concat(" ");
            let weight = to_decimal(self.weight as u64);
            text.append(weight.as_str());
            text
        } else {
            to_decimal(self.idx as u64)
        }
    }
}

/// A node of a graph: a value and the links to other nodes.
#[derive(Debug)]
pub struct Node<T> {
    pub val: T,
    pub children: Vec<Child>,
}

impl<T> Node<T> {
    /// A node without links.
    pub fn new(val: T) -> (node: Node<T>)
        ensures
            node.val == val,
            node.children@ == Seq::<Child>::empty(),
    {
        Node { val, children: Vec::new() }
    }

    /// A node with the links `children`.
    pub fn new_with_children(val: T, children: Vec<Child>) -> (node: Node<T>)
        ensures
            node.val == val,
            node.children == children,
    {
        Node { val, children }
    }

    /// Adds the link `node` behind the others.
    pub fn add_child(&mut self, node: Child)
        ensures
            final(self).val == old(self).val,
            final(self).children@ == old(self).children@.push(node),
    {
        self.children.push(node);
    }

    /// Adds the links `nodes` behind the others, in their order.
    pub fn add_children(&mut self, nodes: Vec<Child>)
        ensures
            final(self).val == old(self).val,
            final(self).children@ == old(self).children@ + nodes@,
    {
        let mut n: usize = 0;
        while n < nodes.len()
            invariant
                n <= nodes.len(),
                self.val == old(self).val,
                self.children@ == old(self).children@ + nodes@.subrange(0, n as int),
            decreases nodes.len() - n,
        {
            self.add_child(nodes[n]);
            n = n + 1;
            assert(self.children@ =~= old(self).children@ + nodes@.subrange(0, n as int));
        }
        assert(nodes@.subrange(0, nodes@.len() as int) =~= nodes@);
    }

    /// The links to the nodes at `indices`, each with weight 0.
    pub fn plain_links(indices: &Vec<usize>) -> (children: Vec<Child>)
        ensures
            children@.len() == indices@.len(),
            forall|k: int|
                0 <= k < indices@.len() ==> (#[trigger] children@[k]).idx == indices@[k]
                    && children@[k].weight == 0,
    {
        let mut children: Vec<Child> = Vec::new();
        let mut n: usize = 0;
        while n < indices.len()
            invariant
                n <= indices.len(),
                children@.len() == n,
                forall|k: int|
                    0 <= k < n ==> (#[trigger] children@[k]).idx == indices@[k]
                        && children@[k].weight == 0,
            decreases indices.len() - n,
        {
            children.push(Child::new(indices[n]));
            n = n + 1;
        }
        children
    }

    /// The links to the nodes at the indices of `pairs`, each with the
    /// weight beside it.
    pub fn weighted_links(pairs: &Vec<(usize, u32)>) -> (children: Vec<Child>)
        ensures
            children@.len() == pairs@.len(),
            forall|k: int|
                0 <= k < pairs@.len() ==> (#[trigger] children@[k]).idx == pairs@[k].0
                    && children@[k].weight == pairs@[k].1,
    {
        let mut children: Vec<Child> = Vec::new();
        let mut n: usize = 0;
        while n < pairs.len()
            invariant
                n <= pairs.len(),
                children@.len() == n,
                forall|k: int|
                    0 <= k < n ==> (#[trigger] children@[k]).idx == pairs@[k].0
                        && children@[k].weight == pairs@[k].1,
            decreases pairs.len() - n,
        {
            children.push(Child::new_with_weight(pairs[n].0, pairs[n].1));
            n = n + 1;
        }
        children
    }
}

/// A directed graph: its nodes, each with the links that leave it.
#[derive(Debug)]
pub struct Graph<T> {
    pub nodes: Vec<Node<T>>,
    pub weighted: bool,
}

impl<T> Graph<T> {
    /// Every link leads to a node of the graph.
    pub open spec fn valid(&self) -> bool {
        forall|i: int, k: int|
            0 <= i < self.nodes@.len() && 0 <= k < self.nodes@[i].children@.len() ==> (
            #[trigger] self.nodes@[i].children@[k]).idx < self.nodes@.len()
    }

    /// The indices of the nodes to which the links of node `i` lead, in the
    /// order of the links.
    pub open spec fn links(&self, i: int) -> Seq<int> {
        Seq::new(self.nodes@[i].children@.len(), |k: int| self.nodes@[i].children@[k].idx as int)
    }

    /// Node `j` is node `i` or a link leads from `i` to `j`.
    pub open spec fn linked(&self, i: int, j: int) -> bool {
        i == j || exists|k: int|
            0 <= k < self.nodes@[i].children@.len() && (
            #[trigger] self.nodes@[i].children@[k]).idx == j
    }

    /// Node `j` can be reached from node `i` by links, through no nodes but
    /// the first `k`.
    pub open spec fn via(&self, k: nat, i: int, j: int) -> bool
        decreases k,
    {
        if k == 0 {
            self.linked(i, j)
        } else {
            self.via((k - 1) as nat, i, j) || (self.via((k - 1) as nat, i, k - 1) && self.via(
                (k - 1) as nat,
                k - 1,
                j,
            ))
        }
    }

    /// A graph without nodes.
    pub fn new() -> (graph: Graph<T>)
        ensures
            graph.nodes@ == Seq::<Node<T>>::empty(),
            !graph.weighted,
    {
        Graph { nodes: Vec::new(), weighted: false }
    }

    /// Adds `node` behind the others.
    pub fn add_node(&mut self, node: Node<T>)
        ensures
            final(self).nodes@ == old(self).nodes@.push(node),
            final(self).weighted == old(self).weighted,
    {
        self.nodes.push(node);
    }

    /// Adds `nodes` behind the others, in their order.
    pub fn add_nodes(&mut self, nodes: Vec<Node<T>>)
        ensures
            final(self).nodes@ == old(self).nodes@ + nodes@,
            final(self).weighted == old(self).weighted,
    {
        let mut nodes = nodes;
        self.nodes.append(&mut nodes);
    }

    /// Makes room for `num` more nodes; the graph stays as it is.
    pub fn alloc_childs(&mut self, num: usize)
        ensures
            final(self).nodes@ == old(self).nodes@,
            final(self).weighted == old(self).weighted,
    {
        self.nodes.reserve(num);
    }

    /// The table that tells for each pair of nodes whether the second is
    /// the first or a link leads from the first to it.
    pub fn get_neighborhood_matrix(&self) -> (table: Vec<Vec<bool>>)
        requires
            self.valid(),
        ensures
            table@.len() == self.nodes@.len(),
            forall|i: int| 0 <= i < table@.len() ==> (#[trigger] table@[i])@.len() == table@.len(),
            forall|i: int, j: int|
                0 <= i < table@.len() && 0 <= j < table@.len() ==> #[trigger] table@[i]@[j]
                    == self.linked(i, j),
    {
        let n = self.nodes.len();
        let mut table: Vec<Vec<bool>> = Vec::new();
        let mut i: usize = 0;
        while i < n
            invariant
                i <= n,
                n == self.nodes@.len(),
                self.valid(),
                table@.len() == i,
                forall|r: int| 0 <= r < i ==> (#[trigger] table@[r])@.len() == n,
                forall|r: int, j: int|
                    0 <= r < i && 0 <= j < n ==> #[trigger] table@[r]@[j] == self.linked(r, j),
            decreases n - i,
        {
            let mut row: Vec<bool> = Vec::new();
            let mut j: usize = 0;
            while j < n
                invariant
                    j <= n,
                    row@.len() == j,
                    forall|c: int| 0 <= c < j ==> #[trigger] row@[c] == (c == i),
                decreases n - j,
            {
                row.push(j == i);
                j = j + 1;
            }
            let mut k: usize = 0;
            let count = self.nodes[i].children.len();
            while k < count
                invariant
                    k <= count,
                    i < n,
                    n == self.nodes@.len(),
                    count == self.nodes@[i as int].children@.len(),
                    self.valid(),
                    row@.len() == n,
                    forall|c: int|
                        0 <= c < n ==> #[trigger] row@[c] == (c == i || exists|q: int|
                            0 <= q < k && (#[trigger] self.nodes@[i as int].children@[q]).idx == c),
                decreases count - k,
            {
                let to = self.nodes[i].children[k].idx;
                row.set(to, true);
                k = k + 1;
            }
            table.push(row);
            i = i + 1;
        }
        table
    }

    /// The table that tells for each pair of nodes whether the second can
    /// be reached from the first by links.
    pub fn warshall(self) -> (table: Vec<Vec<bool>>)
        requires
            self.valid(),
        ensures
            table@.len() == self.nodes@.len(),
            forall|i: int| 0 <= i < table@.len() ==> (#[trigger] table@[i])@.len() == table@.len(),
            forall|i: int, j: int|
                0 <= i < table@.len() && 0 <= j < table@.len() ==> #[trigger] table@[i]@[j]
                    == self.via(self.nodes@.len(), i, j),
    {
        let n = self.nodes.len();
        let mut table = self.get_neighborhood_matrix();
        let mut k: usize = 0;
        while k < n
            invariant
                k <= n,
                n == self.nodes@.len(),
                table@.len() == n,
                forall|i: int| 0 <= i < n ==> (#[trigger] table@[i])@.len() == n,
                forall|i: int, j: int|
                    0 <= i < n && 0 <= j < n ==> #[trigger] table@[i]@[j] == self.via(
                        k as nat,
                        i,
                        j,
                    ),
            decreases n - k,
        {
            let mut i: usize = 0;
            while i < n
                invariant
                    i <= n,
                    k < n,
                    n == self.nodes@.len(),
                    table@.len() == n,
                    forall|r: int| 0 <= r < n ==> (#[trigger] table@[r])@.len() == n,
                    forall|r: int, j: int|
                        0 <= r < n && 0 <= j < n ==> #[trigger] table@[r]@[j] == (if r < i {
                            self.via((k + 1) as nat, r, j)
                        } else {
                            self.via(k as nat, r, j)
                        }),
                decreases n - i,
            {
                let mut j: usize = 0;
                while j < n
                    invariant
                        j <= n,
                        i < n,
                        k < n,
                        n == self.nodes@.len(),
                        table@.len() == n,
                        forall|r: int| 0 <= r < n ==> (#[trigger] table@[r])@.len() == n,
                        forall|r: int, c: int|
                            0 <= r < n && 0 <= c < n ==> #[trigger] table@[r]@[c] == (if r < i
                                || (r == i && c < j) {
                                self.via((k + 1) as nat, r, c)
                            } else {
                                self.via(k as nat, r, c)
                            }),
                    decreases n - j,
                {
                    proof {
                        self.lemma_via_pivot(k as nat, i as int, j as int);
                        self.lemma_via_pivot(k as nat, i as int, k as int);
                        self.lemma_via_pivot(k as nat, k as int, j as int);
                    }
                    let through = table[i][k] && table[k][j];
                    let direct = table[i][j];
                    table[i][j] = direct || through;
                    j = j + 1;
                }
                i = i + 1;
            }
            k = k + 1;
        }
        table
    }

    /// Whether a node can be reached through the first `k + 1` nodes, to or
    /// from node `k`, does not depend on the use of node `k` as a stop.
    pub proof fn lemma_via_pivot(&self, k: nat, i: int, j: int)
        ensures
            self.via(k + 1, i, k as int) == self.via(k, i, k as int),
            self.via(k + 1, k as int, j) == self.via(k, k as int, j),
            self.via(k + 1, i, j) == (self.via(k, i, j) || (self.via(k, i, k as int) && self.via(
                k,
                k as int,
                j,
            ))),
    {
    }
}

impl<T: Default> Graph<T> {
    /// A graph of `size` nodes without links, each with the default value.
    pub fn new_with_size(size: usize) -> (graph: Graph<T>)
        ensures
            graph.nodes@.len() == size,
            !graph.weighted,
            forall|i: int|
                0 <= i < size ==> (#[trigger] graph.nodes@[i]).children@ == Seq::<Child>::empty()
                    && call_ensures(T::default, (), graph.nodes@[i].val),
    {
        let mut nodes: Vec<Node<T>> = Vec::new();
        let mut n: usize = 0;
        while n < size
            invariant
                n <= size,
                nodes@.len() == n,
                forall|i: int|
                    0 <= i < n ==> (#[trigger] nodes@[i]).children@ == Seq::<Child>::empty()
                        && call_ensures(T::default, (), nodes@[i].val),
            decreases size - n,
        {
            nodes.push(Node::new(T::default()));
            n = n + 1;
        }
        Graph { nodes, weighted: false }
    }
}

} // verus!

verus! {

/// Number of nodes that a walk has not seen.
pub open spec fn unvisited(seen: Seq<bool>) -> nat
    decreases seen.len(),
{
    if seen.len() == 0 {
        0
    } else {
        unvisited(seen.drop_last()) + if seen.last() {
            0nat
        } else {
            1nat
        }
    }
}

/// To see one more node leaves one node less to see.
pub proof fn lemma_unvisited_update(seen: Seq<bool>, v: int)
    requires
        0 <= v < seen.len(),
        !seen[v],
    ensures
        unvisited(seen.update(v, true)) + 1 == unvisited(seen),
    decreases seen.len(),
{
    let next = seen.update(v, true);
    if v == seen.len() - 1 {
        assert(next.drop_last() =~= seen.drop_last());
    } else {
        assert(next.drop_last() =~= seen.drop_last().update(v, true));
        lemma_unvisited_update(seen.drop_last(), v);
    }
}

/// The nodes that a walk in depth sees from the link `k` of node `v` on,
/// in the order in which it sees them, and the nodes seen after it. The
/// walk takes the links of a node in their order; a link to a node not seen
/// so far is followed at once, and the walk goes on with the next link when
/// all that can be reached through that node is seen. `fuel` bounds the
/// number of nodes on the way from the start to the present node.
pub open spec fn walk(adj: Seq<Seq<usize>>, v: int, k: int, seen: Seq<bool>, fuel: nat) -> (
    Seq<usize>,
    Seq<bool>,
)
    decreases
        fuel,
        (if 0 <= v < adj.len() && 0 <= k <= adj[v].len() {
            adj[v].len() - k
        } else {
            0
        }),
{
    if !(0 <= v < adj.len()) || !(0 <= k < adj[v].len()) {
        (Seq::empty(), seen)
    } else {
        let c = adj[v][k];
        if c >= seen.len() || seen[c as int] {
            walk(adj, v, k + 1, seen, fuel)
        } else if fuel == 0 {
            (Seq::empty(), seen)
        } else {
            let first = walk(adj, c as int, 0, seen.update(c as int, true), (fuel - 1) as nat);
            let rest = walk(adj, v, k + 1, first.1, fuel);
            (seq![c] + first.0 + rest.0, rest.1)
        }
    }
}

/// A walk leaves no more nodes to see than there were.
pub proof fn lemma_walk_sees(adj: Seq<Seq<usize>>, v: int, k: int, seen: Seq<bool>, fuel: nat)
    ensures
        unvisited(walk(adj, v, k, seen, fuel).1) <= unvisited(seen),
    decreases
        fuel,
        (if 0 <= v < adj.len() && 0 <= k <= adj[v].len() {
            adj[v].len() - k
        } else {
            0
        }),
{
    if 0 <= v < adj.len() && 0 <= k < adj[v].len() {
        let c = adj[v][k];
        if c >= seen.len() || seen[c as int] {
            lemma_walk_sees(adj, v, k + 1, seen, fuel);
        } else if fuel > 0 {
            let marked = seen.update(c as int, true);
            let first = walk(adj, c as int, 0, marked, (fuel - 1) as nat);
            lemma_unvisited_update(seen, c as int);
            lemma_walk_sees(adj, c as int, 0, marked, (fuel - 1) as nat);
            lemma_walk_sees(adj, v, k + 1, first.1, fuel);
        }
    }
}

/// With fuel for every node not seen a walk never stops for want of fuel:
/// what it sees does not depend on how much more there is.
pub proof fn law_walk_has_fuel(
    adj: Seq<Seq<usize>>,
    v: int,
    k: int,
    seen: Seq<bool>,
    fuel: nat,
    more: nat,
)
    requires
        unvisited(seen) <= fuel,
        unvisited(seen) <= more,
    ensures
        walk(adj, v, k, seen, fuel) == walk(adj, v, k, seen, more),
    decreases
        fuel,
        (if 0 <= v < adj.len() && 0 <= k <= adj[v].len() {
            adj[v].len() - k
        } else {
            0
        }),
{
    if 0 <= v < adj.len() && 0 <= k < adj[v].len() {
        let c = adj[v][k];
        if c >= seen.len() || seen[c as int] {
            law_walk_has_fuel(adj, v, k + 1, seen, fuel, more);
        } else {
            let marked = seen.update(c as int, true);
            lemma_unvisited_update(seen, c as int);
            law_walk_has_fuel(adj, c as int, 0, marked, (fuel - 1) as nat, (more - 1) as nat);
            let first = walk(adj, c as int, 0, marked, (fuel - 1) as nat);
            lemma_walk_sees(adj, c as int, 0, marked, (fuel - 1) as nat);
            law_walk_has_fuel(adj, v, k + 1, first.1, fuel, more);
        }
    }
}

/// No more nodes are left to see than there are nodes.
pub proof fn lemma_unvisited_bound(seen: Seq<bool>)
    ensures
        unvisited(seen) <= seen.len(),
    decreases seen.len(),
{
    if seen.len() > 0 {
        lemma_unvisited_bound(seen.drop_last());
    }
}

/// The first `k` of `links` that lead to nodes not seen, in their order.
pub open spec fn fresh(links: Seq<usize>, seen: Seq<bool>, k: int) -> Seq<usize>
    decreases k,
{
    if k <= 0 {
        Seq::empty()
    } else {
        let before = fresh(links, seen, k - 1);
        if k <= links.len() && links[k - 1] < seen.len() && !seen[links[k - 1] as int] {
            before.push(links[k - 1])
        } else {
            before
        }
    }
}

/// The nodes that a walk in breadth sees with the nodes of `queue` waiting,
/// in the order in which it sees them. The walk takes the node that has
/// waited longest; where it has not seen that node, it sees it and lets the
/// nodes wait to which its links lead and which it has not seen.
pub open spec fn sweep(adj: Seq<Seq<usize>>, queue: Seq<usize>, seen: Seq<bool>) -> Seq<usize>
    decreases unvisited(seen), queue.len(),
{
    if queue.len() == 0 {
        Seq::empty()
    } else {
        let v = queue[0];
        let rest = queue.drop_first();
        if v >= seen.len() || v >= adj.len() || seen[v as int] {
            sweep(adj, rest, seen)
        } else {
            proof {
                lemma_unvisited_update(seen, v as int);
            }
            seq![v] + sweep(
                adj,
                rest + fresh(adj[v as int], seen, adj[v as int].len() as int),
                seen.update(v as int, true),
            )
        }
    }
}

impl<T> Graph<T> {
    /// For each node the indices of the nodes to which its links lead.
    pub open spec fn adjacency(&self) -> Seq<Seq<usize>> {
        Seq::new(
            self.nodes@.len(),
            |i: int| Seq::new(self.nodes@[i].children@.len(), |k: int| self.nodes@[i].children@[k].idx),
        )
    }

    /// The nodes that a walk in depth from node `from` sees, in the order in
    /// which it sees them: each node that can be reached from `from`, once.
    pub open spec fn dfs_order(&self, from: usize) -> Seq<usize> {
        seq![from] + walk(
            self.adjacency(),
            from as int,
            0,
            Seq::new(self.nodes@.len(), |i: int| false).update(from as int, true),
            self.nodes@.len(),
        ).0
    }

    /// The nodes that a walk in breadth from node `from` sees, in the order
    /// in which it sees them: each node that can be reached from `from`,
    /// once, the nearer before the farther.
    pub open spec fn bfs_order(&self, from: usize) -> Seq<usize> {
        sweep(self.adjacency(), seq![from], Seq::new(self.nodes@.len(), |i: int| false))
    }

    /// A table with one entry for each node, none of them set.
    fn unseen(&self) -> (seen: Vec<bool>)
        ensures
            seen@ == Seq::new(self.nodes@.len(), |i: int| false),
    {
        let mut seen: Vec<bool> = Vec::new();
        let mut n: usize = 0;
        while n < self.nodes.len()
            invariant
                n <= self.nodes.len(),
                seen@ == Seq::new(n as nat, |i: int| false),
            decreases self.nodes.len() - n,
        {
            seen.push(false);
            n = n + 1;
            assert(seen@ =~= Seq::new(n as nat, |i: int| false));
        }
        seen
    }

    /// The nodes at the indices `order`.
    fn nodes_at(&self, order: &Vec<usize>) -> (out: Vec<&Node<T>>)
        requires
            forall|i: int| 0 <= i < order@.len() ==> order@[i] < self.nodes@.len(),
        ensures
            out@.len() == order@.len(),
            forall|i: int| 0 <= i < out@.len() ==> *out@[i] == self.nodes@[order@[i] as int],
    {
        let mut out: Vec<&Node<T>> = Vec::new();
        let mut n: usize = 0;
        while n < order.len()
            invariant
                n <= order.len(),
                out@.len() == n,
                forall|i: int| 0 <= i < order@.len() ==> order@[i] < self.nodes@.len(),
                forall|i: int| 0 <= i < n ==> *out@[i] == self.nodes@[order@[i] as int],
            decreases order.len() - n,
        {
            out.push(&self.nodes[order[n]]);
            n = n + 1;
        }
        out
    }

    /// Walks in depth through the links of node `v`: appends to `out` the
    /// nodes seen on the way and marks them in `seen`.
    fn walk_from(&self, v: usize, seen: &mut Vec<bool>, out: &mut Vec<usize>, Ghost(fuel): Ghost<nat>)
        requires
            self.valid(),
            v < self.nodes@.len(),
            old(seen)@.len() == self.nodes@.len(),
            unvisited(old(seen)@) <= fuel,
            forall|i: int| 0 <= i < old(out)@.len() ==> old(out)@[i] < self.nodes@.len(),
        ensures
            final(out)@ == old(out)@ + walk(self.adjacency(), v as int, 0, old(seen)@, fuel).0,
            final(seen)@ == walk(self.adjacency(), v as int, 0, old(seen)@, fuel).1,
            final(seen)@.len() == self.nodes@.len(),
            forall|i: int| 0 <= i < final(out)@.len() ==> final(out)@[i] < self.nodes@.len(),
        decreases fuel,
    {
        let ghost adj = self.adjacency();
        let ghost whole = walk(adj, v as int, 0, seen@, fuel);
        let ghost mut done: Seq<usize> = Seq::empty();
        let count = self.nodes[v].children.len();
        let mut k: usize = 0;
        proof {
            assert(old(out)@ + Seq::<usize>::empty() =~= old(out)@);
        }
        while k < count
            invariant
                k <= count,
                self.valid(),
                v < self.nodes@.len(),
                adj == self.adjacency(),
                count == adj[v as int].len(),
                seen@.len() == self.nodes@.len(),
                unvisited(seen@) <= fuel,
                out@ == old(out)@ + done,
                whole == walk(adj, v as int, 0, old(seen)@, fuel),
                whole.0 == done + walk(adj, v as int, k as int, seen@, fuel).0,
                whole.1 == walk(adj, v as int, k as int, seen@, fuel).1,
                forall|i: int| 0 <= i < out@.len() ==> out@[i] < self.nodes@.len(),
            decreases count - k,
        {
            let to = self.nodes[v].children[k].idx;
            assert(to == adj[v as int][k as int]);
            if !seen[to] {
                let ghost before = seen@;
                proof {
                    lemma_unvisited_update(before, to as int);
                }
                seen.set(to, true);
                out.push(to);
                self.walk_from(to, seen, out, Ghost((fuel - 1) as nat));
                proof {
                    let marked = before.update(to as int, true);
                    let first = walk(adj, to as int, 0, marked, (fuel - 1) as nat);
                    let rest = walk(adj, v as int, k + 1, first.1, fuel);
                    lemma_walk_sees(adj, to as int, 0, marked, (fuel - 1) as nat);
                    assert(done + (seq![to] + first.0 + rest.0) =~= (done + seq![to] + first.0)
                        + rest.0);
                    assert(out@ =~= old(out)@ + (done + seq![to] + first.0));
                    done = done + seq![to] + first.0;
                }
            }
            k = k + 1;
        }
        proof {
            assert(done + Seq::<usize>::empty() =~= done);
        }
    }

    /// The nodes that can be reached from node `from_index`, as a walk in
    /// depth sees them: the start first, then for each link of a node, in
    /// the order of the links, what can be reached through it and was not
    /// seen before.
    pub fn dfs(&self, from_index: usize) -> (out: Vec<&Node<T>>)
        requires
            self.valid(),
            from_index < self.nodes@.len(),
        ensures
            out@.len() == self.dfs_order(from_index).len(),
            forall|i: int|
                0 <= i < out@.len() ==> self.dfs_order(from_index)[i] < self.nodes@.len()
                    && *out@[i] == self.nodes@[self.dfs_order(from_index)[i] as int],
            self.dfs_order(from_index).no_duplicates(),
            forall|x: usize|
                x < self.nodes@.len() ==> (self.dfs_order(from_index).contains(x)
                    <==> self.reachable(from_index as int, x as int)),
    {
        proof {
            self.law_dfs_is_reachability(from_index);
        }
        let mut seen = self.unseen();
        let mut order: Vec<usize> = Vec::new();
        seen.set(from_index, true);
        order.push(from_index);
        proof {
            lemma_unvisited_bound(seen@);
        }
        self.walk_from(from_index, &mut seen, &mut order, Ghost(self.nodes@.len()));
        assert(order@ =~= self.dfs_order(from_index));
        self.nodes_at(&order)
    }

    /// The nodes that can be reached from node `from_index`, as a walk in
    /// breadth sees them: the start first, then the nodes to which its links
    /// lead, then those to which their links lead, each node once.
    pub fn bfs(&self, from_index: usize) -> (out: Vec<&Node<T>>)
        requires
            self.valid(),
            from_index < self.nodes@.len(),
        ensures
            out@.len() == self.bfs_order(from_index).len(),
            forall|i: int|
                0 <= i < out@.len() ==> self.bfs_order(from_index)[i] < self.nodes@.len()
                    && *out@[i] == self.nodes@[self.bfs_order(from_index)[i] as int],
            self.bfs_order(from_index).no_duplicates(),
            forall|x: usize|
                x < self.nodes@.len() ==> (self.bfs_order(from_index).contains(x)
                    <==> self.reachable(from_index as int, x as int)),
            self.by_distance(from_index, self.bfs_order(from_index)),
    {
        proof {
            self.law_bfs_is_reachability(from_index);
            self.law_bfs_by_distance(from_index);
        }
        let ghost adj = self.adjacency();
        let mut seen = self.unseen();
        let mut order: Vec<usize> = Vec::new();
        let mut queue: VecDeque<usize> = VecDeque::new();
        queue.push_back(from_index);
        assert(queue@ =~= seq![from_index]);
        assert(Seq::<usize>::empty() + sweep(adj, queue@, seen@) =~= sweep(adj, queue@, seen@));
        while queue.len() > 0
            invariant
                self.valid(),
                adj == self.adjacency(),
                seen@.len() == self.nodes@.len(),
                forall|i: int| 0 <= i < queue@.len() ==> queue@[i] < self.nodes@.len(),
                forall|i: int| 0 <= i < order@.len() ==> order@[i] < self.nodes@.len(),
                self.bfs_order(from_index) == order@ + sweep(adj, queue@, seen@),
            decreases unvisited(seen@), queue@.len(),
        {
            let ghost waiting = queue@;
            let v = queue.pop_front().unwrap();
            assert(queue@ =~= waiting.drop_first());
            if !seen[v] {
                let ghost before = seen@;
                let count = self.nodes[v].children.len();
                let mut k: usize = 0;
                assert(queue@ + fresh(adj[v as int], before, 0) =~= queue@);
                while k < count
                    invariant
                        k <= count,
                        self.valid(),
                        v < self.nodes@.len(),
                        adj == self.adjacency(),
                        count == adj[v as int].len(),
                        seen@ == before,
                        seen@.len() == self.nodes@.len(),
                        queue@ == waiting.drop_first() + fresh(adj[v as int], before, k as int),
                        forall|i: int| 0 <= i < queue@.len() ==> queue@[i] < self.nodes@.len(),
                    decreases count - k,
                {
                    let to = self.nodes[v].children[k].idx;
                    assert(to == adj[v as int][k as int]);
                    if !seen[to] {
                        queue.push_back(to);
                    }
                    k = k + 1;
                    assert(queue@ =~= waiting.drop_first() + fresh(adj[v as int], before, k as int));
                }
                seen.set(v, true);
                order.push(v);
                proof {
                    lemma_unvisited_update(before, v as int);
                    let next = sweep(adj, queue@, seen@);
                    assert(sweep(adj, waiting, before) == seq![v] + next);
                    assert(order@ + next =~= (order@.drop_last() + (seq![v] + next)));
                }
            }
        }
        proof {
            assert(order@ + Seq::<usize>::empty() =~= order@);
        }
        self.nodes_at(&order)
    }
}

impl<T> From<(T, Vec<usize>)> for Node<T> {
    /// The node with the value and, with weight 0, the links of `value`.
    fn from(value: (T, Vec<usize>)) -> (node: Node<T>)
        ensures
            node.val == value.0,
            node.children@.len() == value.1@.len(),
            forall|k: int|
                0 <= k < value.1@.len() ==> (#[trigger] node.children@[k]).idx == value.1@[k]
                    && node.children@[k].weight == 0,
    {
        let children = Node::<T>::plain_links(&value.1);
        Node { val: value.0, children }
    }
}

impl<T> vstd::std_specs::convert::FromSpecImpl<(T, Vec<usize>)> for Node<T> {
    /// Two vectors with the same entries are not known to be one value, so
    /// no value is named for the result; `from` states what it holds.
    open spec fn obeys_from_spec() -> bool {
        false
    }

    open spec fn from_spec(v: (T, Vec<usize>)) -> Node<T> {
        choose|node: Node<T>|
            node.val == v.0 && node.children@.len() == v.1@.len() && forall|k: int|
                0 <= k < v.1@.len() ==> (#[trigger] node.children@[k]).idx == v.1@[k]
                    && node.children@[k].weight == 0
    }
}

impl<T> From<(T, Vec<(usize, u32)>)> for Node<T> {
    /// The node with the value and the weighted links of `value`.
    fn from(value: (T, Vec<(usize, u32)>)) -> (node: Node<T>)
        ensures
            node.val == value.0,
            node.children@.len() == value.1@.len(),
            forall|k: int|
                0 <= k < value.1@.len() ==> (#[trigger] node.children@[k]).idx == value.1@[k].0
                    && node.children@[k].weight == value.1@[k].1,
    {
        let children = Node::<T>::weighted_links(&value.1);
        Node { val: value.0, children }
    }
}

impl<T> vstd::std_specs::convert::FromSpecImpl<(T, Vec<(usize, u32)>)> for Node<T> {
    /// Two vectors with the same entries are not known to be one value, so
    /// no value is named for the result; `from` states what it holds.
    open spec fn obeys_from_spec() -> bool {
        false
    }

    open spec fn from_spec(v: (T, Vec<(usize, u32)>)) -> Node<T> {
        choose|node: Node<T>|
            node.val == v.0 && node.children@.len() == v.1@.len() && forall|k: int|
                0 <= k < v.1@.len() ==> (#[trigger] node.children@[k]).idx == v.1@[k].0
                    && node.children@[k].weight == v.1@[k].1
    }
}

impl<T: Clone> From<Vec<(T, Vec<usize>)>> for Graph<T> {
    /// The unweighted graph with one node for each entry of `value`, in
    /// their order: a copy of the value of the entry, and links to the
    /// nodes at its indices.
    fn from(value: Vec<(T, Vec<usize>)>) -> (graph: Graph<T>)
        ensures
            !graph.weighted,
            graph.nodes@.len() == value@.len(),
            forall|i: int|
                0 <= i < value@.len() ==> cloned(value@[i].0, (#[trigger] graph.nodes@[i]).val)
                    && graph.nodes@[i].children@.len() == value@[i].1@.len(),
            forall|i: int, k: int|
                0 <= i < value@.len() && 0 <= k < value@[i].1@.len() ==> (
                #[trigger] graph.nodes@[i].children@[k]).idx == value@[i].1@[k]
                    && graph.nodes@[i].children@[k].weight == 0,
    {
        let mut graph: Graph<T> = Graph::new();
        let mut n: usize = 0;
        while n < value.len()
            invariant
                n <= value.len(),
                !graph.weighted,
                graph.nodes@.len() == n,
                forall|i: int|
                    0 <= i < n ==> cloned(value@[i].0, (#[trigger] graph.nodes@[i]).val)
                        && graph.nodes@[i].children@.len() == value@[i].1@.len(),
                forall|i: int, k: int|
                    0 <= i < n && 0 <= k < value@[i].1@.len() ==> (
                    #[trigger] graph.nodes@[i].children@[k]).idx == value@[i].1@[k]
                        && graph.nodes@[i].children@[k].weight == 0,
            decreases value.len() - n,
        {
            let val = value[n].0.clone();
            let children = Node::<T>::plain_links(&value[n].1);
            graph.add_node(Node::new_with_children(val, children));
            n = n + 1;
        }
        graph
    }
}

impl<T: Clone> vstd::std_specs::convert::FromSpecImpl<Vec<(T, Vec<usize>)>> for Graph<T> {
    /// A copy of a value is not one named value, so no value is named for
    /// the result; `from` states what it holds.
    open spec fn obeys_from_spec() -> bool {
        false
    }

    open spec fn from_spec(v: Vec<(T, Vec<usize>)>) -> Graph<T> {
        choose|graph: Graph<T>| !graph.weighted && graph.nodes@.len() == v@.len()
    }
}

} // verus!
