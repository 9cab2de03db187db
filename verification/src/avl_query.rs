use vstd::prelude::*;
use crate::avl_tree::AVLTree;
use crate::balance::{keys, lemma_strip, sorted, strip};
use crate::index::{left, left_child, lemma_capacity_bound, level, right, right_child};
use crate::lookup::{find_slot, lemma_lookup, lookup};
use crate::order::Ordered;
use crate::shape::Tree;
use crate::slots::{cell_at, tree_of};
use crate::traverse::{
    breadth_first_of, full_nodes_of, height_of, in_order_of, leaves_of, post_order_of,
    pre_order_of, size_of, slot,
};

verus! {

impl<T: Ordered> AVLTree<T> {
    /// The tree of the values, read from slot `i` down.
    pub open spec fn values(&self, i: int) -> Tree<T> {
        tree_of(self.root@, i)
    }

    /// The values of the slots are the values of the pairs.
    pub proof fn lemma_values(&self, i: int)
        requires
            self.layout(),
            0 <= i,
        ensures
            self.values(i) == strip(tree_of(self.cells(), i)),
            self.values(i).in_order() == keys(tree_of(self.cells(), i)),
        decreases
            (if i < self.root@.len() {
                self.root@.len() - i
            } else {
                0
            }),
    {
        if i < self.root@.len() && self.root@[i] is Some {
            self.lemma_values(left(i));
            self.lemma_values(right(i));
        }
        lemma_strip(tree_of(self.cells(), i));
    }

    /// Whether `data` is among the values of the tree.
    pub fn contains(&self, data: T) -> (b: bool)
        requires
            self.layout(),
            sorted(self@),
        ensures
            b == self@.contains(data),
    {
        proof {
            self.lemma_values(0);
            lemma_lookup(self.root@, data, 0);
        }
        find_slot(&self.root, data).is_some()
    }

    /// The index of the slot at which the search for `data` finds it, or an
    /// error where `data` is not among the values of the tree.
    pub fn find(&self, data: T) -> (r: Result<usize, String>)
        requires
            self.layout(),
            sorted(self@),
        ensures
            r is Ok <==> self@.contains(data),
            r matches Ok(i) ==> lookup(self.root@, data, 0) == Some(i as int) && cell_at(
                self.root@,
                i as int,
            ) == Some(data),
            r matches Err(e) ==> e@ == "No node found"@,
    {
        proof {
            self.lemma_values(0);
            lemma_lookup(self.root@, data, 0);
        }
        match find_slot(&self.root, data) {
            Some(i) => Ok(i),
            None => Err("No node found".to_owned()),
        }
    }

    /// The child of slot `idx` at which a search for `data` goes on, or an
    /// error where the slot is empty.
    pub fn get_child(&self, idx: usize, data: T) -> (r: Result<usize, String>)
        requires
            self.layout(),
        ensures
            match cell_at(self.root@, idx as int) {
                Some(v) => r == Ok::<usize, String>(
                    if v.rank() > data.rank() {
                        left(idx as int) as usize
                    } else {
                        right(idx as int) as usize
                    },
                ),
                None => r matches Err(e) && e@ == "No node found"@,
            },
    {
        proof {
            lemma_capacity_bound(self.height as nat);
        }
        match slot(&self.root, idx) {
            None => Err("No node found".to_owned()),
            Some(v) => {
                if v.exceeds(&data) {
                    Ok(left_child(idx))
                } else {
                    Ok(right_child(idx))
                }
            },
        }
    }

    /// Whether slot `idx` has no children in the array.
    pub fn next_index_out(&self, idx: usize) -> (b: bool)
        ensures
            b == (right(idx as int) > self.root@.len()),
    {
        let len: usize = self.root.len();
        len < 2 || idx > (len - 2) / 2
    }

    /// Whether slot `idx` or its children lie outside the array.
    pub fn index_out(&self, idx: usize) -> (b: bool)
        ensures
            b == (right(idx as int) > self.root@.len()),
    {
        self.next_index_out(idx)
    }

    /// The values from slot `idx` down, root first.
    pub fn pre_order_from(&self, idx: usize) -> (r: Vec<T>)
        ensures
            r@ == self.values(idx as int).pre_order(),
    {
        pre_order_of(&self.root, idx)
    }

    /// The values of the tree, root first.
    pub fn pre_order(&self) -> (r: Vec<T>)
        ensures
            r@ == self.values(0).pre_order(),
    {
        self.pre_order_from(0)
    }

    /// The values from slot `idx` down, in order.
    pub fn in_order_from(&self, idx: usize) -> (r: Vec<T>)
        ensures
            r@ == self.values(idx as int).in_order(),
    {
        in_order_of(&self.root, idx)
    }

    /// The values of the tree in order.
    pub fn in_order(&self) -> (r: Vec<T>)
        requires
            self.layout(),
        ensures
            r@ == self@,
    {
        proof {
            self.lemma_values(0);
        }
        self.in_order_from(0)
    }

    /// The values from slot `idx` down, root last.
    pub fn post_order_from(&self, idx: usize) -> (r: Vec<T>)
        ensures
            r@ == self.values(idx as int).post_order(),
    {
        post_order_of(&self.root, idx)
    }

    /// The values of the tree, root last.
    pub fn post_order(&self) -> (r: Vec<T>)
        ensures
            r@ == self.values(0).post_order(),
    {
        self.post_order_from(0)
    }

    /// The values from slot `idx` down, level by level.
    pub fn bfs_from(&self, idx: usize) -> (r: Vec<T>)
        ensures
            r@ == self.values(idx as int).breadth_first(),
    {
        breadth_first_of(&self.root, idx)
    }

    /// The values of the tree, level by level.
    pub fn bfs(&self) -> (r: Vec<T>)
        ensures
            r@ == self.values(0).breadth_first(),
    {
        self.bfs_from(0)
    }

    /// Number of values in the tree.
    pub fn num_nodes(&self) -> (r: u32)
        requires
            self.layout(),
        ensures
            r == self.values(0).size(),
            r == self@.len(),
    {
        proof {
            lemma_capacity_bound(self.height as nat);
            self.lemma_values(0);
            self.values(0).lemma_traversal_len();
        }
        size_of(&self.root, 0) as u32
    }

    /// Number of nodes without a child.
    pub fn num_leaves(&self) -> (r: u32)
        requires
            self.layout(),
        ensures
            r == self.values(0).leaves(),
    {
        proof {
            lemma_capacity_bound(self.height as nat);
        }
        leaves_of(&self.root, 0) as u32
    }

    /// Number of nodes with two children.
    pub fn num_two_children(&self) -> (r: u32)
        requires
            self.layout(),
        ensures
            r == self.values(0).full_nodes(),
    {
        proof {
            lemma_capacity_bound(self.height as nat);
        }
        full_nodes_of(&self.root, 0) as u32
    }

    /// Number of levels of the tree.
    pub fn num_levels(&self) -> (r: u32)
        requires
            self.layout(),
        ensures
            r == self.values(0).height(),
    {
        proof {
            lemma_capacity_bound(self.height as nat);
        }
        height_of(&self.root, 0) as u32
    }
}

} // verus!
