use algoritmes::avl_tree::AVLTree;
use algoritmes::binary_tree::BinaryTree;
use algoritmes::decimal::to_decimal;
use algoritmes::graph::{Child, Graph, Node};
use algoritmes::index::{capacity, left_child, parent, right_child, side, Direction};

fn is_sorted(values: &Vec<u32>) -> bool {
    values.windows(2).all(|w| w[0] <= w[1])
}

#[test]
fn index_arithmetic() {
    assert_eq!(left_child(0), 1);
    assert_eq!(right_child(0), 2);
    assert_eq!(left_child(5), 11);
    assert_eq!(right_child(5), 12);
    assert_eq!(parent(11), 5);
    assert_eq!(parent(12), 5);
    assert_eq!(parent(1), 0);
    assert_eq!(Direction::LEFT.towards(3), 7);
    assert_eq!(Direction::LEFT.against(3), 8);
    assert_eq!(Direction::RIGHT.towards(3), 8);
    assert_eq!(Direction::RIGHT.against(3), 7);
    assert_eq!(Direction::LEFT.opposite(), Direction::RIGHT);
    assert_eq!(side(7), Direction::LEFT);
    assert_eq!(side(8), Direction::RIGHT);
    assert_eq!(Direction::from(true), Direction::LEFT);
    assert_eq!(Direction::from(false), Direction::RIGHT);
    assert_eq!(Direction::get_direction_func(Direction::LEFT), (Direction::LEFT, Direction::RIGHT));
    assert_eq!(Direction::get_direction_func(Direction::RIGHT), (Direction::RIGHT, Direction::LEFT));
}

#[test]
fn capacity_of_levels() {
    assert_eq!(capacity(0), 0);
    assert_eq!(capacity(1), 1);
    assert_eq!(capacity(2), 3);
    assert_eq!(capacity(4), 15);
    assert_eq!(capacity(31), 2147483647);
}

#[test]
fn empty_avl_tree() {
    let root: AVLTree<u32> = AVLTree::new();
    assert_eq!(root.root, vec![]);
    assert_eq!(root.balance_factor, vec![]);
    assert_eq!(root.nodes, 0);
    assert_eq!(root.height, 0);
    assert_eq!(root.contains(1), false);
    assert!(root.find(1).is_err());
    assert_eq!(root.in_order(), vec![]);
    assert_eq!(root.pre_order(), vec![]);
    assert_eq!(root.post_order(), vec![]);
    assert_eq!(root.bfs(), vec![]);
    assert_eq!(root.num_nodes(), 0);
    assert_eq!(root.num_levels(), 0);
}

#[test]
fn avl_in_order_is_sorted_input() {
    let input: Vec<u32> = vec![50, 20, 80, 10, 30, 70, 90, 20, 50, 50, 5, 95, 60, 61, 62, 63];
    let root = AVLTree::new_from_vec(input.clone());
    let mut sorted = input.clone();
    sorted.sort();
    assert_eq!(root.in_order(), sorted);
    assert!(is_sorted(&root.in_order()));
    assert_eq!(root.num_nodes() as usize, input.len());
}

#[test]
fn avl_keeps_equal_values() {
    let mut root: AVLTree<u8> = AVLTree::new();
    for _ in 0..5 {
        root.insert(5);
    }
    assert_eq!(root.in_order(), vec![5, 5, 5, 5, 5]);
    assert_eq!(root.root, vec![Some(5), Some(5), Some(5), None, None, Some(5), Some(5)]);
    assert_eq!(root.balance_factor, vec![3, 1, 2, 0, 0, 1, 1]);
}

#[test]
fn avl_recorded_counters_are_balanced() {
    let mut root: AVLTree<u32> = AVLTree::new();
    let mut x: u32 = 12345;
    for _ in 0..300 {
        x = x.wrapping_mul(1103515245).wrapping_add(12345) % 1000;
        root.insert(x);
        let len = root.root.len();
        assert_eq!(len, root.balance_factor.len());
        assert_eq!(len as u32, root.nodes);
        assert_eq!(len as u32, capacity(root.height));
        for i in 0..len {
            let l = if 2 * i + 1 < len { root.balance_factor[2 * i + 1] } else { 0 };
            let r = if 2 * i + 2 < len { root.balance_factor[2 * i + 2] } else { 0 };
            match root.root[i] {
                Some(_) => {
                    assert!(l <= r + 1 && r <= l + 1);
                    assert_eq!(root.balance_factor[i], 1 + l.max(r));
                }
                None => {
                    assert_eq!(root.balance_factor[i], 0);
                    assert_eq!(l, 0);
                    assert_eq!(r, 0);
                }
            }
        }
        assert_eq!(root.height, root.balance_factor[0]);
        assert!(is_sorted(&root.in_order()));
    }
    assert_eq!(root.num_nodes(), 300);
}

#[test]
fn avl_double_rotation() {
    let mut root: AVLTree<char> = AVLTree::new();
    root.insert('c');
    root.insert('a');
    root.insert('b');
    assert_eq!(root.root, vec![Some('b'), Some('a'), Some('c')]);
    assert_eq!(root.balance_factor, vec![2, 1, 1]);

    let mut root: AVLTree<char> = AVLTree::new();
    root.insert('a');
    root.insert('c');
    root.insert('b');
    assert_eq!(root.root, vec![Some('b'), Some('a'), Some('c')]);
    assert_eq!(root.balance_factor, vec![2, 1, 1]);
}

#[test]
fn avl_rotation_without_growth() {
    // the new leaf lies above the last level: no level is added or removed
    let mut root: AVLTree<u8> = AVLTree::new_from_vec(vec![50, 30, 70, 20, 40, 60, 80, 10, 25]);
    assert_eq!(root.height, 4);
    root.insert(90);
    assert_eq!(root.height, 4);
    root.insert(95);
    assert_eq!(root.height, 4);
    assert_eq!(root.in_order(), vec![10, 20, 25, 30, 40, 50, 60, 70, 80, 90, 95]);
    assert_eq!(root.root[6], Some(90));
    assert_eq!(root.root[13], Some(80));
    assert_eq!(root.root[14], Some(95));
    assert_eq!(root.root[5], Some(60));
}

#[test]
fn avl_contains_after_insert() {
    let mut root: AVLTree<u32> = AVLTree::new();
    assert_eq!(root.contains(7), false);
    root.insert(7);
    assert_eq!(root.contains(7), true);
    for x in [3, 9, 1, 4, 8, 10, 2, 5, 6] {
        root.insert(x);
        assert_eq!(root.contains(x), true);
        assert_eq!(root.contains(7), true);
    }
    assert_eq!(root.contains(11), false);
    assert_eq!(root.contains(0), false);
}

#[test]
fn avl_find_gives_the_slot() {
    let root: AVLTree<char> = AVLTree::new_from_vec(vec!['a', 'b', 'c', 'd']);
    assert_eq!(root.find('b'), Ok(0));
    assert_eq!(root.find('a'), Ok(1));
    assert_eq!(root.find('c'), Ok(2));
    assert_eq!(root.find('d'), Ok(6));
    assert_eq!(root.find('e'), Err("No node found".to_string()));
    assert_eq!(root.find('0'), Err("No node found".to_string()));
}

#[test]
fn avl_get_child() {
    let root: AVLTree<char> = AVLTree::new_from_vec(vec!['a', 'b', 'c', 'd']);
    assert_eq!(root.get_child(0, 'a'), Ok(1));
    assert_eq!(root.get_child(0, 'b'), Ok(2));
    assert_eq!(root.get_child(0, 'z'), Ok(2));
    assert_eq!(root.get_child(2, 'a'), Ok(5));
    assert_eq!(root.get_child(3, 'a'), Err("No node found".to_string()));
    assert_eq!(root.get_child(100, 'a'), Err("No node found".to_string()));
}

#[test]
fn avl_place_grows_by_one_level() {
    let mut root: AVLTree<char> = AVLTree::new_from_vec(vec!['b', 'a', 'c']);
    assert_eq!(root.nodes, 3);
    assert_eq!(root.height, 2);
    let at = root.place('d');
    assert_eq!(at, 6);
    assert_eq!(root.height, 3);
    assert_eq!(root.nodes, 7);
    assert_eq!(root.root, vec![Some('b'), Some('a'), Some('c'), None, None, None, Some('d')]);
    assert_eq!(root.balance_factor, vec![2, 1, 1, 0, 0, 0, 1]);

    // a slot inside the array: no growth
    let at = root.place('0');
    assert_eq!(at, 3);
    assert_eq!(root.height, 3);
    assert_eq!(root.nodes, 7);
}

#[test]
fn avl_levels_grow_and_shrink() {
    let mut root: AVLTree<u8> = AVLTree::new_from_vec(vec![2, 1, 3]);
    root.increase_levels(2);
    assert_eq!(root.height, 4);
    assert_eq!(root.nodes, 15);
    assert_eq!(root.root.len(), 15);
    assert_eq!(root.balance_factor.len(), 15);
    assert_eq!(root.root[..3], [Some(2), Some(1), Some(3)]);
    assert!(root.root[3..].iter().all(|s| s.is_none()));
    root.decrease_levels(1);
    assert_eq!(root.height, 3);
    assert_eq!(root.root.len(), 7);
    root.fit();
    assert_eq!(root.height, 2);
    assert_eq!(root.root, vec![Some(2), Some(1), Some(3)]);
    root.reach(20);
    assert_eq!(root.height, 5);
    assert_eq!(root.root.len(), 31);
}

#[test]
fn avl_slot_operations() {
    let mut root: AVLTree<u8> = AVLTree::new();
    root.increase_levels(2);
    root.insert_private(0, 5);
    root.put(2, 9, 1);
    assert_eq!(root.cell(0), Some((5, 1)));
    assert_eq!(root.cell(1), None);
    assert_eq!(root.cell(2), Some((9, 1)));
    assert_eq!(root.cell(3), None);
    assert_eq!(root.counter(0), 1);
    assert_eq!(root.counter(1), 0);
    assert_eq!(root.counter(7), 0);
    root.rebalance(0);
    assert_eq!(root.balance_factor, vec![2, 0, 1]);
    root.vacate(2);
    assert_eq!(root.root, vec![Some(5), None, None]);
    assert_eq!(root.balance_factor, vec![2, 0, 0]);
    assert_eq!(root.next_index_out(0), false);
    assert_eq!(root.next_index_out(1), true);
    assert_eq!(root.index_out(2), true);
}

#[test]
fn avl_moves_keep_counters_with_values() {
    let mut root: AVLTree<char> = AVLTree {
        root: vec![Some('d'), Some('b'), Some('f'), Some('a'), Some('c'), None, None],
        balance_factor: vec![3, 2, 1, 1, 1, 0, 0],
        nodes: 7,
        height: 3,
    };
    // the subtree of 'b' goes beside itself, under 'f'
    root.move_nodes(1, 5);
    assert_eq!(root.root, vec![
        Some('d'),
        None, Some('f'),
        None, None, Some('b'), None,
        None, None, None, None, Some('a'), Some('c'), None, None,
    ]);
    assert_eq!(root.balance_factor, vec![3, 0, 1, 0, 0, 2, 0, 0, 0, 0, 0, 1, 1, 0, 0]);
    // and one step up again
    root.vacate(2);
    root.move_nodes(5, 2);
    assert_eq!(root.root[..7], [Some('d'), None, Some('b'), None, None, Some('a'), Some('c')]);
    assert!(root.root[7..].iter().all(|s| s.is_none()));
    assert_eq!(root.balance_factor[..7], [3, 0, 2, 0, 0, 1, 1]);
    assert_eq!(root.height, 4);
}

#[test]
fn avl_rotation_moves_whole_subtrees() {
    //            d                         b
    //        b       e        ->       a       d
    //      a   c                     0       c   e
    //     0
    let mut root: AVLTree<char> = AVLTree {
        root: vec![
            Some('d'),
            Some('b'), Some('e'),
            Some('a'), Some('c'), None, None,
            Some('0'), None, None, None, None, None, None, None,
        ],
        balance_factor: vec![4, 3, 1, 2, 1, 0, 0, 1, 0, 0, 0, 0, 0, 0, 0],
        nodes: 15,
        height: 4,
    };
    root.rotate_right(0);
    assert_eq!(root.root, vec![
        Some('b'),
        Some('a'), Some('d'),
        Some('0'), None, Some('c'), Some('e'),
        None, None, None, None, None, None, None, None,
    ]);
    assert_eq!(root.balance_factor, vec![3, 2, 2, 1, 0, 1, 1, 0, 0, 0, 0, 0, 0, 0, 0]);
    root.rotate_left(0);
    assert_eq!(root.root, vec![
        Some('d'),
        Some('b'), Some('e'),
        Some('a'), Some('c'), None, None,
        Some('0'), None, None, None, None, None, None, None,
    ]);
    assert_eq!(root.balance_factor, vec![4, 3, 1, 2, 1, 0, 0, 1, 0, 0, 0, 0, 0, 0, 0]);
}

#[test]
fn avl_rotation_of_an_empty_slot() {
    let mut root: AVLTree<char> = AVLTree::new_from_vec(vec!['a', 'b', 'c', 'd']);
    root.rotate(3, Direction::LEFT);
    root.rotate(4, Direction::RIGHT);
    root.rotate(40, Direction::RIGHT);
    assert_eq!(root.root, vec![Some('b'), Some('a'), Some('c'), None, None, None, Some('d')]);
}

#[test]
fn avl_restore_rotates_once_or_twice() {
    let mut root: AVLTree<u8> = AVLTree {
        root: vec![Some(5), Some(3), None, None, Some(4), None, None],
        balance_factor: vec![3, 2, 0, 0, 1, 0, 0],
        nodes: 7,
        height: 3,
    };
    root.restore(0, Direction::RIGHT);
    assert_eq!(root.root, vec![Some(4), Some(3), Some(5), None, None, None, None]);
    assert_eq!(root.balance_factor, vec![2, 1, 1, 0, 0, 0, 0]);
}

#[test]
fn avl_traversals_and_counts() {
    let root: AVLTree<u8> = AVLTree::new_from_vec(vec![8, 3, 1, 6, 4, 7, 10, 14, 13]);
    assert_eq!(root.in_order(), vec![1, 3, 4, 6, 7, 8, 10, 13, 14]);
    assert_eq!(root.bfs(), root.root.iter().flatten().cloned().collect::<Vec<u8>>());
    assert_eq!(root.pre_order().len(), 9);
    assert_eq!(root.pre_order()[0], root.root[0].unwrap());
    assert_eq!(*root.post_order().last().unwrap(), root.root[0].unwrap());
    assert_eq!(root.num_nodes(), 9);
    assert_eq!(root.num_levels(), root.height);
    assert_eq!(root.in_order_from(1), root.in_order()[..root.in_order_from(1).len()].to_vec());
    assert_eq!(root.pre_order_from(99), vec![]);
    assert_eq!(root.bfs_from(99), vec![]);
    assert_eq!(root.num_leaves() + root.num_two_children() <= root.num_nodes(), true);
}

#[test]
fn avl_clear_from() {
    let mut root: AVLTree<u8> = AVLTree::new_from_vec(vec![4, 2, 6, 1, 3, 5, 7]);
    root.clear_from(1);
    assert_eq!(root.root, vec![Some(4), None, Some(6), None, None, Some(5), Some(7)]);
    assert_eq!(root.balance_factor, vec![3, 0, 2, 0, 0, 1, 1]);
    root.clear_from(0);
    assert_eq!(root.root, vec![None; 7]);
    assert_eq!(root.balance_factor, vec![0; 7]);
    root.clear_from(50);
    assert_eq!(root.root, vec![None; 7]);
}

#[test]
fn binary_tree_edges() {
    let mut root: BinaryTree<u8> = BinaryTree::new();
    assert_eq!(root.root, vec![]);
    assert_eq!(root.num_nodes(), 0);
    assert_eq!(root.num_leaves(), 0);
    assert_eq!(root.num_two_children(), 0);
    assert_eq!(root.num_levels(), 0);
    assert_eq!(root.contains(1), false);
    assert_eq!(root.find(1), Err("No node found".to_string()));
    root.insert(5);
    assert_eq!(root.root, vec![Some(5)]);
    assert_eq!(root.height, 1);
    assert_eq!(root.num_leaves(), 1);
    assert_eq!(root.num_levels(), 1);
    root.insert(5);
    assert_eq!(root.root, vec![Some(5)]);
    root.insert(7);
    assert_eq!(root.root, vec![Some(5), None, Some(7)]);
    assert_eq!(root.nodes, 3);
    assert_eq!(root.find(7), Ok(2));
    assert_eq!(root.get_child(0, 1), Ok(1));
    assert_eq!(root.get_child(0, 9), Ok(2));
    assert_eq!(root.get_child(1, 9), Err("No node found".to_string()));
    let single = BinaryTree::new_with_data('x');
    assert_eq!(single.root, vec![Some('x')]);
    assert_eq!(single.nodes, 1);
    assert_eq!(single.height, 1);
}

#[test]
fn binary_tree_insert_at_a_subtree() {
    let mut root: BinaryTree<u8> = BinaryTree::new();
    root.insert_vec(vec![8, 3, 10]);
    root.insert_at(1, 2);
    assert_eq!(root.root, vec![Some(8), Some(3), Some(10), Some(2), None, None, None]);
    root.insert_vec_at(2, vec![12, 9, 12]);
    assert_eq!(root.root, vec![Some(8), Some(3), Some(10), Some(2), None, Some(9), Some(12)]);
    assert_eq!(root.in_order_from(2), vec![9, 10, 12]);

    // a slot far below the array: the levels down to it are added
    let mut root = BinaryTree::new_with_data(5u8);
    root.insert_at(6, 9);
    assert_eq!(root.root, vec![Some(5), None, None, None, None, None, Some(9)]);
    assert_eq!(root.height, 3);
    root.reach(2);
    assert_eq!(root.height, 3);
    root.reach(20);
    assert_eq!(root.height, 5);
    assert_eq!(root.nodes, 31);
}

#[test]
fn binary_tree_remove_keeps_the_shape_of_what_moves() {
    let mut root: BinaryTree<u8> = BinaryTree::new();
    root.insert_vec(vec![8, 3, 10, 1, 6, 14, 4, 7, 13]);
    // a node with two children takes the value before it
    root.remove(8);
    assert_eq!(root.root, vec![
        Some(7),
        Some(3), Some(10),
        Some(1), Some(6), None, Some(14),
        None, None, Some(4), None, None, None, Some(13), None,
    ]);
    // a node with one child gives its slot to the subtree of the child
    root.remove(10);
    assert_eq!(root.root, vec![
        Some(7),
        Some(3), Some(14),
        Some(1), Some(6), Some(13), None,
        None, None, Some(4), None, None, None, None, None,
    ]);
    // a value that is not there
    root.remove(100);
    assert_eq!(root.in_order(), vec![1, 3, 4, 6, 7, 13, 14]);
    // a leaf
    root.remove(4);
    assert_eq!(root.in_order(), vec![1, 3, 6, 7, 13, 14]);
    assert_eq!(root.height, 4);
}

#[test]
fn binary_tree_pop_last_and_moves() {
    let mut root: BinaryTree<u8> = BinaryTree::new();
    root.insert_vec(vec![8, 3, 10, 9]);
    assert_eq!(root.pop_last(0), 10);
    assert_eq!(root.root, vec![Some(8), Some(3), Some(9), None, None, None, None]);
    root.relocate(1, 5);
    assert_eq!(root.root, vec![Some(8), None, Some(9), None, None, Some(3), None]);
    root.clear_from(2);
    assert_eq!(root.root, vec![Some(8), None, None, None, None, None, None]);
    root.decrease_levels(2);
    assert_eq!(root.root, vec![Some(8)]);
    root.increase_levels(1);
    assert_eq!(root.root, vec![Some(8), None, None]);
    assert_eq!(root.next_index_out(0), false);
    assert_eq!(root.index_out(1), true);
    assert_eq!(BinaryTree::<u8>::left_child(3), 7);
    assert_eq!(BinaryTree::<u8>::right_child(3), 8);
    assert_eq!(BinaryTree::<u8>::parent(8), 3);
}

#[test]
fn decimal_text() {
    assert_eq!(to_decimal(0), "0");
    assert_eq!(to_decimal(7), "7");
    assert_eq!(to_decimal(10), "10");
    assert_eq!(to_decimal(1234567890), "1234567890");
    assert_eq!(to_decimal(u64::MAX), "18446744073709551615");
}

#[test]
fn child_and_node() {
    let plain = Child::new(3);
    assert_eq!(plain.idx, 3);
    assert_eq!(plain.weight, 0);
    let heavy = Child::new_with_weight(12, 40);
    assert_eq!(heavy.idx, 12);
    assert_eq!(heavy.weight, 40);
    assert_eq!(heavy.get_clean_value(true), "12 40");
    assert_eq!(heavy.get_clean_value(false), "12");
    assert_eq!(plain.get_clean_value(true), "3 0");

    let mut node = Node::new("kake");
    assert_eq!(node.val, "kake");
    assert_eq!(node.children.len(), 0);
    node.add_child(plain);
    node.add_children(vec![heavy, Child::new(1)]);
    let links: Vec<(usize, u32)> = node.children.iter().map(|c| (c.idx, c.weight)).collect();
    assert_eq!(links, vec![(3, 0), (12, 40), (1, 0)]);

    let node = Node::new_with_children('x', vec![heavy]);
    assert_eq!(node.val, 'x');
    assert_eq!(node.children[0].idx, 12);

    let node: Node<char> = Node::from(('y', vec![(2usize, 5u32), (0, 1)]));
    let links: Vec<(usize, u32)> = node.children.iter().map(|c| (c.idx, c.weight)).collect();
    assert_eq!(node.val, 'y');
    assert_eq!(links, vec![(2, 5), (0, 1)]);

    let node: Node<char> = Node::from(('z', vec![4usize, 2]));
    let links: Vec<(usize, u32)> = node.children.iter().map(|c| (c.idx, c.weight)).collect();
    assert_eq!(links, vec![(4, 0), (2, 0)]);
}

#[test]
fn graph_building() {
    let mut graph: Graph<u8> = Graph::new();
    assert_eq!(graph.nodes.len(), 0);
    assert_eq!(graph.weighted, false);
    graph.alloc_childs(10);
    assert_eq!(graph.nodes.len(), 0);
    graph.add_node(Node::new(1));
    graph.add_nodes(vec![Node::new(2), Node::new(3)]);
    let values: Vec<u8> = graph.nodes.iter().map(|n| n.val).collect();
    assert_eq!(values, vec![1, 2, 3]);

    let graph: Graph<u32> = Graph::new_with_size(4);
    assert_eq!(graph.nodes.len(), 4);
    assert_eq!(graph.weighted, false);
    assert!(graph.nodes.iter().all(|n| n.val == 0 && n.children.is_empty()));
    assert_eq!(graph.get_neighborhood_matrix(), vec![
        vec![true, false, false, false],
        vec![false, true, false, false],
        vec![false, false, true, false],
        vec![false, false, false, true],
    ]);
}

#[test]
fn graph_walks_see_each_node_once() {
    // links to a node itself, links given twice, a node that cannot be reached
    let graph: Graph<char> = Graph::from(vec![
        ('a', vec![0, 1, 1, 2]),
        ('b', vec![2, 0]),
        ('c', vec![3, 3]),
        ('d', vec![0]),
        ('e', vec![0]),
    ]);
    let depth: Vec<char> = graph.dfs(0).iter().map(|n| n.val).collect();
    let breadth: Vec<char> = graph.bfs(0).iter().map(|n| n.val).collect();
    assert_eq!(depth, vec!['a', 'b', 'c', 'd']);
    assert_eq!(breadth, vec!['a', 'b', 'c', 'd']);
    let depth: Vec<char> = graph.dfs(4).iter().map(|n| n.val).collect();
    let breadth: Vec<char> = graph.bfs(4).iter().map(|n| n.val).collect();
    assert_eq!(depth, vec!['e', 'a', 'b', 'c', 'd']);
    assert_eq!(breadth, vec!['e', 'a', 'b', 'c', 'd']);
    let table = graph.warshall();
    assert_eq!(table[0], vec![true, true, true, true, false]);
    assert_eq!(table[4], vec![true, true, true, true, true]);
}

#[test]
fn graph_walk_orders_differ() {
    let graph: Graph<u8> = Graph::from(vec![
        (0, vec![1, 2]),
        (1, vec![3]),
        (2, vec![4]),
        (3, vec![]),
        (4, vec![]),
    ]);
    let depth: Vec<u8> = graph.dfs(0).iter().map(|n| n.val).collect();
    let breadth: Vec<u8> = graph.bfs(0).iter().map(|n| n.val).collect();
    assert_eq!(depth, vec![0, 1, 3, 2, 4]);
    assert_eq!(breadth, vec![0, 1, 2, 3, 4]);
}

#[test]
fn linked_tree_counts_what_comes_again() {
    let mut tree: algoritmes::b_tree::BTree<u8> = algoritmes::b_tree::BTree::new();
    assert!(tree.root.is_none());
    assert_eq!(tree.count(5), 0);
    for x in [5, 3, 8, 3, 5, 5, 9] {
        tree.add(x);
    }
    assert_eq!(tree.count(5), 3);
    assert_eq!(tree.count(3), 2);
    assert_eq!(tree.count(8), 1);
    assert_eq!(tree.count(9), 1);
    assert_eq!(tree.count(4), 0);
    let root = tree.root.as_ref().unwrap();
    assert_eq!((root.data, root.count), (5, 2));
    let left = root.left.as_ref().unwrap();
    assert_eq!((left.data, left.count), (3, 1));
    assert!(left.left.is_none() && left.right.is_none());
    let right = root.right.as_ref().unwrap();
    assert_eq!((right.data, right.count), (8, 0));
    assert!(right.left.is_none());
    assert_eq!(right.right.as_ref().unwrap().data, 9);

    let node = algoritmes::b_tree::BTree::insert('x', None);
    assert_eq!((node.data, node.count), ('x', 0));
    let node = algoritmes::b_tree::BTree::insert('x', Some(node));
    assert_eq!((node.data, node.count), ('x', 1));
    let node = algoritmes::b_tree::BTree::insert('a', Some(node));
    assert_eq!(node.left.as_ref().unwrap().data, 'a');
}

#[test]
fn avl_move_to_a_grandchild_grows_the_array() {
    let mut root: AVLTree<char> = AVLTree {
        root: vec![Some('a'), None, None],
        balance_factor: vec![1, 0, 0],
        nodes: 3,
        height: 2,
    };
    root.move_nodes(0, 3);
    assert_eq!(root.root, vec![None, None, None, Some('a'), None, None, None]);
    assert_eq!(root.balance_factor, vec![0, 0, 0, 1, 0, 0, 0]);
    assert_eq!(root.height, 3);
    assert_eq!(root.nodes, 7);
}

#[test]
fn avl_move_deep_into_its_own_subtree() {
    //        b                 _
    //    a       c   ->    _       _
    //                    _   _   b   _
    //                            a c
    let mut root: AVLTree<char> = AVLTree {
        root: vec![Some('b'), Some('a'), Some('c')],
        balance_factor: vec![2, 1, 1],
        nodes: 3,
        height: 2,
    };
    root.move_nodes(0, 5);
    let mut expected: Vec<Option<char>> = vec![None; 15];
    expected[5] = Some('b');
    expected[11] = Some('a');
    expected[12] = Some('c');
    assert_eq!(root.root, expected);
    assert_eq!(root.balance_factor, vec![0, 0, 0, 0, 0, 2, 0, 0, 0, 0, 0, 1, 1, 0, 0]);
    assert_eq!(root.height, 4);
}

#[test]
fn avl_move_to_the_parent_beside_an_occupied_sibling() {
    let mut root: AVLTree<char> = AVLTree {
        root: vec![None, Some('b'), Some('x'), Some('a'), Some('c'), None, Some('y')],
        balance_factor: vec![0, 2, 2, 1, 1, 0, 1],
        nodes: 7,
        height: 3,
    };
    root.move_nodes(1, 0);
    assert_eq!(
        root.root,
        vec![Some('b'), Some('a'), Some('c'), None, None, None, Some('y')]
    );
    assert_eq!(root.balance_factor, vec![2, 1, 1, 0, 0, 0, 1]);
    assert_eq!(root.height, 3);
}

#[test]
fn avl_move_two_levels_up() {
    let mut root: AVLTree<char> = AVLTree {
        root: vec![None, None, Some('r'), Some('b'), None, None, None,
                   Some('a'), Some('c'), None, None, None, None, None, None],
        balance_factor: vec![0, 0, 1, 2, 0, 0, 0, 1, 1, 0, 0, 0, 0, 0, 0],
        nodes: 15,
        height: 4,
    };
    root.move_nodes(3, 0);
    let mut expected: Vec<Option<char>> = vec![None; 15];
    expected[0] = Some('b');
    expected[1] = Some('a');
    expected[2] = Some('c');
    assert_eq!(root.root, expected);
    assert_eq!(root.height, 4);
}

#[test]
fn avl_move_beside_occupied_slots() {
    let mut root: AVLTree<char> = AVLTree {
        root: vec![Some('r'), Some('a'), None, None, None, Some('x'), None],
        balance_factor: vec![2, 1, 0, 0, 0, 1, 0],
        nodes: 7,
        height: 3,
    };
    root.move_nodes(1, 2);
    assert_eq!(root.root, vec![Some('r'), None, Some('a'), None, None, Some('x'), None]);
    assert_eq!(root.balance_factor, vec![2, 0, 1, 0, 0, 1, 0]);
}

#[test]
fn avl_move_onto_itself_or_of_nothing_changes_nothing() {
    let mut root: AVLTree<char> = AVLTree {
        root: vec![Some('b'), Some('a'), None],
        balance_factor: vec![2, 1, 0],
        nodes: 3,
        height: 2,
    };
    root.move_nodes(1, 1);
    assert_eq!(root.root, vec![Some('b'), Some('a'), None]);
    root.move_nodes(2, 40);
    assert_eq!(root.root, vec![Some('b'), Some('a'), None]);
    root.move_nodes(9, 0);
    assert_eq!(root.root, vec![Some('b'), Some('a'), None]);
    assert_eq!(root.height, 2);
}

#[test]
fn avl_node_is_leaf() {
    let root: AVLTree<char> = AVLTree {
        root: vec![Some('d'), Some('b'), None, Some('a'), None, None, None],
        balance_factor: vec![3, 2, 0, 1, 0, 0, 0],
        nodes: 7,
        height: 3,
    };
    let none: Vec<usize> = Vec::new();
    assert_eq!(root.node_is_leaf(0, &none), false);
    assert_eq!(root.node_is_leaf(1, &none), false);
    assert_eq!(root.node_is_leaf(2, &none), true);
    // the children of slot 3 lie outside the array
    assert_eq!(root.node_is_leaf(3, &none), true);
    assert_eq!(root.node_is_leaf(100, &none), true);
    // a child that a moved node has come to does not count
    assert_eq!(root.node_is_leaf(1, &vec![3]), true);
    assert_eq!(root.node_is_leaf(0, &vec![3]), false);
    assert_eq!(root.node_is_leaf(0, &vec![2, 1]), true);
}

#[test]
fn avl_insert_into_a_tree_with_spare_levels() {
    let mut root: AVLTree<u32> = AVLTree::new();
    root.increase_levels(3);
    assert_eq!(root.root.len(), 7);
    root.insert(5);
    assert_eq!(root.root, vec![Some(5)]);
    assert_eq!(root.height, 1);
    root.increase_levels(2);
    root.insert(3);
    assert_eq!(root.root, vec![Some(5), Some(3), None]);
    assert_eq!(root.balance_factor, vec![2, 1, 0]);
    let mut one: AVLTree<u32> = AVLTree { root: vec![None], balance_factor: vec![0], nodes: 1, height: 1 };
    one.insert(9);
    assert_eq!(one.root, vec![Some(9)]);
    assert_eq!(one.height, 1);
}

#[test]
fn avl_insert_without_rotation_keeps_every_slot() {
    let mut root: AVLTree<u32> = AVLTree::new_from_vec(vec![50, 30, 70]);
    assert_eq!(root.root, vec![Some(50), Some(30), Some(70)]);
    // the search for 20 ends at slot 3, below the array of 3 slots
    root.insert(20);
    assert_eq!(root.root.len(), 2 * 3 + 1);
    assert_eq!(root.root, vec![Some(50), Some(30), Some(70), Some(20), None, None, None]);
    assert_eq!(root.balance_factor, vec![3, 2, 1, 1, 0, 0, 0]);
    // 80 finds room in the array
    root.insert(80);
    assert_eq!(
        root.root,
        vec![Some(50), Some(30), Some(70), Some(20), None, None, Some(80)]
    );
    assert_eq!(root.balance_factor, vec![3, 2, 2, 1, 0, 0, 1]);
}

#[test]
fn avl_slots_hold_what_was_put_in() {
    let input: Vec<u32> = vec![5, 3, 8, 3, 1, 9, 5, 5, 2];
    let tree = AVLTree::new_from_vec(input.clone());
    let mut slots: Vec<u32> = tree.root.iter().filter_map(|s| *s).collect();
    slots.sort();
    let mut sorted = input;
    sorted.sort();
    assert_eq!(slots, sorted);
    // each counter is the height over the slots
    fn height(root: &Vec<Option<u32>>, i: usize) -> u32 {
        if i < root.len() && root[i].is_some() {
            1 + height(root, 2 * i + 1).max(height(root, 2 * i + 2))
        } else {
            0
        }
    }
    for j in 0..tree.root.len() {
        if tree.root[j].is_some() {
            assert_eq!(tree.balance_factor[j], height(&tree.root, j));
            let l = height(&tree.root, 2 * j + 1);
            let r = height(&tree.root, 2 * j + 2);
            assert!(l <= r + 1 && r <= l + 1);
        }
    }
}

#[test]
fn graph_walks_see_what_can_be_reached_once() {
    // 0 -> 1 -> 2 -> 0, 1 -> 3, 4 -> 0; node 4 cannot be reached from 0
    let graph: Graph<u32> = Graph::from(vec![
        (10, vec![1]),
        (11, vec![2, 3]),
        (12, vec![0]),
        (13, vec![]),
        (14, vec![0]),
    ]);
    let mut depth: Vec<u32> = graph.dfs(0).iter().map(|n| n.val).collect();
    let breadth: Vec<u32> = graph.bfs(0).iter().map(|n| n.val).collect();
    // in breadth: by distance from the start
    assert_eq!(breadth, vec![10, 11, 12, 13]);
    assert_eq!(depth, vec![10, 11, 12, 13]);
    depth.sort();
    assert_eq!(depth, vec![10, 11, 12, 13]);
    let far: Vec<u32> = graph.bfs(4).iter().map(|n| n.val).collect();
    assert_eq!(far, vec![14, 10, 11, 12, 13]);
}
