use physics2d::bounds_tree::{BoundsTree, NodeId, NULL};
use physics2d::math::{Bounds, Vec2};

/// A box given in units of the plane, on a grid of hundredths.
fn bounds(min: (f32, f32), max: (f32, f32)) -> Bounds {
    let grid = |v: f32| (v * 100.0).round() as i32;
    Bounds::new(Vec2::new(grid(min.0), grid(min.1)), Vec2::new(grid(max.0), grid(max.1)))
}

fn height_of(tree: &BoundsTree<u32>, id: NodeId) -> usize {
    let node = tree.get_node(id);
    if node.is_leaf() {
        0
    } else {
        1 + height_of(tree, node.left).max(height_of(tree, node.right))
    }
}

/// Checks links, cached heights, cached boxes and balance below `id`, and
/// returns the number of leaves.
fn check(tree: &BoundsTree<u32>, id: NodeId, parent: NodeId) -> usize {
    let node = tree.get_node(id);
    assert_eq!(node.parent, parent);
    if node.is_leaf() {
        assert_eq!(node.right, NULL);
        assert_eq!(node.height, 0);
        1
    } else {
        let left = tree.get_node(node.left);
        let right = tree.get_node(node.right);
        assert_eq!(node.height, 1 + left.height.max(right.height));
        assert!(left.height <= right.height + 1 && right.height <= left.height + 1);
        assert_eq!(node.bounds, left.bounds.union(&right.bounds));
        assert_eq!(node.height, height_of(tree, id));
        check(tree, node.left, id) + check(tree, node.right, id)
    }
}

#[test]
fn insert_leaf() {
    let mut tree = BoundsTree::new();

    // Upon insertion, b and c will be siblings.
    // The tree should have the following structure:
    //          root
    //         /    \
    //        a   (branch)
    //             /    \
    //            b      c

    let bounds_a = bounds((0.0, 0.0), (3.0, 3.0));
    let bounds_b = bounds((4.0, 0.0), (5.0, 1.0));
    let bounds_c = bounds((4.0, 1.01), (5.0, 2.01));

    let a = tree.insert_leaf(bounds_a, 0);

    assert_eq!(tree.root_id(), a);

    let b = tree.insert_leaf(bounds_b, 1);

    assert_ne!(tree.root_id(), a);

    assert_eq!(tree.get_root().left, a);
    assert_eq!(tree.get_root().right, b);

    let c = tree.insert_leaf(bounds_c, 2);

    let root = tree.get_root();

    // left (a) unchanged, right made branch and b pushed down
    assert_eq!(root.left, a);
    assert_ne!(root.right, b);

    let right = tree.get_node(root.right);

    assert_eq!(right.left, b);
    assert_eq!(right.right, c);
}

#[test]
fn remove_leaf() {
    let mut tree = BoundsTree::new();

    let bounds_a = bounds((0.0, 0.0), (3.0, 3.0));
    let bounds_b = bounds((4.0, 0.0), (5.0, 1.0));
    let bounds_c = bounds((4.0, 1.01), (5.0, 2.01));

    let a = tree.insert_leaf(bounds_a, 0);
    let b = tree.insert_leaf(bounds_b, 1);
    let c = tree.insert_leaf(bounds_c, 2);

    assert_ne!(tree.get_root().right, c);

    // On deleting b:
    //          root
    //         /    \
    //        a      c

    tree.remove_leaf(b);

    assert_eq!(tree.get_root().right, c);

    // On deleting c:
    //          root == a

    tree.remove_leaf(c);

    assert_eq!(tree.root_id(), a);
}

#[test]
fn balance() {
    let mut tree = BoundsTree::new();

    let bounds_a = bounds((0.0, 0.0), (3.0, 3.0));
    let bounds_b = bounds((4.0, 0.0), (5.0, 1.0));
    let bounds_c = bounds((4.0, 1.01), (5.0, 2.01));
    let bounds_d = bounds((4.0, 2.01), (5.0, 3.01));

    let a = tree.insert_leaf(bounds_a, 0);
    let b = tree.insert_leaf(bounds_b, 1);

    let root_id = tree.get_node(a).parent;

    let c = tree.insert_leaf(bounds_c, 2);

    let branch0_id = tree.get_node(c).parent;

    let d = tree.insert_leaf(bounds_d, 3);

    let branch1_id = tree.get_node(d).parent;

    // The tree -should- have the following structure:
    //          root
    //         /    \
    //        a    branch0
    //             /     \
    //            b    branch1
    //                 /    \
    //                c      d
    //
    // Balancing the ancestors makes it:
    //
    //               branch0
    //              /       \
    //            root    branch1
    //           /    \    /   \
    //          a      b  c     d

    assert_eq!(tree.root_id(), branch0_id);

    let root = tree.get_root();

    assert_eq!(root.left, root_id);
    assert_eq!(root.right, branch1_id);

    let (left, right) = (tree.get_node(root.left), tree.get_node(root.right));

    assert_eq!(left.left, a);
    assert_eq!(left.right, b);
    assert_eq!(right.left, c);
    assert_eq!(right.right, d);
}

#[test]
fn empty_tree_has_no_root() {
    let tree: BoundsTree<u32> = BoundsTree::new();
    assert_eq!(tree.root_id(), NULL);
    assert_eq!(tree.len(), 0);
    assert!(tree.query(&bounds((0.0, 0.0), (1.0, 1.0))).is_empty());
}

#[test]
fn single_leaf_is_root_and_goes_again() {
    let mut tree = BoundsTree::new();
    let box_a = bounds((1.0, 1.0), (2.0, 2.0));
    let a = tree.insert_leaf(box_a, 7u32);
    assert_eq!(tree.root_id(), a);
    assert_eq!(tree.len(), 1);
    assert_eq!(tree.get_node(a).bounds, box_a);
    assert_eq!(tree.get_node(a).data, 7);
    assert!(tree.get_node(a).is_leaf());
    tree.remove_leaf(a);
    assert_eq!(tree.root_id(), NULL);
    assert_eq!(tree.len(), 0);
}

#[test]
fn removed_leaf_id_is_reused_by_next_insert() {
    let mut tree = BoundsTree::new();
    let mut ids = Vec::new();
    for i in 0..6 {
        ids.push(tree.insert_leaf(bounds((i as f32, 0.0), (i as f32 + 0.5, 0.5)), i as u32));
    }
    tree.remove_leaf(ids[2]);
    let again = tree.insert_leaf(bounds((9.0, 9.0), (10.0, 10.0)), 99);
    assert_eq!(again, ids[2]);
    assert_eq!(tree.get_node(again).data, 99);
}

#[test]
fn tree_stays_balanced_with_exact_bounds_through_inserts_and_removes() {
    let mut tree = BoundsTree::new();
    let mut leaves: Vec<NodeId> = Vec::new();
    // a long line of boxes, the worst case for an unbalanced tree
    for i in 0..64 {
        let x = i as f32 * 1.5;
        leaves.push(tree.insert_leaf(bounds((x, 0.0), (x + 1.0, 1.0)), i as u32));
        assert_eq!(check(&tree, tree.root_id(), NULL), leaves.len());
        assert_eq!(tree.len(), 2 * leaves.len() - 1);
    }
    // 64 leaves in a balanced tree are at most 8 levels deep
    assert!(tree.get_root().height <= 8);
    let mut left = leaves.len();
    for (k, leaf) in leaves.iter().enumerate() {
        if k % 3 != 0 {
            tree.remove_leaf(*leaf);
            left -= 1;
            assert_eq!(check(&tree, tree.root_id(), NULL), left);
        }
    }
    for (k, leaf) in leaves.iter().enumerate() {
        if k % 3 == 0 {
            assert_eq!(tree.get_node(*leaf).data, k as u32);
        }
    }
}

#[test]
fn root_box_is_the_union_of_all_leaves() {
    let mut tree = BoundsTree::new();
    tree.insert_leaf(bounds((-3.0, 1.0), (-2.0, 2.0)), 0u32);
    tree.insert_leaf(bounds((5.0, -4.0), (6.0, -3.0)), 1);
    tree.insert_leaf(bounds((0.0, 7.0), (1.0, 8.0)), 2);
    assert_eq!(tree.get_root().bounds, bounds((-3.0, -4.0), (6.0, 8.0)));
}

#[test]
fn query_finds_exactly_the_leaves_that_meet_the_box() {
    let mut tree = BoundsTree::new();
    let mut ids = Vec::new();
    for i in 0..10 {
        let x = i as f32 * 2.0;
        ids.push(tree.insert_leaf(bounds((x, 0.0), (x + 1.0, 1.0)), i as u32));
    }
    // meets the boxes at x = 4..5, 6..7 and, by touching, 8..9
    let mut hits = tree.query(&bounds((4.5, 0.5), (8.0, 0.6)));
    hits.sort();
    let mut expected = vec![ids[2], ids[3], ids[4]];
    expected.sort();
    assert_eq!(hits, expected);
    // misses everything
    assert!(tree.query(&bounds((0.0, 2.0), (20.0, 3.0))).is_empty());
    // meets everything, each leaf once
    let mut all = tree.query(&bounds((-1.0, -1.0), (30.0, 2.0)));
    all.sort();
    let mut every = ids.clone();
    every.sort();
    assert_eq!(all, every);
}

#[test]
fn query_lists_the_right_subtree_before_the_left() {
    let mut tree = BoundsTree::new();
    let a = tree.insert_leaf(bounds((0.0, 0.0), (3.0, 3.0)), 0u32);
    let b = tree.insert_leaf(bounds((4.0, 0.0), (5.0, 1.0)), 1);
    let c = tree.insert_leaf(bounds((4.0, 1.01), (5.0, 2.01)), 2);
    // a is the left child of the root; b and c are the children of its right child
    assert_eq!(tree.query(&bounds((-1.0, -1.0), (9.0, 9.0))), vec![c, b, a]);
    assert_eq!(tree.query(&bounds((-1.0, -1.0), (4.5, 0.5))), vec![b, a]);
    assert_eq!(tree.query(&bounds((4.5, 1.5), (4.6, 1.6))), vec![c]);
}
