use obtree::Node;
use obtree::Tree;

#[test]
fn test_obtree() {
    let mut tree = Tree::new();
    tree.insert(1);
    tree.insert(0);
    tree.insert(2);
    tree.insert(5);
    tree.insert(4);
    println!("{}", tree.size());
    assert_eq!(tree.size(), 5);
}

#[test]
fn round_trip_pop_min() {
    // Draining via pop_min returns the inserted items in ascending order,
    // each exactly once.
    let mut tree = Tree::new();
    for v in [1, 0, 2, 5, 4] {
        tree.insert(v);
    }
    let mut drained = Vec::new();
    while let Some(v) = tree.pop_min() {
        drained.push(v);
    }
    assert_eq!(drained, vec![0, 1, 2, 4, 5]);
    assert_eq!(tree.size(), 0);
    assert_eq!(tree.pop_min(), None);
}

#[test]
fn round_trip_pop_max() {
    // Draining via pop_max returns the inserted items in descending order.
    let mut tree = Tree::new();
    for v in [1, 0, 2, 5, 4] {
        tree.insert(v);
    }
    let mut drained = Vec::new();
    while let Some(v) = tree.pop_max() {
        drained.push(v);
    }
    assert_eq!(drained, vec![5, 4, 2, 1, 0]);
    assert_eq!(tree.size(), 0);
    assert_eq!(tree.pop_max(), None);
}

#[test]
fn duplicate_lifo() {
    // Three equal items all land on one node's chain; each extraction takes
    // the chain tail (the most recently inserted duplicate) until the node
    // itself is the last item and the tree unlinks it.
    let mut tree = Tree::new();
    tree.insert(3);
    tree.insert(3);
    tree.insert(3);
    assert_eq!(tree.size(), 3);
    assert_eq!(tree.pop_min(), Some(3));
    assert_eq!(tree.size(), 2);
    assert_eq!(tree.pop_min(), Some(3));
    assert_eq!(tree.size(), 1);
    assert_eq!(tree.pop_min(), Some(3));
    assert_eq!(tree.size(), 0);
    assert_eq!(tree.pop_min(), None);
}

#[test]
fn empty_pops_idempotent() {
    // Popping an empty tree yields the empty marker, repeatedly and without
    // side effects.
    let mut tree = Tree::new();
    for _ in 0..3 {
        assert_eq!(tree.pop_min(), None);
        assert_eq!(tree.pop_max(), None);
        assert_eq!(tree.size(), 0);
        assert!(tree.in_order().is_empty());
    }
    tree.insert(9);
    assert_eq!(tree.pop_min(), Some(9));
    for _ in 0..3 {
        assert_eq!(tree.pop_max(), None);
        assert_eq!(tree.size(), 0);
    }
}

#[test]
fn size_counts_inserts() {
    // With no removals, size() equals the number of insert calls, duplicates
    // included.
    let mut tree = Tree::new();
    let items = [4, 4, 1, 7, 4, 1, 0, 9];
    for (n, v) in items.iter().enumerate() {
        assert_eq!(tree.size(), n);
        tree.insert(*v);
    }
    assert_eq!(tree.size(), items.len());
}

#[test]
fn conservation_mixed() {
    // Over an interleaving of inserts and pops, size() always equals
    // inserts so far minus successful removals so far.
    let mut tree = Tree::new();
    let mut inserts = 0usize;
    let mut removals = 0usize;
    let script = [
        (0u8, 6u64),
        (1, 0),
        (0, 2),
        (0, 2),
        (2, 0),
        (1, 0),
        (1, 0),
        (1, 0),
        (2, 0),
        (0, 8),
        (2, 0),
        (2, 0),
    ];
    for (kind, v) in script {
        match kind {
            0 => {
                tree.insert(v);
                inserts += 1;
            }
            1 => {
                if tree.pop_min().is_some() {
                    removals += 1;
                }
            }
            _ => {
                if tree.pop_max().is_some() {
                    removals += 1;
                }
            }
        }
        assert_eq!(tree.size(), inserts - removals);
    }
}

#[test]
fn traversal_sorted_after_pops() {
    // After every pop the traversal is still ascending and the size shrinks
    // by exactly one per successful pop.
    let mut tree = Tree::new();
    for v in [5, 1, 9, 1, 7, 3, 9, 0] {
        tree.insert(v);
    }
    let mut expected = tree.size();
    let mut from_min = true;
    loop {
        let popped = if from_min { tree.pop_min() } else { tree.pop_max() };
        if popped.is_none() {
            break;
        }
        expected -= 1;
        assert_eq!(tree.size(), expected);
        let walk = tree.in_order();
        assert!(walk.windows(2).all(|w| w[0] <= w[1]));
        assert_eq!(walk.len(), expected);
        from_min = !from_min;
    }
    assert_eq!(expected, 0);
}

#[test]
fn content_replacement_min_side() {
    // The minimal node (the root) has no left child but a right child with
    // children of its own: extraction must return the root's old item, and
    // the right child's subtree must take the root's place unchanged.
    let mut tree = Tree::new();
    for v in [5, 8, 7, 9] {
        tree.insert(v);
    }
    assert_eq!(tree.pop_min(), Some(5));
    assert_eq!(tree.in_order(), vec![7, 8, 9]);
    assert_eq!(tree.size(), 3);
}

#[test]
fn content_replacement_max_side() {
    // Mirror case: the maximal node (the root) has no right child but a left
    // child with children of its own.
    let mut tree = Tree::new();
    for v in [5, 2, 3, 1] {
        tree.insert(v);
    }
    assert_eq!(tree.pop_max(), Some(5));
    assert_eq!(tree.in_order(), vec![1, 2, 3]);
    assert_eq!(tree.size(), 3);
}

#[test]
fn chain_survives_replacement() {
    // A root with duplicates and a right child: the duplicates must come out
    // before the root node itself is replaced, and nothing may be lost.
    let mut tree = Tree::new();
    tree.insert(5);
    tree.insert(5);
    tree.insert(8);
    assert_eq!(tree.pop_min(), Some(5));
    assert_eq!(tree.size(), 2);
    assert_eq!(tree.in_order(), vec![5, 8]);
    assert_eq!(tree.pop_min(), Some(5));
    assert_eq!(tree.size(), 1);
    assert_eq!(tree.pop_min(), Some(8));
    assert_eq!(tree.pop_min(), None);
}

#[test]
fn in_order_exact() {
    let mut tree = Tree::new();
    for v in [2, 1, 2, 0] {
        tree.insert(v);
    }
    assert_eq!(tree.in_order(), vec![0, 1, 2, 2]);
}

#[test]
fn boundary_values() {
    let mut tree = Tree::new();
    tree.insert(u64::MAX);
    tree.insert(0);
    tree.insert(u64::MAX);
    assert_eq!(tree.pop_min(), Some(0));
    assert_eq!(tree.pop_max(), Some(u64::MAX));
    assert_eq!(tree.pop_max(), Some(u64::MAX));
    assert_eq!(tree.pop_max(), None);
}

#[test]
fn node_constructors() {
    let n = Node::new(7);
    assert_eq!(n.len(), 1);
    assert_eq!(n.size(), 1);
    let b = Node::boxed(7);
    assert_eq!(b.size(), 1);
}

#[test]
fn default_is_empty() {
    let mut tree = Tree::default();
    assert_eq!(tree.size(), 0);
    assert_eq!(tree.pop_min(), None);
}
