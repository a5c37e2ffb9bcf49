use btree::{BTree, BTreeLeaf, BTreeNode, BTreeSubTree};

fn range(lo: i64, hi: i64) -> Vec<i64> {
    (lo..=hi).collect()
}

fn leaf_values(node: &BTreeNode) -> Vec<i64> {
    node.unwrap_as_leaf().values.clone()
}

#[test]
fn tree_test() {
    let tree = BTree::from_iter(&range(-1000, 1000));
    assert_eq!(tree.len(), 2001);
    assert_eq!(tree.first(), Some(-1000));
    assert_eq!(tree.last(), Some(1000));

    assert!((0..tree.len())
        .map(|i| tree.get(i).unwrap())
        .zip(-1000..=1000)
        .all(|(tree_elem, val)| tree_elem == val));

    assert!(tree
        .iter()
        .to_vec()
        .into_iter()
        .map(|v| v + v)
        .zip((-1000..).map(|x| x + x))
        .all(|(tree_elem, x)| tree_elem == x));

    assert_eq!(
        tree.iter().to_vec().into_iter().map(|x| x * x).fold(0, |acc, x| acc + x),
        (-1000..=1000).fold(0, |acc, x| acc + x * x)
    );

    let mut cursor = tree.iter();
    let mut expected: i64 = -1000;
    while let Some(v) = cursor.next() {
        assert_eq!(v * v, expected * expected);
        expected += 1;
    }
    assert_eq!(expected, 1001);
}

#[test]
fn empty_tree() {
    let tree = BTree::new();
    assert_eq!(tree.len(), 0);
    assert!(tree.is_empty());
    assert!(!tree.is_not_empty());
    assert_eq!(tree.first(), None);
    assert_eq!(tree.last(), None);
    assert_eq!(tree.get(0), None);
    assert!(tree.root().is_none());
    assert_eq!(tree.iter().next(), None);
    assert_eq!(tree.iter().next_back(), None);
    assert_eq!(tree.find(&5).next(), None);
}

#[test]
fn len_counts_insertions() {
    let mut tree = BTree::new();
    for (i, v) in [7, -3, 7, 0, 100, -3, 7].iter().enumerate() {
        tree.insert(*v);
        assert_eq!(tree.len(), i + 1);
    }
    assert!(tree.is_not_empty());
    assert_eq!(tree.iter().to_vec(), vec![-3, -3, 0, 7, 7, 7, 100]);
}

#[test]
fn first_and_last_are_min_and_max() {
    let tree = BTree::from_iter(&[42, -7, 13, 99, 0, -7, 56]);
    assert_eq!(tree.first(), Some(-7));
    assert_eq!(tree.last(), Some(99));
    let single = BTree::from_iter(&[5]);
    assert_eq!(single.first(), Some(5));
    assert_eq!(single.last(), Some(5));
}

#[test]
fn get_by_rank_with_duplicates() {
    let tree = BTree::from_iter(&[4, 1, 4, 2, 4, 3, 1]);
    let expected = [1, 1, 2, 3, 4, 4, 4];
    for (rank, value) in expected.iter().enumerate() {
        assert_eq!(tree.get(rank), Some(*value));
    }
    assert_eq!(tree.get(7), None);
    assert_eq!(tree.get(usize::MAX), None);
    assert_eq!(tree.get_unchecked(3), 3);
}

#[test]
fn iteration_both_directions() {
    let tree = BTree::from_iter(&[9, 2, 7, 4, 5, 1, 8, 3, 6]);
    assert_eq!(tree.iter().to_vec(), vec![1, 2, 3, 4, 5, 6, 7, 8, 9]);
    assert_eq!(tree.iter().to_vec_rev(), vec![9, 8, 7, 6, 5, 4, 3, 2, 1]);
    let mut back = Vec::new();
    let mut cursor = tree.iter();
    while let Some(v) = cursor.next_back() {
        back.push(v);
    }
    assert_eq!(back, vec![9, 8, 7, 6, 5, 4, 3, 2, 1]);
}

#[test]
fn iteration_meets_in_the_middle() {
    let tree = BTree::from_iter(&[1, 2, 3, 4, 5]);
    let mut cursor = tree.iter();
    assert_eq!(cursor.next(), Some(1));
    assert_eq!(cursor.next_back(), Some(5));
    assert_eq!(cursor.next(), Some(2));
    assert_eq!(cursor.next_back(), Some(4));
    assert_eq!(cursor.next(), Some(3));
    assert_eq!(cursor.next_back(), None);
    assert_eq!(cursor.next(), None);
}

#[test]
fn find_positions_at_first_not_below() {
    let tree = BTree::from_iter(&[10, 3, 12, 5]);
    assert_eq!(tree.find(&7).to_vec(), vec![10, 12]);
    assert_eq!(tree.find(&5).to_vec(), vec![5, 10, 12]);
    assert_eq!(tree.find(&-100).to_vec(), vec![3, 5, 10, 12]);
    assert_eq!(tree.find(&12).to_vec(), vec![12]);
    assert_eq!(tree.find(&13).next(), None);
}

#[test]
fn find_keeps_all_equal_values() {
    let tree = BTree::from_iter(&[5, 5, 5, 1, 9, 5, 5]);
    assert_eq!(tree.find(&5).to_vec(), vec![5, 5, 5, 5, 5, 9]);
    assert_eq!(tree.find(&6).to_vec(), vec![9]);
    let large = BTree::from_iter(&range(0, 500));
    for v in [0, 1, 250, 499, 500] {
        assert_eq!(large.find(&v).next(), Some(v));
    }
    assert_eq!(large.find(&501).next(), None);
}

#[test]
fn insertion_order_does_not_matter() {
    let ascending = BTree::from_iter(&range(1, 300));
    let descending: Vec<i64> = (1..=300).rev().collect();
    let shuffled: Vec<i64> = (0..300).map(|i| (i * 7919) % 300 + 1).collect();
    let expected = range(1, 300);
    assert_eq!(ascending.iter().to_vec(), expected);
    assert_eq!(BTree::from_iter(&descending).iter().to_vec(), expected);
    assert_eq!(BTree::from_iter(&shuffled).iter().to_vec(), expected);
}

#[test]
fn extend_adds_all_values() {
    let mut tree = BTree::from_iter(&[3, 1]);
    tree.extend(&[2, 5, 4]);
    assert_eq!(tree.len(), 5);
    assert_eq!(tree.iter().to_vec(), vec![1, 2, 3, 4, 5]);
    tree.extend(&[]);
    assert_eq!(tree.len(), 5);
}

#[test]
fn extreme_values() {
    let tree = BTree::from_iter(&[i64::MAX, i64::MIN, 0, i64::MAX, i64::MIN]);
    assert_eq!(tree.iter().to_vec(), vec![i64::MIN, i64::MIN, 0, i64::MAX, i64::MAX]);
    assert_eq!(tree.find(&i64::MAX).to_vec(), vec![i64::MAX, i64::MAX]);
    assert_eq!(tree.find(&i64::MIN).to_vec().len(), 5);
}

#[test]
fn root_leaf_splits_on_third_value() {
    let mut tree = BTree::new();
    tree.insert(0);
    tree.insert(1);
    let root = tree.root().unwrap();
    assert!(root.is_leaf());
    assert_eq!(leaf_values(root), vec![0, 1]);

    tree.insert(2);
    let root = tree.root().unwrap();
    assert!(root.is_node());
    let subtree = root.unwrap_as_subtree();
    assert_eq!(subtree.mid_keys, vec![1]);
    assert_eq!(subtree.values_number, 3);
    assert_eq!(leaf_values(&subtree.children[0]), vec![0]);
    assert_eq!(leaf_values(&subtree.children[1]), vec![1, 2]);

    tree.insert(3);
    let subtree = tree.root().unwrap().unwrap_as_subtree();
    assert_eq!(subtree.mid_keys, vec![1, 2]);
    assert_eq!(subtree.values_number, 4);
    assert_eq!(leaf_values(&subtree.children[0]), vec![0]);
    assert_eq!(leaf_values(&subtree.children[1]), vec![1]);
    assert_eq!(leaf_values(&subtree.children[2]), vec![2, 3]);
    assert_eq!(tree.root().unwrap().first_leaf().values, vec![0]);
    assert_eq!(tree.root().unwrap().last_leaf().values, vec![2, 3]);
}

#[test]
fn internal_node_splits_into_new_root() {
    let tree = BTree::from_iter(&range(0, 4));
    let root = tree.root().unwrap().unwrap_as_subtree();
    assert_eq!(root.mid_keys, vec![2]);
    assert_eq!(root.children.len(), 2);
    assert_eq!(root.values_number, 5);
    let left = root.children[0].unwrap_as_subtree();
    let right = root.children[1].unwrap_as_subtree();
    assert_eq!(left.mid_keys, vec![1]);
    assert_eq!(right.mid_keys, vec![3]);
    assert_eq!(left.values_number, 2);
    assert_eq!(right.values_number, 3);
    assert!(root.children.iter().all(|c| c.is_node()));
}

#[test]
fn node_queries() {
    let tree = BTree::from_iter(&[8, 6, 7, 5, 3, 0, 9]);
    let root = tree.root().unwrap();
    assert_eq!(root.values_number(), 7);
    assert_eq!(root.first(), 0);
    assert_eq!(root.last(), 9);
    assert_eq!(root.get(0), 0);
    assert_eq!(root.get(4), 7);
    assert_eq!(root.find(&4), 2);
    assert_eq!(root.find(&10), 7);
    assert_eq!(root.find(&-1), 0);
}

#[test]
fn routing_by_separator_keys() {
    let one = BTreeSubTree::new(
        vec![
            BTreeNode::Leaf { leaf: BTreeLeaf::new(vec![1]) },
            BTreeNode::Leaf { leaf: BTreeLeaf::new(vec![5, 6]) },
        ],
        vec![5],
    );
    assert_eq!(one.values_number, 3);
    assert_eq!(one.get_children_index_by_value(&4), 0);
    assert_eq!(one.get_children_index_by_value(&5), 1);
    assert_eq!(one.get_children_index_by_value(&9), 1);

    let two = BTreeSubTree::new(
        vec![
            BTreeNode::Leaf { leaf: BTreeLeaf::new(vec![1]) },
            BTreeNode::Leaf { leaf: BTreeLeaf::new(vec![5]) },
            BTreeNode::Leaf { leaf: BTreeLeaf::new(vec![9, 10]) },
        ],
        vec![5, 9],
    );
    assert_eq!(two.values_number, 4);
    assert_eq!(two.get_children_index_by_value(&4), 0);
    assert_eq!(two.get_children_index_by_value(&5), 1);
    assert_eq!(two.get_children_index_by_value(&7), 1);
    assert_eq!(two.get_children_index_by_value(&9), 1);
    assert_eq!(two.get_children_index_by_value(&10), 2);
}

#[test]
fn node_accessors() {
    let mut node = BTreeNode::Leaf { leaf: BTreeLeaf::new(vec![2, 4]) };
    assert!(node.is_leaf());
    assert!(!node.is_node());
    assert_eq!(node.get_values(), &vec![2, 4]);
    node.get_values_mut().push(6);
    assert_eq!(node.unwrap_as_leaf().values, vec![2, 4, 6]);
    node.unwrap_as_leaf_mut().values.pop();
    assert_eq!(node.values_number(), 2);

    let mut inner = BTreeNode::SubTree {
        subtree: BTreeSubTree::new(
            vec![
                BTreeNode::Leaf { leaf: BTreeLeaf::new(vec![1]) },
                BTreeNode::Leaf { leaf: BTreeLeaf::new(vec![3]) },
            ],
            vec![3],
        ),
    };
    assert!(inner.is_node());
    assert_eq!(inner.get_values(), &vec![3]);
    assert_eq!(inner.values_number(), 2);
    inner.unwrap_as_subtree_mut().mid_keys[0] = 2;
    assert_eq!(inner.unwrap_as_subtree().mid_keys, vec![2]);
}
