use bst::{BstNode, BstNodeLink, BstTree};

const KEYS: [i32; 11] = [15, 6, 18, 17, 20, 3, 7, 2, 4, 13, 9];

fn build(keys: &[i32]) -> BstTree {
    let mut tree = BstTree::new();
    for &k in keys {
        BstNode::tree_insert(&mut tree, k);
    }
    tree
}

fn find(tree: &BstTree, key: i32) -> Option<BstNodeLink> {
    let root = tree.root()?;
    BstNode::tree_search(tree, root, &key)
}

fn key_of(tree: &BstTree, link: BstNodeLink) -> i32 {
    tree.node(link).key
}

fn successor_key(tree: &BstTree, key: i32) -> Option<i32> {
    let node = find(tree, key).expect("key present");
    BstNode::tree_successor(tree, node).map(|s| key_of(tree, s))
}

fn check_links(tree: &BstTree) {
    // every child points back to its parent, and only the root lacks a parent
    let root = tree.root().expect("non-empty");
    assert_eq!(tree.node(root).parent, None);
    let mut stack = vec![root];
    let mut seen = 0;
    while let Some(n) = stack.pop() {
        seen += 1;
        let node = tree.node(n);
        for child in [node.left, node.right].into_iter().flatten() {
            assert_eq!(tree.node(child).parent, Some(n));
            stack.push(child);
        }
    }
    assert_eq!(seen, tree.inorder_keys().len());
}

#[test]
fn inorder_is_strictly_increasing() {
    let tree = build(&KEYS);
    assert_eq!(tree.inorder_keys(), vec![2, 3, 4, 6, 7, 9, 13, 15, 17, 18, 20]);
    check_links(&tree);
}

#[test]
fn empty_tree_has_no_root() {
    let tree = BstTree::new();
    assert_eq!(tree.root(), None);
    assert_eq!(tree.inorder_keys(), Vec::<i32>::new());
    assert_eq!(tree.arena_len(), 0);
}

#[test]
fn first_insert_becomes_root() {
    let mut tree = BstTree::new();
    let root = BstNode::tree_insert(&mut tree, 42);
    assert_eq!(tree.root(), Some(root));
    assert_eq!(key_of(&tree, root), 42);
    assert_eq!(tree.node(root).parent, None);
}

#[test]
fn insert_keeps_root_and_places_leaves() {
    let mut tree = BstTree::new();
    let root = BstNode::tree_insert(&mut tree, 15);
    assert_eq!(BstNode::tree_insert(&mut tree, 6), root);
    assert_eq!(BstNode::tree_insert(&mut tree, 18), root);
    let six = find(&tree, 6).unwrap();
    let eighteen = find(&tree, 18).unwrap();
    assert_eq!(tree.node(root).left, Some(six));
    assert_eq!(tree.node(root).right, Some(eighteen));
    assert_eq!(tree.node(six).parent, Some(root));
    assert_eq!(tree.node(six).left, None);
    assert_eq!(tree.node(six).right, None);
}

#[test]
fn insert_extreme_keys() {
    let tree = build(&[0, i32::MIN, i32::MAX, -1, 1]);
    assert_eq!(tree.inorder_keys(), vec![i32::MIN, -1, 0, 1, i32::MAX]);
}

#[test]
fn search_finds_present_keys_only() {
    let tree = build(&KEYS);
    for key in [15, 9, 4] {
        let node = find(&tree, key).expect("present");
        assert_eq!(key_of(&tree, node), key);
    }
    for key in [22, 100, 5, -3] {
        assert_eq!(find(&tree, key), None);
    }
}

#[test]
fn search_from_inner_node_stays_in_subtree() {
    let tree = build(&KEYS);
    let six = find(&tree, 6).unwrap();
    assert_eq!(BstNode::tree_search(&tree, six, &13).map(|n| key_of(&tree, n)), Some(13));
    assert_eq!(BstNode::tree_search(&tree, six, &17), None);
}

#[test]
fn minimum_and_maximum_of_tree() {
    let tree = build(&KEYS);
    let root = tree.root().unwrap();
    assert_eq!(key_of(&tree, BstNode::minimum_nodelink(&tree, root)), 2);
    assert_eq!(key_of(&tree, BstNode::maximum_nodelink(&tree, root)), 20);
}

#[test]
fn minimum_and_maximum_of_subtree() {
    let tree = build(&KEYS);
    let six = find(&tree, 6).unwrap();
    assert_eq!(key_of(&tree, BstNode::minimum_nodelink(&tree, six)), 2);
    assert_eq!(key_of(&tree, BstNode::maximum_nodelink(&tree, six)), 13);
    let two = find(&tree, 2).unwrap();
    assert_eq!(BstNode::minimum_nodelink(&tree, two), two);
    assert_eq!(BstNode::maximum_nodelink(&tree, two), two);
}

#[test]
fn root_recovered_from_every_node() {
    let tree = build(&KEYS);
    let root = tree.root().unwrap();
    assert_eq!(key_of(&tree, root), 15);
    for key in KEYS {
        let node = find(&tree, key).unwrap();
        assert_eq!(BstNode::get_root(&tree, node), root);
    }
}

#[test]
fn successor_examples() {
    let tree = build(&KEYS);
    assert_eq!(successor_key(&tree, 2), Some(3));
    assert_eq!(successor_key(&tree, 20), None);
    assert_eq!(successor_key(&tree, 15), Some(17));
}

#[test]
fn successor_of_every_key() {
    let tree = build(&KEYS);
    let expected = [
        (2, Some(3)),
        (3, Some(4)),
        (4, Some(6)),
        (6, Some(7)),
        (7, Some(9)),
        (9, Some(13)),
        (13, Some(15)),
        (15, Some(17)),
        (17, Some(18)),
        (18, Some(20)),
        (20, None),
    ];
    for (key, next) in expected {
        assert_eq!(successor_key(&tree, key), next);
        let node = find(&tree, key).unwrap();
        let simpler = BstNode::tree_successor_simpler(&tree, node).map(|s| key_of(&tree, s));
        assert_eq!(simpler, next);
    }
}

#[test]
fn successor_of_single_node_is_absent() {
    let tree = build(&[5]);
    let root = tree.root().unwrap();
    assert_eq!(BstNode::tree_successor(&tree, root), None);
    assert_eq!(BstNode::tree_successor_simpler(&tree, root), None);
}

#[test]
fn duplicate_insert_leaves_tree_unchanged() {
    let mut tree = build(&KEYS);
    let root = tree.root().unwrap();
    let before: Vec<BstNode> = (0..tree.arena_len()).map(|i| tree.node(i)).collect();
    assert_eq!(BstNode::tree_insert(&mut tree, 15), root);
    assert_eq!(BstNode::tree_insert(&mut tree, 9), root);
    let after: Vec<BstNode> = (0..tree.arena_len()).map(|i| tree.node(i)).collect();
    assert_eq!(before, after);
    assert_eq!(tree.root(), Some(root));
}

#[test]
fn insert_then_search_finds_key() {
    let mut tree = build(&KEYS);
    assert_eq!(find(&tree, 11), None);
    BstNode::tree_insert(&mut tree, 11);
    let node = find(&tree, 11).unwrap();
    assert_eq!(key_of(&tree, node), 11);
    assert_eq!(key_of(&tree, tree.node(node).parent.unwrap()), 9);
    assert_eq!(tree.inorder_keys(), vec![2, 3, 4, 6, 7, 9, 11, 13, 15, 17, 18, 20]);
}

#[test]
fn delete_leaf() {
    let mut tree = build(&KEYS);
    let root = tree.root().unwrap();
    let four = find(&tree, 4).unwrap();
    let three = find(&tree, 3).unwrap();
    let before: Vec<BstNode> = (0..tree.arena_len()).map(|i| tree.node(i)).collect();
    assert_eq!(BstNode::tree_delete(&mut tree, four), Some(root));
    assert_eq!(tree.inorder_keys(), vec![2, 3, 6, 7, 9, 13, 15, 17, 18, 20]);
    for i in 0..tree.arena_len() {
        if i != three && i != four {
            assert_eq!(tree.node(i), before[i]);
        }
    }
    assert_eq!(tree.node(three).right, None);
    assert_eq!(key_of(&tree, tree.node(three).left.unwrap()), 2);
    assert_eq!(find(&tree, 4), None);
    check_links(&tree);
}

#[test]
fn delete_one_child_node() {
    let mut tree = build(&KEYS);
    let thirteen = find(&tree, 13).unwrap();
    let nine = find(&tree, 9).unwrap();
    let seven = find(&tree, 7).unwrap();
    BstNode::tree_delete(&mut tree, thirteen);
    assert_eq!(tree.node(seven).right, Some(nine));
    assert_eq!(tree.node(nine).parent, Some(seven));
    assert_eq!(tree.inorder_keys(), vec![2, 3, 4, 6, 7, 9, 15, 17, 18, 20]);
    check_links(&tree);
}

#[test]
fn delete_sequence_from_driver() {
    let mut tree = build(&KEYS);
    let root = tree.root().unwrap();

    let four = find(&tree, 4).unwrap();
    assert_eq!(BstNode::tree_delete(&mut tree, four), Some(root));
    assert_eq!(tree.inorder_keys(), vec![2, 3, 6, 7, 9, 13, 15, 17, 18, 20]);

    // 18 holds 17 and 20; its successor 20 is its right child and moves up
    let eighteen = find(&tree, 18).unwrap();
    let twenty = find(&tree, 20).unwrap();
    let seventeen = find(&tree, 17).unwrap();
    assert_eq!(BstNode::tree_delete(&mut tree, eighteen), Some(root));
    assert_eq!(tree.node(root).right, Some(twenty));
    assert_eq!(tree.node(twenty).left, Some(seventeen));
    assert_eq!(tree.node(twenty).parent, Some(root));
    assert_eq!(tree.inorder_keys(), vec![2, 3, 6, 7, 9, 13, 15, 17, 20]);
    check_links(&tree);

    // 6 holds 3 and 7; its successor 7 takes its place
    let six = find(&tree, 6).unwrap();
    let seven = find(&tree, 7).unwrap();
    let three = find(&tree, 3).unwrap();
    assert_eq!(BstNode::tree_delete(&mut tree, six), Some(root));
    assert_eq!(tree.node(root).left, Some(seven));
    assert_eq!(tree.node(seven).left, Some(three));
    assert_eq!(tree.node(three).parent, Some(seven));
    assert_eq!(tree.inorder_keys(), vec![2, 3, 7, 9, 13, 15, 17, 20]);
    check_links(&tree);

    // the root's successor 17 sits below 20 and becomes the new root
    let new_root = BstNode::tree_delete(&mut tree, root).unwrap();
    assert_eq!(new_root, seventeen);
    assert_eq!(tree.root(), Some(seventeen));
    assert_eq!(tree.node(seventeen).parent, None);
    assert_eq!(tree.node(seventeen).left, Some(seven));
    assert_eq!(tree.node(seventeen).right, Some(twenty));
    assert_eq!(tree.node(twenty).left, None);
    assert_eq!(tree.inorder_keys(), vec![2, 3, 7, 9, 13, 17, 20]);
    check_links(&tree);

    assert_eq!(find(&tree, 99), None);
    for key in [4, 18, 6, 15] {
        assert_eq!(find(&tree, key), None);
    }
}

#[test]
fn delete_two_child_node_with_deep_successor() {
    let mut tree = build(&[50, 30, 70, 60, 80, 65]);
    let fifty = find(&tree, 50).unwrap();
    let sixty = find(&tree, 60).unwrap();
    let sixty_five = find(&tree, 65).unwrap();
    let seventy = find(&tree, 70).unwrap();
    assert_eq!(BstNode::tree_delete(&mut tree, fifty), Some(sixty));
    assert_eq!(tree.node(sixty).right, Some(seventy));
    assert_eq!(tree.node(seventy).left, Some(sixty_five));
    assert_eq!(tree.node(sixty_five).parent, Some(seventy));
    assert_eq!(tree.inorder_keys(), vec![30, 60, 65, 70, 80]);
    check_links(&tree);
}

#[test]
fn delete_last_node_empties_tree() {
    let mut tree = build(&[8]);
    let only = tree.root().unwrap();
    assert_eq!(BstNode::tree_delete(&mut tree, only), None);
    assert_eq!(tree.root(), None);
    assert_eq!(tree.inorder_keys(), Vec::<i32>::new());
    BstNode::tree_insert(&mut tree, 3);
    assert_eq!(tree.inorder_keys(), vec![3]);
}

#[test]
fn delete_root_with_one_child() {
    let mut tree = build(&[10, 5]);
    let ten = tree.root().unwrap();
    let five = find(&tree, 5).unwrap();
    assert_eq!(BstNode::tree_delete(&mut tree, ten), Some(five));
    assert_eq!(tree.node(five).parent, None);
    assert_eq!(tree.inorder_keys(), vec![5]);
}

#[test]
fn transplant_replaces_subtree() {
    let mut tree = build(&[10, 5, 15, 12]);
    let ten = tree.root().unwrap();
    let fifteen = find(&tree, 15).unwrap();
    let twelve = find(&tree, 12).unwrap();
    assert_eq!(BstNode::transplant(&mut tree, fifteen, Some(twelve)), Some(ten));
    assert_eq!(tree.node(ten).right, Some(twelve));
    assert_eq!(tree.node(twelve).parent, Some(ten));
}

#[test]
fn transplant_at_root() {
    let mut tree = build(&[10, 5]);
    let ten = tree.root().unwrap();
    let five = find(&tree, 5).unwrap();
    assert_eq!(BstNode::transplant(&mut tree, ten, Some(five)), Some(five));
    assert_eq!(tree.node(five).parent, None);
    assert_eq!(tree.root(), Some(five));
    assert_eq!(BstNode::transplant(&mut tree, five, None), None);
    assert_eq!(tree.root(), None);
}

#[test]
fn builders_allocate_nodes() {
    let mut tree = BstTree::new();
    let a = BstNode::new_bst_nodelink(&mut tree, 5);
    assert_eq!(a, 0);
    assert_eq!(tree.node(a), BstNode { key: 5, parent: None, left: None, right: None });
    assert_eq!(tree.root(), None);
    BstNode::add_left_child(&mut tree, a, 3);
    BstNode::add_right_child(&mut tree, a, 7);
    assert_eq!(tree.node(a).left, Some(1));
    assert_eq!(tree.node(a).right, Some(2));
    assert_eq!(tree.node(1), BstNode { key: 3, parent: Some(a), left: None, right: None });
    assert_eq!(tree.node(2), BstNode { key: 7, parent: Some(a), left: None, right: None });
    let copy = tree.node(a).get_bst_nodelink_copy(&mut tree);
    assert_eq!(copy, 3);
    assert_eq!(tree.node(copy), tree.node(a));
    assert_eq!(tree.arena_len(), 4);
}

#[test]
fn allocation_leaves_tree_untouched() {
    let mut tree = build(&KEYS);
    let root = tree.root().unwrap();
    let extra = BstNode::new_bst_nodelink(&mut tree, 1000);
    assert_eq!(tree.root(), Some(root));
    assert_eq!(find(&tree, 1000), None);
    assert_eq!(tree.node(extra).key, 1000);
    assert_eq!(tree.inorder_keys(), vec![2, 3, 4, 6, 7, 9, 13, 15, 17, 18, 20]);
}
