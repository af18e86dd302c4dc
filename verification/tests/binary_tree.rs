use rlu::BinaryTree;
use rlu::BinaryTree::{Leaf, Node};
use rlu::binary_tree::Mark;
use rlu::binary_tree::Mark::{Branch, Edge, Empty, Pipe};

fn test_tree() -> BinaryTree<&'static str> {
    Node(
        "B",
        Box::new(Node("A", Box::new(Leaf), Box::new(Leaf))),
        Box::new(Node("C", Box::new(Leaf), Box::new(Leaf))),
    )
}

fn leaf_node(v: &'static str) -> BinaryTree<&'static str> {
    Node(v, Box::new(Leaf), Box::new(Leaf))
}

#[test]
fn len_test() {
    assert_eq!(test_tree().len(), 3);
}

#[test]
fn to_vec_test() {
    assert_eq!(test_tree().to_vec(), vec![&"A", &"B", &"C"]);
}

#[test]
fn sorted_test() {
    let mut t = test_tree().clone();
    assert!(t.sorted());

    t = Node("D", Box::new(Leaf), Box::new(t));
    assert!(!t.sorted());
}

#[test]
fn insertion_test() {
    let mut t = test_tree().clone();
    t.insert("E");
    assert!(t.sorted());
}

#[test]
fn search_test() {
    let mut t = test_tree().clone();
    t.insert("E");
    assert!(t.search(&"D") == Some(&"E"));
    assert!(t.search(&"C") == Some(&"C"));
    assert!(t.search(&"F") == None);
}

#[test]
fn rebalance1_test() {
    let mut t = Node(
        "D",
        Box::new(Node("B", Box::new(leaf_node("A")), Box::new(leaf_node("C")))),
        Box::new(leaf_node("E")),
    );

    let t2 = Node(
        "C",
        Box::new(Node("B", Box::new(leaf_node("A")), Box::new(Leaf))),
        Box::new(Node("D", Box::new(Leaf), Box::new(leaf_node("E")))),
    );

    t.rebalance();
    assert_eq!(t, t2);
}

#[test]
fn rebalance2_test() {
    let mut t = Node(
        "A",
        Box::new(Leaf),
        Box::new(Node(
            "B",
            Box::new(Leaf),
            Box::new(Node("C", Box::new(Leaf), Box::new(leaf_node("D")))),
        )),
    );

    let t2 = Node(
        "B",
        Box::new(leaf_node("A")),
        Box::new(Node("C", Box::new(Leaf), Box::new(leaf_node("D")))),
    );

    t.rebalance();
    assert_eq!(t, t2);
}

#[test]
fn rebalance3_test() {
    let mut t = Node(
        "E",
        Box::new(Node(
            "B",
            Box::new(Leaf),
            Box::new(Node("D", Box::new(leaf_node("C")), Box::new(Leaf))),
        )),
        Box::new(leaf_node("F")),
    );

    let t2 = Node(
        "D",
        Box::new(Node("B", Box::new(Leaf), Box::new(leaf_node("C")))),
        Box::new(Node("E", Box::new(Leaf), Box::new(leaf_node("F")))),
    );

    t.rebalance();
    assert_eq!(t, t2);
}

#[test]
fn empty_tree_edges() {
    let mut t: BinaryTree<u32> = Leaf;
    assert_eq!(t.len(), 0);
    assert!(t.to_vec().is_empty());
    assert!(t.sorted());
    assert_eq!(t.search(&3), None);
    assert_eq!(t.largest(), Leaf);
    assert_eq!(t.smallest(), Leaf);
    t.rebalance();
    assert_eq!(t, Leaf);
}

#[test]
fn insert_keeps_values_and_adds_one() {
    let mut t: BinaryTree<u32> = Leaf;
    for v in [5u32, 3, 8, 1, 4, 7, 9, 3] {
        t.insert(v);
    }
    assert_eq!(t.len(), 8);
    assert_eq!(t.to_vec(), vec![&1, &3, &3, &4, &5, &7, &8, &9]);
    // An inner value equal to the one before it fails the strict check.
    assert!(!t.sorted());
}

#[test]
fn insert_equal_goes_right() {
    let mut t: BinaryTree<u32> = Leaf;
    t.insert(2);
    t.insert(2);
    assert_eq!(t, Node(2, Box::new(Leaf), Box::new(Node(2, Box::new(Leaf), Box::new(Leaf)))));
}

#[test]
fn search_follows_right_spine() {
    let mut t: BinaryTree<u32> = Leaf;
    for v in [5u32, 3, 8] {
        t.insert(v);
    }
    // 3 sits left of the root: the walk only goes right, and stops at 5.
    assert_eq!(t.search(&3), Some(&5));
    assert_eq!(t.search(&6), Some(&8));
    assert_eq!(t.search(&9), None);
}

#[test]
fn largest_cuts_right_end_with_its_left_subtree() {
    let mut t = Node(
        "B",
        Box::new(leaf_node("A")),
        Box::new(Node("D", Box::new(leaf_node("C")), Box::new(Leaf))),
    );
    let cut = t.largest();
    assert_eq!(cut, Node("D", Box::new(leaf_node("C")), Box::new(Leaf)));
    assert_eq!(t, Node("B", Box::new(leaf_node("A")), Box::new(Leaf)));
}

#[test]
fn smallest_cuts_left_end_with_its_right_subtree() {
    let mut t = Node(
        "C",
        Box::new(Node("A", Box::new(Leaf), Box::new(leaf_node("B")))),
        Box::new(leaf_node("D")),
    );
    let cut = t.smallest();
    assert_eq!(cut, Node("A", Box::new(Leaf), Box::new(leaf_node("B"))));
    assert_eq!(t, Node("C", Box::new(Leaf), Box::new(leaf_node("D"))));
}

#[test]
fn largest_of_single_node_empties_tree() {
    let mut t = leaf_node("A");
    assert_eq!(t.largest(), leaf_node("A"));
    assert_eq!(t, Leaf);
}

#[test]
fn insert_tree_grafts_at_leaf() {
    let mut t = test_tree();
    let mut sub = Node("E", Box::new(leaf_node("D")), Box::new(Leaf));
    t.insert_tree(&mut sub);
    assert_eq!(sub, Leaf);
    assert_eq!(t.to_vec(), vec![&"A", &"B", &"C", &"D", &"E"]);
    assert_eq!(t.len(), 5);
}

#[test]
fn insert_tree_with_leaf_changes_nothing() {
    let mut t = test_tree();
    let mut sub = Leaf;
    t.insert_tree(&mut sub);
    assert_eq!(t, test_tree());
    let mut empty: BinaryTree<&'static str> = Leaf;
    let mut sub2 = test_tree();
    empty.insert_tree(&mut sub2);
    assert_eq!(empty, test_tree());
    assert_eq!(sub2, Leaf);
}

#[test]
fn rebalance_keeps_values() {
    let mut t: BinaryTree<u32> = Leaf;
    for v in [1u32, 2, 3, 4, 5, 6] {
        t.insert(v);
    }
    let before: Vec<u32> = t.to_vec().into_iter().copied().collect();
    t.rebalance();
    let after: Vec<u32> = t.to_vec().into_iter().copied().collect();
    assert_eq!(before, after);
    assert_eq!(t.len(), 6);
    assert!(t.sorted());
}

#[test]
fn rebalance_balanced_is_identity() {
    let mut t = test_tree();
    t.rebalance();
    assert_eq!(t, test_tree());
}

#[test]
fn clone_is_equal() {
    let t = test_tree();
    assert_eq!(t.clone(), t);
}

#[test]
fn drawing_lines_of_test_tree() {
    let t = test_tree();
    let lines = t.fmt_levels(vec![]);
    let got: Vec<(Vec<Mark>, Option<&&str>)> = lines;
    assert_eq!(
        got,
        vec![
            (vec![], Some(&"B")),
            (vec![Branch], Some(&"A")),
            (vec![Pipe, Branch], None),
            (vec![Pipe, Edge], None),
            (vec![Edge], Some(&"C")),
            (vec![Empty, Branch], None),
            (vec![Empty, Edge], None),
        ]
    );
}

#[test]
fn insert_lands_after_values_at_most_it() {
    let mut t: BinaryTree<u32> = Leaf;
    for v in [10u32, 5, 15, 7] {
        t.insert(v);
    }
    t.insert(7);
    assert_eq!(t.to_vec(), vec![&5, &7, &7, &10, &15]);
    t.insert(12);
    assert_eq!(t.to_vec(), vec![&5, &7, &7, &10, &12, &15]);
}

#[test]
fn rebalance_keeps_in_order_sequence_and_search_tree() {
    let mut t = Node(
        "E",
        Box::new(Node("B", Box::new(leaf_node("A")), Box::new(Node("D", Box::new(leaf_node("C")), Box::new(Leaf))))),
        Box::new(Leaf),
    );
    let before: Vec<&str> = t.to_vec().into_iter().copied().collect();
    t.rebalance();
    let after: Vec<&str> = t.to_vec().into_iter().copied().collect();
    assert_eq!(before, after);
    assert!(t.sorted());
}
