use ladle::arena::SliceArena;
use ladle::trees::{BoxTree, RcTree, Tree};

#[test]
fn box_tree_accessors() {
    let leaf: BoxTree<&str, u32> = BoxTree::new_leaf(7);
    assert_eq!(leaf.leaf_val(), Some(&7));
    assert_eq!(leaf.branch_val(), None);
    assert!(leaf.children().is_empty());
    let tree = BoxTree::new_branch("s", vec![BoxTree::new_leaf(1), BoxTree::new_leaf(2)]);
    assert_eq!(tree.branch_val(), Some(&"s"));
    assert_eq!(tree.leaf_val(), None);
    assert_eq!(tree.children().len(), 2);
    assert_eq!(tree.children()[1].leaf_val(), Some(&2));
}

#[test]
fn slice_arena_hands_out_runs() {
    let mut arena = SliceArena::new();
    let a = arena.allocate_slice(vec![1, 2, 3]);
    let b = arena.allocate_slice(vec![]);
    let c = arena.allocate_slice(vec![4, 5]);
    assert_eq!(arena.borrow_slice(a), &[1, 2, 3]);
    assert!(arena.borrow_slice(b).is_empty());
    assert_eq!(arena.borrow_slice(c), &[4, 5]);
}

#[test]
fn box_tree_through_the_trait() {
    let leaf = <BoxTree<u8, u8> as Tree<u8, u8>>::new_leaf(3);
    let tree = <BoxTree<u8, u8> as Tree<u8, u8>>::new_branch(9, vec![leaf]);
    assert_eq!(Tree::branch_val(&tree), Some(&9));
    assert_eq!(Tree::leaf_val(&Tree::children(&tree)[0]), Some(&3));
}

#[test]
fn rc_tree_accessors() {
    let tree: RcTree<&str, u32> = RcTree::new_branch("s", vec![RcTree::new_leaf(1), RcTree::new_leaf(2)]);
    assert_eq!(tree.branch_val(), Some(&"s"));
    assert_eq!(tree.leaf_val(), None);
    assert_eq!(tree.children().len(), 2);
    assert_eq!(tree.children()[0].leaf_val(), Some(&1));
    let leaf = <RcTree<u8, u8> as Tree<u8, u8>>::new_leaf(4);
    assert!(Tree::children(&leaf).is_empty());
}
