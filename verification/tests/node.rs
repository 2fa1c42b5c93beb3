use calculator::node::{Node, Tree};

#[test]
fn node_new_is_alone() {
    let node: Node<i32> = Node::new(Some(5));
    assert_eq!(node.value(), &Some(5));
    assert_eq!(node.len_children(), 0);
    assert!(node.children().is_empty());
    assert_eq!(node.parent(), None);
    let empty: Node<i32> = Node::new(None);
    assert_eq!(empty.value(), &None);
}

#[test]
fn node_set_value_and_parent() {
    let mut node: Node<i32> = Node::new(None);
    node.set_value(7);
    assert_eq!(node.value(), &Some(7));
    node.set_parent(3, 1);
    assert_eq!(node.parent(), Some((3, 1)));
    assert_eq!(node.len_children(), 0);
}

#[test]
fn tree_insert_numbers_nodes_in_order() {
    let mut tree: Tree<i32> = Tree::new();
    assert_eq!(tree.len(), 0);
    let a = tree.insert(Node::new(Some(1)));
    let b = tree.insert(Node::new(None));
    assert_eq!((a, b), (0, 1));
    assert_eq!(tree.len(), 2);
    assert_eq!(tree.value(a), &Some(1));
    assert_eq!(tree.value(b), &None);
    assert_eq!(tree.node(a).value(), &Some(1));
    tree.set_value(b, 9);
    assert_eq!(tree.value(b), &Some(9));
    assert_eq!(tree.value(a), &Some(1));
}

#[test]
fn tree_add_child_keeps_back_references() {
    let mut tree: Tree<char> = Tree::new();
    let p = tree.insert(Node::new(Some('p')));
    let a = tree.insert(Node::new(Some('a')));
    let b = tree.insert(Node::new(Some('b')));
    tree.add_child(p, a);
    tree.add_child(p, b);
    assert_eq!(tree.len_children(p), 2);
    assert_eq!(tree.child(p, 0), a);
    assert_eq!(tree.child(p, 1), b);
    assert_eq!(tree.parent(a), Some((p, 0)));
    assert_eq!(tree.parent(b), Some((p, 1)));
    assert_eq!(tree.parent(p), None);
    assert_eq!(tree.root(a), p);
    assert_eq!(tree.root(b), p);
    assert_eq!(tree.root(p), p);
}

#[test]
fn tree_replace_child_splices_a_node_in() {
    let mut tree: Tree<char> = Tree::new();
    let p = tree.insert(Node::new(Some('p')));
    let a = tree.insert(Node::new(Some('a')));
    let b = tree.insert(Node::new(Some('b')));
    tree.add_child(p, a);
    tree.add_child(p, b);
    let n = tree.insert(Node::new(Some('n')));
    tree.add_child(n, b);
    tree.replace_child(p, 1, n);
    assert_eq!(tree.len_children(p), 2);
    assert_eq!(tree.child(p, 0), a);
    assert_eq!(tree.child(p, 1), n);
    assert_eq!(tree.parent(n), Some((p, 1)));
    assert_eq!(tree.child(n, 0), b);
    assert_eq!(tree.parent(b), Some((n, 0)));
    assert_eq!(tree.root(b), p);
}

#[test]
fn tree_set_parent_changes_only_the_back_reference() {
    let mut tree: Tree<i32> = Tree::new();
    let a = tree.insert(Node::new(Some(1)));
    let b = tree.insert(Node::new(Some(2)));
    tree.set_parent(b, a, 4);
    assert_eq!(tree.parent(b), Some((a, 4)));
    assert_eq!(tree.len_children(a), 0);
    assert_eq!(tree.root(b), a);
}
