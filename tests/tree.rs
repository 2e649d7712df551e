use formal::tree::{parse_tree, parse_trees, Tree, TreeTextError};
use std::str::FromStr;

#[test]
fn v3_it_works() {
    let mut tree = Tree::new(0);
    let two = tree.push(tree.root_id(), 2);
    tree.push(tree.root_id(), 4);
    tree.push(two, 6);
    assert_eq!(tree.to_string(), "0(2(6) 4)");
    let tree = Tree::<String>::from_str("a (b(01 02())c d(e))").unwrap();
    assert_eq!(tree.to_string(), "a(b(01 02) c d(e))");
    let tree: Tree<String> = "->(a ->(->(b a) a))".parse().unwrap();
    assert_eq!(tree.subtree_root(), tree.subtree_root());
}

#[test]
fn test_parse_tree() {
    let trees = parse_tree("a(b (0) cc( 0 1 ) d()) f(x) () (y z) g ").unwrap();
    for (i, tree) in trees.iter().enumerate() {
        println!("{}: {}", i, tree.to_string());
    }
}

#[test]
fn parse_tree_groups_children() {
    let trees = parse_trees("a(b (0) cc( 0 1 ) d()) f(x) () (y z) g ").unwrap();
    let shown: Vec<String> = trees.iter().map(|t| t.to_string()).collect();
    assert_eq!(shown, vec!["a(b(0) cc(0 1) d)", "f(x y z)", "g"]);
}

#[test]
fn tree_text_errors() {
    assert_eq!(parse_trees("(a)").err(), Some(TreeTextError::MissingParent));
    assert_eq!(parse_trees("a((b))").err(), Some(TreeTextError::MissingParent));
    assert_eq!(parse_trees("a)").err(), Some(TreeTextError::MissingParenL));
    assert_eq!(Tree::<String>::from_str("  ").err(), Some(TreeTextError::Empty));
    assert_eq!(Tree::<String>::from_str("a b").err(), Some(TreeTextError::Multiple));
}

#[test]
fn structural_equality_ignores_ids() {
    let mut a = Tree::new("f".to_string());
    let x = a.push(a.root_id(), "x".to_string());
    a.push(x, "y".to_string());
    a.push(a.root_id(), "z".to_string());
    let b: Tree<String> = "f(x(y) z)".parse().unwrap();
    assert_eq!(a.subtree_root(), b.subtree_root());
    let c: Tree<String> = "f(z x(y))".parse().unwrap();
    assert_ne!(a.subtree_root(), c.subtree_root());
    assert_eq!(a.subtree(x), b.subtree(b.children_root().next().unwrap()));
}

#[test]
fn paste_replaces_in_place() {
    let mut t: Tree<String> = "f(a g(b c) d)".parse().unwrap();
    let src: Tree<String> = "h(e)".parse().unwrap();
    let mut kids = t.children_root();
    kids.next();
    let g = kids.next().unwrap();
    t.paste(g, src.subtree_root());
    assert_eq!(t.to_string(), "f(a h(e) d)");
    let root = t.root_id();
    t.paste(root, src.subtree_root());
    assert_eq!(t.to_string(), "h(e)");
}

#[test]
fn replace_and_copies() {
    let mut t: Tree<String> = "f(x g(x y) x)".parse().unwrap();
    let from = Tree::new("x".to_string());
    let to: Tree<String> = "k(x)".parse().unwrap();
    t.replace(from.subtree_root(), to.subtree_root());
    assert_eq!(t.to_string(), "f(k(x) g(k(x) y) k(x))");
    let mut kids = t.children_root();
    kids.next();
    let g = kids.next().unwrap();
    let copy = t.clone_sub(g);
    assert_eq!(copy.to_string(), "g(k(x) y)");
    let gc = t.subtree(g).ids().next().unwrap();
    let cut = t.cut_off(g);
    assert!(!t.contains_id(g));
    assert!(!t.contains_id(gc));
    assert_eq!(cut.to_string(), "g(k(x) y)");
    assert_eq!(t.to_string(), "f(k(x) k(x))");
    t.insert_sub(t.root_id(), 1, cut.subtree_root());
    assert_eq!(t.to_string(), "f(k(x) g(k(x) y) k(x))");
}

#[test]
fn preorder_ids_and_children() {
    let t: Tree<String> = "a(b(c) d)".parse().unwrap();
    let mut ids = t.ids();
    let mut values = Vec::new();
    while let Some(id) = ids.next() {
        values.push(t.get(id).unwrap().clone());
    }
    assert_eq!(values, vec!["a", "b", "c", "d"]);
    let mut kids = t.subtree_root().children_root();
    let mut names = Vec::new();
    while let Some(k) = kids.next() {
        names.push(k.get_root().clone());
    }
    assert_eq!(names, vec!["b", "d"]);
    assert!(t.contains_id(t.root_id()));
    assert!(!t.contains_id(99));
    assert_eq!(t.get_root().unwrap(), "a");
    assert!(!t.get_node(t.root_id()).unwrap().is_leaf());
    assert_eq!(t.get_node(t.root_id()).unwrap().children_len(), 2);
}

#[test]
fn values_can_be_changed() {
    let mut t: Tree<String> = "f(x g(x))".parse().unwrap();
    t.replace_value(&"x".to_string(), &"y".to_string());
    assert_eq!(t.to_string(), "f(y g(y))");
    *t.get_mut_root().unwrap() = "h".to_string();
    assert_eq!(t.to_string(), "h(y g(y))");
    let root = t.root_id();
    *t.get_node_mut(root).unwrap().value_mut() = "k".to_string();
    assert_eq!(t.to_string(), "k(y g(y))");
    assert!(t.get_mut(1000).is_none());
    let other: Tree<String> = "z(w)".parse().unwrap();
    t.push_tree(root, other);
    assert_eq!(t.to_string(), "k(y g(y) z(w))");
}
