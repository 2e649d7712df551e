use formal::owned::{Tree, TraversalDepth};

#[test]
fn v2_it_works() {
    let mut t0 = Tree::new(0);
    t0.append_value(1);
    let mut t1 = Tree::new(2);
    t1.append_value(3);
    t1.append_value(4);
    t0.append_tree(t1);

    let mut t2 = t0.clone();
    assert_eq!(t0, t2);
    t2.append_value(5);
    assert_ne!(t0, t2);

    let mut tr = t0.traverse();
    assert_eq!(tr.next(), Some(&0));
    assert_eq!(tr.next(), Some(&1));
    assert_eq!(tr.next(), Some(&2));
    assert_eq!(tr.next(), Some(&3));
    assert_eq!(tr.next(), Some(&4));

    let t9 = Tree::new("a".to_string());
    assert_eq!(t9.to_string(), "a");
}

#[test]
fn cursor() {
    let mut t0 = "a(b c(d e) f(g))".parse::<Tree<_>>().unwrap();
    let b_path = [0];
    let d_path = [1, 0];
    let f_path = [2];
    let cursor = t0.cursor_at(&d_path).unwrap();
    assert_eq!(cursor.get(), "d");
    let mut cursor_mut = t0.cursor_mut_at(&b_path).unwrap();
    assert_eq!(cursor_mut.get(), "b");
    cursor_mut.append_value("0".to_string());
    cursor_mut = t0.cursor_mut_at(&f_path).unwrap();
    cursor_mut.append_value("h".to_string());
    let t1 = "F(x y z)".parse::<Tree<_>>().unwrap();
    cursor_mut = t0.cursor_mut_at(&d_path).unwrap();
    cursor_mut.append_tree(t1);
    let t2 = "a(b(0) c(d(F(x y z)) e) f(g h))".parse::<Tree<_>>().unwrap();
    assert_eq!(t0, t2);
}

#[test]
fn cursors_move_and_fail_cleanly() {
    let t: Tree<String> = "a(b c(d))".parse().unwrap();
    assert!(t.cursor_at(&[5]).is_none());
    let mut c = t.cursor();
    assert_eq!(c.get(), "a");
    assert!(c.move_to_child(3).is_err());
    assert!(c.move_to_child(1).is_ok());
    assert_eq!(c.get(), "c");
    let d = c.clone_child(0).unwrap();
    assert_eq!(d.get(), "d");
    let names: Vec<String> = {
        let mut it = t.cursor().children();
        let mut v = Vec::new();
        while let Some(k) = it.next() {
            v.push(k.get().clone());
        }
        v
    };
    assert_eq!(names, vec!["b", "c"]);
    assert_eq!(t.to_string(), "a(b c(d))");
}

#[test]
fn depths_and_children() {
    let mut t = Tree::new(1);
    t.append_value(2);
    let mut u = Tree::new(3);
    u.append_value(4);
    t.append_tree(u);
    let mut it = TraversalDepth::new(&t);
    let mut seen = Vec::new();
    while let Some((v, d)) = it.next() {
        seen.push((*v, d));
    }
    assert_eq!(seen, vec![(1, 0), (2, 1), (3, 1), (4, 2)]);
    assert_eq!(t.clone_child(1).unwrap().to_string(), "3(4)");
    assert!(t.clone_child(2).is_none());
    assert_eq!(*t.get_value_root(), 1);
}
