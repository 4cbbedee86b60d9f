use dust::node::{to_display, DisplayNode, Node};

fn leaf(name: &str, size: u64) -> DisplayNode {
    DisplayNode { name: name.to_string(), size, children: Vec::new() }
}

#[test]
fn num_siblings_counts_children() {
    let n = DisplayNode {
        name: "/r".to_string(),
        size: 3,
        children: vec![leaf("/r/a", 1), leaf("/r/b", 2)],
    };
    assert_eq!(n.num_siblings(), 2);
    assert_eq!(leaf("/x", 0).num_siblings(), 0);
}

#[test]
fn children_come_back_in_stored_order() {
    let n = DisplayNode {
        name: "/r".to_string(),
        size: 6,
        children: vec![leaf("/r/a", 1), leaf("/r/b", 2), leaf("/r/c", 3)],
    };
    let out = n.get_children_from_node(false);
    assert_eq!(out.len(), 3);
    assert_eq!(out[0].name, "/r/a");
    assert_eq!(out[1].name, "/r/b");
    assert_eq!(out[2].name, "/r/c");
}

#[test]
fn children_come_back_reversed_on_request() {
    let n = DisplayNode {
        name: "/r".to_string(),
        size: 6,
        children: vec![leaf("/r/a", 1), leaf("/r/b", 2), leaf("/r/c", 3)],
    };
    let out = n.get_children_from_node(true);
    assert_eq!(out.len(), 3);
    assert_eq!(out[0].name, "/r/c");
    assert_eq!(out[1].name, "/r/b");
    assert_eq!(out[2].name, "/r/a");
}

#[test]
fn display_order_is_by_size_then_name() {
    let small = leaf("/r/z", 1);
    let big = leaf("/r/a", 2);
    assert!(small.le(&big));
    assert!(!big.le(&small));

    let a = leaf("/r/a", 5);
    let b = leaf("/r/b", 5);
    assert!(a.le(&b));
    assert!(!b.le(&a));
    assert!(a.le(&a));

    let short = leaf("/r/ab", 5);
    let long = leaf("/r/abc", 5);
    assert!(short.le(&long));
    assert!(!long.le(&short));
}

#[test]
fn node_order_matches_display_order() {
    let a = Node { name: "/r/a".to_string(), size: 5, children: Vec::new(), inode_device: None };
    let b = Node {
        name: "/r/b".to_string(),
        size: 4,
        children: Vec::new(),
        inode_device: Some((1, 2)),
    };
    assert!(b.le(&a));
    assert!(!a.le(&b));
}

#[test]
fn conversion_to_display_drops_identity_and_keeps_the_rest() {
    let n = Node {
        name: "/r".to_string(),
        size: 30,
        children: vec![Node {
            name: "/r/a".to_string(),
            size: 20,
            children: Vec::new(),
            inode_device: Some((1, 2)),
        }],
        inode_device: Some((1, 1)),
    };
    let d = to_display(&n);
    assert_eq!(d.name, "/r");
    assert_eq!(d.size, 30);
    assert_eq!(d.children.len(), 1);
    assert_eq!(d.children[0].name, "/r/a");
    assert_eq!(d.children[0].size, 20);
    assert!(d.children[0].children.is_empty());
}

#[test]
fn clone_copies_the_whole_tree() {
    let n = DisplayNode {
        name: "/r".to_string(),
        size: 6,
        children: vec![DisplayNode {
            name: "/r/s".to_string(),
            size: 5,
            children: vec![leaf("/r/s/c", 4)],
        }],
    };
    let c = n.clone();
    assert_eq!(c.name, "/r");
    assert_eq!(c.size, 6);
    assert_eq!(c.children.len(), 1);
    assert_eq!(c.children[0].name, "/r/s");
    assert_eq!(c.children[0].children[0].size, 4);
}
