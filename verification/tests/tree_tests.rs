use fuzzy_tree::document::Document;
use fuzzy_tree::tree::{Node, Tree};

fn count_nodes(d: &Document) -> usize {
    match d {
        Document::Null => 0,
        Document::Object { value: _, children } => {
            let mut n: usize = 1;
            for c in children {
                n += count_nodes(c);
            }
            n
        }
    }
}

fn check_order(node: &Node, lo: Option<i32>, hi: Option<i32>) -> bool {
    if let Some(l) = lo {
        if node.value <= l {
            return false;
        }
    }
    if let Some(h) = hi {
        if node.value > h {
            return false;
        }
    }
    let left_ok = match &node.left {
        None => true,
        Some(n) => check_order(n, lo, Some(node.value)),
    };
    let right_ok = match &node.right {
        None => true,
        Some(n) => check_order(n, Some(node.value), hi),
    };
    left_ok && right_ok
}

#[test]
fn empty_tree_serializes_to_null() {
    let t = Tree::new();
    assert_eq!(t.to_json(), Document::Null);
}

#[test]
fn single_value_serializes_to_childless_object() {
    let mut t = Tree::new();
    t.insert(7);
    assert_eq!(
        t.to_json(),
        Document::Object {
            value: 7,
            children: vec![],
        }
    );
}

#[test]
fn duplicate_values_descend_left() {
    let mut t = Tree::new();
    t.insert(5);
    t.insert(5);
    let root = t.root.as_ref().expect("root");
    assert_eq!(root.value, 5);
    assert!(root.right.is_none());
    let left = root.left.as_ref().expect("left child");
    assert_eq!(left.value, 5);
    assert!(left.left.is_none());
    assert!(left.right.is_none());
}

#[test]
fn raw_insert_sequence_serializes_nested() {
    let mut t = Tree::new();
    for v in [8, 3, 10, 1] {
        t.insert(v);
    }
    let expected = Document::Object {
        value: 8,
        children: vec![
            Document::Object {
                value: 3,
                children: vec![Document::Object {
                    value: 1,
                    children: vec![],
                }],
            },
            Document::Object {
                value: 10,
                children: vec![],
            },
        ],
    };
    assert_eq!(t.to_json(), expected);
}

#[test]
fn inserts_keep_order_and_node_count() {
    let values = [13, -4, 0, 13, 99, -4, 7, 2147483647, -2147483648, 13];
    let mut t = Tree::new();
    for (i, v) in values.iter().enumerate() {
        t.insert(*v);
        assert_eq!(count_nodes(&t.to_json()), i + 1);
    }
    let root = t.root.as_ref().expect("root");
    assert!(check_order(root, None, None));
}

#[test]
fn node_new_is_a_leaf() {
    let n = Node::new(42);
    assert_eq!(n.value, 42);
    assert!(n.left.is_none());
    assert!(n.right.is_none());
}

#[test]
fn right_only_child_occupies_first_children_slot() {
    let mut t = Tree::new();
    t.insert(1);
    t.insert(2);
    assert_eq!(
        t.to_json(),
        Document::Object {
            value: 1,
            children: vec![Document::Object {
                value: 2,
                children: vec![],
            }],
        }
    );
}
