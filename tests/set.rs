use graf::{Node, NodeSet};

#[test]
fn empty_new() {
    let set = NodeSet::new();
    let nodes: Vec<Node> = (0..10).map(Node).collect();
    for n in nodes {
        assert!(!set.has(n));
    }
}

#[test]
fn empty_with_capacity() {
    let set = NodeSet::with_capacity(30);
    let nodes: Vec<Node> = (0..10).map(Node).collect();
    for n in nodes {
        assert!(!set.has(n));
    }
}

#[test]
fn with_capacity_insert() {
    let mut set = NodeSet::with_capacity(30);
    let nodes: Vec<Node> = (0..10).map(Node).collect();
    let new = set.add(nodes[9]);
    assert!(new);
    assert!(set.has(nodes[9]));
    for &n in &nodes[0..9] {
        assert!(!set.has(n));
    }
    assert!(set.has(nodes[9]));
}

#[test]
fn is_empty() {
    let mut set = NodeSet::with_capacity(30);
    let nodes: Vec<Node> = (0..10).map(Node).collect();
    assert!(set.is_empty());
    set.add(nodes[0]);
    assert!(!set.is_empty());

    set.add(nodes[0]);
    assert!(!set.is_empty());

    set.add(nodes[1]);
    set.add(nodes[2]);
    assert!(!set.is_empty());

    set.remove_many(&nodes[0..=2]);
    assert!(set.is_empty());
}

#[test]
fn add_many() {
    let mut set = NodeSet::with_capacity(30);
    let nodes: Vec<Node> = (0..10).map(Node).collect();

    {
        let count = set.add_many(&[]);
        assert_eq!(count, 0);
    }

    {
        let count = set.add_many(&nodes[0..1]);
        assert_eq!(count, 1);
        assert!(set.has(nodes[0]));
    }

    {
        let count = set.add_many(&nodes[0..3]);
        assert_eq!(count, 2);
        assert!(set.has(nodes[0]));
        assert!(set.has(nodes[1]));
        assert!(set.has(nodes[2]));
    }
}

#[test]
fn remove_many() {
    let mut set = NodeSet::with_capacity(30);
    let nodes: Vec<Node> = (0..10).map(Node).collect();

    {
        let count = set.remove_many(&[]);
        assert_eq!(count, 0)
    }

    {
        let count = set.remove_many(&nodes[0..10]);
        assert_eq!(count, 0)
    }

    set.add_many(&nodes[0..10]);

    {
        let count = set.remove_many(&nodes[0..1]);
        assert_eq!(count, 1);
        assert!(!set.has(nodes[0]));
    }

    {
        let count = set.remove_many(&nodes[0..3]);
        assert_eq!(count, 2);
        assert!(!set.has(nodes[0]));
        assert!(!set.has(nodes[1]));
        assert!(!set.has(nodes[2]));
    }
}

#[test]
fn clear() {
    let mut set = NodeSet::with_capacity(30);
    let nodes: Vec<Node> = (0..10).map(Node).collect();
    assert!(set.is_empty());
    set.add(nodes[0]);
    set.clear();
    assert!(set.is_empty());

    set.add(nodes[0]);
    set.add(nodes[1]);
    assert!(!set.is_empty());
    set.clear();
    assert!(set.is_empty());

    for node in nodes {
        assert!(!set.has(node));
    }
}

#[test]
fn simple() {
    let mut set = NodeSet::with_capacity(30);
    let nodes: Vec<Node> = (0..10).map(Node).collect();
    assert!(set.is_empty());
    for (i, &n) in nodes.iter().enumerate() {
        if i % 2 == 0 {
            let added = set.add(n);
            assert!(added);
            assert!(set.has(n));
        } else {
            assert!(!set.has(n));
        }
    }
    assert!(!set.is_empty());

    for (i, &n) in nodes.iter().enumerate() {
        if i % 2 == 0 {
            assert!(set.has(n));
        } else {
            assert!(!set.has(n));
        }
    }

    set.clear();
    assert!(set.is_empty());
}

#[test]
fn add_reports_only_new_nodes() {
    let mut set = NodeSet::new();
    assert!(set.add(Node(3)));
    assert!(!set.add(Node(3)));
    assert_eq!(set.size(), 1);
}

#[test]
fn add_many_counts_duplicates_once() {
    let mut set = NodeSet::new();
    let count = set.add_many(&[Node(4), Node(4), Node(1)]);
    assert_eq!(count, 2);
    assert_eq!(set.size(), 2);
}

#[test]
fn remove_reports_presence() {
    let mut set = NodeSet::new();
    set.add(Node(2));
    assert!(!set.remove(Node(1)));
    assert!(!set.remove(Node(100)));
    assert!(set.remove(Node(2)));
    assert!(!set.has(Node(2)));
}

#[test]
fn to_vec_is_ascending() {
    let mut set = NodeSet::new();
    set.add(Node(7));
    set.add(Node(0));
    set.add(Node(3));
    set.remove(Node(3));
    set.add(Node(5));
    assert_eq!(set.to_vec(), vec![Node(0), Node(5), Node(7)]);
}

#[test]
fn size_counts_present_nodes() {
    let mut set = NodeSet::with_capacity(4);
    assert_eq!(set.size(), 0);
    set.add_many(&[Node(0), Node(9), Node(2)]);
    assert_eq!(set.size(), 3);
    set.remove(Node(9));
    assert_eq!(set.size(), 2);
    set.clear();
    assert_eq!(set.size(), 0);
}
