use graf::{Node, NodeMap};

#[test]
fn map_starts_empty() {
    let m: NodeMap<u32> = NodeMap::new();
    assert!(!m.has(&Node(0)));
    assert_eq!(m.get(&Node(5)), None);
    let m: NodeMap<u32> = NodeMap::with_capacity(8);
    assert!(!m.has(&Node(3)));
}

#[test]
fn map_insert_get_overwrite() {
    let mut m = NodeMap::new();
    m.insert(Node(4), 40u32);
    assert!(m.has(&Node(4)));
    assert!(!m.has(&Node(3)));
    assert!(!m.has(&Node(100)));
    assert_eq!(m.get(&Node(4)), Some(&40));
    m.insert(Node(4), 41);
    assert_eq!(m.get(&Node(4)), Some(&41));
    m.insert(Node(1), 10);
    assert_eq!(m.get(&Node(1)), Some(&10));
    assert_eq!(m.get(&Node(4)), Some(&41));
}

#[test]
fn map_get_mut_changes_value() {
    let mut m = NodeMap::new();
    m.insert(Node(2), 5u64);
    if let Some(v) = m.get_mut(&Node(2)) {
        *v = 6;
    }
    assert_eq!(m.get(&Node(2)), Some(&6));
    assert!(m.get_mut(&Node(0)).is_none());
    assert!(m.get_mut(&Node(9)).is_none());
}

#[test]
fn map_remove_returns_value() {
    let mut m = NodeMap::new();
    m.insert(Node(2), 'x');
    assert_eq!(m.remove(&Node(1)), None);
    assert_eq!(m.remove(&Node(7)), None);
    assert_eq!(m.remove(&Node(2)), Some('x'));
    assert!(!m.has(&Node(2)));
    assert_eq!(m.remove(&Node(2)), None);
}

#[test]
fn map_clear_forgets_everything() {
    let mut m = NodeMap::new();
    m.insert(Node(0), 1u8);
    m.insert(Node(6), 2u8);
    m.clear();
    assert!(!m.has(&Node(0)));
    assert!(!m.has(&Node(6)));
    m.insert(Node(6), 3u8);
    assert_eq!(m.get(&Node(6)), Some(&3));
}
