use count_unique_cvm::treap_node::TreapNode;
use count_unique_cvm::Element;

fn leaf(v: u32, p: u32) -> TreapNode<u32, u32> {
    TreapNode::from(Element::new(v, p))
}

fn node(
    left: Option<TreapNode<u32, u32>>,
    v: u32,
    p: u32,
    right: Option<TreapNode<u32, u32>>,
) -> TreapNode<u32, u32> {
    TreapNode { element: Element::new(v, p), left: left.map(Box::new), right: right.map(Box::new) }
}

fn print(n: &TreapNode<u32, u32>) -> String {
    let left = match &n.left {
        None => String::from("_"),
        Some(l) => print(l),
    };
    let right = match &n.right {
        None => String::from("_"),
        Some(r) => print(r),
    };
    format!("({} {}:{} {})", left, n.element.value(), n.element.priority(), right)
}

#[test]
fn a_node_from_an_element_is_a_leaf() {
    let n = leaf(3, 9);
    assert_eq!(print(&n), "(_ 3:9 _)");
    let m: TreapNode<u32, u32> = Element::new(4, 1).into();
    assert_eq!(print(&m), "(_ 4:1 _)");
}

#[test]
fn rotate_right_lifts_the_left_child() {
    //       q               p
    //      / \             / \
    //     p  C   --->     A  q
    //    / \                / \
    //   A  B               B  C
    let p = node(Some(leaf(10, 1)), 20, 5, Some(leaf(30, 2)));
    let mut q = node(Some(p), 40, 9, Some(leaf(50, 3)));
    q.rotate_right();
    assert_eq!(print(&q), "((_ 10:1 _) 20:5 ((_ 30:2 _) 40:9 (_ 50:3 _)))");
    q.rotate_left();
    assert_eq!(print(&q), "(((_ 10:1 _) 20:5 (_ 30:2 _)) 40:9 (_ 50:3 _))");
}

#[test]
fn rotate_left_lifts_the_right_child() {
    let q = node(Some(leaf(30, 2)), 40, 9, Some(leaf(50, 3)));
    let mut p = node(Some(leaf(10, 1)), 20, 5, Some(q));
    p.left_rotate();
    assert_eq!(print(&p), "(((_ 10:1 _) 20:5 (_ 30:2 _)) 40:9 (_ 50:3 _))");
    p.right_rotate();
    assert_eq!(print(&p), "((_ 10:1 _) 20:5 ((_ 30:2 _) 40:9 (_ 50:3 _)))");
}

#[test]
fn rotating_towards_a_missing_child_changes_nothing() {
    let mut n = node(None, 20, 5, Some(leaf(30, 2)));
    n.rotate_right();
    assert_eq!(print(&n), "(_ 20:5 (_ 30:2 _))");
    let mut n = node(Some(leaf(10, 2)), 20, 5, None);
    n.rotate_left();
    assert_eq!(print(&n), "((_ 10:2 _) 20:5 _)");
    let mut n = leaf(1, 1);
    n.rotate_left();
    n.rotate_right();
    assert_eq!(print(&n), "(_ 1:1 _)");
}

#[test]
fn heap_check_compares_with_the_root_of_the_subtree() {
    let n = leaf(20, 5);
    assert!(n.heap_check(&None));
    assert!(n.heap_check(&Some(Box::new(leaf(10, 4)))));
    assert!(n.heap_check(&Some(Box::new(leaf(10, 5)))));
    assert!(!n.heap_check(&Some(Box::new(leaf(10, 6)))));
    // only the root of the subtree counts
    let deep = node(Some(leaf(5, 99)), 10, 1, None);
    assert!(n.heap_check(&Some(Box::new(deep))));
}

#[test]
fn insert_or_replace_tells_whether_a_node_was_created() {
    let mut n = leaf(20, 5);
    assert!(n.insert_or_replace(leaf(10, 3)));
    assert!(n.insert_or_replace(leaf(30, 4)));
    assert_eq!(print(&n), "((_ 10:3 _) 20:5 (_ 30:4 _))");
    assert!(!n.insert_or_replace(leaf(10, 4)));
    assert_eq!(print(&n), "((_ 10:4 _) 20:5 (_ 30:4 _))");
    assert!(!n.insert_or_replace(leaf(20, 7)));
    assert_eq!(print(&n), "((_ 10:4 _) 20:7 (_ 30:4 _))");
    assert!(n.insert_or_replace(leaf(25, 9)));
    assert_eq!(print(&n), "(((_ 10:4 _) 20:7 _) 25:9 (_ 30:4 _))");
    assert!(n.maintains_heap());
}

#[test]
fn replacing_with_a_lower_priority_sinks_the_node() {
    let mut n = node(
        Some(node(Some(leaf(5, 2)), 10, 10, Some(leaf(15, 3)))),
        20,
        50,
        Some(node(Some(leaf(25, 1)), 30, 40, None)),
    );
    assert!(n.maintains_heap());
    assert!(!n.insert_or_replace(leaf(20, 4)));
    // 30 is lifted first, then 10; below 10 the node is in its place
    assert_eq!(print(&n), "(((_ 5:2 _) 10:10 ((_ 15:3 _) 20:4 (_ 25:1 _))) 30:40 _)");
    assert!(n.maintains_heap());
}

#[test]
fn insert_is_insert_or_replace() {
    let mut a = leaf(20, 5);
    let mut b = leaf(20, 5);
    for (v, p) in [(10, 3), (30, 8), (10, 9), (25, 1), (27, 6)] {
        a.insert(leaf(v, p));
        let _ = b.insert_or_replace(leaf(v, p));
        assert_eq!(print(&a), print(&b));
    }
    assert_eq!(print(&a), "(_ 10:9 (((_ 20:5 (_ 25:1 _)) 27:6 _) 30:8 _))");
}

#[test]
fn get_walks_by_value() {
    let n = node(Some(leaf(10, 10)), 20, 50, Some(node(Some(leaf(25, 1)), 30, 40, None)));
    assert_eq!(*n.get(25).unwrap().priority(), 1);
    assert_eq!(*n.get(20).unwrap().priority(), 50);
    assert_eq!(*n.get(10).unwrap().value(), 10);
    assert!(n.get(26).is_none());
    assert!(n.get(0).is_none());
    assert!(n.get(31).is_none());
}

#[test]
fn get_mut_node_hands_out_the_node_in_place() {
    let mut n = node(Some(leaf(10, 10)), 20, 50, Some(node(Some(leaf(25, 1)), 30, 40, None)));
    assert!(n.get_mut_node(26).is_none());
    assert_eq!(print(n.get_mut_node(30).unwrap()), "((_ 25:1 _) 30:40 _)");
    n.get_mut_node(30).unwrap().rotate_right();
    assert_eq!(print(&n), "((_ 10:10 _) 20:50 (_ 25:1 (_ 30:40 _)))");
    *n.get_mut_node(10).unwrap() = leaf(11, 2);
    assert_eq!(print(&n), "((_ 11:2 _) 20:50 (_ 25:1 (_ 30:40 _)))");
    assert_eq!(print(n.get_mut_node(20).unwrap()), "((_ 11:2 _) 20:50 (_ 25:1 (_ 30:40 _)))");
}

#[test]
fn delete_below_the_root() {
    let mut n = node(
        Some(node(Some(leaf(5, 2)), 10, 10, Some(leaf(15, 3)))),
        20,
        50,
        Some(node(Some(leaf(25, 1)), 30, 40, None)),
    );
    assert!(!n.delete(&26));
    assert!(!n.delete(&4));
    assert_eq!(print(&n), "(((_ 5:2 _) 10:10 (_ 15:3 _)) 20:50 ((_ 25:1 _) 30:40 _))");
    assert!(n.delete(&30));
    assert_eq!(print(&n), "(((_ 5:2 _) 10:10 (_ 15:3 _)) 20:50 (_ 25:1 _))");
    assert!(n.delete(&10));
    assert_eq!(print(&n), "(((_ 5:2 _) 15:3 _) 20:50 (_ 25:1 _))");
    assert!(n.delete(&5));
    assert!(n.delete(&25));
    assert_eq!(print(&n), "((_ 15:3 _) 20:50 _)");
    assert!(!n.delete(&25));
    assert!(n.maintains_heap());
}

#[test]
fn maintains_heap_looks_at_every_node() {
    assert!(leaf(1, 1).maintains_heap());
    assert!(node(Some(leaf(1, 3)), 2, 3, Some(leaf(3, 0))).maintains_heap());
    assert!(!node(Some(leaf(1, 4)), 2, 3, Some(leaf(3, 0))).maintains_heap());
    assert!(!node(Some(leaf(1, 1)), 2, 3, Some(leaf(3, 4))).maintains_heap());
    let deep = node(Some(node(None, 1, 2, Some(leaf(2, 3)))), 5, 9, None);
    assert!(!deep.maintains_heap());
    let deep = node(Some(node(None, 1, 3, Some(leaf(2, 3)))), 5, 9, None);
    assert!(deep.maintains_heap());
}
