use count_unique_cvm::treap_node::TreapNode;
use count_unique_cvm::{Element, Treap};

#[test]
fn an_element_is_shown_between_angle_brackets() {
    assert_eq!(Element::new("Hello", 22).to_string(), "<Hello, 22>");
    assert_eq!(Element::new(-3, String::from("x y")).to_string(), "<-3, x y>");
    assert_eq!(Element::new(String::new(), 0u8).to_string(), "<, 0>");
}

#[test]
fn a_tree_is_shown_with_its_subtrees() {
    let mut n = TreapNode::from(Element::new(20, 5));
    assert_eq!(n.to_string(), "( _ <20, 5> _ )");
    n.insert(TreapNode::from(Element::new(10, 3)));
    assert_eq!(n.to_string(), "( ( _ <10, 3> _ ) <20, 5> _ )");
    n.insert(TreapNode::from(Element::new(30, 4)));
    assert_eq!(n.to_string(), "( ( _ <10, 3> _ ) <20, 5> ( _ <30, 4> _ ) )");
    assert!(n.delete(&10));
    assert_eq!(n.to_string(), "( _ <20, 5> ( _ <30, 4> _ ) )");
}

#[test]
fn an_empty_treap_is_shown_as_nil() {
    let t: Treap<String, usize> = Treap::new();
    assert_eq!(t.to_string(), "nil");
}

#[test]
fn a_treap_is_shown_as_its_tree() {
    let mut t: Treap<String, usize> = Treap::new();
    t.insert(Element::new("A".into(), 1));
    t.insert(Element::new("B".into(), 2));
    t.insert(Element::new("C".into(), 3));
    assert_eq!(t.to_string(), "( ( ( _ <A, 1> _ ) <B, 2> _ ) <C, 3> _ )");
    t.reset();
    t.insert(Element::new("C".into(), 1));
    t.insert(Element::new("B".into(), 2));
    t.insert(Element::new("A".into(), 3));
    assert_eq!(t.to_string(), "( _ <A, 3> ( _ <B, 2> ( _ <C, 1> _ ) ) )");
    assert_eq!(t.get_max().unwrap().to_string(), "<A, 3>");
    assert_eq!(t.get("A".into()).unwrap().to_string(), "<A, 3>");
    t.insert(Element::new("C".into(), 4));
    assert_eq!(t.to_string(), "( ( _ <A, 3> ( _ <B, 2> _ ) ) <C, 4> _ )");
    assert_eq!(t.get_max().unwrap().to_string(), "<C, 4>");
}
