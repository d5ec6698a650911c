use count_unique_cvm::Element;
use std::cmp::Ordering;

#[test]
fn an_element_holds_its_value_and_priority() {
    let e0 = Element::new("Hello", 22);
    assert_eq!(*e0.value(), "Hello");
    assert_eq!(*e0.priority(), 22);
}

#[test]
fn elements_are_ordered_by_priority_first() {
    let e0 = Element::new("Hello", 22);
    let e1 = Element::new("Bye", 12);
    let e3 = Element::new("Hello", 21);
    assert!(e0 > e1);
    assert!(e3 < e0);
    assert_eq!(e1.partial_cmp(&e0), Some(Ordering::Less));
    assert_eq!(e0.partial_cmp(&e3), Some(Ordering::Greater));
    // a higher value does not make up for a lower priority
    assert!(Element::new("Zebra", 1) < Element::new("Ant", 2));
}

#[test]
fn equal_priorities_are_ordered_by_value() {
    let a = Element::new("Ant", 5);
    let b = Element::new("Bee", 5);
    assert_eq!(a.partial_cmp(&b), Some(Ordering::Less));
    assert_eq!(b.partial_cmp(&a), Some(Ordering::Greater));
    assert_eq!(a.partial_cmp(&Element::new("Ant", 5)), Some(Ordering::Equal));
    assert!(a < b);
    assert!(a <= b);
    assert!(b >= a);
}

#[test]
fn elements_are_equal_when_both_parts_are() {
    assert!(Element::new(1, 2) == Element::new(1, 2));
    assert!(Element::new(1, 2) != Element::new(1, 3));
    assert!(Element::new(1, 2) != Element::new(2, 2));
}

#[test]
fn the_total_order_agrees_with_the_partial_one() {
    let elements: Vec<Element<u8, u8>> =
        (0..40).map(|i| Element::new((i * 7) % 5, (i * 3) % 4)).collect();
    for a in &elements {
        for b in &elements {
            assert_eq!(Some(a.cmp(b)), a.partial_cmp(b));
            assert_eq!(a.cmp(b) == Ordering::Equal, a == b);
            assert_eq!(a.cmp(b), b.cmp(a).reverse());
        }
    }
    let mut sorted: Vec<(u8, u8)> =
        elements.iter().map(|e| (*e.priority(), *e.value())).collect();
    sorted.sort();
    let mut by_element: Vec<&Element<u8, u8>> = elements.iter().collect();
    by_element.sort();
    let seen: Vec<(u8, u8)> = by_element.iter().map(|e| (*e.priority(), *e.value())).collect();
    assert_eq!(seen, sorted);
}
