use vector_stats::rect::Rectangle;

#[test]
fn area_is_the_product_of_the_sides() {
    let rec1 = Rectangle { width: 30, length: 40 };
    assert_eq!(rec1.area(), 1200);
}

#[test]
fn can_hold_needs_both_sides_strictly_larger() {
    let rec1 = Rectangle { width: 30, length: 40 };
    let rec2 = Rectangle { width: 40, length: 50 };
    assert!(!rec1.can_hold(rec2));
    assert!(rec2.can_hold(rec1));
    let same = Rectangle { width: 30, length: 40 };
    assert!(!rec1.can_hold(same));
}
