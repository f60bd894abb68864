use symbolon::value::{V, deep_eq, is_pair, truthy, top};

#[test]
fn deep_eq_compares_structure() {
    let a = V::P(Box::new(V::I(1)), Box::new(V::Nil));
    let b = V::P(Box::new(V::I(1)), Box::new(V::Nil));
    let c = V::P(Box::new(V::I(2)), Box::new(V::Nil));
    assert!(deep_eq(&a, &b));
    assert!(!deep_eq(&a, &c));
    assert!(is_pair(&a));
    assert!(!is_pair(&V::Nil));
}

#[test]
fn truthy_is_everything_but_zero() {
    assert!(!truthy(&V::I(0)));
    assert!(truthy(&V::I(-3)));
    assert!(truthy(&V::Nil));
}

#[test]
fn top_takes_the_car() {
    let v = V::P(Box::new(V::I(7)), Box::new(V::Nil));
    assert!(deep_eq(&top(v), &V::I(7)));
    assert!(deep_eq(&top(V::I(4)), &V::I(4)));
}
