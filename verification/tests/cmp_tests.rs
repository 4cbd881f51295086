use json_dom::value::Value;

#[test]
fn test_union_cmp() {
    let v: Value = ().into();
    assert_eq!(v, ())
}

#[test]
fn test_bool_cmp() {
    let v: Value = true.into();
    assert_eq!(v, true);
    let v: Value = false.into();
    assert_eq!(v, false);
}

#[test]
fn equality_ignores_storage_mode() {
    let borrowed = Value::from("abc");
    let owned = Value::from(String::from("abc"));
    assert_eq!(borrowed, owned);
    assert_eq!(owned, borrowed);
    assert!(borrowed.equals(&owned));
    assert!(owned.equals(&borrowed));
}

#[test]
fn equality_reflexive_and_symmetric() {
    let mut v = Value::object();
    v.insert("a", Value::from(1)).unwrap();
    let mut arr = Value::array();
    arr.push(Value::from("x")).unwrap();
    arr.push(Value::from(2u64)).unwrap();
    v.insert("b", arr).unwrap();
    assert!(v.equals(&v));
    let w = v.clone();
    assert!(v.equals(&w));
    assert!(w.equals(&v));
}

#[test]
fn equality_ignores_object_order() {
    let mut a = Value::object();
    a.insert("x", Value::from(1)).unwrap();
    a.insert("y", Value::from(2)).unwrap();
    let mut b = Value::object();
    b.insert("y", Value::from(2)).unwrap();
    b.insert("x", Value::from(1)).unwrap();
    assert_eq!(a, b);
    assert_eq!(b, a);
}

#[test]
fn cross_signedness_integer_equality() {
    assert_eq!(Value::from(7i64), Value::from(7u64));
    assert_eq!(Value::from(7u64), Value::from(7i64));
    assert_ne!(Value::from(-1i64), Value::from(u64::MAX));
    assert_ne!(Value::from(1i64), Value::from(2i64));
}

#[test]
fn float_equality_identifies_zeros() {
    let pos = Value::from_f64_bits(0.0f64.to_bits());
    let neg = Value::from_f64_bits((-0.0f64).to_bits());
    assert_eq!(pos, neg);
    let nan = Value::from_f64_bits(f64::NAN.to_bits());
    assert_eq!(nan, nan.clone());
}
