use json_dom::value::{Value, ValueType};

fn sample_tree() -> Value {
    let mut v = Value::object();
    v.insert("text", Value::from("borrowed words")).unwrap();
    v.insert("owned", Value::from(String::from("owned words"))).unwrap();
    let mut arr = Value::array();
    arr.push(Value::from(-5i64)).unwrap();
    arr.push(Value::from(5u64)).unwrap();
    arr.push(Value::from_f64_bits(1.25f64.to_bits())).unwrap();
    arr.push(Value::from("nested")).unwrap();
    v.insert("list", arr).unwrap();
    v.insert("flag", Value::from(true)).unwrap();
    v.insert("nothing", Value::null()).unwrap();
    v
}

#[test]
fn consuming_promotion_preserves_equality() {
    let v = sample_tree();
    let promoted = v.clone().into_static();
    assert_eq!(v, promoted);
    assert!(v.equals(&promoted));
}

#[test]
fn cloning_promotion_preserves_equality_and_source() {
    let v = sample_tree();
    let promoted = v.clone_static();
    assert_eq!(v, promoted);
    assert!(v.equals(&promoted));
    // The source stays usable and unchanged.
    assert_eq!(v.value_type(), ValueType::Object);
    assert_eq!(v.get("flag"), Some(&Value::from(true)));
    assert_eq!(v, sample_tree());
}

#[test]
fn promotion_keeps_key_order() {
    let v = sample_tree();
    let promoted = v.clone_static();
    let before = v.as_object().unwrap();
    let after = promoted.as_object().unwrap();
    assert_eq!(before.len(), after.len());
    for i in 0..before.len() {
        assert_eq!(before[i].0.as_str(), after[i].0.as_str());
    }
}

#[test]
fn clone_is_deep_and_equal() {
    let v = sample_tree();
    let mut w = v.clone();
    assert_eq!(v, w);
    w.insert("extra", Value::from(1)).unwrap();
    assert_ne!(v, w);
    assert!(v.get("extra").is_none());
}

#[test]
fn default_is_null() {
    let v = Value::default();
    assert!(v.is_null());
    assert_eq!(v, ());
}
