use json_dom::value::{AccessError, Object, Value, ValueType};

#[test]
fn object_access() {
    let mut v = Value::null();
    assert_eq!(v.insert("key", Value::from(())), Err(AccessError::NotAnObject));
    assert_eq!(v.remove("key"), Err(AccessError::NotAnObject));
    let mut v = Value::object();
    assert_eq!(v.insert("key", Value::from(1)), Ok(None));
    assert_eq!(v.insert("key", Value::from(2)), Ok(Some(Value::from(1))));
    assert_eq!(v.remove("key"), Ok(Some(Value::from(2))));
}

#[test]
fn array_access() {
    let mut v = Value::null();
    assert_eq!(v.push(Value::from("key")), Err(AccessError::NotAnArray));
    assert_eq!(v.pop(), Err(AccessError::NotAnArray));
    let mut v = Value::array();
    assert_eq!(v.push(Value::from(1)), Ok(()));
    assert_eq!(v.push(Value::from(2)), Ok(()));
    assert_eq!(v.pop(), Ok(Some(Value::from(2))));
    assert_eq!(v.pop(), Ok(Some(Value::from(1))));
    assert_eq!(v.pop(), Ok(None));
}

#[test]
fn conversions_i64() {
    let v = Value::from(i64::MAX);
    assert!(v.is_i128());
    assert!(v.is_u128());
    assert!(v.is_i64());
    assert!(v.is_u64());
    assert!(!v.is_i32());
    assert!(!v.is_u32());
    assert!(!v.is_i16());
    assert!(!v.is_u16());
    assert!(!v.is_i8());
    assert!(!v.is_u8());
    assert!(!v.is_f64());
    assert!(!v.is_f32());
    assert!(v.is_f64_castable());
    let v = Value::from(i64::MIN);
    assert!(v.is_i128());
    assert!(!v.is_u128());
    assert!(v.is_i64());
    assert!(!v.is_u64());
    assert!(!v.is_i32());
    assert!(!v.is_u32());
    assert!(!v.is_i16());
    assert!(!v.is_u16());
    assert!(!v.is_i8());
    assert!(!v.is_u8());
    assert!(!v.is_f64());
    assert!(!v.is_f32());
    assert!(v.is_f64_castable());
}

#[test]
fn conversions_i32() {
    let v = Value::from(i32::MAX);
    assert!(v.is_i128());
    assert!(v.is_u128());
    assert!(v.is_i64());
    assert!(v.is_u64());
    assert!(v.is_i32());
    assert!(v.is_u32());
    assert!(!v.is_i16());
    assert!(!v.is_u16());
    assert!(!v.is_i8());
    assert!(!v.is_u8());
    assert!(!v.is_f64());
    assert!(!v.is_f32());
    assert!(v.is_f64_castable());
    let v = Value::from(i32::MIN);
    assert!(v.is_i128());
    assert!(!v.is_u128());
    assert!(v.is_i64());
    assert!(!v.is_u64());
    assert!(v.is_i32());
    assert!(!v.is_u32());
    assert!(!v.is_i16());
    assert!(!v.is_u16());
    assert!(!v.is_i8());
    assert!(!v.is_u8());
    assert!(!v.is_f64());
    assert!(!v.is_f32());
    assert!(v.is_f64_castable());
}

#[test]
fn conversions_i16() {
    let v = Value::from(i16::MAX);
    assert!(v.is_i128());
    assert!(v.is_u128());
    assert!(v.is_i64());
    assert!(v.is_u64());
    assert!(v.is_i32());
    assert!(v.is_u32());
    assert!(v.is_i16());
    assert!(v.is_u16());
    assert!(!v.is_i8());
    assert!(!v.is_u8());
    assert!(!v.is_f64());
    assert!(!v.is_f32());
    assert!(v.is_f64_castable());
    let v = Value::from(i16::MIN);
    assert!(v.is_i128());
    assert!(!v.is_u128());
    assert!(v.is_i64());
    assert!(!v.is_u64());
    assert!(v.is_i32());
    assert!(!v.is_u32());
    assert!(v.is_i16());
    assert!(!v.is_u16());
    assert!(!v.is_i8());
    assert!(!v.is_u8());
    assert!(!v.is_f64());
    assert!(!v.is_f32());
    assert!(v.is_f64_castable());
    assert!(v.is_f64_castable());
}

#[test]
fn conversions_i8() {
    let v = Value::from(i8::MAX);
    assert!(v.is_i128());
    assert!(v.is_u128());
    assert!(v.is_i64());
    assert!(v.is_u64());
    assert!(v.is_i32());
    assert!(v.is_u32());
    assert!(v.is_i16());
    assert!(v.is_u16());
    assert!(v.is_i8());
    assert!(v.is_u8());
    assert!(!v.is_f64());
    assert!(!v.is_f32());
    assert!(v.is_f64_castable());
    let v = Value::from(i8::MIN);
    assert!(v.is_i128());
    assert!(!v.is_u128());
    assert!(v.is_i64());
    assert!(!v.is_u64());
    assert!(v.is_i32());
    assert!(!v.is_u32());
    assert!(v.is_i16());
    assert!(!v.is_u16());
    assert!(v.is_i8());
    assert!(!v.is_u8());
    assert!(!v.is_f64());
    assert!(!v.is_f32());
    assert!(v.is_f64_castable());
}

#[test]
fn conversions_usize() {
    let v = Value::from(usize::MIN as u64);
    assert!(v.is_i128());
    assert!(v.is_u128());
    assert!(v.is_i64());
    assert!(v.is_u64());
    assert!(v.is_usize());
    assert!(v.is_i32());
    assert!(v.is_u32());
    assert!(v.is_i16());
    assert!(v.is_u16());
    assert!(v.is_i8());
    assert!(v.is_u8());
    assert!(!v.is_f64());
    assert!(!v.is_f32());
    assert!(!v.is_f64());
    assert!(!v.is_f32());
    assert!(v.is_f64_castable());
}

#[test]
fn conversions_u64() {
    let v = Value::from(u64::MIN);
    assert!(v.is_i128());
    assert!(v.is_u128());
    assert!(v.is_i64());
    assert!(v.is_u64());
    assert!(v.is_i32());
    assert!(v.is_u32());
    assert!(v.is_i16());
    assert!(v.is_u16());
    assert!(v.is_i8());
    assert!(v.is_u8());
    assert!(!v.is_f64());
    assert!(!v.is_f32());
    assert!(v.is_f64_castable());
}

#[test]
fn conversions_u32() {
    let v = Value::from(u32::MAX);
    assert!(v.is_i128());
    assert!(v.is_u128());
    assert!(v.is_i64());
    assert!(v.is_u64());
    assert!(!v.is_i32());
    assert!(v.is_u32());
    assert!(!v.is_i16());
    assert!(!v.is_u16());
    assert!(!v.is_i8());
    assert!(!v.is_u8());
    assert!(!v.is_f64());
    assert!(!v.is_f32());
    assert!(v.is_f64_castable());
}

#[test]
fn conversions_u16() {
    let v = Value::from(u16::MAX);
    assert!(v.is_i128());
    assert!(v.is_u128());
    assert!(v.is_i64());
    assert!(v.is_u64());
    assert!(v.is_i32());
    assert!(v.is_u32());
    assert!(!v.is_i16());
    assert!(v.is_u16());
    assert!(!v.is_i8());
    assert!(!v.is_u8());
    assert!(!v.is_f64());
    assert!(!v.is_f32());
    assert!(v.is_f64_castable());
}

#[test]
fn conversions_u8() {
    let v = Value::from(u8::MAX);
    assert!(v.is_i128());
    assert!(v.is_u128());
    assert!(v.is_i64());
    assert!(v.is_u64());
    assert!(v.is_i32());
    assert!(v.is_u32());
    assert!(v.is_i16());
    assert!(v.is_u16());
    assert!(!v.is_i8());
    assert!(v.is_u8());
    assert!(!v.is_f64());
    assert!(!v.is_f32());
    assert!(v.is_f64_castable());
}

#[test]
fn conversions_f64() {
    let v = Value::from_f64_bits(f64::MAX.to_bits());
    assert!(!v.is_i64());
    assert!(!v.is_u64());
    assert!(v.is_f64());
    assert!(!v.is_f32());
    assert!(v.is_f64_castable());
    let v = Value::from_f64_bits(f64::MIN.to_bits());
    assert!(!v.is_i64());
    assert!(!v.is_u64());
    assert!(v.is_f64());
    assert!(!v.is_f32());
    assert!(v.is_f64_castable());
}

#[test]
fn conversions_f32() {
    let v = Value::from_f64_bits((f32::MAX as f64).to_bits());
    assert!(!v.is_i64());
    assert!(!v.is_u64());
    assert!(v.is_f64());
    assert!(v.is_f32());
    assert!(v.is_f64_castable());
    let v = Value::from_f64_bits((f32::MIN as f64).to_bits());
    assert!(!v.is_i64());
    assert!(!v.is_u64());
    assert!(v.is_f64());
    assert!(v.is_f32());
    assert!(v.is_f64_castable());
}

#[test]
fn conversions_array() {
    let v = Value::from(vec![Value::from(true)]);
    assert!(v.is_array());
    assert_eq!(v.value_type(), ValueType::Array);
}

#[test]
fn conversions_bool() {
    let v = Value::from(true);
    assert!(v.is_bool());
    assert_eq!(v.value_type(), ValueType::Bool);
}

#[test]
fn conversions_float() {
    let v = Value::from_f64_bits(42.0f64.to_bits());
    assert!(v.is_f64());
    assert_eq!(v.value_type(), ValueType::F64);
}

#[test]
fn conversions_int() {
    let v = Value::from(42);
    assert!(v.is_i64());
    assert_eq!(v.value_type(), ValueType::I64);
}

#[test]
fn conversions_null() {
    let v = Value::from(());
    assert!(v.is_null());
    assert_eq!(v.value_type(), ValueType::Null);
}

#[test]
fn conversions_object() {
    let v = Value::from(Object::new());
    assert!(v.is_object());
    assert_eq!(v.value_type(), ValueType::Object);
}

#[test]
fn conversions_str() {
    let v = Value::from("bla");
    assert!(v.is_str());
    assert_eq!(v.value_type(), ValueType::String);
}

#[test]
fn object_insert_remove_protocol() {
    let mut v = Value::object();
    assert_eq!(v.insert("k", Value::from(1)), Ok(None));
    assert_eq!(v.insert("k", Value::from(2)), Ok(Some(Value::from(1))));
    assert_eq!(v.remove("k"), Ok(Some(Value::from(2))));
    assert_eq!(v.remove("k"), Ok(None));
    let mut n = Value::null();
    assert_eq!(n.insert("k", Value::from(1)), Err(AccessError::NotAnObject));
    assert_eq!(n.remove("k"), Err(AccessError::NotAnObject));
}

#[test]
fn keyed_and_indexed_lookup() {
    let mut v = Value::object();
    v.insert("a", Value::from(1)).unwrap();
    v.insert("b", Value::from(2)).unwrap();
    assert_eq!(v.get("a"), Some(&Value::from(1)));
    assert_eq!(v.get("b"), Some(&Value::from(2)));
    assert!(v.get("c").is_none());
    assert!(Value::null().get("a").is_none());
    let mut a = Value::array();
    a.push(Value::from(10)).unwrap();
    a.push(Value::from(20)).unwrap();
    assert_eq!(a.get_idx(0), Some(&Value::from(10)));
    assert_eq!(a.get_idx(1), Some(&Value::from(20)));
    assert!(a.get_idx(2).is_none());
    assert!(Value::null().get_idx(0).is_none());
}

#[test]
fn typed_accessors() {
    assert_eq!(Value::from(i64::MAX).as_i64(), Some(i64::MAX));
    assert_eq!(Value::from(i64::MAX).as_u64(), Some(i64::MAX as u64));
    assert_eq!(Value::from(i64::MIN).as_u64(), None);
    assert_eq!(Value::from(u64::MAX).as_i64(), None);
    assert_eq!(Value::from(u64::MAX).as_u64(), Some(u64::MAX));
    assert_eq!(Value::from(true).as_bool(), Some(true));
    assert_eq!(Value::from(true).as_i64(), None);
    assert_eq!(Value::from("s").as_str(), Some("s"));
    assert_eq!(Value::null().as_str(), None);
    let bits = 1.5f64.to_bits();
    assert_eq!(Value::from_f64_bits(bits).as_f64_bits(), Some(bits));
    assert_eq!(Value::from(1).as_f64_bits(), None);
}

#[test]
fn float_bits_extremes() {
    let subnormal = 1.0e-310f64;
    let v = Value::from_f64_bits(subnormal.to_bits());
    assert!(v.is_f64());
    assert!(v.is_f64_castable());
    assert_eq!(v.as_f64_bits(), Some(subnormal.to_bits()));
    let v = Value::from_f64_bits(f64::INFINITY.to_bits());
    assert!(v.is_f64());
    assert!(!v.is_f32());
    let v = Value::from_f64_bits(f64::NAN.to_bits());
    assert!(v.is_f64());
    assert!(!v.is_f32());
}

#[test]
fn float_value_reads_back_exactly() {
    let samples = [
        0.0f64,
        -0.0,
        1.5,
        42.0,
        f64::MAX,
        f64::MIN,
        1.0e-310,
        f32::MIN_POSITIVE as f64,
    ];
    for f in samples {
        let v = Value::from_f64_bits(f.to_bits());
        assert!(v.is_f64());
        assert!(v.is_f64_castable());
        let back = f64::from_bits(v.as_f64_bits().unwrap());
        assert!(back == f);
        assert_eq!(back.to_bits(), f.to_bits());
    }
}

#[test]
fn array_element_update() {
    let mut a = Value::array();
    a.push(Value::from(1)).unwrap();
    a.push(Value::from(2)).unwrap();
    assert_eq!(a.set_idx(0, Value::from(9)), Ok(Some(Value::from(1))));
    assert_eq!(a.get_idx(0), Some(&Value::from(9)));
    assert_eq!(a.get_idx(1), Some(&Value::from(2)));
    assert_eq!(a.set_idx(5, Value::from(7)), Ok(None));
    assert_eq!(a.get_idx(1), Some(&Value::from(2)));
    assert!(a.get_idx(5).is_none());
    let mut n = Value::null();
    assert_eq!(n.set_idx(0, Value::from(1)), Err(AccessError::NotAnArray));
}
