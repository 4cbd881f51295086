use json_dom::builder::{BorrowDeserializer, BuildError};
use json_dom::events::{encode, Node};
use json_dom::value::{StaticNode, Text, Value};

fn build(events: Vec<Node>) -> Result<Value, BuildError> {
    let mut de = BorrowDeserializer::from_deserializer(events);
    de.parse()
}

#[test]
fn builder_array_preallocation() {
    let events = vec![
        Node::Array(3),
        Node::Static(StaticNode::I64(1)),
        Node::Static(StaticNode::I64(2)),
        Node::Static(StaticNode::I64(3)),
    ];
    let v = build(events).unwrap();
    let arr = v.as_array().unwrap();
    assert_eq!(arr.len(), 3);
    assert_eq!(v.get_idx(0), Some(&Value::from(1i64)));
    assert_eq!(v.get_idx(1), Some(&Value::from(2i64)));
    assert_eq!(v.get_idx(2), Some(&Value::from(3i64)));
}

#[test]
fn builder_object_order_matches_insertion() {
    let events = vec![
        Node::Object(2),
        Node::String(Text::Borrowed("first".to_string())),
        Node::Static(StaticNode::I64(1)),
        Node::String(Text::Borrowed("second".to_string())),
        Node::Static(StaticNode::I64(2)),
    ];
    let v = build(events).unwrap();
    let obj = v.as_object().unwrap();
    assert_eq!(obj.len(), 2);
    assert_eq!(obj[0].0.as_str(), "first");
    assert_eq!(obj[1].0.as_str(), "second");
    assert_eq!(v.get("first"), Some(&Value::from(1i64)));
    assert_eq!(v.get("second"), Some(&Value::from(2i64)));
}

#[test]
fn builder_rejects_short_stream() {
    let events = vec![Node::Array(2), Node::Static(StaticNode::Bool(true))];
    assert_eq!(build(events), Err(BuildError::UnexpectedEnd));
    assert_eq!(build(vec![]), Err(BuildError::UnexpectedEnd));
}

#[test]
fn builder_rejects_non_string_key() {
    let events = vec![
        Node::Object(1),
        Node::Static(StaticNode::I64(1)),
        Node::Static(StaticNode::I64(2)),
    ];
    assert_eq!(build(events), Err(BuildError::KeyNotString));
}

#[test]
fn encode_then_build_round_trip() {
    let mut v = Value::object();
    v.insert("name", Value::from("tremor")).unwrap();
    v.insert("count", Value::from(3u64)).unwrap();
    let mut arr = Value::array();
    arr.push(Value::from(1)).unwrap();
    arr.push(Value::null()).unwrap();
    arr.push(Value::from_f64_bits(2.5f64.to_bits())).unwrap();
    v.insert("items", arr).unwrap();
    let events = encode(&v);
    let decoded = build(events).unwrap();
    assert_eq!(decoded, v);
    assert!(v.equals(&decoded));
}

#[test]
fn round_trip_keeps_storage_tags() {
    let v = Value::from(String::from("owned text"));
    let events = encode(&v);
    let decoded = build(events).unwrap();
    assert_eq!(decoded.value_type(), v.value_type());
    assert_eq!(decoded, v);
}

#[test]
fn builder_leaves_trailing_events_for_next_parse() {
    let events = vec![
        Node::Static(StaticNode::Bool(true)),
        Node::Static(StaticNode::Bool(false)),
    ];
    let mut de = BorrowDeserializer::from_deserializer(events);
    assert_eq!(de.parse(), Ok(Value::from(true)));
    assert_eq!(de.parse(), Ok(Value::from(false)));
    assert_eq!(de.parse(), Err(BuildError::UnexpectedEnd));
}

#[test]
fn builder_overwrites_duplicate_key() {
    let events = vec![
        Node::Object(2),
        Node::String(Text::Borrowed("k".to_string())),
        Node::Static(StaticNode::I64(1)),
        Node::String(Text::Borrowed("k".to_string())),
        Node::Static(StaticNode::I64(2)),
    ];
    let v = build(events).unwrap();
    let obj = v.as_object().unwrap();
    assert_eq!(obj.len(), 1);
    assert_eq!(obj[0].0.as_str(), "k");
    assert_eq!(v.get("k"), Some(&Value::from(2i64)));
    assert!(v.equals(&v));
}

#[test]
fn builder_duplicate_key_keeps_first_position() {
    let events = vec![
        Node::Object(3),
        Node::String(Text::Borrowed("a".to_string())),
        Node::Static(StaticNode::I64(1)),
        Node::String(Text::Borrowed("b".to_string())),
        Node::Static(StaticNode::I64(2)),
        Node::String(Text::Borrowed("a".to_string())),
        Node::Static(StaticNode::I64(3)),
    ];
    let v = build(events).unwrap();
    let obj = v.as_object().unwrap();
    assert_eq!(obj.len(), 2);
    assert_eq!(obj[0].0.as_str(), "a");
    assert_eq!(obj[1].0.as_str(), "b");
    assert_eq!(v.get("a"), Some(&Value::from(3i64)));
    assert_eq!(v.get("b"), Some(&Value::from(2i64)));
}
