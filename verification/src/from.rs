//! Leaf and branch construction from native values. Every conversion is
//! total: the three numeric leaf kinds cover every native integer width of
//! either signedness, so narrower values widen without loss.

use vstd::prelude::*;
use vstd::std_specs::convert::FromSpec;

use crate::value::{Object, SpecValue, StaticNode, Text, TextView, Value};

verus! {

impl Value {
    /// A text leaf that borrows its characters from `s`, tagged so.
    pub fn from_borrowed_str(s: &str) -> (r: Value)
        ensures
            r@ == SpecValue::Str(
                (TextView { mode: crate::value::Storage::Borrowed, chars: s@ }),
            ),
    {
        Value::String(Text::Borrowed(s.to_owned()))
    }

    /// A double leaf from an IEEE-754 bit pattern.
    pub fn from_f64_bits(bits: u64) -> (r: Value)
        ensures
            r@ == SpecValue::Static(StaticNode::F64(bits)),
    {
        Value::Static(StaticNode::F64(bits))
    }
}

impl From<()> for Value {
    fn from(v: ()) -> (r: Value) {
        Value::Static(StaticNode::Null)
    }
}

impl vstd::std_specs::convert::FromSpecImpl<()> for Value {
    open spec fn obeys_from_spec() -> bool {
        true
    }

    open spec fn from_spec(v: ()) -> Value {
        Value::Static(StaticNode::Null)
    }
}

impl From<bool> for Value {
    fn from(v: bool) -> (r: Value) {
        Value::Static(StaticNode::Bool(v))
    }
}

impl vstd::std_specs::convert::FromSpecImpl<bool> for Value {
    open spec fn obeys_from_spec() -> bool {
        true
    }

    open spec fn from_spec(v: bool) -> Value {
        Value::Static(StaticNode::Bool(v))
    }
}

impl From<i8> for Value {
    fn from(v: i8) -> (r: Value) {
        Value::Static(StaticNode::I64(v as i64))
    }
}

impl vstd::std_specs::convert::FromSpecImpl<i8> for Value {
    open spec fn obeys_from_spec() -> bool {
        true
    }

    open spec fn from_spec(v: i8) -> Value {
        Value::Static(StaticNode::I64(v as i64))
    }
}

impl From<i16> for Value {
    fn from(v: i16) -> (r: Value) {
        Value::Static(StaticNode::I64(v as i64))
    }
}

impl vstd::std_specs::convert::FromSpecImpl<i16> for Value {
    open spec fn obeys_from_spec() -> bool {
        true
    }

    open spec fn from_spec(v: i16) -> Value {
        Value::Static(StaticNode::I64(v as i64))
    }
}

impl From<i32> for Value {
    fn from(v: i32) -> (r: Value) {
        Value::Static(StaticNode::I64(v as i64))
    }
}

impl vstd::std_specs::convert::FromSpecImpl<i32> for Value {
    open spec fn obeys_from_spec() -> bool {
        true
    }

    open spec fn from_spec(v: i32) -> Value {
        Value::Static(StaticNode::I64(v as i64))
    }
}

impl From<i64> for Value {
    fn from(v: i64) -> (r: Value) {
        Value::Static(StaticNode::I64(v))
    }
}

impl vstd::std_specs::convert::FromSpecImpl<i64> for Value {
    open spec fn obeys_from_spec() -> bool {
        true
    }

    open spec fn from_spec(v: i64) -> Value {
        Value::Static(StaticNode::I64(v))
    }
}

impl From<u8> for Value {
    fn from(v: u8) -> (r: Value) {
        Value::Static(StaticNode::U64(v as u64))
    }
}

impl vstd::std_specs::convert::FromSpecImpl<u8> for Value {
    open spec fn obeys_from_spec() -> bool {
        true
    }

    open spec fn from_spec(v: u8) -> Value {
        Value::Static(StaticNode::U64(v as u64))
    }
}

impl From<u16> for Value {
    fn from(v: u16) -> (r: Value) {
        Value::Static(StaticNode::U64(v as u64))
    }
}

impl vstd::std_specs::convert::FromSpecImpl<u16> for Value {
    open spec fn obeys_from_spec() -> bool {
        true
    }

    open spec fn from_spec(v: u16) -> Value {
        Value::Static(StaticNode::U64(v as u64))
    }
}

impl From<u32> for Value {
    fn from(v: u32) -> (r: Value) {
        Value::Static(StaticNode::U64(v as u64))
    }
}

impl vstd::std_specs::convert::FromSpecImpl<u32> for Value {
    open spec fn obeys_from_spec() -> bool {
        true
    }

    open spec fn from_spec(v: u32) -> Value {
        Value::Static(StaticNode::U64(v as u64))
    }
}

impl From<u64> for Value {
    fn from(v: u64) -> (r: Value) {
        Value::Static(StaticNode::U64(v))
    }
}

impl vstd::std_specs::convert::FromSpecImpl<u64> for Value {
    open spec fn obeys_from_spec() -> bool {
        true
    }

    open spec fn from_spec(v: u64) -> Value {
        Value::Static(StaticNode::U64(v))
    }
}

impl From<usize> for Value {
    fn from(v: usize) -> (r: Value) {
        Value::Static(StaticNode::U64(v as u64))
    }
}

impl vstd::std_specs::convert::FromSpecImpl<usize> for Value {
    open spec fn obeys_from_spec() -> bool {
        true
    }

    open spec fn from_spec(v: usize) -> Value {
        Value::Static(StaticNode::U64(v as u64))
    }
}

impl From<String> for Value {
    fn from(v: String) -> (r: Value) {
        Value::String(Text::Owned(v))
    }
}

impl vstd::std_specs::convert::FromSpecImpl<String> for Value {
    open spec fn obeys_from_spec() -> bool {
        true
    }

    open spec fn from_spec(v: String) -> Value {
        Value::String(Text::Owned(v))
    }
}

impl<'a> From<&'a str> for Value {
    /// A text leaf borrowing from input text; see `from_borrowed_str` for
    /// the pinned form.
    fn from(v: &'a str) -> (r: Value) {
        Value::from_borrowed_str(v)
    }
}

impl<'a> vstd::std_specs::convert::FromSpecImpl<&'a str> for Value {
    open spec fn obeys_from_spec() -> bool {
        false
    }

    open spec fn from_spec(v: &'a str) -> Value {
        arbitrary()
    }
}

impl From<Vec<Value>> for Value {
    fn from(v: Vec<Value>) -> (r: Value) {
        Value::Array(v)
    }
}

impl vstd::std_specs::convert::FromSpecImpl<Vec<Value>> for Value {
    open spec fn obeys_from_spec() -> bool {
        true
    }

    open spec fn from_spec(v: Vec<Value>) -> Value {
        Value::Array(v)
    }
}

impl From<Object> for Value {
    fn from(v: Object) -> (r: Value) {
        Value::Object(v)
    }
}

impl vstd::std_specs::convert::FromSpecImpl<Object> for Value {
    open spec fn obeys_from_spec() -> bool {
        true
    }

    open spec fn from_spec(v: Object) -> Value {
        Value::Object(v)
    }
}

/// Native integer conversion is value-exact, for every width and either
/// signedness: the built leaf holds the same mathematical value, so it
/// compares equal to the native value; the signed reading succeeds whenever
/// the value fits the signed range, the unsigned reading exactly when the
/// value is not negative.
pub proof fn lemma_native_int_conversions()
    ensures
        forall|n: i8| (#[trigger] Value::from_spec(n))@ == SpecValue::Static(
            StaticNode::I64(n as i64),
        ),
        forall|n: i16| (#[trigger] Value::from_spec(n))@ == SpecValue::Static(
            StaticNode::I64(n as i64),
        ),
        forall|n: i32| (#[trigger] Value::from_spec(n))@ == SpecValue::Static(
            StaticNode::I64(n as i64),
        ),
        forall|n: i64| (#[trigger] Value::from_spec(n))@ == SpecValue::Static(StaticNode::I64(n)),
        forall|n: u8| (#[trigger] Value::from_spec(n))@ == SpecValue::Static(
            StaticNode::U64(n as u64),
        ),
        forall|n: u16| (#[trigger] Value::from_spec(n))@ == SpecValue::Static(
            StaticNode::U64(n as u64),
        ),
        forall|n: u32| (#[trigger] Value::from_spec(n))@ == SpecValue::Static(
            StaticNode::U64(n as u64),
        ),
        forall|n: u64| (#[trigger] Value::from_spec(n))@ == SpecValue::Static(StaticNode::U64(n)),
        forall|n: usize| (#[trigger] Value::from_spec(n))@ == SpecValue::Static(
            StaticNode::U64(n as u64),
        ),
        forall|n: i64| #[trigger] crate::value::spec_int_value(
            SpecValue::Static(StaticNode::I64(n)),
        ) == Some(n as int),
        forall|n: u64| #[trigger] crate::value::spec_int_value(
            SpecValue::Static(StaticNode::U64(n)),
        ) == Some(n as int),
        forall|n: i64| #[trigger] crate::value::spec_as_i64(SpecValue::Static(StaticNode::I64(n)))
            == Some(n),
        forall|n: i64|
            n >= 0 ==> #[trigger] crate::value::spec_as_u64(SpecValue::Static(StaticNode::I64(n)))
                == Some(n as u64),
        forall|n: i64|
            n < 0 ==> #[trigger] crate::value::spec_as_u64(SpecValue::Static(StaticNode::I64(n)))
                is None,
        forall|n: u64| #[trigger] crate::value::spec_as_u64(SpecValue::Static(StaticNode::U64(n)))
            == Some(n),
        forall|n: u64|
            n <= i64::MAX as u64 ==> #[trigger] crate::value::spec_as_i64(
                SpecValue::Static(StaticNode::U64(n)),
            ) == Some(n as i64),
        forall|n: u64|
            n > i64::MAX as u64 ==> #[trigger] crate::value::spec_as_i64(
                SpecValue::Static(StaticNode::U64(n)),
            ) is None,
{
}

} // verus!
