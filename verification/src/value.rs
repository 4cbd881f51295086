//! The value tree: a tagged union over scalar leaves, text leaves, arrays and
//! insertion-ordered objects, together with its mathematical model.

use vstd::prelude::*;

verus! {

/// Whether a text leaf's bytes were taken over from the parsed input
/// (`Borrowed`) or live in storage of the tree's own (`Owned`). The tag is
/// what promotion changes; it never affects comparison.
#[derive(Debug, Clone, Copy, PartialEq, Eq, Structural)]
pub enum Storage {
    Borrowed,
    Owned,
}

/// A text leaf or object key: a string of characters together with its
/// storage tag.
#[derive(Debug)]
pub enum Text {
    Borrowed(String),
    Owned(String),
}

/// The model of a `Text`: its storage tag and its characters.
pub struct TextView {
    pub mode: Storage,
    pub chars: Seq<char>,
}

impl View for Text {
    type V = TextView;

    open spec fn view(&self) -> TextView {
        match self {
            Text::Borrowed(s) => TextView { mode: Storage::Borrowed, chars: s@ },
            Text::Owned(s) => TextView { mode: Storage::Owned, chars: s@ },
        }
    }
}

impl Clone for Text {
    fn clone(&self) -> (r: Self)
        ensures
            r@ == self@,
    {
        match self {
            Text::Borrowed(s) => Text::Borrowed(s.clone()),
            Text::Owned(s) => Text::Owned(s.clone()),
        }
    }
}

impl Text {
    /// Reads the characters, whatever the storage tag.
    pub fn as_str(&self) -> (r: &str)
        ensures
            r@ == self@.chars,
    {
        match self {
            Text::Borrowed(s) => s.as_str(),
            Text::Owned(s) => s.as_str(),
        }
    }

    /// Whether the characters read `k`. The storage tags play no part.
    pub fn eq_string(&self, k: &String) -> (r: bool)
        ensures
            r == (self@.chars == k@),
    {
        match self {
            Text::Borrowed(s) => s.eq(k),
            Text::Owned(s) => s.eq(k),
        }
    }
}

/// The atomic scalar leaves. `F64` holds the IEEE-754 bit pattern of the
/// number, so that every double, including NaNs, is carried exactly.
#[derive(Debug, Clone, Copy)]
pub enum StaticNode {
    Null,
    Bool(bool),
    I64(i64),
    U64(u64),
    F64(u64),
}

/// The closed set of value kinds, as reported by `value_type`.
#[derive(Debug, Clone, Copy, PartialEq, Eq, Structural)]
pub enum ValueType {
    Null,
    Bool,
    I64,
    U64,
    F64,
    String,
    Array,
    Object,
}

/// The recoverable failure of a mutation applied to a node of the wrong
/// kind.
#[derive(Debug, Clone, Copy, PartialEq, Eq, Structural)]
pub enum AccessError {
    NotAnArray,
    NotAnObject,
}

/// An object: key/value pairs in insertion order. Well-formed objects have
/// pairwise distinct keys; see `wf`.
pub type Object = Vec<(Text, Value)>;

/// A JSON document node: scalar leaf, text leaf, array or object.
#[derive(Debug)]
pub enum Value {
    Static(StaticNode),
    String(Text),
    Array(Vec<Value>),
    Object(Object),
}

/// The mathematical model of a `Value`.
pub enum SpecValue {
    Static(StaticNode),
    Str(TextView),
    Arr(Seq<SpecValue>),
    Obj(Seq<(TextView, SpecValue)>),
}

/// The model of a value tree.
pub open spec fn sval(v: Value) -> SpecValue
    decreases v,
{
    match v {
        Value::Static(s) => SpecValue::Static(s),
        Value::String(t) => SpecValue::Str(t@),
        Value::Array(a) => SpecValue::Arr(sval_seq(a@)),
        Value::Object(es) => SpecValue::Obj(sval_entries(es@)),
    }
}

/// The models of the elements of an array, in order.
pub open spec fn sval_seq(s: Seq<Value>) -> Seq<SpecValue>
    decreases s,
{
    if s.len() == 0 {
        Seq::empty()
    } else {
        seq![sval(s[0])] + sval_seq(s.subrange(1, s.len() as int))
    }
}

/// The models of the entries of an object, in insertion order.
pub open spec fn sval_entries(s: Seq<(Text, Value)>) -> Seq<(TextView, SpecValue)>
    decreases s,
{
    if s.len() == 0 {
        Seq::empty()
    } else {
        seq![(s[0].0@, sval(s[0].1))] + sval_entries(s.subrange(1, s.len() as int))
    }
}

impl View for Value {
    type V = SpecValue;

    open spec fn view(&self) -> SpecValue {
        sval(*self)
    }
}

/// The index of the first entry whose key reads `k`, or -1 when no entry
/// does. Keys match by their characters alone; storage tags play no part.
pub open spec fn find_key(es: Seq<(TextView, SpecValue)>, k: Seq<char>) -> int
    decreases es.len(),
{
    if es.len() == 0 {
        -1
    } else if es[0].0.chars == k {
        0
    } else {
        let r = find_key(es.subrange(1, es.len() as int), k);
        if r < 0 {
            -1
        } else {
            r + 1
        }
    }
}

/// Well-formedness: within every object the keys are pairwise distinct.
/// Array order and object insertion order carry no constraint.
pub open spec fn wf(v: SpecValue) -> bool
    decreases v,
{
    match v {
        SpecValue::Static(_) => true,
        SpecValue::Str(_) => true,
        SpecValue::Arr(cs) => forall|i: int| 0 <= i < cs.len() ==> wf(#[trigger] cs[i]),
        SpecValue::Obj(es) => {
            &&& forall|i: int, j: int|
                0 <= i < j < es.len() ==> (#[trigger] es[i]).0.chars != (#[trigger] es[j]).0.chars
            &&& forall|i: int| 0 <= i < es.len() ==> wf((#[trigger] es[i]).1)
        },
    }
}

/// The length and elementwise reading of an array model.
pub proof fn lemma_sval_seq(s: Seq<Value>)
    ensures
        sval_seq(s).len() == s.len(),
        forall|i: int| 0 <= i < s.len() ==> #[trigger] sval_seq(s)[i] == sval(s[i]),
    decreases s.len(),
{
    if s.len() > 0 {
        lemma_sval_seq(s.subrange(1, s.len() as int));
    }
}

/// The length and elementwise reading of an object model.
pub proof fn lemma_sval_entries(s: Seq<(Text, Value)>)
    ensures
        sval_entries(s).len() == s.len(),
        forall|i: int| 0 <= i < s.len() ==> #[trigger] sval_entries(s)[i] == (s[i].0@, sval(s[i].1)),
    decreases s.len(),
{
    if s.len() > 0 {
        lemma_sval_entries(s.subrange(1, s.len() as int));
    }
}

/// What `find_key` finds: the first entry whose key reads `k`, when one
/// exists, and -1 exactly when none does.
pub proof fn lemma_find_key(es: Seq<(TextView, SpecValue)>, k: Seq<char>)
    ensures
        find_key(es, k) >= 0 ==> {
            &&& find_key(es, k) < es.len()
            &&& es[find_key(es, k)].0.chars == k
            &&& forall|j: int| 0 <= j < find_key(es, k) ==> (#[trigger] es[j]).0.chars != k
        },
        find_key(es, k) < 0 ==> forall|j: int|
            0 <= j < es.len() ==> (#[trigger] es[j]).0.chars != k,
    decreases es.len(),
{
    if es.len() > 0 && es[0].0.chars != k {
        let sub = es.subrange(1, es.len() as int);
        lemma_find_key(sub, k);
        assert(forall|j: int| 1 <= j < es.len() ==> (#[trigger] es[j]) == sub[j - 1]);
    }
}

/// What `as_bool` returns.
pub open spec fn spec_as_bool(v: SpecValue) -> Option<bool> {
    match v {
        SpecValue::Static(StaticNode::Bool(b)) => Some(b),
        _ => None,
    }
}

/// What `as_i64` returns: the signed reading of an integer leaf, when the
/// represented value fits.
pub open spec fn spec_as_i64(v: SpecValue) -> Option<i64> {
    match v {
        SpecValue::Static(StaticNode::I64(i)) => Some(i),
        SpecValue::Static(StaticNode::U64(u)) => if u <= i64::MAX as u64 {
            Some(u as i64)
        } else {
            None
        },
        _ => None,
    }
}

/// What `as_u64` returns: the unsigned reading of an integer leaf, when the
/// represented value is not negative.
pub open spec fn spec_as_u64(v: SpecValue) -> Option<u64> {
    match v {
        SpecValue::Static(StaticNode::I64(i)) => if i >= 0 {
            Some(i as u64)
        } else {
            None
        },
        SpecValue::Static(StaticNode::U64(u)) => Some(u),
        _ => None,
    }
}

/// What `as_f64_bits` returns: the bit pattern of a double leaf.
pub open spec fn spec_as_f64_bits(v: SpecValue) -> Option<u64> {
    match v {
        SpecValue::Static(StaticNode::F64(b)) => Some(b),
        _ => None,
    }
}

/// The mathematical value of an integer leaf, when the value is one.
pub open spec fn spec_int_value(v: SpecValue) -> Option<int> {
    match v {
        SpecValue::Static(StaticNode::I64(i)) => Some(i as int),
        SpecValue::Static(StaticNode::U64(u)) => Some(u as int),
        _ => None,
    }
}

/// The kind of a scalar leaf.
pub open spec fn static_type(s: StaticNode) -> ValueType {
    match s {
        StaticNode::Null => ValueType::Null,
        StaticNode::Bool(_) => ValueType::Bool,
        StaticNode::I64(_) => ValueType::I64,
        StaticNode::U64(_) => ValueType::U64,
        StaticNode::F64(_) => ValueType::F64,
    }
}

/// The kind of a value.
pub open spec fn spec_value_type(v: SpecValue) -> ValueType {
    match v {
        SpecValue::Static(s) => static_type(s),
        SpecValue::Str(_) => ValueType::String,
        SpecValue::Arr(_) => ValueType::Array,
        SpecValue::Obj(_) => ValueType::Object,
    }
}

impl Value {
    /// The null leaf.
    pub fn null() -> (r: Self)
        ensures
            r@ == SpecValue::Static(StaticNode::Null),
    {
        Value::Static(StaticNode::Null)
    }

    /// An empty array.
    pub fn array() -> (r: Self)
        ensures
            r@ == SpecValue::Arr(Seq::<SpecValue>::empty()),
    {
        Value::Array(Vec::new())
    }

    /// An empty array with room reserved for `capacity` elements. The
    /// reservation is a hint; it is not observable in the model.
    pub fn array_with_capacity(capacity: usize) -> (r: Self)
        ensures
            r@ == SpecValue::Arr(Seq::<SpecValue>::empty()),
    {
        Value::Array(Vec::with_capacity(capacity))
    }

    /// An empty object.
    pub fn object() -> (r: Self)
        ensures
            r@ == SpecValue::Obj(Seq::<(TextView, SpecValue)>::empty()),
    {
        Value::Object(Vec::new())
    }

    /// An empty object with room reserved for `capacity` entries.
    pub fn object_with_capacity(capacity: usize) -> (r: Self)
        ensures
            r@ == SpecValue::Obj(Seq::<(TextView, SpecValue)>::empty()),
    {
        Value::Object(Vec::with_capacity(capacity))
    }

    /// The kind of this value.
    pub fn value_type(&self) -> (r: ValueType)
        ensures
            r == spec_value_type(self@),
    {
        match self {
            Value::Static(s) => match s {
                StaticNode::Null => ValueType::Null,
                StaticNode::Bool(_) => ValueType::Bool,
                StaticNode::I64(_) => ValueType::I64,
                StaticNode::U64(_) => ValueType::U64,
                StaticNode::F64(_) => ValueType::F64,
            },
            Value::String(_) => ValueType::String,
            Value::Array(_) => ValueType::Array,
            Value::Object(_) => ValueType::Object,
        }
    }

    /// True exactly of the null leaf.
    pub fn is_null(&self) -> (r: bool)
        ensures
            r == (self@ == SpecValue::Static(StaticNode::Null)),
    {
        match self {
            Value::Static(StaticNode::Null) => true,
            _ => false,
        }
    }
}

/// The index of the first entry of `es` whose key reads `k`, when one
/// exists.
pub(crate) fn find_index(es: &Object, k: &String) -> (r: Option<usize>)
    ensures
        match r {
            Some(i) => i < es@.len() && find_key(sval_entries(es@), k@) == i,
            None => find_key(sval_entries(es@), k@) == -1,
        },
{
    proof {
        lemma_sval_entries(es@);
        lemma_find_key(sval_entries(es@), k@);
    }
    let n = es.len();
    let mut i: usize = 0;
    while i < n
        invariant
            n == es@.len(),
            i <= n,
            forall|j: int| 0 <= j < i ==> sval_entries(es@)[j].0.chars != k@,
            sval_entries(es@).len() == es@.len(),
            forall|j: int|
                0 <= j < es@.len() ==> sval_entries(es@)[j] == ((#[trigger] es@[j]).0@, sval(
                    es@[j].1,
                )),
        decreases n - i,
    {
        if es[i].0.eq_string(k) {
            proof {
                lemma_find_key(sval_entries(es@), k@);
            }
            return Some(i);
        }
        i = i + 1;
    }
    None
}

impl Value {
    /// The boolean of a `Bool` leaf; absent for every other kind.
    pub fn as_bool(&self) -> (r: Option<bool>)
        ensures
            r == spec_as_bool(self@),
    {
        match self {
            Value::Static(StaticNode::Bool(b)) => Some(*b),
            _ => None,
        }
    }

    /// The signed reading of an integer leaf: an `I64` leaf always, a `U64`
    /// leaf when its value fits; absent otherwise.
    pub fn as_i64(&self) -> (r: Option<i64>)
        ensures
            r == spec_as_i64(self@),
    {
        match self {
            Value::Static(StaticNode::I64(i)) => Some(*i),
            Value::Static(StaticNode::U64(u)) => if *u <= i64::MAX as u64 {
                Some(*u as i64)
            } else {
                None
            },
            _ => None,
        }
    }

    /// The unsigned reading of an integer leaf: a `U64` leaf always, an
    /// `I64` leaf when not negative; absent otherwise.
    pub fn as_u64(&self) -> (r: Option<u64>)
        ensures
            r == spec_as_u64(self@),
    {
        match self {
            Value::Static(StaticNode::I64(i)) => if *i >= 0 {
                Some(*i as u64)
            } else {
                None
            },
            Value::Static(StaticNode::U64(u)) => Some(*u),
            _ => None,
        }
    }

    /// The bit pattern of a double leaf; absent for every other kind. There
    /// is no widening here: integer leaves are absent.
    pub fn as_f64_bits(&self) -> (r: Option<u64>)
        ensures
            r == spec_as_f64_bits(self@),
    {
        match self {
            Value::Static(StaticNode::F64(b)) => Some(*b),
            _ => None,
        }
    }

    /// The text of a string leaf; absent for every other kind.
    pub fn as_str(&self) -> (r: Option<&str>)
        ensures
            match self@ {
                SpecValue::Str(t) => r matches Some(s) && s@ == t.chars,
                _ => r is None,
            },
    {
        match self {
            Value::String(t) => Some(t.as_str()),
            _ => None,
        }
    }

    /// The elements of an array; absent for every other kind.
    pub fn as_array(&self) -> (r: Option<&Vec<Value>>)
        ensures
            match self@ {
                SpecValue::Arr(cs) => r matches Some(a) && sval_seq(a@) == cs,
                _ => r is None,
            },
    {
        match self {
            Value::Array(a) => Some(a),
            _ => None,
        }
    }

    /// The entries of an object; absent for every other kind.
    pub fn as_object(&self) -> (r: Option<&Object>)
        ensures
            match self@ {
                SpecValue::Obj(es) => r matches Some(o) && sval_entries(o@) == es,
                _ => r is None,
            },
    {
        match self {
            Value::Object(o) => Some(o),
            _ => None,
        }
    }

    /// The value under key `k` of an object: the first entry whose key reads
    /// `k`. Absent when the key is absent or the receiver is no object.
    pub fn get(&self, k: &str) -> (r: Option<&Value>)
        ensures
            match self@ {
                SpecValue::Obj(es) => {
                    &&& find_key(es, k@) >= 0 ==> ({
                        &&& r matches Some(v) && v@ == es[find_key(es, k@)].1
                    })
                    &&& find_key(es, k@) < 0 ==> r is None
                },
                _ => r is None,
            },
    {
        match self {
            Value::Object(es) => {
                let ks = k.to_owned();
                match find_index(es, &ks) {
                    Some(i) => {
                        proof {
                            lemma_sval_entries(es@);
                        }
                        Some(&es[i].1)
                    },
                    None => None,
                }
            },
            _ => None,
        }
    }

    /// The element at index `i` of an array. Absent when the index is out of
    /// range or the receiver is no array.
    pub fn get_idx(&self, i: usize) -> (r: Option<&Value>)
        ensures
            match self@ {
                SpecValue::Arr(cs) => {
                    &&& i < cs.len() ==> ({
                        &&& r matches Some(v) && v@ == cs[i as int]
                    })
                    &&& i >= cs.len() ==> r is None
                },
                _ => r is None,
            },
    {
        match self {
            Value::Array(a) => {
                proof {
                    lemma_sval_seq(a@);
                }
                if i < a.len() {
                    Some(&a[i])
                } else {
                    None
                }
            },
            _ => None,
        }
    }

    /// Puts `v` under key `k`. On an object: when the key is present the
    /// value of its entry is replaced, its key and place kept, and the prior
    /// value returned; when absent a new entry is appended, with a key
    /// tagged `Borrowed` as a key taken from input text is. On any other
    /// kind: the `NotAnObject` error, the receiver untouched.
    pub fn insert(&mut self, k: &str, v: Value) -> (r: Result<Option<Value>, AccessError>)
        ensures
            match old(self)@ {
                SpecValue::Obj(es) => {
                    &&& find_key(es, k@) >= 0 ==> {
                        &&& final(self)@ == SpecValue::Obj(
                            es.update(find_key(es, k@), (es[find_key(es, k@)].0, v@)),
                        )
                        &&& r matches Ok(p) && p matches Some(pv) && pv@ == es[find_key(es, k@)].1
                    }
                    &&& find_key(es, k@) < 0 ==> {
                        &&& final(self)@ == SpecValue::Obj(
                            es.push(((TextView { mode: Storage::Borrowed, chars: k@ }), v@)),
                        )
                        &&& r matches Ok(p) && p is None
                    }
                },
                _ => ({
                    &&& final(self)@ == old(self)@
                    &&& r matches Err(AccessError::NotAnObject)
                }),
            },
    {
        match self {
            Value::Object(es) => {
                let ks = k.to_owned();
                let ghost es0 = es@;
                match find_index(es, &ks) {
                    Some(i) => {
                        let (kk, prev) = es.remove(i);
                        es.insert(i, (kk, v));
                        proof {
                            lemma_sval_entries(es0);
                            lemma_sval_entries(es@);
                            assert(es@ =~= es0.update(i as int, (es@[i as int].0, es@[i as int].1)));
                            assert(sval_entries(es@) =~= sval_entries(es0).update(
                                i as int,
                                (sval_entries(es0)[i as int].0, sval(es@[i as int].1)),
                            ));
                        }
                        Ok(Some(prev))
                    },
                    None => {
                        es.push((Text::Borrowed(ks), v));
                        proof {
                            lemma_sval_entries(es0);
                            lemma_sval_entries(es@);
                            assert(sval_entries(es@) =~= sval_entries(es0).push(
                                ((TextView { mode: Storage::Borrowed, chars: k@ }), sval(
                                    es@[es@.len() - 1].1,
                                )),
                            ));
                        }
                        Ok(None)
                    },
                }
            },
            _ => Err(AccessError::NotAnObject),
        }
    }

    /// Takes the entry under key `k` out. On an object: the removed value,
    /// or absent when the key is absent, which is no error. On any other
    /// kind: the `NotAnObject` error, the receiver untouched.
    pub fn remove(&mut self, k: &str) -> (r: Result<Option<Value>, AccessError>)
        ensures
            match old(self)@ {
                SpecValue::Obj(es) => {
                    &&& find_key(es, k@) >= 0 ==> {
                        &&& final(self)@ == SpecValue::Obj(es.remove(find_key(es, k@)))
                        &&& r matches Ok(p) && p matches Some(pv) && pv@ == es[find_key(es, k@)].1
                    }
                    &&& find_key(es, k@) < 0 ==> ({
                        &&& final(self)@ == old(self)@
                        &&& r matches Ok(p) && p is None
                    })
                },
                _ => ({
                    &&& final(self)@ == old(self)@
                    &&& r matches Err(AccessError::NotAnObject)
                }),
            },
    {
        match self {
            Value::Object(es) => {
                let ks = k.to_owned();
                let ghost es0 = es@;
                match find_index(es, &ks) {
                    Some(i) => {
                        let (_kk, prev) = es.remove(i);
                        proof {
                            lemma_sval_entries(es0);
                            lemma_sval_entries(es@);
                            assert(sval_entries(es@) =~= sval_entries(es0).remove(i as int));
                        }
                        Ok(Some(prev))
                    },
                    None => Ok(None),
                }
            },
            _ => Err(AccessError::NotAnObject),
        }
    }

    /// Appends `v` to an array. On any other kind: the `NotAnArray` error,
    /// the receiver untouched.
    pub fn push(&mut self, v: Value) -> (r: Result<(), AccessError>)
        ensures
            match old(self)@ {
                SpecValue::Arr(cs) => ({
                    &&& final(self)@ == SpecValue::Arr(cs.push(v@))
                    &&& r matches Ok(p)
                }),
                _ => ({
                    &&& final(self)@ == old(self)@
                    &&& r matches Err(AccessError::NotAnArray)
                }),
            },
    {
        match self {
            Value::Array(a) => {
                let ghost a0 = a@;
                a.push(v);
                proof {
                    lemma_sval_seq(a0);
                    lemma_sval_seq(a@);
                    assert(sval_seq(a@) =~= sval_seq(a0).push(sval(a@[a@.len() - 1])));
                }
                Ok(())
            },
            _ => Err(AccessError::NotAnArray),
        }
    }

    /// Replaces the element at index `i` of an array with `v`, returning
    /// the prior element; absent, with the array untouched and `v`
    /// dropped, when the index is out of range, which is no error. On any
    /// other kind: the `NotAnArray` error, the receiver untouched.
    pub fn set_idx(&mut self, i: usize, v: Value) -> (r: Result<Option<Value>, AccessError>)
        ensures
            match old(self)@ {
                SpecValue::Arr(cs) => {
                    &&& i < cs.len() ==> ({
                        &&& final(self)@ == SpecValue::Arr(cs.update(i as int, v@))
                        &&& r matches Ok(p) && p matches Some(pv) && pv@ == cs[i as int]
                    })
                    &&& i >= cs.len() ==> ({
                        &&& final(self)@ == old(self)@
                        &&& r matches Ok(p) && p is None
                    })
                },
                _ => ({
                    &&& final(self)@ == old(self)@
                    &&& r matches Err(AccessError::NotAnArray)
                }),
            },
    {
        match self {
            Value::Array(a) => {
                proof {
                    lemma_sval_seq(a@);
                }
                if i < a.len() {
                    let ghost a0 = a@;
                    let prev = a.remove(i);
                    a.insert(i, v);
                    proof {
                        lemma_sval_seq(a0);
                        lemma_sval_seq(a@);
                        assert(a@ =~= a0.update(i as int, a@[i as int]));
                        assert(sval_seq(a@) =~= sval_seq(a0).update(i as int, sval(a@[i as int])));
                    }
                    Ok(Some(prev))
                } else {
                    Ok(None)
                }
            },
            _ => Err(AccessError::NotAnArray),
        }
    }

    /// Takes the last element of an array out; absent on an empty array,
    /// which is no error. On any other kind: the `NotAnArray` error, the
    /// receiver untouched.
    pub fn pop(&mut self) -> (r: Result<Option<Value>, AccessError>)
        ensures
            match old(self)@ {
                SpecValue::Arr(cs) => {
                    &&& cs.len() > 0 ==> ({
                        &&& final(self)@ == SpecValue::Arr(cs.drop_last())
                        &&& r matches Ok(p) && p matches Some(pv) && pv@ == cs.last()
                    })
                    &&& cs.len() == 0 ==> ({
                        &&& final(self)@ == old(self)@
                        &&& r matches Ok(p) && p is None
                    })
                },
                _ => ({
                    &&& final(self)@ == old(self)@
                    &&& r matches Err(AccessError::NotAnArray)
                }),
            },
    {
        match self {
            Value::Array(a) => {
                proof {
                    lemma_sval_seq(a@);
                }
                if a.len() == 0 {
                    Ok(None)
                } else {
                    let ghost a0 = a@;
                    let x = a.pop().unwrap();
                    proof {
                        lemma_sval_seq(a0);
                        lemma_sval_seq(a@);
                        assert(sval_seq(a@) =~= sval_seq(a0).drop_last());
                    }
                    Ok(Some(x))
                }
            },
            _ => Err(AccessError::NotAnArray),
        }
    }
}

/// The absolute-value mask of an IEEE-754 double's bit pattern.
pub const F64_ABS_MASK: u64 = 0x7FFF_FFFF_FFFF_FFFF;

/// The bit pattern of the largest finite single-precision magnitude, read
/// as a double. A double whose magnitude's bits stay at or under this fits
/// the single-precision range.
pub const F32_RANGE_BITS: u64 = 0x47EF_FFFF_E000_0000;

/// Whether the double with bit pattern `b` lies within the finite
/// single-precision range. NaNs and infinities do not.
pub open spec fn f64_bits_fits_f32(b: u64) -> bool {
    b & F64_ABS_MASK <= F32_RANGE_BITS
}

/// Whether a value is a numeric leaf, which `cast_f64` accepts.
pub open spec fn spec_castable(v: SpecValue) -> bool {
    match v {
        SpecValue::Static(StaticNode::I64(_)) => true,
        SpecValue::Static(StaticNode::U64(_)) => true,
        SpecValue::Static(StaticNode::F64(_)) => true,
        _ => false,
    }
}

impl Value {
    /// Whether this is a `Bool` leaf.
    pub fn is_bool(&self) -> (r: bool)
        ensures
            r == (spec_as_bool(self@) is Some),
    {
        match self {
            Value::Static(StaticNode::Bool(_)) => true,
            _ => false,
        }
    }

    /// Whether this is a string leaf.
    pub fn is_str(&self) -> (r: bool)
        ensures
            r == (self@ matches SpecValue::Str(_)),
    {
        match self {
            Value::String(_) => true,
            _ => false,
        }
    }

    /// Whether this is an array.
    pub fn is_array(&self) -> (r: bool)
        ensures
            r == (self@ matches SpecValue::Arr(_)),
    {
        match self {
            Value::Array(_) => true,
            _ => false,
        }
    }

    /// Whether this is an object.
    pub fn is_object(&self) -> (r: bool)
        ensures
            r == (self@ matches SpecValue::Obj(_)),
    {
        match self {
            Value::Object(_) => true,
            _ => false,
        }
    }

    /// Whether this is an integer leaf; every one fits a signed 128-bit
    /// value.
    pub fn is_i128(&self) -> (r: bool)
        ensures
            r == (spec_int_value(self@) is Some),
    {
        match self {
            Value::Static(StaticNode::I64(_)) => true,
            Value::Static(StaticNode::U64(_)) => true,
            _ => false,
        }
    }

    /// Whether this is an integer leaf whose value is not negative.
    pub fn is_u128(&self) -> (r: bool)
        ensures
            r == ({
                &&& spec_int_value(self@) matches Some(n)
                &&& n >= 0
            }),
    {
        match self {
            Value::Static(StaticNode::I64(i)) => *i >= 0,
            Value::Static(StaticNode::U64(_)) => true,
            _ => false,
        }
    }

    /// Whether the signed 64-bit reading succeeds.
    pub fn is_i64(&self) -> (r: bool)
        ensures
            r == (spec_as_i64(self@) is Some),
    {
        match self {
            Value::Static(StaticNode::I64(_)) => true,
            Value::Static(StaticNode::U64(u)) => *u <= i64::MAX as u64,
            _ => false,
        }
    }

    /// Whether the unsigned 64-bit reading succeeds.
    pub fn is_u64(&self) -> (r: bool)
        ensures
            r == (spec_as_u64(self@) is Some),
    {
        match self {
            Value::Static(StaticNode::I64(i)) => *i >= 0,
            Value::Static(StaticNode::U64(_)) => true,
            _ => false,
        }
    }

    /// Whether this is an integer leaf whose value fits a `usize`.
    pub fn is_usize(&self) -> (r: bool)
        ensures
            r == ({
                &&& spec_int_value(self@) matches Some(n)
                &&& 0 <= n <= usize::MAX
            }),
    {
        match self {
            Value::Static(StaticNode::I64(i)) => *i >= 0 && *i as u64 <= usize::MAX as u64,
            Value::Static(StaticNode::U64(u)) => *u <= usize::MAX as u64,
            _ => false,
        }
    }

    /// Whether this is an integer leaf whose value fits an `i32`.
    pub fn is_i32(&self) -> (r: bool)
        ensures
            r == ({
                &&& spec_int_value(self@) matches Some(n)
                &&& i32::MIN <= n <= i32::MAX
            }),
    {
        match self {
            Value::Static(StaticNode::I64(i)) => i32::MIN as i64 <= *i && *i <= i32::MAX as i64,
            Value::Static(StaticNode::U64(u)) => *u <= i32::MAX as u64,
            _ => false,
        }
    }

    /// Whether this is an integer leaf whose value fits a `u32`.
    pub fn is_u32(&self) -> (r: bool)
        ensures
            r == ({
                &&& spec_int_value(self@) matches Some(n)
                &&& 0 <= n <= u32::MAX
            }),
    {
        match self {
            Value::Static(StaticNode::I64(i)) => 0 <= *i && *i <= u32::MAX as i64,
            Value::Static(StaticNode::U64(u)) => *u <= u32::MAX as u64,
            _ => false,
        }
    }

    /// Whether this is an integer leaf whose value fits an `i16`.
    pub fn is_i16(&self) -> (r: bool)
        ensures
            r == ({
                &&& spec_int_value(self@) matches Some(n)
                &&& i16::MIN <= n <= i16::MAX
            }),
    {
        match self {
            Value::Static(StaticNode::I64(i)) => i16::MIN as i64 <= *i && *i <= i16::MAX as i64,
            Value::Static(StaticNode::U64(u)) => *u <= i16::MAX as u64,
            _ => false,
        }
    }

    /// Whether this is an integer leaf whose value fits a `u16`.
    pub fn is_u16(&self) -> (r: bool)
        ensures
            r == ({
                &&& spec_int_value(self@) matches Some(n)
                &&& 0 <= n <= u16::MAX
            }),
    {
        match self {
            Value::Static(StaticNode::I64(i)) => 0 <= *i && *i <= u16::MAX as i64,
            Value::Static(StaticNode::U64(u)) => *u <= u16::MAX as u64,
            _ => false,
        }
    }

    /// Whether this is an integer leaf whose value fits an `i8`.
    pub fn is_i8(&self) -> (r: bool)
        ensures
            r == ({
                &&& spec_int_value(self@) matches Some(n)
                &&& i8::MIN <= n <= i8::MAX
            }),
    {
        match self {
            Value::Static(StaticNode::I64(i)) => i8::MIN as i64 <= *i && *i <= i8::MAX as i64,
            Value::Static(StaticNode::U64(u)) => *u <= i8::MAX as u64,
            _ => false,
        }
    }

    /// Whether this is an integer leaf whose value fits a `u8`.
    pub fn is_u8(&self) -> (r: bool)
        ensures
            r == ({
                &&& spec_int_value(self@) matches Some(n)
                &&& 0 <= n <= u8::MAX
            }),
    {
        match self {
            Value::Static(StaticNode::I64(i)) => 0 <= *i && *i <= u8::MAX as i64,
            Value::Static(StaticNode::U64(u)) => *u <= u8::MAX as u64,
            _ => false,
        }
    }

    /// Whether this is a double leaf.
    pub fn is_f64(&self) -> (r: bool)
        ensures
            r == (spec_as_f64_bits(self@) is Some),
    {
        match self {
            Value::Static(StaticNode::F64(_)) => true,
            _ => false,
        }
    }

    /// Whether this is a double leaf within the finite single-precision
    /// range.
    pub fn is_f32(&self) -> (r: bool)
        ensures
            r == ({
                &&& spec_as_f64_bits(self@) matches Some(b)
                &&& f64_bits_fits_f32(b)
            }),
    {
        match self {
            Value::Static(StaticNode::F64(b)) => (*b & F64_ABS_MASK) <= F32_RANGE_BITS,
            _ => false,
        }
    }

    /// Whether this is a numeric leaf, so that a widening cast to double is
    /// possible.
    pub fn is_f64_castable(&self) -> (r: bool)
        ensures
            r == spec_castable(self@),
    {
        match self {
            Value::Static(StaticNode::I64(_)) => true,
            Value::Static(StaticNode::U64(_)) => true,
            Value::Static(StaticNode::F64(_)) => true,
            _ => false,
        }
    }
}

impl Default for Value {
    /// The default value is the null leaf.
    fn default() -> (r: Self)
        ensures
            r@ == SpecValue::Static(StaticNode::Null),
    {
        Value::Static(StaticNode::Null)
    }
}

} // verus!
