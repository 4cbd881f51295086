//! Structural equality over value trees: integer leaves compare by their
//! mathematical value across signedness, text compares by characters alone,
//! and objects compare as key/value collections, blind to insertion order.

use vstd::prelude::*;

use crate::value::{
    find_key, lemma_find_key, lemma_sval_entries, lemma_sval_seq, sval, sval_entries, sval_seq,
    wf, Object, SpecValue, StaticNode, Storage, Text, TextView, Value, F64_ABS_MASK,
};

verus! {

/// Whether the double bit pattern `b` is a zero, of either sign.
pub open spec fn f64_bits_is_zero(b: u64) -> bool {
    b & F64_ABS_MASK == 0
}

/// Equality of double leaves by bit pattern, with the two zeros identified.
/// On numbers this is IEEE-754 equality; a NaN equals exactly the
/// bit-identical NaN, so that equality stays reflexive.
pub open spec fn f64_bits_eq(a: u64, b: u64) -> bool {
    a == b || (f64_bits_is_zero(a) && f64_bits_is_zero(b))
}

/// Equality of scalar leaves. Integer leaves compare by the represented
/// value, whatever their signedness tag.
pub open spec fn static_eq(a: StaticNode, b: StaticNode) -> bool {
    match (a, b) {
        (StaticNode::Null, StaticNode::Null) => true,
        (StaticNode::Bool(x), StaticNode::Bool(y)) => x == y,
        (StaticNode::I64(x), StaticNode::I64(y)) => x == y,
        (StaticNode::U64(x), StaticNode::U64(y)) => x == y,
        (StaticNode::I64(x), StaticNode::U64(y)) => x >= 0 && x as u64 == y,
        (StaticNode::U64(x), StaticNode::I64(y)) => y >= 0 && y as u64 == x,
        (StaticNode::F64(x), StaticNode::F64(y)) => f64_bits_eq(x, y),
        _ => false,
    }
}

/// Equality of value trees: leaves as above, arrays elementwise in order,
/// objects by matching every key of each side in the other, order set
/// aside. Storage tags play no part anywhere.
pub open spec fn sv_eq(a: SpecValue, b: SpecValue) -> bool
    decreases a,
{
    match (a, b) {
        (SpecValue::Static(x), SpecValue::Static(y)) => static_eq(x, y),
        (SpecValue::Str(x), SpecValue::Str(y)) => x.chars == y.chars,
        (SpecValue::Arr(xs), SpecValue::Arr(ys)) => {
            &&& xs.len() == ys.len()
            &&& forall|i: int| 0 <= i < xs.len() ==> sv_eq(#[trigger] xs[i], ys[i])
        },
        (SpecValue::Obj(xs), SpecValue::Obj(ys)) => {
            &&& xs.len() == ys.len()
            &&& forall|i: int|
                0 <= i < xs.len() ==> ({
                    let j = find_key(ys, (#[trigger] xs[i]).0.chars);
                    &&& j >= 0
                    &&& j < ys.len()
                    &&& sv_eq(xs[i].1, ys[j].1)
                })
            &&& forall|i: int|
                0 <= i < ys.len() ==> ({
                    let j = find_key(xs, (#[trigger] ys[i]).0.chars);
                    &&& j >= 0
                    &&& j < xs.len()
                    &&& sv_eq(xs[j].1, ys[i].1)
                })
        },
        _ => false,
    }
}

/// Equality is reflexive on well-formed trees. (An object holding the same
/// key twice can fail to equal itself: lookup only ever reads the first
/// entry of a key.)
#[verifier::rlimit(50)]
pub proof fn lemma_eq_reflexive(v: SpecValue)
    requires
        wf(v),
    ensures
        sv_eq(v, v),
    decreases v,
{
    match v {
        SpecValue::Arr(cs) => {
            assert forall|i: int| 0 <= i < cs.len() implies sv_eq(#[trigger] cs[i], cs[i]) by {
                lemma_eq_reflexive(cs[i]);
            }
        },
        SpecValue::Obj(es) => {
            assert forall|i: int|
                0 <= i < es.len() implies ({
                    let j = find_key(es, (#[trigger] es[i]).0.chars);
                    &&& j == i
                    &&& sv_eq(es[i].1, es[j].1)
                    &&& sv_eq(es[j].1, es[i].1)
                }) by {
                lemma_find_key(es, es[i].0.chars);
                let j = find_key(es, es[i].0.chars);
                assert(j >= 0);
                assert(j == i);
                lemma_eq_reflexive(es[i].1);
            }
        },
        _ => {},
    }
}

/// Symmetry, forward object direction: every key of `ys` is answered in
/// `xs` with the equality flipped.
#[verifier::rlimit(100)]
#[verifier::spinoff_prover]
proof fn lemma_eq_symmetric_obj_fwd(xs: Seq<(TextView, SpecValue)>, ys: Seq<(TextView, SpecValue)>)
    requires
        sv_eq(SpecValue::Obj(xs), SpecValue::Obj(ys)),
    ensures
        forall|i: int|
            0 <= i < ys.len() ==> ({
                let j = find_key(xs, (#[trigger] ys[i]).0.chars);
                &&& j >= 0
                &&& j < xs.len()
                &&& sv_eq(ys[i].1, xs[j].1)
            }),
    decreases SpecValue::Obj(xs), 0int,
{
    assert forall|i: int|
        0 <= i < ys.len() implies ({
            let j = find_key(xs, (#[trigger] ys[i]).0.chars);
            &&& j >= 0
            &&& j < xs.len()
            &&& sv_eq(ys[i].1, xs[j].1)
        }) by {
        let j = find_key(xs, ys[i].0.chars);
        assert(j >= 0 && j < xs.len() && sv_eq(xs[j].1, ys[i].1));
        lemma_eq_symmetric(xs[j].1, ys[i].1);
    }
}

/// Symmetry, backward object direction: every key of `xs` is answered in
/// `ys` with the equality flipped.
#[verifier::rlimit(100)]
#[verifier::spinoff_prover]
proof fn lemma_eq_symmetric_obj_bwd(xs: Seq<(TextView, SpecValue)>, ys: Seq<(TextView, SpecValue)>)
    requires
        sv_eq(SpecValue::Obj(xs), SpecValue::Obj(ys)),
    ensures
        forall|i: int|
            0 <= i < xs.len() ==> ({
                let j = find_key(ys, (#[trigger] xs[i]).0.chars);
                &&& j >= 0
                &&& j < ys.len()
                &&& sv_eq(ys[j].1, xs[i].1)
            }),
    decreases SpecValue::Obj(xs), 0int,
{
    assert forall|i: int|
        0 <= i < xs.len() implies ({
            let j = find_key(ys, (#[trigger] xs[i]).0.chars);
            &&& j >= 0
            &&& j < ys.len()
            &&& sv_eq(ys[j].1, xs[i].1)
        }) by {
        let j = find_key(ys, xs[i].0.chars);
        assert(j >= 0 && j < ys.len() && sv_eq(xs[i].1, ys[j].1));
        lemma_eq_symmetric(xs[i].1, ys[j].1);
    }
}

/// Equality is symmetric.
#[verifier::rlimit(100)]
#[verifier::spinoff_prover]
pub proof fn lemma_eq_symmetric(a: SpecValue, b: SpecValue)
    requires
        sv_eq(a, b),
    ensures
        sv_eq(b, a),
    decreases a, 1int,
{
    match a {
        SpecValue::Arr(xs) => {
            if let SpecValue::Arr(ys) = b {
                assert forall|i: int| 0 <= i < ys.len() implies sv_eq(#[trigger] ys[i], xs[i]) by {
                    assert(sv_eq(xs[i], ys[i]));
                    lemma_eq_symmetric(xs[i], ys[i]);
                }
            }
        },
        SpecValue::Obj(xs) => {
            if let SpecValue::Obj(ys) = b {
                lemma_eq_symmetric_obj_fwd(xs, ys);
                lemma_eq_symmetric_obj_bwd(xs, ys);
            }
        },
        _ => {},
    }
}

/// Equality of text leaves never reads the storage tags.
pub proof fn lemma_eq_ignores_storage(m1: Storage, m2: Storage, c: Seq<char>)
    ensures
        sv_eq(
            SpecValue::Str((TextView { mode: m1, chars: c })),
            SpecValue::Str((TextView { mode: m2, chars: c })),
        ),
{
}

impl Text {
    /// Whether two texts hold the same characters, tags set aside.
    fn eq_text(&self, o: &Text) -> (r: bool)
        ensures
            r == (self@.chars == o@.chars),
    {
        match (self, o) {
            (Text::Borrowed(a), Text::Borrowed(b)) => a.eq(b),
            (Text::Borrowed(a), Text::Owned(b)) => a.eq(b),
            (Text::Owned(a), Text::Borrowed(b)) => a.eq(b),
            (Text::Owned(a), Text::Owned(b)) => a.eq(b),
        }
    }
}

/// Equality of scalar leaves.
fn static_node_eq(a: &StaticNode, b: &StaticNode) -> (r: bool)
    ensures
        r == static_eq(*a, *b),
{
    match (a, b) {
        (StaticNode::Null, StaticNode::Null) => true,
        (StaticNode::Bool(x), StaticNode::Bool(y)) => *x == *y,
        (StaticNode::I64(x), StaticNode::I64(y)) => *x == *y,
        (StaticNode::U64(x), StaticNode::U64(y)) => *x == *y,
        (StaticNode::I64(x), StaticNode::U64(y)) => *x >= 0 && *x as u64 == *y,
        (StaticNode::U64(x), StaticNode::I64(y)) => *y >= 0 && *y as u64 == *x,
        (StaticNode::F64(x), StaticNode::F64(y)) => *x == *y || ((*x & F64_ABS_MASK) == 0 && (*y
            & F64_ABS_MASK) == 0),
        _ => false,
    }
}

/// Whether, for every entry of `xs`, `ys` holds the key and an equal
/// value. The recursion runs through the values of `xs`.
#[verifier::rlimit(50)]
fn obj_covered(xs: &Object, ys: &Object) -> (r: bool)
    ensures
        r == (forall|i: int|
            0 <= i < sval_entries(xs@).len() ==> ({
                let j = find_key(sval_entries(ys@), (#[trigger] sval_entries(xs@)[i]).0.chars);
                &&& j >= 0
                &&& j < sval_entries(ys@).len()
                &&& sv_eq(sval_entries(xs@)[i].1, sval_entries(ys@)[j].1)
            })),
    decreases *xs, 0int,
{
    proof {
        lemma_sval_entries(xs@);
        lemma_sval_entries(ys@);
    }
    let ghost exs = sval_entries(xs@);
    let ghost eys = sval_entries(ys@);
    let n = xs.len();
    let mut i: usize = 0;
    while i < n
        invariant
            n == xs@.len(),
            i <= n,
            exs == sval_entries(xs@) && eys == sval_entries(ys@),
            exs.len() == n && eys.len() == ys@.len(),
            forall|j: int| 0 <= j < n ==> #[trigger] exs[j] == (xs@[j].0@, sval(xs@[j].1)),
            forall|j: int| 0 <= j < ys@.len() ==> #[trigger] eys[j] == (ys@[j].0@, sval(ys@[j].1)),
            forall|j: int|
                0 <= j < i ==> ({
                    let m = find_key(eys, (#[trigger] exs[j]).0.chars);
                    &&& m >= 0
                    &&& m < eys.len()
                    &&& sv_eq(exs[j].1, eys[m].1)
                }),
        decreases n - i,
    {
        let ks = xs[i].0.as_str().to_owned();
        match crate::value::find_index(ys, &ks) {
            Some(m) => {
                proof {
                    assert(decreases_to!(*xs => xs@));
                    assert(decreases_to!(xs@ => xs@[i as int]));
                    assert(decreases_to!(xs@[i as int] => xs@[i as int].1));
                }
                if !xs[i].1.equals(&ys[m].1) {
                    proof {
                        assert(find_key(eys, exs[i as int].0.chars) == m as int);
                        assert(!sv_eq(exs[i as int].1, eys[m as int].1));
                    }
                    return false;
                }
            },
            None => {
                proof {
                    assert(find_key(eys, exs[i as int].0.chars) < 0);
                }
                return false;
            },
        }
        i = i + 1;
    }
    true
}

/// Whether, for every entry of `ys`, `xs` holds the key and an equal
/// value. The recursion runs through the values of `xs`, so that the left
/// tree always shrinks.
#[verifier::rlimit(50)]
fn obj_covers(xs: &Object, ys: &Object) -> (r: bool)
    ensures
        r == (forall|i: int|
            0 <= i < sval_entries(ys@).len() ==> ({
                let j = find_key(sval_entries(xs@), (#[trigger] sval_entries(ys@)[i]).0.chars);
                &&& j >= 0
                &&& j < sval_entries(xs@).len()
                &&& sv_eq(sval_entries(xs@)[j].1, sval_entries(ys@)[i].1)
            })),
    decreases *xs, 0int,
{
    proof {
        lemma_sval_entries(xs@);
        lemma_sval_entries(ys@);
    }
    let ghost exs = sval_entries(xs@);
    let ghost eys = sval_entries(ys@);
    let n = ys.len();
    let mut i: usize = 0;
    while i < n
        invariant
            n == ys@.len(),
            i <= n,
            exs == sval_entries(xs@) && eys == sval_entries(ys@),
            eys.len() == n && exs.len() == xs@.len(),
            forall|j: int| 0 <= j < xs@.len() ==> #[trigger] exs[j] == (xs@[j].0@, sval(xs@[j].1)),
            forall|j: int| 0 <= j < n ==> #[trigger] eys[j] == (ys@[j].0@, sval(ys@[j].1)),
            forall|j: int|
                0 <= j < i ==> ({
                    let m = find_key(exs, (#[trigger] eys[j]).0.chars);
                    &&& m >= 0
                    &&& m < exs.len()
                    &&& sv_eq(exs[m].1, eys[j].1)
                }),
        decreases n - i,
    {
        let ks = ys[i].0.as_str().to_owned();
        match crate::value::find_index(xs, &ks) {
            Some(m) => {
                proof {
                    assert(decreases_to!(*xs => xs@));
                    assert(decreases_to!(xs@ => xs@[m as int]));
                    assert(decreases_to!(xs@[m as int] => xs@[m as int].1));
                }
                if !xs[m].1.equals(&ys[i].1) {
                    proof {
                        assert(find_key(exs, eys[i as int].0.chars) == m as int);
                        assert(!sv_eq(exs[m as int].1, eys[i as int].1));
                    }
                    return false;
                }
            },
            None => {
                proof {
                    assert(find_key(exs, eys[i as int].0.chars) < 0);
                }
                return false;
            },
        }
        i = i + 1;
    }
    true
}

impl Value {
    /// Whether the two trees are equal under the comparison contract.
    #[verifier::rlimit(50)]
    pub fn equals(&self, other: &Value) -> (r: bool)
        ensures
            r == sv_eq(self@, other@),
        decreases *self, 1int,
    {
        match (self, other) {
            (Value::Static(x), Value::Static(y)) => static_node_eq(x, y),
            (Value::String(x), Value::String(y)) => x.eq_text(y),
            (Value::Array(xs), Value::Array(ys)) => {
                proof {
                    lemma_sval_seq(xs@);
                    lemma_sval_seq(ys@);
                }
                if xs.len() != ys.len() {
                    return false;
                }
                let n = xs.len();
                let mut i: usize = 0;
                while i < n
                    invariant
                        n == xs@.len() == ys@.len(),
                        i <= n,
                        *self == Value::Array(*xs) && *other == Value::Array(*ys),
                        forall|j: int| 0 <= j < i ==> sv_eq(sval_seq(xs@)[j], sval_seq(ys@)[j]),
                        sval_seq(xs@).len() == n && sval_seq(ys@).len() == n,
                        forall|j: int| 0 <= j < n ==> #[trigger] sval_seq(xs@)[j] == sval(xs@[j]),
                        forall|j: int| 0 <= j < n ==> #[trigger] sval_seq(ys@)[j] == sval(ys@[j]),
                    decreases n - i,
                {
                    proof {
                        let v = *self;
                        assert(v->Array_0 == *xs);
                        assert(decreases_to!(v => v->Array_0));
                        assert(decreases_to!(*xs => xs@));
                        assert(decreases_to!(xs@ => xs@[i as int]));
                    }
                    if !xs[i].equals(&ys[i]) {
                        proof {
                            assert(!sv_eq(sval_seq(xs@)[i as int], sval_seq(ys@)[i as int]));
                        }
                        return false;
                    }
                    i = i + 1;
                }
                true
            },
            (Value::Object(xs), Value::Object(ys)) => {
                proof {
                    lemma_sval_entries(xs@);
                    lemma_sval_entries(ys@);
                }
                if xs.len() != ys.len() {
                    return false;
                }
                proof {
                    let v = *self;
                    assert(v->Object_0 == *xs);
                    assert(decreases_to!(v => v->Object_0));
                }
                obj_covered(xs, ys) && obj_covers(xs, ys)
            },
            _ => false,
        }
    }
}

impl PartialEq for Value {
    /// Equality under the comparison contract; see `equals`.
    fn eq(&self, other: &Value) -> (r: bool) {
        self.equals(other)
    }
}

impl vstd::std_specs::cmp::PartialEqSpecImpl for Value {
    open spec fn obeys_eq_spec() -> bool {
        true
    }

    open spec fn eq_spec(&self, other: &Value) -> bool {
        sv_eq(self@, other@)
    }
}

impl PartialEq<()> for Value {
    /// Whether this is the null leaf, the tree a unit converts to.
    fn eq(&self, _other: &()) -> (r: bool) {
        self.is_null()
    }
}

impl vstd::std_specs::cmp::PartialEqSpecImpl<()> for Value {
    open spec fn obeys_eq_spec() -> bool {
        true
    }

    open spec fn eq_spec(&self, _other: &()) -> bool {
        self@ == SpecValue::Static(StaticNode::Null)
    }
}

impl PartialEq<bool> for Value {
    /// Whether this is a `Bool` leaf holding exactly `other`.
    fn eq(&self, other: &bool) -> (r: bool) {
        match self {
            Value::Static(StaticNode::Bool(b)) => *b == *other,
            _ => false,
        }
    }
}

impl vstd::std_specs::cmp::PartialEqSpecImpl<bool> for Value {
    open spec fn obeys_eq_spec() -> bool {
        true
    }

    open spec fn eq_spec(&self, other: &bool) -> bool {
        crate::value::spec_as_bool(self@) == Some(*other)
    }
}

} // verus!
