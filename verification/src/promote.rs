//! Promotion: turning a tree whose text may borrow from the parsed input
//! into one that owns all its storage. Only the storage tags change; the
//! promoted tree is equal to the source under the comparison contract.

use vstd::prelude::*;

use crate::cmp::sv_eq;
use crate::value::{
    find_key, lemma_find_key, lemma_sval_entries, lemma_sval_seq, sval, sval_entries, sval_seq,
    wf, SpecValue, Storage, Text, TextView, Value,
};

verus! {

/// The promoted form of a tree: the same shape and contents, every storage
/// tag `Owned`.
pub open spec fn promoted(v: SpecValue) -> SpecValue
    decreases v,
{
    match v {
        SpecValue::Static(s) => SpecValue::Static(s),
        SpecValue::Str(t) => SpecValue::Str((TextView { mode: Storage::Owned, chars: t.chars })),
        SpecValue::Arr(cs) => SpecValue::Arr(promoted_seq(cs)),
        SpecValue::Obj(es) => SpecValue::Obj(promoted_entries(es)),
    }
}

/// The promoted forms of array elements, in order.
pub open spec fn promoted_seq(s: Seq<SpecValue>) -> Seq<SpecValue>
    decreases s,
{
    if s.len() == 0 {
        Seq::empty()
    } else {
        seq![promoted(s[0])] + promoted_seq(s.subrange(1, s.len() as int))
    }
}

/// The promoted forms of object entries: keys retagged `Owned`, their
/// characters and order kept, values promoted.
pub open spec fn promoted_entries(s: Seq<(TextView, SpecValue)>) -> Seq<(TextView, SpecValue)>
    decreases s,
{
    if s.len() == 0 {
        Seq::empty()
    } else {
        seq![
            ((TextView { mode: Storage::Owned, chars: s[0].0.chars }), promoted(s[0].1)),
        ] + promoted_entries(s.subrange(1, s.len() as int))
    }
}

/// The length and elementwise reading of `promoted_seq`.
pub proof fn lemma_promoted_seq(s: Seq<SpecValue>)
    ensures
        promoted_seq(s).len() == s.len(),
        forall|i: int| 0 <= i < s.len() ==> #[trigger] promoted_seq(s)[i] == promoted(s[i]),
    decreases s.len(),
{
    if s.len() > 0 {
        lemma_promoted_seq(s.subrange(1, s.len() as int));
    }
}

/// The length and elementwise reading of `promoted_entries`.
pub proof fn lemma_promoted_entries(s: Seq<(TextView, SpecValue)>)
    ensures
        promoted_entries(s).len() == s.len(),
        forall|i: int|
            0 <= i < s.len() ==> #[trigger] promoted_entries(s)[i] == (
                (TextView { mode: Storage::Owned, chars: s[i].0.chars }),
                promoted(s[i].1),
            ),
    decreases s.len(),
{
    if s.len() > 0 {
        lemma_promoted_entries(s.subrange(1, s.len() as int));
    }
}

/// Looking a key up is blind to storage tags, so promotion moves no entry.
proof fn lemma_find_key_promoted(es: Seq<(TextView, SpecValue)>, k: Seq<char>)
    ensures
        find_key(promoted_entries(es), k) == find_key(es, k),
    decreases es.len(),
{
    lemma_promoted_entries(es);
    if es.len() > 0 {
        lemma_promoted_entries(es.subrange(1, es.len() as int));
        lemma_find_key_promoted(es.subrange(1, es.len() as int), k);
        assert(promoted_entries(es).subrange(1, es.len() as int) =~= promoted_entries(
            es.subrange(1, es.len() as int),
        ));
    }
}

/// Promotion preserves value identity: a well-formed tree equals its
/// promoted form under the comparison contract. Only the storage tags
/// differ.
#[verifier::rlimit(100)]
#[verifier::spinoff_prover]
pub proof fn lemma_promotion_preserves_equality(v: SpecValue)
    requires
        wf(v),
    ensures
        sv_eq(v, promoted(v)),
    decreases v,
{
    match v {
        SpecValue::Arr(cs) => {
            lemma_promoted_seq(cs);
            assert forall|i: int| 0 <= i < cs.len() implies sv_eq(
                #[trigger] cs[i],
                promoted_seq(cs)[i],
            ) by {
                lemma_promotion_preserves_equality(cs[i]);
            }
        },
        SpecValue::Obj(es) => {
            lemma_promoted_entries(es);
            let ps = promoted_entries(es);
            assert forall|i: int|
                0 <= i < es.len() implies ({
                    let j = find_key(ps, (#[trigger] es[i]).0.chars);
                    &&& j >= 0
                    &&& j < ps.len()
                    &&& sv_eq(es[i].1, ps[j].1)
                }) by {
                lemma_find_key_promoted(es, es[i].0.chars);
                lemma_find_key(es, es[i].0.chars);
                let j = find_key(es, es[i].0.chars);
                assert(j == i);
                lemma_promotion_preserves_equality(es[i].1);
            }
            assert forall|i: int|
                0 <= i < ps.len() implies ({
                    let j = find_key(es, (#[trigger] ps[i]).0.chars);
                    &&& j >= 0
                    &&& j < es.len()
                    &&& sv_eq(es[j].1, ps[i].1)
                }) by {
                lemma_find_key_promoted(es, ps[i].0.chars);
                lemma_find_key(es, ps[i].0.chars);
                let j = find_key(es, ps[i].0.chars);
                assert(es[i].0.chars == ps[i].0.chars);
                assert(j == i);
                lemma_promotion_preserves_equality(es[i].1);
            }
        },
        _ => {},
    }
}

impl Text {
    /// The same characters under the `Owned` tag.
    pub fn into_owned(self) -> (r: Text)
        ensures
            r@ == (TextView { mode: Storage::Owned, chars: self@.chars }),
    {
        match self {
            Text::Borrowed(s) => Text::Owned(s),
            Text::Owned(s) => Text::Owned(s),
        }
    }
}

impl Value {
    /// Consuming promotion: walks the tree once, retagging every text leaf
    /// and key as owned; storage already owned is moved, not copied.
    #[verifier::loop_isolation(false)]
    pub fn into_static(self) -> (r: Value)
        ensures
            r@ == promoted(self@),
        decreases self,
    {
        let ghost v0 = self;
        match self {
            Value::Static(s) => Value::Static(s),
            Value::String(t) => Value::String(t.into_owned()),
            Value::Array(arr) => {
                proof {
                    lemma_sval_seq(arr@);
                    lemma_promoted_seq(sval_seq(arr@));
                }
                let ghost a0 = arr@;
                let mut rest = arr;
                let mut out: Vec<Value> = Vec::with_capacity(rest.len());
                while rest.len() > 0
                    invariant
                        out@.len() + rest@.len() == a0.len(),
                        forall|j: int| 0 <= j < rest@.len() ==> #[trigger] rest@[j] == a0[out@.len()
                            + j],
                        forall|j: int|
                            0 <= j < out@.len() ==> sval(#[trigger] out@[j]) == promoted(sval(
                                a0[j],
                            )),
                        v0 matches Value::Array(varr) && varr@ == a0,
                    decreases rest@.len(),
                {
                    let ghost k = out@.len() as int;
                    let x = rest.remove(0);
                    proof {
                        assert(x == a0[k]);
                        assert(v0->Array_0@ == a0);
                        assert(decreases_to!(v0 => v0->Array_0));
                        assert(decreases_to!(v0->Array_0 => v0->Array_0@));
                        assert(decreases_to!(v0->Array_0@ => v0->Array_0@[k]));
                        assert(decreases_to!(v0 => x));
                    }
                    let y = x.into_static();
                    out.push(y);
                }
                proof {
                    lemma_sval_seq(out@);
                    assert(sval_seq(out@) =~= promoted_seq(sval_seq(a0)));
                }
                Value::Array(out)
            },
            Value::Object(es) => {
                proof {
                    lemma_sval_entries(es@);
                    lemma_promoted_entries(sval_entries(es@));
                }
                let ghost e0 = es@;
                let mut rest = es;
                let mut out: Vec<(Text, Value)> = Vec::with_capacity(rest.len());
                while rest.len() > 0
                    invariant
                        out@.len() + rest@.len() == e0.len(),
                        forall|j: int| 0 <= j < rest@.len() ==> #[trigger] rest@[j] == e0[out@.len()
                            + j],
                        forall|j: int|
                            0 <= j < out@.len() ==> ((#[trigger] out@[j]).0@, sval(out@[j].1)) == (
                                (TextView { mode: Storage::Owned, chars: e0[j].0@.chars }),
                                promoted(sval(e0[j].1)),
                            ),
                        v0 matches Value::Object(ves) && ves@ == e0,
                    decreases rest@.len(),
                {
                    let ghost k = out@.len() as int;
                    let (key, x) = rest.remove(0);
                    proof {
                        assert((key, x) == e0[k]);
                        assert(v0->Object_0@ == e0);
                        assert(decreases_to!(v0 => v0->Object_0));
                        assert(decreases_to!(v0->Object_0 => v0->Object_0@));
                        assert(decreases_to!(v0->Object_0@ => v0->Object_0@[k]));
                        assert(decreases_to!(v0->Object_0@[k] => v0->Object_0@[k].1));
                        assert(decreases_to!(v0 => x));
                    }
                    let key2 = key.into_owned();
                    let y = x.into_static();
                    out.push((key2, y));
                }
                proof {
                    lemma_sval_entries(out@);
                    assert(sval_entries(out@) =~= promoted_entries(sval_entries(e0)));
                }
                Value::Object(out)
            },
        }
    }

    /// Cloning promotion: the same result as `into_static`, the source left
    /// untouched and usable.
    pub fn clone_static(&self) -> (r: Value)
        ensures
            r@ == promoted(self@),
        decreases *self,
    {
        match self {
            Value::Static(s) => Value::Static(*s),
            Value::String(t) => Value::String(t.clone().into_owned()),
            Value::Array(arr) => {
                proof {
                    lemma_sval_seq(arr@);
                    lemma_promoted_seq(sval_seq(arr@));
                }
                let n = arr.len();
                let mut out: Vec<Value> = Vec::with_capacity(n);
                let mut i: usize = 0;
                while i < n
                    invariant
                        n == arr@.len(),
                        i <= n,
                        out@.len() == i,
                        *self == Value::Array(*arr),
                        forall|j: int|
                            0 <= j < i ==> sval(#[trigger] out@[j]) == promoted(sval(arr@[j])),
                    decreases n - i,
                {
                    proof {
                        let v = *self;
                        assert(v->Array_0 == *arr);
                        assert(decreases_to!(v => v->Array_0));
                        assert(decreases_to!(*arr => arr@));
                        assert(decreases_to!(arr@ => arr@[i as int]));
                    }
                    let y = arr[i].clone_static();
                    out.push(y);
                    i = i + 1;
                }
                proof {
                    lemma_sval_seq(out@);
                    assert(sval_seq(out@) =~= promoted_seq(sval_seq(arr@)));
                }
                Value::Array(out)
            },
            Value::Object(es) => {
                proof {
                    lemma_sval_entries(es@);
                    lemma_promoted_entries(sval_entries(es@));
                }
                let n = es.len();
                let mut out: Vec<(Text, Value)> = Vec::with_capacity(n);
                let mut i: usize = 0;
                while i < n
                    invariant
                        n == es@.len(),
                        i <= n,
                        out@.len() == i,
                        *self == Value::Object(*es),
                        forall|j: int|
                            0 <= j < i ==> ((#[trigger] out@[j]).0@, sval(out@[j].1)) == (
                                (TextView { mode: Storage::Owned, chars: es@[j].0@.chars }),
                                promoted(sval(es@[j].1)),
                            ),
                    decreases n - i,
                {
                    proof {
                        let v = *self;
                        assert(v->Object_0 == *es);
                        assert(decreases_to!(v => v->Object_0));
                        assert(decreases_to!(*es => es@));
                        assert(decreases_to!(es@ => es@[i as int]));
                        assert(decreases_to!(es@[i as int] => es@[i as int].1));
                    }
                    let key2 = es[i].0.clone().into_owned();
                    let y = es[i].1.clone_static();
                    out.push((key2, y));
                    i = i + 1;
                }
                proof {
                    lemma_sval_entries(out@);
                    assert(sval_entries(out@) =~= promoted_entries(sval_entries(es@)));
                }
                Value::Object(out)
            },
        }
    }
}

impl Clone for Value {
    /// A deep copy: the same model, storage tags included.
    fn clone(&self) -> (r: Self)
        ensures
            r@ == self@,
        decreases *self,
    {
        match self {
            Value::Static(s) => Value::Static(*s),
            Value::String(t) => Value::String(t.clone()),
            Value::Array(arr) => {
                proof {
                    lemma_sval_seq(arr@);
                }
                let n = arr.len();
                let mut out: Vec<Value> = Vec::with_capacity(n);
                let mut i: usize = 0;
                while i < n
                    invariant
                        n == arr@.len(),
                        i <= n,
                        out@.len() == i,
                        *self == Value::Array(*arr),
                        forall|j: int| 0 <= j < i ==> sval(#[trigger] out@[j]) == sval(arr@[j]),
                    decreases n - i,
                {
                    proof {
                        let v = *self;
                        assert(v->Array_0 == *arr);
                        assert(decreases_to!(v => v->Array_0));
                        assert(decreases_to!(*arr => arr@));
                        assert(decreases_to!(arr@ => arr@[i as int]));
                    }
                    let y = arr[i].clone();
                    out.push(y);
                    i = i + 1;
                }
                proof {
                    lemma_sval_seq(out@);
                    assert(sval_seq(out@) =~= sval_seq(arr@));
                }
                Value::Array(out)
            },
            Value::Object(es) => {
                proof {
                    lemma_sval_entries(es@);
                }
                let n = es.len();
                let mut out: Vec<(Text, Value)> = Vec::with_capacity(n);
                let mut i: usize = 0;
                while i < n
                    invariant
                        n == es@.len(),
                        i <= n,
                        out@.len() == i,
                        *self == Value::Object(*es),
                        forall|j: int|
                            0 <= j < i ==> ((#[trigger] out@[j]).0@, sval(out@[j].1)) == (
                                es@[j].0@,
                                sval(es@[j].1),
                            ),
                    decreases n - i,
                {
                    proof {
                        let v = *self;
                        assert(v->Object_0 == *es);
                        assert(decreases_to!(v => v->Object_0));
                        assert(decreases_to!(*es => es@));
                        assert(decreases_to!(es@ => es@[i as int]));
                        assert(decreases_to!(es@[i as int] => es@[i as int].1));
                    }
                    let key2 = es[i].0.clone();
                    let y = es[i].1.clone();
                    out.push((key2, y));
                    i = i + 1;
                }
                proof {
                    lemma_sval_entries(out@);
                    assert(sval_entries(out@) =~= sval_entries(es@));
                }
                Value::Object(out)
            },
        }
    }
}

} // verus!
