//! The parse-event stream: the structural events a tokenizer hands the tree
//! builder, and the encoding of a tree as the event sequence that rebuilds
//! it. An array or object announces the exact count of children to come.

use vstd::prelude::*;

use crate::value::{SpecValue, StaticNode, Text, TextView, Value};

verus! {

/// One structural parse event.
#[derive(Debug)]
pub enum Node {
    /// A scalar leaf.
    Static(StaticNode),
    /// A text leaf, or an object key when it follows an object opening.
    String(Text),
    /// An array of exactly this many upcoming child values.
    Array(usize),
    /// An object of exactly this many upcoming key/value pairs.
    Object(usize),
}

/// The model of a parse event.
pub enum NodeView {
    Static(StaticNode),
    Str(TextView),
    Arr(int),
    Obj(int),
}

impl View for Node {
    type V = NodeView;

    open spec fn view(&self) -> NodeView {
        match self {
            Node::Static(s) => NodeView::Static(*s),
            Node::String(t) => NodeView::Str(t@),
            Node::Array(n) => NodeView::Arr(*n as int),
            Node::Object(n) => NodeView::Obj(*n as int),
        }
    }
}

impl Clone for Node {
    fn clone(&self) -> (r: Self)
        ensures
            r@ == self@,
    {
        match self {
            Node::Static(s) => Node::Static(*s),
            Node::String(t) => Node::String(t.clone()),
            Node::Array(n) => Node::Array(*n),
            Node::Object(n) => Node::Object(*n),
        }
    }
}

/// The models of a sequence of events, in order.
pub open spec fn nodes_view(s: Seq<Node>) -> Seq<NodeView>
    decreases s,
{
    if s.len() == 0 {
        Seq::empty()
    } else {
        seq![s[0]@] + nodes_view(s.subrange(1, s.len() as int))
    }
}

/// The length and elementwise reading of `nodes_view`.
pub proof fn lemma_nodes_view(s: Seq<Node>)
    ensures
        nodes_view(s).len() == s.len(),
        forall|i: int| 0 <= i < s.len() ==> #[trigger] nodes_view(s)[i] == s[i]@,
    decreases s.len(),
{
    if s.len() > 0 {
        lemma_nodes_view(s.subrange(1, s.len() as int));
    }
}

/// The event sequence that encodes a tree: one event per leaf, and for a
/// branch its opening event, with the exact child count, followed by the
/// encodings of the children in order. Object keys ride as string events
/// before each value.
pub open spec fn events_of(v: SpecValue) -> Seq<NodeView>
    decreases v,
{
    match v {
        SpecValue::Static(s) => seq![NodeView::Static(s)],
        SpecValue::Str(t) => seq![NodeView::Str(t)],
        SpecValue::Arr(cs) => seq![NodeView::Arr(cs.len() as int)] + events_of_seq(cs),
        SpecValue::Obj(es) => seq![NodeView::Obj(es.len() as int)] + events_of_entries(es),
    }
}

/// The concatenated encodings of array elements.
pub open spec fn events_of_seq(cs: Seq<SpecValue>) -> Seq<NodeView>
    decreases cs,
{
    if cs.len() == 0 {
        Seq::empty()
    } else {
        events_of(cs[0]) + events_of_seq(cs.subrange(1, cs.len() as int))
    }
}

/// The concatenated encodings of object entries: each key as a string
/// event, then the value's encoding.
pub open spec fn events_of_entries(es: Seq<(TextView, SpecValue)>) -> Seq<NodeView>
    decreases es,
{
    if es.len() == 0 {
        Seq::empty()
    } else {
        seq![NodeView::Str(es[0].0)] + events_of(es[0].1) + events_of_entries(
            es.subrange(1, es.len() as int),
        )
    }
}

/// Every tree's encoding starts with one event.
pub proof fn lemma_events_nonempty(v: SpecValue)
    ensures
        events_of(v).len() >= 1,
{
}

/// Appending an element appends its encoding.
pub proof fn lemma_events_of_seq_push(cs: Seq<SpecValue>, x: SpecValue)
    ensures
        events_of_seq(cs.push(x)) == events_of_seq(cs) + events_of(x),
    decreases cs.len(),
{
    if cs.len() == 0 {
        assert(cs.push(x)[0] == x);
        assert(cs.push(x).subrange(1, 1) =~= Seq::<SpecValue>::empty());
        assert(events_of_seq(Seq::<SpecValue>::empty()) == Seq::<NodeView>::empty());
        assert(events_of_seq(cs.push(x)) == events_of(x) + Seq::<NodeView>::empty());
        assert(events_of_seq(cs.push(x)) =~= events_of_seq(cs) + events_of(x));
    } else {
        assert(cs.push(x).subrange(1, cs.len() as int + 1) =~= cs.subrange(1, cs.len() as int).push(x));
        lemma_events_of_seq_push(cs.subrange(1, cs.len() as int), x);
        assert(events_of_seq(cs.push(x)) =~= events_of_seq(cs) + events_of(x));
    }
}

/// Appending an entry appends its key event and its value's encoding.
pub proof fn lemma_events_of_entries_push(es: Seq<(TextView, SpecValue)>, k: TextView, x: SpecValue)
    ensures
        events_of_entries(es.push((k, x))) == events_of_entries(es) + seq![NodeView::Str(k)]
            + events_of(x),
    decreases es.len(),
{
    if es.len() == 0 {
        assert(es.push((k, x))[0] == (k, x));
        assert(es.push((k, x)).subrange(1, 1) =~= Seq::<(TextView, SpecValue)>::empty());
        assert(events_of_entries(Seq::<(TextView, SpecValue)>::empty()) == Seq::<NodeView>::empty());
        assert(events_of_entries(es.push((k, x))) == seq![NodeView::Str(k)] + events_of(x)
            + Seq::<NodeView>::empty());
        assert(events_of_entries(es.push((k, x))) =~= events_of_entries(es) + seq![
            NodeView::Str(k),
        ] + events_of(x));
    } else {
        assert(es.push((k, x)).subrange(1, es.len() as int + 1) =~= es.subrange(
            1,
            es.len() as int,
        ).push((k, x)));
        lemma_events_of_entries_push(es.subrange(1, es.len() as int), k, x);
        assert(events_of_entries(es.push((k, x))) =~= events_of_entries(es) + seq![
            NodeView::Str(k),
        ] + events_of(x));
    }
}

/// Writes the encoding of `v` after what `out` already holds.
#[verifier::loop_isolation(false)]
fn encode_into(v: &Value, out: &mut Vec<Node>)
    ensures
        nodes_view(final(out)@) == nodes_view(old(out)@) + events_of(v@),
    decreases *v,
{
    proof {
        lemma_nodes_view(old(out)@);
    }
    match v {
        Value::Static(s) => {
            out.push(Node::Static(*s));
            proof {
                lemma_nodes_view(out@);
                assert(nodes_view(out@) =~= nodes_view(old(out)@) + events_of(v@));
            }
        },
        Value::String(t) => {
            out.push(Node::String(t.clone()));
            proof {
                lemma_nodes_view(out@);
                assert(nodes_view(out@) =~= nodes_view(old(out)@) + events_of(v@));
            }
        },
        Value::Array(arr) => {
            proof {
                crate::value::lemma_sval_seq(arr@);
            }
            let ghost cs = crate::value::sval_seq(arr@);
            let n = arr.len();
            out.push(Node::Array(n));
            proof {
                lemma_nodes_view(out@);
                assert(cs.subrange(0, 0) =~= Seq::<SpecValue>::empty());
                assert(nodes_view(out@) =~= nodes_view(old(out)@) + seq![
                    NodeView::Arr(n as int),
                ] + events_of_seq(cs.subrange(0, 0)));
            }
            let mut i: usize = 0;
            while i < n
                invariant
                    n == arr@.len(),
                    i <= n,
                    *v == Value::Array(*arr),
                    cs == crate::value::sval_seq(arr@),
                    cs.len() == n,
                    nodes_view(out@) == nodes_view(old(out)@) + seq![NodeView::Arr(n as int)]
                        + events_of_seq(cs.subrange(0, i as int)),
                decreases n - i,
            {
                proof {
                    let vv = *v;
                    assert(vv->Array_0 == *arr);
                    assert(decreases_to!(vv => vv->Array_0));
                    assert(decreases_to!(*arr => arr@));
                    assert(decreases_to!(arr@ => arr@[i as int]));
                }
                encode_into(&arr[i], out);
                proof {
                    assert(cs.subrange(0, i + 1) =~= cs.subrange(0, i as int).push(cs[i as int]));
                    lemma_events_of_seq_push(cs.subrange(0, i as int), cs[i as int]);
                    assert(nodes_view(out@) =~= nodes_view(old(out)@) + seq![
                        NodeView::Arr(n as int),
                    ] + events_of_seq(cs.subrange(0, i + 1)));
                }
                i = i + 1;
            }
            proof {
                assert(cs.subrange(0, n as int) =~= cs);
                assert(nodes_view(out@) =~= nodes_view(old(out)@) + events_of(v@));
            }
        },
        Value::Object(es) => {
            proof {
                crate::value::lemma_sval_entries(es@);
            }
            let ghost evs = crate::value::sval_entries(es@);
            let n = es.len();
            out.push(Node::Object(n));
            proof {
                lemma_nodes_view(out@);
                assert(evs.subrange(0, 0) =~= Seq::<(TextView, SpecValue)>::empty());
                assert(nodes_view(out@) =~= nodes_view(old(out)@) + seq![
                    NodeView::Obj(n as int),
                ] + events_of_entries(evs.subrange(0, 0)));
            }
            let mut i: usize = 0;
            while i < n
                invariant
                    n == es@.len(),
                    i <= n,
                    *v == Value::Object(*es),
                    evs == crate::value::sval_entries(es@),
                    evs.len() == n,
                    nodes_view(out@) == nodes_view(old(out)@) + seq![NodeView::Obj(n as int)]
                        + events_of_entries(evs.subrange(0, i as int)),
                decreases n - i,
            {
                proof {
                    let vv = *v;
                    assert(vv->Object_0 == *es);
                    assert(decreases_to!(vv => vv->Object_0));
                    assert(decreases_to!(*es => es@));
                    assert(decreases_to!(es@ => es@[i as int]));
                    assert(decreases_to!(es@[i as int] => es@[i as int].1));
                }
                let ghost out_before = out@;
                out.push(Node::String(es[i].0.clone()));
                proof {
                    lemma_nodes_view(out_before);
                    lemma_nodes_view(out@);
                    assert(nodes_view(out@) =~= nodes_view(out_before) + seq![
                        NodeView::Str(evs[i as int].0),
                    ]);
                }
                encode_into(&es[i].1, out);
                proof {
                    assert(evs.subrange(0, i + 1) =~= evs.subrange(0, i as int).push(
                        evs[i as int],
                    ));
                    lemma_events_of_entries_push(
                        evs.subrange(0, i as int),
                        evs[i as int].0,
                        evs[i as int].1,
                    );
                    assert(nodes_view(out@) =~= nodes_view(old(out)@) + seq![
                        NodeView::Obj(n as int),
                    ] + events_of_entries(evs.subrange(0, i + 1)));
                }
                i = i + 1;
            }
            proof {
                assert(evs.subrange(0, n as int) =~= evs);
                assert(nodes_view(out@) =~= nodes_view(old(out)@) + events_of(v@));
            }
        },
    }
}

/// The event sequence that encodes `v`: feeding it to the tree builder
/// rebuilds a tree with the model of `v`.
pub fn encode(v: &Value) -> (r: Vec<Node>)
    ensures
        nodes_view(r@) == events_of(v@),
{
    let mut out: Vec<Node> = Vec::new();
    proof {
        assert(nodes_view(out@) =~= Seq::<NodeView>::empty());
    }
    encode_into(v, &mut out);
    out
}

} // verus!
