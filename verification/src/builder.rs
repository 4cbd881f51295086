//! The tree builder: consumes a parse-event stream and produces one value
//! tree per top-level event, recursively, reserving exact capacity from the
//! announced child counts. An event encoding determines its tree uniquely,
//! and on any stream that holds a tree's encoding the builder succeeds; a
//! stream that breaks the event contract is answered with a construction
//! error, never trusted.

use vstd::prelude::*;

use crate::events::{
    events_of, events_of_entries, events_of_seq, lemma_events_nonempty, nodes_view, Node,
    NodeView,
};
use crate::value::{find_key, lemma_find_key, wf, SpecValue, TextView, Value};

verus! {

/// The fatal construction failures: the stream ended before every announced
/// child arrived, or an object key was not a string event.
#[derive(Debug, Clone, Copy, PartialEq, Eq, Structural)]
pub enum BuildError {
    UnexpectedEnd,
    KeyNotString,
}

/// Whether the encoding of `u` sits in `s` at position `pos`.
pub open spec fn encodes_at(s: Seq<NodeView>, pos: int, u: SpecValue) -> bool {
    &&& 0 <= pos
    &&& pos + events_of(u).len() <= s.len()
    &&& s.subrange(pos, pos + events_of(u).len() as int) == events_of(u)
}

/// Whether the concatenated encodings of `cs` sit in `s` at `pos`.
pub open spec fn seq_encodes_at(s: Seq<NodeView>, pos: int, cs: Seq<SpecValue>) -> bool {
    &&& 0 <= pos
    &&& pos + events_of_seq(cs).len() <= s.len()
    &&& s.subrange(pos, pos + events_of_seq(cs).len() as int) == events_of_seq(cs)
}

/// Whether the concatenated entry encodings of `es` sit in `s` at `pos`.
pub open spec fn entries_encodes_at(
    s: Seq<NodeView>,
    pos: int,
    es: Seq<(TextView, SpecValue)>,
) -> bool {
    &&& 0 <= pos
    &&& pos + events_of_entries(es).len() <= s.len()
    &&& s.subrange(pos, pos + events_of_entries(es).len() as int) == events_of_entries(es)
}

/// One insert-with-replace step, as the object invariant demands of a
/// repeated key: when `k` is already present, the entry keeps its place and
/// its key text and takes the new value; otherwise the pair is appended.
pub open spec fn upsert_entry(
    acc: Seq<(TextView, SpecValue)>,
    k: TextView,
    v: SpecValue,
) -> Seq<(TextView, SpecValue)> {
    let i = find_key(acc, k.chars);
    if i >= 0 {
        acc.update(i, (acc[i].0, v))
    } else {
        acc.push((k, v))
    }
}

/// The tree the builder makes of an encoded tree: arrays elementwise, and
/// every object rebuilt by inserting its pairs in order with replacement,
/// so that keys come out unique, each at its first position with its last
/// value. On a well-formed tree this is the identity.
pub open spec fn dedup_tree(v: SpecValue) -> SpecValue
    decreases v, 0int,
{
    match v {
        SpecValue::Static(s) => SpecValue::Static(s),
        SpecValue::Str(t) => SpecValue::Str(t),
        SpecValue::Arr(cs) => SpecValue::Arr(dedup_seq(cs)),
        SpecValue::Obj(es) => SpecValue::Obj(dedup_entries(es)),
    }
}

/// The built forms of array elements, in order.
pub open spec fn dedup_seq(cs: Seq<SpecValue>) -> Seq<SpecValue>
    decreases cs, 1int,
{
    if cs.len() == 0 {
        Seq::empty()
    } else {
        seq![dedup_tree(cs[0])] + dedup_seq(cs.subrange(1, cs.len() as int))
    }
}

/// The built form of an object's pair list: pairs inserted in order with
/// replacement, values built first.
pub open spec fn dedup_entries(es: Seq<(TextView, SpecValue)>) -> Seq<(TextView, SpecValue)>
    decreases es, 1int,
{
    if es.len() == 0 {
        Seq::empty()
    } else {
        upsert_entry(
            dedup_entries(es.subrange(0, es.len() - 1)),
            es[es.len() - 1].0,
            dedup_tree(es[es.len() - 1].1),
        )
    }
}

/// The length and elementwise reading of `dedup_seq`.
pub proof fn lemma_dedup_seq_props(cs: Seq<SpecValue>)
    ensures
        dedup_seq(cs).len() == cs.len(),
        forall|i: int| 0 <= i < cs.len() ==> #[trigger] dedup_seq(cs)[i] == dedup_tree(cs[i]),
    decreases cs.len(),
{
    if cs.len() > 0 {
        lemma_dedup_seq_props(cs.subrange(1, cs.len() as int));
    }
}

/// Appending an element appends its built form.
pub proof fn lemma_dedup_seq_push(cs: Seq<SpecValue>, x: SpecValue)
    ensures
        dedup_seq(cs.push(x)) == dedup_seq(cs).push(dedup_tree(x)),
    decreases cs.len(),
{
    lemma_dedup_seq_props(cs);
    lemma_dedup_seq_props(cs.push(x));
    assert forall|i: int| 0 <= i < cs.len() + 1 implies #[trigger] dedup_seq(cs.push(x))[i]
        == dedup_seq(cs).push(dedup_tree(x))[i] by {
        if i < cs.len() {
            assert(cs.push(x)[i] == cs[i]);
        } else {
            assert(cs.push(x)[i] == x);
        }
    }
    assert(dedup_seq(cs.push(x)) =~= dedup_seq(cs).push(dedup_tree(x)));
}

/// Appending a pair is one more insert-with-replace.
pub proof fn lemma_dedup_entries_push(es: Seq<(TextView, SpecValue)>, k: TextView, x: SpecValue)
    ensures
        dedup_entries(es.push((k, x))) == upsert_entry(dedup_entries(es), k, dedup_tree(x)),
{
    let s = es.push((k, x));
    assert(s.subrange(0, s.len() - 1) =~= es);
    assert(s[s.len() - 1] == (k, x));
}

/// Insert-with-replace keeps an object well-formed.
proof fn lemma_upsert_wf(acc: Seq<(TextView, SpecValue)>, k: TextView, v: SpecValue)
    requires
        wf(SpecValue::Obj(acc)),
        wf(v),
    ensures
        wf(SpecValue::Obj(upsert_entry(acc, k, v))),
{
    lemma_find_key(acc, k.chars);
    let i = find_key(acc, k.chars);
    let r = upsert_entry(acc, k, v);
    if i >= 0 {
        assert forall|a: int, b: int| 0 <= a < b < r.len() implies (#[trigger] r[a]).0.chars != (
        #[trigger] r[b]).0.chars by {
            assert(r[a].0 == acc[a].0);
            assert(r[b].0 == acc[b].0);
            assert(acc[a].0.chars != acc[b].0.chars);
        }
        assert forall|a: int| 0 <= a < r.len() implies wf((#[trigger] r[a]).1) by {
            if a != i {
                assert(r[a] == acc[a]);
                assert(wf(acc[a].1));
            }
        }
    } else {
        assert forall|a: int, b: int| 0 <= a < b < r.len() implies (#[trigger] r[a]).0.chars != (
        #[trigger] r[b]).0.chars by {
            if b < acc.len() {
                assert(r[a] == acc[a] && r[b] == acc[b]);
                assert(acc[a].0.chars != acc[b].0.chars);
            } else {
                assert(r[a] == acc[a] && r[b] == (k, v));
                assert(acc[a].0.chars != k.chars);
            }
        }
        assert forall|a: int| 0 <= a < r.len() implies wf((#[trigger] r[a]).1) by {
            if a < acc.len() {
                assert(r[a] == acc[a]);
                assert(wf(acc[a].1));
            } else {
                assert(r[a] == (k, v));
            }
        }
    }
}

/// Every built tree is well-formed: whatever pairs the events announced,
/// insert-with-replace leaves each object's keys unique.
#[verifier::rlimit(100)]
#[verifier::spinoff_prover]
pub proof fn lemma_built_tree_well_formed(v: SpecValue)
    ensures
        wf(dedup_tree(v)),
    decreases v, 0int,
{
    match v {
        SpecValue::Arr(cs) => {
            lemma_dedup_seq_props(cs);
            assert forall|i: int| 0 <= i < dedup_seq(cs).len() implies wf(
                #[trigger] dedup_seq(cs)[i],
            ) by {
                lemma_built_tree_well_formed(cs[i]);
            }
        },
        SpecValue::Obj(es) => {
            lemma_built_entries_well_formed(es);
        },
        _ => {},
    }
}

/// The entry-list form of `lemma_built_tree_well_formed`.
#[verifier::rlimit(100)]
#[verifier::spinoff_prover]
proof fn lemma_built_entries_well_formed(es: Seq<(TextView, SpecValue)>)
    ensures
        wf(SpecValue::Obj(dedup_entries(es))),
    decreases es, 1int,
{
    if es.len() == 0 {
        assert(wf(SpecValue::Obj(dedup_entries(es))));
    } else {
        let pre = es.subrange(0, es.len() - 1);
        lemma_built_entries_well_formed(pre);
        lemma_built_tree_well_formed(es[es.len() - 1].1);
        lemma_upsert_wf(dedup_entries(pre), es[es.len() - 1].0, dedup_tree(es[es.len() - 1].1));
    }
}

/// On a well-formed tree the builder's rebuilding changes nothing: every
/// key is new when its pair arrives, so every pair is appended as it is.
#[verifier::rlimit(100)]
#[verifier::spinoff_prover]
pub proof fn lemma_dedup_identity(v: SpecValue)
    requires
        wf(v),
    ensures
        dedup_tree(v) == v,
    decreases v, 0int,
{
    match v {
        SpecValue::Arr(cs) => {
            lemma_dedup_seq_props(cs);
            assert forall|i: int| 0 <= i < cs.len() implies #[trigger] dedup_seq(cs)[i] == cs[i] by {
                lemma_dedup_identity(cs[i]);
            }
            assert(dedup_seq(cs) =~= cs);
        },
        SpecValue::Obj(es) => {
            lemma_dedup_identity_entries(es);
        },
        _ => {},
    }
}

/// The entry-list form of `lemma_dedup_identity`.
#[verifier::rlimit(100)]
#[verifier::spinoff_prover]
proof fn lemma_dedup_identity_entries(es: Seq<(TextView, SpecValue)>)
    requires
        wf(SpecValue::Obj(es)),
    ensures
        dedup_entries(es) == es,
    decreases es, 1int,
{
    if es.len() > 0 {
        let last = es.len() - 1;
        let pre = es.subrange(0, last);
        assert forall|a: int, b: int| 0 <= a < b < pre.len() implies (#[trigger] pre[a]).0.chars
            != (#[trigger] pre[b]).0.chars by {
            assert(pre[a] == es[a] && pre[b] == es[b]);
            assert(es[a].0.chars != es[b].0.chars);
        }
        assert forall|a: int| 0 <= a < pre.len() implies wf((#[trigger] pre[a]).1) by {
            assert(pre[a] == es[a]);
            assert(wf(es[a].1));
        }
        lemma_dedup_identity_entries(pre);
        assert(wf(es[last].1));
        lemma_dedup_identity(es[last].1);
        lemma_find_key(pre, es[last].0.chars);
        assert forall|a: int| 0 <= a < pre.len() implies (#[trigger] pre[a]).0.chars
            != es[last].0.chars by {
            assert(pre[a] == es[a]);
            assert(es[a].0.chars != es[last].0.chars);
        }
        if find_key(pre, es[last].0.chars) >= 0 {
            assert(pre[find_key(pre, es[last].0.chars)].0.chars == es[last].0.chars);
            assert(false);
        }
        assert(dedup_entries(es) == pre.push(es[last]));
        assert(pre.push(es[last]) =~= es);
    } else {
        assert(dedup_entries(es) =~= es);
    }
}

/// A shared prefix cancels on the left of a sequence equation.
proof fn lemma_concat_left_cancel(x: Seq<NodeView>, r1: Seq<NodeView>, r2: Seq<NodeView>)
    requires
        x + r1 == x + r2,
    ensures
        r1 == r2,
{
    assert((x + r1).len() == x.len() + r1.len());
    assert((x + r2).len() == x.len() + r2.len());
    assert(r1.len() == r2.len());
    assert forall|i: int| 0 <= i < r1.len() implies r1[i] == r2[i] by {
        assert((x + r1)[x.len() + i] == r1[i]);
        assert((x + r2)[x.len() + i] == r2[i]);
    }
    assert(r1 =~= r2);
}

/// No two distinct trees share an encoding, even as a prefix: whatever
/// follows, the tree that the front of the stream encodes is unique.
#[verifier::rlimit(100)]
#[verifier::spinoff_prover]
pub proof fn lemma_prefix_unambiguous(a: SpecValue, b: SpecValue, ra: Seq<NodeView>, rb: Seq<
    NodeView,
>)
    requires
        events_of(a) + ra == events_of(b) + rb,
    ensures
        a == b,
        ra == rb,
    decreases a, 0int,
{
    let ea = events_of(a);
    let eb = events_of(b);
    assert((ea + ra)[0] == ea[0]);
    assert((eb + rb)[0] == eb[0]);
    assert(ea[0] == eb[0]);
    match (a, b) {
        (SpecValue::Static(_), SpecValue::Static(_)) => {
            assert(ea =~= eb);
            lemma_concat_left_cancel(ea, ra, rb);
        },
        (SpecValue::Str(_), SpecValue::Str(_)) => {
            assert(ea =~= eb);
            lemma_concat_left_cancel(ea, ra, rb);
        },
        (SpecValue::Arr(cs), SpecValue::Arr(ds)) => {
            assert(cs.len() == ds.len());
            let h = seq![NodeView::Arr(cs.len() as int)];
            assert(ea + ra =~= h + (events_of_seq(cs) + ra));
            assert(eb + rb =~= h + (events_of_seq(ds) + rb));
            lemma_concat_left_cancel(h, events_of_seq(cs) + ra, events_of_seq(ds) + rb);
            lemma_prefix_unambiguous_seq(cs, ds, ra, rb);
        },
        (SpecValue::Obj(es), SpecValue::Obj(fs)) => {
            assert(es.len() == fs.len());
            let h = seq![NodeView::Obj(es.len() as int)];
            assert(ea + ra =~= h + (events_of_entries(es) + ra));
            assert(eb + rb =~= h + (events_of_entries(fs) + rb));
            lemma_concat_left_cancel(h, events_of_entries(es) + ra, events_of_entries(fs) + rb);
            lemma_prefix_unambiguous_entries(es, fs, ra, rb);
        },
        _ => {},
    }
}

/// The list form of prefix uniqueness, for equally long element lists.
#[verifier::rlimit(100)]
#[verifier::spinoff_prover]
proof fn lemma_prefix_unambiguous_seq(
    cs: Seq<SpecValue>,
    ds: Seq<SpecValue>,
    ra: Seq<NodeView>,
    rb: Seq<NodeView>,
)
    requires
        cs.len() == ds.len(),
        events_of_seq(cs) + ra == events_of_seq(ds) + rb,
    ensures
        cs == ds,
        ra == rb,
    decreases cs, 1int,
{
    if cs.len() == 0 {
        assert(events_of_seq(cs) + ra =~= ra);
        assert(events_of_seq(ds) + rb =~= rb);
        assert(cs =~= ds);
    } else {
        let cs1 = cs.subrange(1, cs.len() as int);
        let ds1 = ds.subrange(1, ds.len() as int);
        assert(events_of_seq(cs) + ra =~= events_of(cs[0]) + (events_of_seq(cs1) + ra));
        assert(events_of_seq(ds) + rb =~= events_of(ds[0]) + (events_of_seq(ds1) + rb));
        lemma_prefix_unambiguous(cs[0], ds[0], events_of_seq(cs1) + ra, events_of_seq(ds1) + rb);
        lemma_prefix_unambiguous_seq(cs1, ds1, ra, rb);
        assert forall|j: int| 0 <= j < cs.len() implies cs[j] == ds[j] by {
            if j > 0 {
                assert(cs1[j - 1] == ds1[j - 1]);
            }
        }
        assert(cs =~= ds);
    }
}

/// The entry-list form of prefix uniqueness.
#[verifier::rlimit(100)]
#[verifier::spinoff_prover]
proof fn lemma_prefix_unambiguous_entries(
    es: Seq<(TextView, SpecValue)>,
    fs: Seq<(TextView, SpecValue)>,
    ra: Seq<NodeView>,
    rb: Seq<NodeView>,
)
    requires
        es.len() == fs.len(),
        events_of_entries(es) + ra == events_of_entries(fs) + rb,
    ensures
        es == fs,
        ra == rb,
    decreases es, 1int,
{
    if es.len() == 0 {
        assert(events_of_entries(es) + ra =~= ra);
        assert(events_of_entries(fs) + rb =~= rb);
        assert(es =~= fs);
    } else {
        let es1 = es.subrange(1, es.len() as int);
        let fs1 = fs.subrange(1, fs.len() as int);
        assert((events_of_entries(es) + ra)[0] == NodeView::Str(es[0].0));
        assert((events_of_entries(fs) + rb)[0] == NodeView::Str(fs[0].0));
        assert(es[0].0 == fs[0].0);
        let h = seq![NodeView::Str(es[0].0)];
        assert(events_of_entries(es) + ra =~= h + (events_of(es[0].1) + (events_of_entries(es1)
            + ra)));
        assert(events_of_entries(fs) + rb =~= h + (events_of(fs[0].1) + (events_of_entries(fs1)
            + rb)));
        lemma_concat_left_cancel(
            h,
            events_of(es[0].1) + (events_of_entries(es1) + ra),
            events_of(fs[0].1) + (events_of_entries(fs1) + rb),
        );
        lemma_prefix_unambiguous(
            es[0].1,
            fs[0].1,
            events_of_entries(es1) + ra,
            events_of_entries(fs1) + rb,
        );
        lemma_prefix_unambiguous_entries(es1, fs1, ra, rb);
        assert(es[0] == fs[0]);
        assert forall|j: int| 0 <= j < es.len() implies es[j] == fs[j] by {
            if j > 0 {
                assert(es1[j - 1] == fs1[j - 1]);
            }
        }
        assert(es =~= fs);
    }
}

/// The round trip: a tree is determined by its encoding, so decoding what
/// `encode` wrote for a tree gives that tree back, storage tags included.
pub proof fn lemma_encoding_injective(a: SpecValue, b: SpecValue)
    requires
        events_of(a) == events_of(b),
    ensures
        a == b,
{
    assert(events_of(a) + Seq::<NodeView>::empty() =~= events_of(b) + Seq::<NodeView>::empty());
    lemma_prefix_unambiguous(a, b, Seq::empty(), Seq::empty());
}

/// The round trip against a whole stream: when a stream is exactly the
/// encoding of `t`, the one tree whose encoding the builder can consume
/// from its start is `t` itself; and when `t` is well-formed, rebuilding
/// changes nothing, so with `parse`'s contract `decode(encode(t))` is `t`,
/// storage tags included.
pub proof fn lemma_decode_of_encode(t: SpecValue, v: SpecValue, s: Seq<NodeView>)
    requires
        s == events_of(t),
        encodes_at(s, 0, v),
    ensures
        v == t,
        wf(t) ==> dedup_tree(v) == t,
{
    if wf(t) {
        lemma_dedup_identity(t);
    }
    assert(s =~= events_of(v) + s.subrange(events_of(v).len() as int, s.len() as int));
    assert(s =~= events_of(t) + Seq::<NodeView>::empty());
    lemma_prefix_unambiguous(
        v,
        t,
        s.subrange(events_of(v).len() as int, s.len() as int),
        Seq::empty(),
    );
}

/// Splitting an element list splits its concatenated encoding.
proof fn lemma_events_of_seq_split(cs: Seq<SpecValue>, i: int)
    requires
        0 <= i <= cs.len(),
    ensures
        events_of_seq(cs) == events_of_seq(cs.subrange(0, i)) + events_of_seq(
            cs.subrange(i, cs.len() as int),
        ),
    decreases i,
{
    if i == 0 {
        assert(cs.subrange(0, 0) =~= Seq::<SpecValue>::empty());
        assert(cs.subrange(0, cs.len() as int) =~= cs);
        assert(events_of_seq(cs) =~= events_of_seq(cs.subrange(0, 0)) + events_of_seq(
            cs.subrange(0, cs.len() as int),
        ));
    } else {
        lemma_events_of_seq_split(cs, i - 1);
        assert(cs.subrange(0, i) =~= cs.subrange(0, i - 1).push(cs[i - 1]));
        crate::events::lemma_events_of_seq_push(cs.subrange(0, i - 1), cs[i - 1]);
        let tail = cs.subrange(i - 1, cs.len() as int);
        assert(tail[0] == cs[i - 1]);
        assert(tail.subrange(1, tail.len() as int) =~= cs.subrange(i, cs.len() as int));
        assert(events_of_seq(tail) == events_of(cs[i - 1]) + events_of_seq(
            cs.subrange(i, cs.len() as int),
        ));
        assert(events_of_seq(cs) =~= events_of_seq(cs.subrange(0, i)) + events_of_seq(
            cs.subrange(i, cs.len() as int),
        ));
    }
}

/// Splitting an entry list splits its concatenated encoding.
proof fn lemma_events_of_entries_split(es: Seq<(TextView, SpecValue)>, i: int)
    requires
        0 <= i <= es.len(),
    ensures
        events_of_entries(es) == events_of_entries(es.subrange(0, i)) + events_of_entries(
            es.subrange(i, es.len() as int),
        ),
    decreases i,
{
    if i == 0 {
        assert(es.subrange(0, 0) =~= Seq::<(TextView, SpecValue)>::empty());
        assert(es.subrange(0, es.len() as int) =~= es);
        assert(events_of_entries(es) =~= events_of_entries(es.subrange(0, 0)) + events_of_entries(
            es.subrange(0, es.len() as int),
        ));
    } else {
        lemma_events_of_entries_split(es, i - 1);
        assert(es.subrange(0, i) =~= es.subrange(0, i - 1).push(es[i - 1]));
        crate::events::lemma_events_of_entries_push(
            es.subrange(0, i - 1),
            es[i - 1].0,
            es[i - 1].1,
        );
        let tail = es.subrange(i - 1, es.len() as int);
        assert(tail[0] == es[i - 1]);
        assert(tail.subrange(1, tail.len() as int) =~= es.subrange(i, es.len() as int));
        assert(events_of_entries(tail) == seq![NodeView::Str(es[i - 1].0)] + events_of(
            es[i - 1].1,
        ) + events_of_entries(es.subrange(i, es.len() as int)));
        assert(events_of_entries(es) =~= events_of_entries(es.subrange(0, i))
            + events_of_entries(es.subrange(i, es.len() as int)));
    }
}

/// The tree builder: a cursor over a parse-event stream.
pub struct BorrowDeserializer {
    events: Vec<Node>,
    idx: usize,
}

impl BorrowDeserializer {
    /// The stream the builder reads.
    pub closed spec fn stream(&self) -> Seq<NodeView> {
        nodes_view(self.events@)
    }

    /// The cursor: the position of the next event to read.
    pub closed spec fn pos(&self) -> int {
        self.idx as int
    }

    /// A builder at the start of the given event stream.
    pub fn from_deserializer(events: Vec<Node>) -> (r: Self)
        ensures
            r.stream() == nodes_view(events@),
            r.pos() == 0,
    {
        BorrowDeserializer { events, idx: 0 }
    }

    /// Builds one value from the events at the cursor. When those events
    /// hold a tree's encoding, the build succeeds, consumes exactly that
    /// encoding, and returns that tree rebuilt under the object invariant:
    /// a repeated key keeps its first position and its first key text and
    /// takes the last value (`dedup_tree`), so keys come out unique. On a
    /// well-formed encoded tree this is the tree itself. Otherwise a
    /// construction error is returned.
    #[verifier::rlimit(100)]
    #[verifier::loop_isolation(false)]
    pub fn parse(&mut self) -> (r: Result<Value, BuildError>)
        ensures
            final(self).stream() == old(self).stream(),
            old(self).pos() <= final(self).pos(),
            final(self).pos() <= final(self).stream().len() || final(self).pos() == old(
                self,
            ).pos(),
            r matches Ok(v) ==> (exists|u: SpecValue|
                ({
                    &&& #[trigger] encodes_at(old(self).stream(), old(self).pos(), u)
                    &&& v@ == dedup_tree(u)
                    &&& final(self).pos() == old(self).pos() + events_of(u).len()
                })),
            forall|u: SpecValue|
                encodes_at(old(self).stream(), old(self).pos(), u) ==> r is Ok,
        decreases old(self).stream().len() - old(self).pos(), 0int,
    {
        proof {
            crate::events::lemma_nodes_view(self.events@);
        }
        let n = self.events.len();
        if self.idx >= n {
            proof {
                assert forall|u: SpecValue|
                    encodes_at(old(self).stream(), old(self).pos(), u) implies false by {
                    lemma_events_nonempty(u);
                }
            }
            return Err(BuildError::UnexpectedEnd);
        }
        let ghost p = self.pos();
        let ev = self.events[self.idx].clone();
        self.idx = self.idx + 1;
        proof {
            assert(old(self).stream()[p] == ev@);
        }
        match ev {
            Node::Static(s) => {
                let v = Value::Static(s);
                proof {
                    assert(old(self).stream().subrange(p, p + 1) =~= events_of(v@));
                    assert(encodes_at(old(self).stream(), old(self).pos(), v@));
                    assert(dedup_tree(v@) == v@);
                }
                Ok(v)
            },
            Node::String(t) => {
                let v = Value::String(t);
                proof {
                    assert(old(self).stream().subrange(p, p + 1) =~= events_of(v@));
                    assert(encodes_at(old(self).stream(), old(self).pos(), v@));
                    assert(dedup_tree(v@) == v@);
                }
                Ok(v)
            },
            Node::Array(cnt) => {
                let r = self.parse_array(cnt);
                proof {
                    let s = old(self).stream();
                    let ghost rr = r;
                    if let Ok(v) = rr {
                        let cs = choose|cs: Seq<SpecValue>|
                            {
                                &&& cs.len() == cnt
                                &&& #[trigger] seq_encodes_at(s, p + 1, cs)
                                &&& v@ == SpecValue::Arr(dedup_seq(cs))
                                &&& self.pos() == p + 1 + events_of_seq(cs).len()
                            };
                        let u = SpecValue::Arr(cs);
                        assert(events_of(u) =~= seq![NodeView::Arr(cnt as int)] + events_of_seq(
                            cs,
                        ));
                        assert(s.subrange(p, p + events_of(u).len() as int) =~= s.subrange(
                            p,
                            p + 1,
                        ) + s.subrange(p + 1, p + 1 + events_of_seq(cs).len() as int));
                        assert(s.subrange(p, p + 1) =~= seq![NodeView::Arr(cnt as int)]);
                        assert(encodes_at(s, p, u));
                        assert(v@ == dedup_tree(u));
                        assert(self.pos() == p + events_of(u).len());
                    }
                    assert forall|u: SpecValue| encodes_at(s, p, u) implies r is Ok by {
                        match u {
                            SpecValue::Arr(cs) => {
                                assert(s.subrange(p, p + events_of(u).len() as int)[0]
                                    == events_of(u)[0]);
                                assert(cs.len() == cnt);
                                assert(events_of(u) =~= seq![NodeView::Arr(cnt as int)]
                                    + events_of_seq(cs));
                                assert(events_of(u).subrange(1, events_of(u).len() as int)
                                    =~= events_of_seq(cs));
                                assert(s.subrange(p + 1, p + 1 + events_of_seq(cs).len() as int)
                                    =~= s.subrange(p, p + events_of(u).len() as int).subrange(
                                    1,
                                    events_of(u).len() as int,
                                ));
                                assert(seq_encodes_at(s, p + 1, cs));
                            },
                            SpecValue::Static(_) => {
                                assert(s.subrange(p, p + events_of(u).len() as int)[0]
                                    == events_of(u)[0]);
                            },
                            SpecValue::Str(_) => {
                                assert(s.subrange(p, p + events_of(u).len() as int)[0]
                                    == events_of(u)[0]);
                            },
                            SpecValue::Obj(_) => {
                                assert(s.subrange(p, p + events_of(u).len() as int)[0]
                                    == events_of(u)[0]);
                            },
                        }
                    }
                }
                r
            },
            Node::Object(cnt) => {
                let r = self.parse_map(cnt);
                proof {
                    let s = old(self).stream();
                    let ghost rr = r;
                    if let Ok(v) = rr {
                        let es = choose|es: Seq<(TextView, SpecValue)>|
                            {
                                &&& es.len() == cnt
                                &&& #[trigger] entries_encodes_at(s, p + 1, es)
                                &&& v@ == SpecValue::Obj(dedup_entries(es))
                                &&& self.pos() == p + 1 + events_of_entries(es).len()
                            };
                        let u = SpecValue::Obj(es);
                        assert(events_of(u) =~= seq![NodeView::Obj(cnt as int)]
                            + events_of_entries(es));
                        assert(s.subrange(p, p + events_of(u).len() as int) =~= s.subrange(
                            p,
                            p + 1,
                        ) + s.subrange(p + 1, p + 1 + events_of_entries(es).len() as int));
                        assert(s.subrange(p, p + 1) =~= seq![NodeView::Obj(cnt as int)]);
                        assert(encodes_at(s, p, u));
                        assert(v@ == dedup_tree(u));
                        assert(self.pos() == p + events_of(u).len());
                    }
                    assert forall|u: SpecValue| encodes_at(s, p, u) implies r is Ok by {
                        match u {
                            SpecValue::Obj(es) => {
                                assert(s.subrange(p, p + events_of(u).len() as int)[0]
                                    == events_of(u)[0]);
                                assert(es.len() == cnt);
                                assert(events_of(u) =~= seq![NodeView::Obj(cnt as int)]
                                    + events_of_entries(es));
                                assert(events_of(u).subrange(1, events_of(u).len() as int)
                                    =~= events_of_entries(es));
                                assert(s.subrange(
                                    p + 1,
                                    p + 1 + events_of_entries(es).len() as int,
                                ) =~= s.subrange(p, p + events_of(u).len() as int).subrange(
                                    1,
                                    events_of(u).len() as int,
                                ));
                                assert(entries_encodes_at(s, p + 1, es));
                            },
                            SpecValue::Static(_) => {
                                assert(s.subrange(p, p + events_of(u).len() as int)[0]
                                    == events_of(u)[0]);
                            },
                            SpecValue::Str(_) => {
                                assert(s.subrange(p, p + events_of(u).len() as int)[0]
                                    == events_of(u)[0]);
                            },
                            SpecValue::Arr(_) => {
                                assert(s.subrange(p, p + events_of(u).len() as int)[0]
                                    == events_of(u)[0]);
                            },
                        }
                    }
                }
                r
            },
        }
    }

    /// Builds exactly `len` values, the announced element count of an
    /// array, into an array value.
    #[verifier::rlimit(100)]
    #[verifier::loop_isolation(false)]
    fn parse_array(&mut self, len: usize) -> (r: Result<Value, BuildError>)
        requires
            0 <= old(self).pos() <= old(self).stream().len(),
        ensures
            final(self).stream() == old(self).stream(),
            old(self).pos() <= final(self).pos() <= final(self).stream().len(),
            r matches Ok(v) ==> (exists|cs: Seq<SpecValue>|
                ({
                    &&& cs.len() == len
                    &&& #[trigger] seq_encodes_at(old(self).stream(), old(self).pos(), cs)
                    &&& v@ == SpecValue::Arr(dedup_seq(cs))
                    &&& final(self).pos() == old(self).pos() + events_of_seq(cs).len()
                })),
            forall|cs: Seq<SpecValue>|
                (cs.len() == len && seq_encodes_at(old(self).stream(), old(self).pos(), cs))
                    ==> r is Ok,
        decreases old(self).stream().len() - old(self).pos(), 1int,
    {
        let ghost s = old(self).stream();
        let ghost entry = old(self).pos();
        let mut out: Vec<Value> = Vec::with_capacity(len);
        let ghost mut raw: Seq<SpecValue> = Seq::empty();
        let mut i: usize = 0;
        while i < len
            invariant
                i <= len,
                out@.len() == i,
                raw.len() == i as int,
                self.stream() == s,
                entry <= self.pos() <= s.len(),
                s.subrange(entry, self.pos()) == events_of_seq(raw),
                self.pos() == entry + events_of_seq(raw).len(),
                crate::value::sval_seq(out@) == dedup_seq(raw),
            decreases len - i,
        {
            proof {
                crate::value::lemma_sval_seq(out@);
            }
            let ghost done = raw;
            let ghost cur = self.pos();
            let res = self.parse();
            match res {
                Ok(v) => {
                    out.push(v);
                    proof {
                        let u = choose|u: SpecValue|
                            {
                                &&& #[trigger] encodes_at(s, cur, u)
                                &&& v@ == dedup_tree(u)
                                &&& self.pos() == cur + events_of(u).len()
                            };
                        raw = raw.push(u);
                        crate::value::lemma_sval_seq(out@);
                        assert(crate::value::sval_seq(out@) =~= dedup_seq(done).push(v@));
                        lemma_dedup_seq_push(done, u);
                        crate::events::lemma_events_of_seq_push(done, u);
                        assert(s.subrange(cur, self.pos()) =~= events_of(u));
                        assert(s.subrange(entry, self.pos()) =~= s.subrange(entry, cur)
                            + s.subrange(cur, self.pos()));
                        assert(s.subrange(entry, self.pos()) =~= events_of_seq(raw));
                    }
                },
                Err(e) => {
                    proof {
                        assert forall|cs: Seq<SpecValue>|
                            (cs.len() == len && seq_encodes_at(s, entry, cs)) implies false by {
                            lemma_events_of_seq_split(cs, i as int);
                            let pre = cs.subrange(0, i as int);
                            let post = cs.subrange(i as int, cs.len() as int);
                            let tail_a = s.subrange(cur, s.len() as int);
                            let whole = s.subrange(entry, s.len() as int);
                            assert(whole =~= events_of_seq(done) + tail_a);
                            assert(whole =~= events_of_seq(cs) + s.subrange(
                                entry + events_of_seq(cs).len() as int,
                                s.len() as int,
                            ));
                            assert(events_of_seq(pre) + (events_of_seq(post) + s.subrange(
                                entry + events_of_seq(cs).len() as int,
                                s.len() as int,
                            )) =~= events_of_seq(done) + tail_a);
                            lemma_prefix_unambiguous_seq(
                                pre,
                                done,
                                events_of_seq(post) + s.subrange(
                                    entry + events_of_seq(cs).len() as int,
                                    s.len() as int,
                                ),
                                tail_a,
                            );
                            assert(post.len() > 0);
                            assert(post[0] == cs[i as int]);
                            assert(events_of_seq(post) == events_of(cs[i as int]) + events_of_seq(
                                post.subrange(1, post.len() as int),
                            ));
                            let erest = events_of_seq(post.subrange(1, post.len() as int))
                                + s.subrange(
                                entry + events_of_seq(cs).len() as int,
                                s.len() as int,
                            );
                            assert(tail_a =~= events_of(cs[i as int]) + erest);
                            assert(s.subrange(cur, cur + events_of(cs[i as int]).len() as int)
                                =~= events_of(cs[i as int]));
                            assert(encodes_at(s, cur, cs[i as int]));
                        }
                    }
                    return Err(e);
                },
            }
            i = i + 1;
        }
        proof {
            crate::value::lemma_sval_seq(out@);
            assert(seq_encodes_at(s, entry, raw));
        }
        Ok(Value::Array(out))
    }

    /// Builds exactly `len` key/value pairs, the announced pair count of
    /// an object, into an object value. Every key must arrive as a string
    /// event. Pairs go in by insert-with-replace, as the object invariant
    /// demands: a repeated key keeps its first position and its first key
    /// text and takes the later value, so the built object's keys are
    /// unique.
    #[verifier::rlimit(100)]
    #[verifier::loop_isolation(false)]
    fn parse_map(&mut self, len: usize) -> (r: Result<Value, BuildError>)
        requires
            0 <= old(self).pos() <= old(self).stream().len(),
        ensures
            final(self).stream() == old(self).stream(),
            old(self).pos() <= final(self).pos() <= final(self).stream().len(),
            r matches Ok(v) ==> (exists|es: Seq<(TextView, SpecValue)>|
                ({
                    &&& es.len() == len
                    &&& #[trigger] entries_encodes_at(old(self).stream(), old(self).pos(), es)
                    &&& v@ == SpecValue::Obj(dedup_entries(es))
                    &&& final(self).pos() == old(self).pos() + events_of_entries(es).len()
                })),
            forall|es: Seq<(TextView, SpecValue)>|
                (es.len() == len && entries_encodes_at(old(self).stream(), old(self).pos(), es))
                    ==> r is Ok,
        decreases old(self).stream().len() - old(self).pos(), 1int,
    {
        let ghost s = old(self).stream();
        let ghost entry = old(self).pos();
        proof {
            crate::events::lemma_nodes_view(self.events@);
        }
        let mut out: Vec<(crate::value::Text, Value)> = Vec::with_capacity(len);
        let ghost mut raw: Seq<(TextView, SpecValue)> = Seq::empty();
        let mut i: usize = 0;
        while i < len
            invariant
                i <= len,
                raw.len() == i as int,
                self.stream() == s,
                entry <= self.pos() <= s.len(),
                s.subrange(entry, self.pos()) == events_of_entries(raw),
                self.pos() == entry + events_of_entries(raw).len(),
                crate::value::sval_entries(out@) == dedup_entries(raw),
            decreases len - i,
        {
            proof {
                crate::value::lemma_sval_entries(out@);
                crate::events::lemma_nodes_view(self.events@);
            }
            let ghost done = raw;
            let ghost cur = self.pos();
            let n = self.events.len();
            if self.idx >= n {
                proof {
                    assert forall|es: Seq<(TextView, SpecValue)>|
                        (es.len() == len && entries_encodes_at(s, entry, es)) implies false by {
                        entries_witness_step(s, entry, es, done, i as int, cur);
                    }
                }
                return Err(BuildError::UnexpectedEnd);
            }
            let ev = self.events[self.idx].clone();
            proof {
                assert(s[cur] == ev@);
            }
            match ev {
                Node::String(key) => {
                    self.idx = self.idx + 1;
                    proof {
                        assert(s[cur] == NodeView::Str(key@));
                    }
                    let ghost cur2 = self.pos();
                    let res = self.parse();
                    match res {
                        Ok(v) => {
                            let ghost u = choose|u: SpecValue|
                                {
                                    &&& #[trigger] encodes_at(s, cur2, u)
                                    &&& v@ == dedup_tree(u)
                                    &&& self.pos() == cur2 + events_of(u).len()
                                };
                            let ks = key.as_str().to_owned();
                            let ghost out0 = out@;
                            match crate::value::find_index(&out, &ks) {
                                Some(j) => {
                                    let (kk, _prev) = out.remove(j);
                                    out.insert(j, (kk, v));
                                    proof {
                                        crate::value::lemma_sval_entries(out0);
                                        crate::value::lemma_sval_entries(out@);
                                        assert(out@ =~= out0.update(
                                            j as int,
                                            (out@[j as int].0, out@[j as int].1),
                                        ));
                                        assert(crate::value::sval_entries(out@)
                                            =~= crate::value::sval_entries(out0).update(
                                            j as int,
                                            (
                                                crate::value::sval_entries(out0)[j as int].0,
                                                v@,
                                            ),
                                        ));
                                        assert(crate::value::sval_entries(out@) == upsert_entry(
                                            dedup_entries(done),
                                            key@,
                                            v@,
                                        ));
                                    }
                                },
                                None => {
                                    out.push((key, v));
                                    proof {
                                        crate::value::lemma_sval_entries(out0);
                                        crate::value::lemma_sval_entries(out@);
                                        assert(crate::value::sval_entries(out@)
                                            =~= crate::value::sval_entries(out0).push((key@, v@)));
                                        assert(crate::value::sval_entries(out@) == upsert_entry(
                                            dedup_entries(done),
                                            key@,
                                            v@,
                                        ));
                                    }
                                },
                            }
                            proof {
                                raw = raw.push((key@, u));
                                lemma_dedup_entries_push(done, key@, u);
                                crate::events::lemma_events_of_entries_push(done, key@, u);
                                assert(s.subrange(cur, cur2) =~= seq![NodeView::Str(key@)]);
                                assert(s.subrange(cur2, self.pos()) =~= events_of(u));
                                assert(s.subrange(entry, self.pos()) =~= s.subrange(entry, cur)
                                    + s.subrange(cur, cur2) + s.subrange(cur2, self.pos()));
                                assert(s.subrange(entry, self.pos()) =~= events_of_entries(raw));
                            }
                        },
                        Err(e) => {
                            proof {
                                assert forall|es: Seq<(TextView, SpecValue)>|
                                    (es.len() == len && entries_encodes_at(s, entry, es))
                                    implies false by {
                                    entries_witness_step(s, entry, es, done, i as int, cur);
                                    assert(encodes_at(s, cur2, es[i as int].1));
                                }
                            }
                            return Err(e);
                        },
                    }
                },
                _ => {
                    proof {
                        assert(!(s[cur] matches NodeView::Str(_)));
                        assert forall|es: Seq<(TextView, SpecValue)>|
                            (es.len() == len && entries_encodes_at(s, entry, es)) implies false by {
                            entries_witness_step(s, entry, es, done, i as int, cur);
                        }
                    }
                    return Err(BuildError::KeyNotString);
                },
            }
            i = i + 1;
        }
        proof {
            crate::value::lemma_sval_entries(out@);
            assert(entries_encodes_at(s, entry, raw));
        }
        Ok(Value::Object(out))
    }
}

/// From a witness entry list whose encoding sits at `entry`, with the first
/// `i` entries already built as `done` and the cursor at `cur`: the witness
/// agrees with `done` so far, its next key event sits at `cur`, and its
/// next value's encoding right after.
#[verifier::rlimit(100)]
#[verifier::spinoff_prover]
proof fn entries_witness_step(
    s: Seq<NodeView>,
    entry: int,
    es: Seq<(TextView, SpecValue)>,
    done: Seq<(TextView, SpecValue)>,
    i: int,
    cur: int,
)
    requires
        0 <= entry,
        0 <= i < es.len(),
        done.len() == i,
        entries_encodes_at(s, entry, es),
        cur == entry + events_of_entries(done).len(),
        cur <= s.len(),
        s.subrange(entry, cur) == events_of_entries(done),
    ensures
        es.subrange(0, i) == done,
        cur < s.len(),
        s[cur] == NodeView::Str(es[i].0),
        encodes_at(s, cur + 1, es[i].1),
{
    lemma_events_of_entries_split(es, i);
    let pre = es.subrange(0, i);
    let post = es.subrange(i, es.len() as int);
    let whole = s.subrange(entry, s.len() as int);
    let tail_a = s.subrange(cur, s.len() as int);
    assert(whole =~= events_of_entries(done) + tail_a);
    let after = s.subrange(entry + events_of_entries(es).len() as int, s.len() as int);
    assert(whole =~= events_of_entries(es) + after);
    assert(events_of_entries(pre) + (events_of_entries(post) + after) =~= events_of_entries(done)
        + tail_a);
    lemma_prefix_unambiguous_entries(pre, done, events_of_entries(post) + after, tail_a);
    assert(post.len() > 0);
    assert(post[0] == es[i]);
    assert(events_of_entries(post) == seq![NodeView::Str(es[i].0)] + events_of(es[i].1)
        + events_of_entries(post.subrange(1, post.len() as int)));
    let erest = events_of_entries(post.subrange(1, post.len() as int)) + after;
    assert(tail_a =~= seq![NodeView::Str(es[i].0)] + (events_of(es[i].1) + erest));
    assert(tail_a[0] == NodeView::Str(es[i].0));
    assert(s[cur] == NodeView::Str(es[i].0));
    let ev_len = events_of(es[i].1).len() as int;
    assert(tail_a.len() == s.len() - cur);
    assert(cur + 1 + ev_len <= s.len());
    assert forall|j: int| 0 <= j < ev_len implies s.subrange(cur + 1, cur + 1 + ev_len)[j]
        == events_of(es[i].1)[j] by {
        assert(s.subrange(cur + 1, cur + 1 + ev_len)[j] == s[cur + 1 + j]);
        assert(s[cur + 1 + j] == tail_a[1 + j]);
        assert(tail_a[1 + j] == (events_of(es[i].1) + erest)[j]);
    }
    assert(s.subrange(cur + 1, cur + 1 + ev_len) =~= events_of(es[i].1));
    assert(encodes_at(s, cur + 1, es[i].1));
}

} // verus!
