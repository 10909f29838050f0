use vstd::prelude::*;

use crate::ast::{Value, value_lt, value_rank};
use crate::database::RecordID;
use crate::errors::DbError;

verus! {

/// An ordered key/value pair: the atomic unit stored in a leaf.
#[derive(Debug, Clone, Copy, PartialEq, Eq, Structural)]
pub struct Entry {
    pub key: Value,
    pub value: RecordID,
}

/// The mathematical content of an entry: its key's rank and its record address.
pub open spec fn entry_kv(e: Entry) -> (int, RecordID) {
    (value_rank(e.key), e.value)
}

/// A tree node: a leaf holding the stored entries in key order, or an
/// internal node holding separator keys and one more child than separators.
pub enum Node {
    Leaf { entries: Vec<Entry> },
    Internal { keys: Vec<Value>, children: Vec<Node> },
}

/// The in-order sequence of (key rank, record) pairs stored under a node.
pub open spec fn kvs_node(n: Node) -> Seq<(int, RecordID)>
    decreases n,
{
    match n {
        Node::Leaf { entries } => entries@.map_values(|e: Entry| entry_kv(e)),
        Node::Internal { keys, children } => kvs_children(children@),
    }
}

/// The in-order concatenation of the entries under a sequence of siblings.
pub open spec fn kvs_children(cs: Seq<Node>) -> Seq<(int, RecordID)>
    decreases cs,
{
    if cs.len() == 0 {
        Seq::empty()
    } else {
        kvs_node(cs[0]) + kvs_children(cs.drop_first())
    }
}

/// Key ranks strictly increase along the sequence: no duplicates, full order.
pub open spec fn sorted(s: Seq<(int, RecordID)>) -> bool {
    forall|i: int, j: int| 0 <= i < j < s.len() ==> s[i].0 < s[j].0
}

/// Every key rank in the sequence lies strictly below the bound.
pub open spec fn below(s: Seq<(int, RecordID)>, b: int) -> bool {
    forall|i: int| 0 <= i < s.len() ==> (#[trigger] s[i]).0 < b
}

/// Every key rank in the sequence lies at or above the bound.
pub open spec fn at_least(s: Seq<(int, RecordID)>, b: int) -> bool {
    forall|i: int| 0 <= i < s.len() ==> (#[trigger] s[i]).0 >= b
}

/// The record stored under a key rank, by first occurrence.
pub open spec fn seq_lookup(s: Seq<(int, RecordID)>, k: int) -> Option<RecordID>
    decreases s.len(),
{
    if s.len() == 0 {
        None
    } else if s[0].0 == k {
        Some(s[0].1)
    } else {
        seq_lookup(s.drop_first(), k)
    }
}

/// Insertion into a sorted association sequence: the pair lands at its
/// ordered position, and a sequence already holding the key is unchanged.
pub open spec fn insert_sorted(s: Seq<(int, RecordID)>, k: int, v: RecordID) -> Seq<
    (int, RecordID),
>
    decreases s.len(),
{
    if s.len() == 0 {
        seq![(k, v)]
    } else if k < s[0].0 {
        seq![(k, v)] + s
    } else if k == s[0].0 {
        s
    } else {
        seq![s[0]] + insert_sorted(s.drop_first(), k, v)
    }
}

/// The height of a node: leaves sit at height zero.
pub open spec fn height_node(n: Node) -> nat
    decreases n,
{
    match n {
        Node::Leaf { .. } => 0,
        Node::Internal { keys, children } => 1 + (if children@.len() > 0 {
            height_node(children@[0])
        } else {
            0
        }),
    }
}

/// The structural conditions of an internal node over its separator keys
/// and children: one more child than separators, separators strictly
/// increasing, every child well formed, each child's keys bounded by the
/// neighbouring separators, and all children of equal height.
pub open spec fn internal_shape(keys: Seq<Value>, cs: Seq<Node>, m: int) -> bool
    decreases cs,
{
    &&& cs.len() == keys.len() + 1
    &&& (forall|i: int, j: int|
        0 <= i < j < keys.len() ==> value_rank(keys[i]) < value_rank(keys[j]))
    &&& (forall|i: int| 0 <= i < cs.len() ==> wf_node(#[trigger] cs[i], m))
    &&& (forall|i: int|
        0 <= i < keys.len() ==> below(kvs_node(#[trigger] cs[i]), value_rank(keys[i])))
    &&& (forall|i: int|
        1 <= i < cs.len() ==> at_least(kvs_node(#[trigger] cs[i]), value_rank(keys[i - 1])))
    &&& (forall|i: int|
        0 <= i < cs.len() ==> height_node(#[trigger] cs[i]) == height_node(cs[0]))
}

/// The well-formedness of a node for fan-out `m`: entries in strictly
/// increasing key order throughout, counts within capacity, separator keys
/// strictly increasing and bounding their subtrees, and all subtrees of
/// equal height.
pub open spec fn wf_node(n: Node, m: int) -> bool
    decreases n,
{
    sorted(kvs_node(n)) && match n {
        Node::Leaf { entries } => entries@.len() <= m,
        Node::Internal { keys, children } => internal_shape(keys@, children@, m) && keys@.len()
            >= 1 && children@.len() <= m,
    }
}

/// The count bound of the node itself: a non-root node must be at least
/// half full; the root may be under-full but, when internal, needs two children.
pub open spec fn count_ok(n: Node, m: int, root: bool) -> bool {
    match n {
        Node::Leaf { entries } => root || entries@.len() >= (m + 1) / 2,
        Node::Internal { keys, children } => if root {
            children@.len() >= 2
        } else {
            children@.len() >= (m + 1) / 2
        },
    }
}

/// The fill invariant: every node below the root holds at least
/// `ceil(m/2)` entries or children.
pub open spec fn fill_ok(n: Node, m: int, root: bool) -> bool
    decreases n,
{
    count_ok(n, m, root) && match n {
        Node::Leaf { .. } => true,
        Node::Internal { keys, children } => forall|i: int|
            0 <= i < children@.len() ==> fill_ok(#[trigger] children@[i], m, false),
    }
}

proof fn lemma_kvs_children_decompose(cs: Seq<Node>, i: int)
    requires
        0 <= i < cs.len(),
    ensures
        kvs_children(cs) == kvs_children(cs.subrange(0, i)) + kvs_node(cs[i]) + kvs_children(
            cs.subrange(i + 1, cs.len() as int),
        ),
    decreases i,
{
    if i == 0 {
        assert(cs.subrange(0, 0) =~= Seq::<Node>::empty());
        assert(cs.drop_first() =~= cs.subrange(1, cs.len() as int));
        assert(kvs_children(cs) =~= kvs_children(cs.subrange(0, 0)) + kvs_node(cs[0])
            + kvs_children(cs.subrange(1, cs.len() as int)));
    } else {
        let tail = cs.drop_first();
        lemma_kvs_children_decompose(tail, i - 1);
        assert(tail.subrange(0, i - 1) =~= cs.subrange(0, i).drop_first());
        assert(tail[i - 1] == cs[i]);
        assert(tail.subrange(i, tail.len() as int) =~= cs.subrange(i + 1, cs.len() as int));
        assert(cs.subrange(0, i)[0] == cs[0]);
        assert(kvs_children(cs.subrange(0, i)) == kvs_node(cs[0]) + kvs_children(
            tail.subrange(0, i - 1),
        ));
        assert(kvs_children(cs) =~= kvs_children(cs.subrange(0, i)) + kvs_node(cs[i])
            + kvs_children(cs.subrange(i + 1, cs.len() as int)));
    }
}

proof fn lemma_kvs_children_concat(a: Seq<Node>, b: Seq<Node>)
    ensures
        kvs_children(a + b) == kvs_children(a) + kvs_children(b),
    decreases a.len(),
{
    if a.len() == 0 {
        assert(a + b =~= b);
        assert(kvs_children(a + b) =~= kvs_children(a) + kvs_children(b));
    } else {
        assert((a + b).drop_first() =~= a.drop_first() + b);
        assert((a + b)[0] == a[0]);
        lemma_kvs_children_concat(a.drop_first(), b);
        assert(kvs_children(a + b) =~= kvs_children(a) + kvs_children(b));
    }
}

proof fn lemma_children_below(cs: Seq<Node>, b: int)
    requires
        forall|j: int| 0 <= j < cs.len() ==> below(kvs_node(#[trigger] cs[j]), b),
    ensures
        below(kvs_children(cs), b),
    decreases cs.len(),
{
    if cs.len() == 0 {
    } else {
        let tail = cs.drop_first();
        assert(forall|j: int| 0 <= j < tail.len() ==> below(kvs_node(#[trigger] tail[j]), b));
        lemma_children_below(tail, b);
        assert(below(kvs_node(cs[0]), b));
        assert forall|i: int| 0 <= i < kvs_children(cs).len() implies (#[trigger] kvs_children(
            cs,
        )[i]).0 < b by {
            let head = kvs_node(cs[0]);
            if i < head.len() {
                assert(kvs_children(cs)[i] == head[i]);
            } else {
                assert(kvs_children(cs)[i] == kvs_children(tail)[i - head.len()]);
            }
        }
    }
}

proof fn lemma_children_at_least(cs: Seq<Node>, b: int)
    requires
        forall|j: int| 0 <= j < cs.len() ==> at_least(kvs_node(#[trigger] cs[j]), b),
    ensures
        at_least(kvs_children(cs), b),
    decreases cs.len(),
{
    if cs.len() == 0 {
    } else {
        let tail = cs.drop_first();
        assert(forall|j: int| 0 <= j < tail.len() ==> at_least(kvs_node(#[trigger] tail[j]), b));
        lemma_children_at_least(tail, b);
        assert(at_least(kvs_node(cs[0]), b));
        assert forall|i: int| 0 <= i < kvs_children(cs).len() implies (#[trigger] kvs_children(
            cs,
        )[i]).0 >= b by {
            let head = kvs_node(cs[0]);
            if i < head.len() {
                assert(kvs_children(cs)[i] == head[i]);
            } else {
                assert(kvs_children(cs)[i] == kvs_children(tail)[i - head.len()]);
            }
        }
    }
}

proof fn lemma_lookup_none(s: Seq<(int, RecordID)>, k: int)
    requires
        forall|i: int| 0 <= i < s.len() ==> (#[trigger] s[i]).0 != k,
    ensures
        seq_lookup(s, k) is None,
    decreases s.len(),
{
    if s.len() == 0 {
    } else {
        assert(s[0].0 != k);
        lemma_lookup_none(s.drop_first(), k);
    }
}

proof fn lemma_lookup_found(s: Seq<(int, RecordID)>, k: int, i: int)
    requires
        sorted(s),
        0 <= i < s.len(),
        s[i].0 == k,
    ensures
        seq_lookup(s, k) == Some(s[i].1),
    decreases i,
{
    if i == 0 {
    } else {
        assert(s[0].0 < k);
        let tail = s.drop_first();
        assert(tail[i - 1] == s[i]);
        lemma_lookup_found(tail, k, i - 1);
    }
}

proof fn lemma_lookup_skip_prefix(a: Seq<(int, RecordID)>, b: Seq<(int, RecordID)>, k: int)
    requires
        forall|i: int| 0 <= i < a.len() ==> (#[trigger] a[i]).0 != k,
    ensures
        seq_lookup(a + b, k) == seq_lookup(b, k),
    decreases a.len(),
{
    if a.len() == 0 {
        assert(a + b =~= b);
    } else {
        assert((a + b)[0] == a[0]);
        assert((a + b).drop_first() =~= a.drop_first() + b);
        lemma_lookup_skip_prefix(a.drop_first(), b, k);
    }
}

proof fn lemma_lookup_cut_suffix(a: Seq<(int, RecordID)>, b: Seq<(int, RecordID)>, k: int)
    requires
        forall|i: int| 0 <= i < b.len() ==> (#[trigger] b[i]).0 != k,
    ensures
        seq_lookup(a + b, k) == seq_lookup(a, k),
    decreases a.len(),
{
    if a.len() == 0 {
        assert(a + b =~= b);
        lemma_lookup_none(b, k);
    } else {
        assert((a + b)[0] == a[0]);
        if a[0].0 == k {
        } else {
            assert((a + b).drop_first() =~= a.drop_first() + b);
            lemma_lookup_cut_suffix(a.drop_first(), b, k);
        }
    }
}

proof fn lemma_insert_skip_prefix(
    a: Seq<(int, RecordID)>,
    b: Seq<(int, RecordID)>,
    k: int,
    v: RecordID,
)
    requires
        forall|i: int| 0 <= i < a.len() ==> (#[trigger] a[i]).0 < k,
    ensures
        insert_sorted(a + b, k, v) == a + insert_sorted(b, k, v),
    decreases a.len(),
{
    if a.len() == 0 {
        assert(a + b =~= b);
        assert(a + insert_sorted(b, k, v) =~= insert_sorted(b, k, v));
    } else {
        assert((a + b)[0] == a[0]);
        assert((a + b).len() > 0 && k > (a + b)[0].0);
        assert((a + b).drop_first() =~= a.drop_first() + b);
        lemma_insert_skip_prefix(a.drop_first(), b, k, v);
        assert(insert_sorted(a + b, k, v) =~= a + insert_sorted(b, k, v));
    }
}

proof fn lemma_insert_cut_suffix(
    a: Seq<(int, RecordID)>,
    b: Seq<(int, RecordID)>,
    k: int,
    v: RecordID,
)
    requires
        forall|i: int| 0 <= i < b.len() ==> (#[trigger] b[i]).0 > k,
    ensures
        insert_sorted(a + b, k, v) == insert_sorted(a, k, v) + b,
    decreases a.len(),
{
    if a.len() == 0 {
        assert(a + b =~= b);
        if b.len() == 0 {
            assert(insert_sorted(a, k, v) + b =~= insert_sorted(b, k, v));
        } else {
            assert(k < b[0].0);
            assert(insert_sorted(a, k, v) + b =~= seq![(k, v)] + b);
        }
    } else {
        assert((a + b)[0] == a[0]);
        if k < a[0].0 {
            assert(insert_sorted(a + b, k, v) =~= insert_sorted(a, k, v) + b);
        } else if k == a[0].0 {
            assert(insert_sorted(a + b, k, v) =~= insert_sorted(a, k, v) + b);
        } else {
            assert((a + b).drop_first() =~= a.drop_first() + b);
            lemma_insert_cut_suffix(a.drop_first(), b, k, v);
            assert(insert_sorted(a + b, k, v) =~= insert_sorted(a, k, v) + b);
        }
    }
}

/// True when some pair in the sequence carries the key rank.
pub open spec fn has_key(s: Seq<(int, RecordID)>, k: int) -> bool {
    exists|i: int| 0 <= i < s.len() && (#[trigger] s[i]).0 == k
}

proof fn lemma_insert_sorted_sorted(s: Seq<(int, RecordID)>, k: int, v: RecordID)
    requires
        sorted(s),
    ensures
        sorted(insert_sorted(s, k, v)),
        forall|j: int|
            0 <= j < insert_sorted(s, k, v).len() ==> (#[trigger] insert_sorted(s, k, v)[j]).0 == k
                || has_key(s, insert_sorted(s, k, v)[j].0),
    decreases s.len(),
{
    let res = insert_sorted(s, k, v);
    if s.len() == 0 {
    } else if k < s[0].0 {
        assert forall|j: int| 0 <= j < res.len() implies (#[trigger] res[j]).0 == k || has_key(
            s,
            res[j].0,
        ) by {
            if j > 0 {
                assert(res[j] == s[j - 1]);
                assert(s[j - 1].0 == s[j - 1].0);
            }
        }
    } else if k == s[0].0 {
        assert forall|j: int| 0 <= j < res.len() implies (#[trigger] res[j]).0 == k || has_key(
            s,
            res[j].0,
        ) by {
            assert(res[j] == s[j]);
        }
    } else {
        let tail = s.drop_first();
        assert(sorted(tail));
        lemma_insert_sorted_sorted(tail, k, v);
        let rec = insert_sorted(tail, k, v);
        assert forall|j: int| 0 <= j < res.len() implies (#[trigger] res[j]).0 == k || has_key(
            s,
            res[j].0,
        ) by {
            if j == 0 {
                assert(res[0] == s[0]);
            } else {
                assert(res[j] == rec[j - 1]);
                if rec[j - 1].0 == k {
                } else {
                    assert(has_key(tail, rec[j - 1].0));
                    let w = choose|w: int| 0 <= w < tail.len() && (#[trigger] tail[w]).0 == rec[j
                        - 1].0;
                    assert(s[w + 1].0 == rec[j - 1].0);
                }
            }
        }
        assert forall|x: int, y: int| 0 <= x < y < res.len() implies res[x].0 < res[y].0 by {
            if x == 0 {
                assert(res[0] == s[0]);
                assert(res[y] == rec[y - 1]);
                if rec[y - 1].0 == k {
                    assert(s[0].0 < k);
                } else {
                    assert(has_key(tail, rec[y - 1].0));
                    let w = choose|w: int| 0 <= w < tail.len() && (#[trigger] tail[w]).0 == rec[y
                        - 1].0;
                    assert(s[0].0 < s[w + 1].0);
                }
            } else {
                assert(res[x] == rec[x - 1] && res[y] == rec[y - 1]);
            }
        }
    }
}

proof fn lemma_insert_below(s: Seq<(int, RecordID)>, k: int, v: RecordID, b: int)
    requires
        sorted(s),
        below(s, b),
        k < b,
    ensures
        below(insert_sorted(s, k, v), b),
{
    lemma_insert_sorted_sorted(s, k, v);
    let res = insert_sorted(s, k, v);
    assert forall|i: int| 0 <= i < res.len() implies (#[trigger] res[i]).0 < b by {
        if res[i].0 != k {
            assert(has_key(s, res[i].0));
            let w = choose|w: int| 0 <= w < s.len() && (#[trigger] s[w]).0 == res[i].0;
        }
    }
}

proof fn lemma_insert_at_least(s: Seq<(int, RecordID)>, k: int, v: RecordID, b: int)
    requires
        sorted(s),
        at_least(s, b),
        k >= b,
    ensures
        at_least(insert_sorted(s, k, v), b),
{
    lemma_insert_sorted_sorted(s, k, v);
    let res = insert_sorted(s, k, v);
    assert forall|i: int| 0 <= i < res.len() implies (#[trigger] res[i]).0 >= b by {
        if res[i].0 != k {
            assert(has_key(s, res[i].0));
            let w = choose|w: int| 0 <= w < s.len() && (#[trigger] s[w]).0 == res[i].0;
        }
    }
}

proof fn lemma_insert_sorted_at(s: Seq<(int, RecordID)>, k: int, v: RecordID, i: int)
    requires
        0 <= i <= s.len(),
        forall|j: int| 0 <= j < i ==> (#[trigger] s[j]).0 < k,
        i < s.len() ==> s[i].0 > k,
    ensures
        insert_sorted(s, k, v) == s.subrange(0, i) + seq![(k, v)] + s.subrange(
            i,
            s.len() as int,
        ),
    decreases i,
{
    if i == 0 {
        if s.len() == 0 {
            assert(insert_sorted(s, k, v) =~= s.subrange(0, 0) + seq![(k, v)] + s.subrange(0, 0));
        } else {
            assert(s[0].0 > k);
            assert(insert_sorted(s, k, v) =~= s.subrange(0, 0) + seq![(k, v)] + s.subrange(
                0,
                s.len() as int,
            ));
        }
    } else {
        assert(s[0].0 < k);
        let tail = s.drop_first();
        lemma_insert_sorted_at(tail, k, v, i - 1);
        assert(tail.subrange(0, i - 1) =~= s.subrange(0, i).drop_first());
        assert(tail.subrange(i - 1, tail.len() as int) =~= s.subrange(i, s.len() as int));
        assert(insert_sorted(s, k, v) =~= s.subrange(0, i) + seq![(k, v)] + s.subrange(
            i,
            s.len() as int,
        ));
    }
}

proof fn lemma_sorted_parts(a: Seq<(int, RecordID)>, b: Seq<(int, RecordID)>)
    requires
        sorted(a + b),
    ensures
        sorted(a),
        sorted(b),
        forall|i: int, j: int| 0 <= i < a.len() && 0 <= j < b.len() ==> a[i].0 < b[j].0,
{
    assert forall|i: int, j: int| 0 <= i < j < a.len() implies a[i].0 < a[j].0 by {
        assert((a + b)[i] == a[i] && (a + b)[j] == a[j]);
    }
    assert forall|i: int, j: int| 0 <= i < j < b.len() implies b[i].0 < b[j].0 by {
        assert((a + b)[a.len() + i] == b[i] && (a + b)[a.len() + j] == b[j]);
    }
    assert forall|i: int, j: int| 0 <= i < a.len() && 0 <= j < b.len() implies a[i].0 < b[j].0 by {
        assert((a + b)[i] == a[i] && (a + b)[a.len() + j] == b[j]);
    }
}

proof fn lemma_rank_injective(a: Value, b: Value)
    requires
        a != b,
    ensures
        value_rank(a) != value_rank(b),
{
    match (a, b) {
        (Value::Integer(x), Value::Integer(y)) => {},
        (Value::Integer(x), Value::Null) => {},
        (Value::Null, Value::Integer(y)) => {},
        (Value::Null, Value::Null) => {},
    }
}

/// Routing: when every separator before `i` is at most `k` and the
/// separator at `i` (if any) exceeds `k`, the key `k` can only live in
/// child `i`; the siblings before it sit strictly below `k` and those after
/// it strictly above.
proof fn lemma_route(keys: Seq<Value>, cs: Seq<Node>, i: int, k: int, v: RecordID, m: int)
    requires
        internal_shape(keys, cs, m),
        0 <= i < cs.len(),
        forall|j: int| 0 <= j < i ==> value_rank(keys[j]) <= k,
        i < keys.len() ==> k < value_rank(keys[i]),
    ensures
        below(kvs_children(cs.subrange(0, i)), k),
        at_least(kvs_children(cs.subrange(i + 1, cs.len() as int)), k + 1),
        kvs_children(cs) == kvs_children(cs.subrange(0, i)) + kvs_node(cs[i]) + kvs_children(
            cs.subrange(i + 1, cs.len() as int),
        ),
        seq_lookup(kvs_children(cs), k) == seq_lookup(kvs_node(cs[i]), k),
        insert_sorted(kvs_children(cs), k, v) == kvs_children(cs.subrange(0, i)) + insert_sorted(
            kvs_node(cs[i]),
            k,
            v,
        ) + kvs_children(cs.subrange(i + 1, cs.len() as int)),
{
    let p = cs.subrange(0, i);
    let s = cs.subrange(i + 1, cs.len() as int);
    lemma_kvs_children_decompose(cs, i);
    assert forall|j: int| 0 <= j < p.len() implies below(kvs_node(#[trigger] p[j]), k) by {
        assert(p[j] == cs[j]);
        assert(below(kvs_node(cs[j]), value_rank(keys[j])));
        assert(value_rank(keys[j]) <= k);
    }
    lemma_children_below(p, k);
    assert forall|j: int| 0 <= j < s.len() implies at_least(kvs_node(#[trigger] s[j]), k + 1) by {
        assert(s[j] == cs[i + 1 + j]);
        assert(at_least(kvs_node(cs[i + 1 + j]), value_rank(keys[i + j])));
        if i + j > i - 1 && i < keys.len() {
            if j > 0 {
                assert(value_rank(keys[i]) <= value_rank(keys[i + j]));
            }
            assert(k < value_rank(keys[i + j]));
        }
        assert(value_rank(keys[i + j]) >= k + 1);
    }
    lemma_children_at_least(s, k + 1);
    let pk = kvs_children(p);
    let mk = kvs_node(cs[i]);
    let sk = kvs_children(s);
    assert(forall|j: int| 0 <= j < pk.len() ==> (#[trigger] pk[j]).0 != k);
    assert(forall|j: int| 0 <= j < sk.len() ==> (#[trigger] sk[j]).0 != k);
    assert(forall|j: int| 0 <= j < sk.len() ==> (#[trigger] sk[j]).0 > k);
    assert(kvs_children(cs) == pk + (mk + sk)) by {
        assert(pk + mk + sk =~= pk + (mk + sk));
    }
    lemma_lookup_skip_prefix(pk, mk + sk, k);
    lemma_lookup_cut_suffix(mk, sk, k);
    lemma_insert_skip_prefix(pk, mk + sk, k, v);
    lemma_insert_cut_suffix(mk, sk, k, v);
    assert(insert_sorted(kvs_children(cs), k, v) == pk + (insert_sorted(mk, k, v) + sk));
    assert(pk + (insert_sorted(mk, k, v) + sk) =~= pk + insert_sorted(mk, k, v) + sk);
}

/// Replacing child `i` with a node whose keys respect the same separator
/// bounds and height keeps the internal shape; the entries become the old
/// entries with the child's entries swapped.
proof fn lemma_shape_update(keys: Seq<Value>, cs: Seq<Node>, i: int, c2: Node, m: int)
    requires
        internal_shape(keys, cs, m),
        0 <= i < cs.len(),
        wf_node(c2, m),
        height_node(c2) == height_node(cs[i]),
        i < keys.len() ==> below(kvs_node(c2), value_rank(keys[i])),
        i >= 1 ==> at_least(kvs_node(c2), value_rank(keys[i - 1])),
    ensures
        internal_shape(keys, cs.update(i, c2), m),
        kvs_children(cs.update(i, c2)) == kvs_children(cs.subrange(0, i)) + kvs_node(c2)
            + kvs_children(cs.subrange(i + 1, cs.len() as int)),
{
    let cs2 = cs.update(i, c2);
    assert(cs2.subrange(0, i) =~= cs.subrange(0, i));
    assert(cs2.subrange(i + 1, cs2.len() as int) =~= cs.subrange(i + 1, cs.len() as int));
    lemma_kvs_children_decompose(cs2, i);
    assert(cs2[i] == c2);
    assert(forall|j: int| 0 <= j < cs.len() && j != i ==> #[trigger] cs2[j] == cs[j]);
    if i != 0 {
        assert(cs2[0] == cs[0]);
    }
    assert forall|j: int| 0 <= j < cs2.len() implies height_node(#[trigger] cs2[j]) == height_node(
        cs2[0],
    ) by {
        assert(height_node(cs2[j]) == height_node(cs[j]) || j == i);
        assert(height_node(cs2[0]) == height_node(cs[0]));
    }
}

/// Splitting child `i` into two halves around a separator key keeps the
/// internal shape once the separator is spliced into the key list; the
/// entries become the old entries with the key/value pair inserted.
proof fn lemma_shape_split(
    keys: Seq<Value>,
    cs: Seq<Node>,
    i: int,
    c_l: Node,
    sep: Value,
    c_r: Node,
    m: int,
    k: int,
    v: RecordID,
)
    requires
        internal_shape(keys, cs, m),
        0 <= i < cs.len(),
        forall|j: int| 0 <= j < i ==> value_rank(keys[j]) <= k,
        i < keys.len() ==> k < value_rank(keys[i]),
        wf_node(c_l, m),
        wf_node(c_r, m),
        kvs_node(c_l) + kvs_node(c_r) == insert_sorted(kvs_node(cs[i]), k, v),
        kvs_node(c_l).len() >= 1,
        kvs_node(c_r).len() >= 1,
        below(kvs_node(c_l), value_rank(sep)),
        at_least(kvs_node(c_r), value_rank(sep)),
        height_node(c_l) == height_node(cs[i]),
        height_node(c_r) == height_node(cs[i]),
    ensures
        internal_shape(
            keys.insert(i, sep),
            cs.subrange(0, i) + seq![c_l, c_r] + cs.subrange(i + 1, cs.len() as int),
            m,
        ),
        kvs_children(cs.subrange(0, i) + seq![c_l, c_r] + cs.subrange(i + 1, cs.len() as int))
            == insert_sorted(kvs_children(cs), k, v),
{
    let ks2 = keys.insert(i, sep);
    let cs2 = cs.subrange(0, i) + seq![c_l, c_r] + cs.subrange(i + 1, cs.len() as int);
    lemma_route(keys, cs, i, k, v, m);
    let mk = kvs_node(cs[i]);
    let ins = insert_sorted(mk, k, v);
    assert(sorted(mk)) by {
        assert(wf_node(cs[i], m));
    }
    lemma_insert_sorted_sorted(mk, k, v);
    // the halves carry exactly the keys of the enriched child
    lemma_sorted_parts(kvs_node(c_l), kvs_node(c_r));
    // separator strictly between the neighbouring separators
    if i >= 1 {
        assert(at_least(mk, value_rank(keys[i - 1])));
        lemma_insert_at_least(mk, k, v, value_rank(keys[i - 1]));
        assert(kvs_node(c_l)[0] == ins[0]);
        assert(kvs_node(c_l)[0].0 >= value_rank(keys[i - 1]));
        assert(kvs_node(c_l)[0].0 < value_rank(sep));
        assert(value_rank(keys[i - 1]) < value_rank(sep));
    }
    if i < keys.len() {
        assert(below(mk, value_rank(keys[i])));
        lemma_insert_below(mk, k, v, value_rank(keys[i]));
        let last = ins.len() - 1;
        assert(kvs_node(c_r)[kvs_node(c_r).len() - 1] == ins[last]);
        assert(kvs_node(c_r)[kvs_node(c_r).len() - 1].0 >= value_rank(sep));
        assert(ins[last].0 < value_rank(keys[i]));
        assert(value_rank(sep) < value_rank(keys[i]));
        // every entry of the right half stays below the old separator
        assert forall|j: int| 0 <= j < kvs_node(c_r).len() implies (#[trigger] kvs_node(c_r)[j]).0
            < value_rank(keys[i]) by {
            assert(kvs_node(c_r)[j] == ins[kvs_node(c_l).len() + j]);
        }
    }
    // every entry of the left half stays at or above the old lower bound
    if i >= 1 {
        assert forall|j: int| 0 <= j < kvs_node(c_l).len() implies (#[trigger] kvs_node(c_l)[j]).0
            >= value_rank(keys[i - 1]) by {
            assert(kvs_node(c_l)[j] == ins[j]);
        }
    }
    // index bookkeeping for the new key and child sequences
    assert(ks2.len() == keys.len() + 1);
    assert(cs2.len() == cs.len() + 1);
    assert(forall|j: int| 0 <= j < i ==> #[trigger] ks2[j] == keys[j]);
    assert(ks2[i] == sep);
    assert(forall|j: int| i < j < ks2.len() ==> #[trigger] ks2[j] == keys[j - 1]);
    assert(forall|j: int| 0 <= j < i ==> #[trigger] cs2[j] == cs[j]);
    assert(cs2[i] == c_l);
    assert(cs2[i + 1] == c_r);
    assert(forall|j: int| i + 1 < j < cs2.len() ==> #[trigger] cs2[j] == cs[j - 1]);
    // strict order of the new separators
    assert forall|a: int, b: int| 0 <= a < b < ks2.len() implies value_rank(ks2[a]) < value_rank(
        ks2[b],
    ) by {
        if a < i && b < i {
        } else if a < i && b == i {
            assert(value_rank(keys[a]) <= k);
            if a < i - 1 {
                assert(value_rank(keys[a]) < value_rank(keys[i - 1]));
            }
            if i >= 1 {
                assert(value_rank(ks2[a]) < value_rank(sep));
            } else {
                assert(false);
            }
        } else if a < i && b > i {
            if b - 1 == a {
                assert(i >= 1);
                assert(value_rank(keys[a]) < value_rank(sep));
                assert(false);
            }
        } else if a == i {
            assert(k < value_rank(keys[b - 1]) || b - 1 == i);
            if b - 1 == i {
                assert(value_rank(sep) < value_rank(keys[i]));
            } else {
                assert(value_rank(sep) < value_rank(keys[i]));
                if b - 1 > i {
                    assert(value_rank(keys[i]) <= value_rank(keys[b - 1]));
                }
            }
        } else {
        }
    }
    // the separator bounds of every new child
    assert forall|j: int| 0 <= j < ks2.len() implies below(
        kvs_node(#[trigger] cs2[j]),
        value_rank(ks2[j]),
    ) by {
        if j < i {
            assert(cs2[j] == cs[j] && ks2[j] == keys[j]);
        } else if j == i {
        } else if j == i + 1 {
            assert(cs2[j] == c_r && ks2[j] == keys[i]);
        } else {
            assert(cs2[j] == cs[j - 1] && ks2[j] == keys[j - 1]);
        }
    }
    assert forall|j: int| 1 <= j < cs2.len() implies at_least(
        kvs_node(#[trigger] cs2[j]),
        value_rank(ks2[j - 1]),
    ) by {
        if j < i {
            assert(cs2[j] == cs[j] && ks2[j - 1] == keys[j - 1]);
        } else if j == i {
            assert(cs2[j] == c_l && ks2[j - 1] == keys[i - 1]);
        } else if j == i + 1 {
            assert(cs2[j] == c_r && ks2[j - 1] == sep);
        } else {
            assert(cs2[j] == cs[j - 1] && ks2[j - 1] == keys[j - 2]);
            assert(at_least(kvs_node(cs[j - 1]), value_rank(keys[j - 2])));
        }
    }
    // well-formedness and heights of every new child
    assert forall|j: int| 0 <= j < cs2.len() implies wf_node(#[trigger] cs2[j], m) by {
        if j < i {
        } else if j == i || j == i + 1 {
        } else {
            assert(cs2[j] == cs[j - 1]);
        }
    }
    assert forall|j: int| 0 <= j < cs2.len() implies height_node(#[trigger] cs2[j]) == height_node(
        cs2[0],
    ) by {
        if i == 0 {
            assert(cs2[0] == c_l);
            assert(height_node(cs2[0]) == height_node(cs[0]));
        } else {
            assert(cs2[0] == cs[0]);
        }
        if j < i {
        } else if j == i || j == i + 1 {
        } else {
            assert(cs2[j] == cs[j - 1]);
        }
    }
    // the new entry sequence
    lemma_kvs_children_concat(cs.subrange(0, i) + seq![c_l, c_r], cs.subrange(i + 1, cs.len() as int));
    lemma_kvs_children_concat(cs.subrange(0, i), seq![c_l, c_r]);
    assert(kvs_children(seq![c_l, c_r]) == kvs_node(c_l) + kvs_node(c_r)) by {
        let two = seq![c_l, c_r];
        let one = seq![c_r];
        assert(two.drop_first() =~= one);
        assert(one.len() == 1 && one[0] == c_r);
        assert(one.drop_first() =~= Seq::<Node>::empty());
        assert(kvs_children(Seq::<Node>::empty()) == Seq::<(int, RecordID)>::empty());
        assert(kvs_children(one) == kvs_node(c_r) + kvs_children(one.drop_first()));
        assert(kvs_children(one) =~= kvs_node(c_r));
        assert(kvs_children(two) == kvs_node(c_l) + kvs_children(one));
        assert(kvs_children(two) =~= kvs_node(c_l) + kvs_node(c_r));
    }
    assert(kvs_children(cs2) =~= kvs_children(cs.subrange(0, i)) + insert_sorted(mk, k, v)
        + kvs_children(cs.subrange(i + 1, cs.len() as int)));
}

/// Cutting an internal node's key list at `mid` leaves two internally
/// consistent halves, with every left entry below the cut separator and
/// every right entry at or above it.
proof fn lemma_shape_cut(keys: Seq<Value>, cs: Seq<Node>, mid: int, m: int)
    requires
        internal_shape(keys, cs, m),
        0 <= mid < keys.len(),
    ensures
        internal_shape(keys.subrange(0, mid), cs.subrange(0, mid + 1), m),
        internal_shape(
            keys.subrange(mid + 1, keys.len() as int),
            cs.subrange(mid + 1, cs.len() as int),
            m,
        ),
        kvs_children(cs) == kvs_children(cs.subrange(0, mid + 1)) + kvs_children(
            cs.subrange(mid + 1, cs.len() as int),
        ),
        below(kvs_children(cs.subrange(0, mid + 1)), value_rank(keys[mid])),
        at_least(kvs_children(cs.subrange(mid + 1, cs.len() as int)), value_rank(keys[mid])),
{
    let lcs = cs.subrange(0, mid + 1);
    let rcs = cs.subrange(mid + 1, cs.len() as int);
    assert(cs =~= lcs + rcs);
    lemma_kvs_children_concat(lcs, rcs);
    assert forall|j: int| 0 <= j < lcs.len() implies below(
        kvs_node(#[trigger] lcs[j]),
        value_rank(keys[mid]),
    ) by {
        assert(lcs[j] == cs[j]);
        assert(below(kvs_node(cs[j]), value_rank(keys[j])));
        if j < mid {
            assert(value_rank(keys[j]) < value_rank(keys[mid]));
        }
    }
    lemma_children_below(lcs, value_rank(keys[mid]));
    assert forall|j: int| 0 <= j < rcs.len() implies at_least(
        kvs_node(#[trigger] rcs[j]),
        value_rank(keys[mid]),
    ) by {
        assert(rcs[j] == cs[mid + 1 + j]);
        assert(at_least(kvs_node(cs[mid + 1 + j]), value_rank(keys[mid + j])));
        if j > 0 {
            assert(value_rank(keys[mid]) < value_rank(keys[mid + j]));
        }
    }
    lemma_children_at_least(rcs, value_rank(keys[mid]));
    assert(internal_shape(keys.subrange(0, mid), lcs, m)) by {
        let lk = keys.subrange(0, mid);
        assert(forall|j: int| 0 <= j < lcs.len() ==> #[trigger] lcs[j] == cs[j]);
        assert(forall|j: int| 0 <= j < lk.len() ==> #[trigger] lk[j] == keys[j]);
    }
    assert(internal_shape(keys.subrange(mid + 1, keys.len() as int), rcs, m)) by {
        let rk = keys.subrange(mid + 1, keys.len() as int);
        assert(forall|j: int| 0 <= j < rcs.len() ==> #[trigger] rcs[j] == cs[mid + 1 + j]);
        assert(forall|j: int| 0 <= j < rk.len() ==> #[trigger] rk[j] == keys[mid + 1 + j]);
        assert forall|j: int| 1 <= j < rcs.len() implies at_least(
            kvs_node(#[trigger] rcs[j]),
            value_rank(rk[j - 1]),
        ) by {
            assert(rcs[j] == cs[mid + 1 + j] && rk[j - 1] == keys[mid + j]);
        }
        assert forall|j: int| 0 <= j < rcs.len() implies height_node(#[trigger] rcs[j])
            == height_node(rcs[0]) by {
            assert(rcs[j] == cs[mid + 1 + j] && rcs[0] == cs[mid + 1]);
        }
    }
}

proof fn lemma_fill_nonempty(n: Node, m: int)
    requires
        wf_node(n, m),
        fill_ok(n, m, false),
        m >= 3,
    ensures
        kvs_node(n).len() >= 1,
    decreases n,
{
    match n {
        Node::Leaf { entries } => {
            assert(entries@.len() >= (m + 1) / 2);
        },
        Node::Internal { keys, children } => {
            assert(children@.len() >= (m + 1) / 2 >= 2);
            assert(wf_node(children@[0], m));
            assert(fill_ok(children@[0], m, false));
            lemma_fill_nonempty(children@[0], m);
            lemma_kvs_children_decompose(children@, 0);
        },
    }
}

proof fn lemma_fill_weaken(n: Node, m: int)
    requires
        fill_ok(n, m, false),
        m >= 3,
    ensures
        fill_ok(n, m, true),
{
    match n {
        Node::Leaf { entries } => {},
        Node::Internal { keys, children } => {},
    }
}

/// The outcome of inserting into a subtree: the key was already present,
/// the new entry fit, or the node had to split around a separator key.
enum InsertOutcome {
    Duplicate(Node),
    Fit(Node),
    Split(Node, Value, Node),
}

#[verifier::rlimit(100)]
#[verifier::spinoff_prover]
fn node_insert(n: Node, key: Value, value: RecordID, m: usize) -> (out: InsertOutcome)
    requires
        wf_node(n, m as int),
        fill_ok(n, m as int, true),
        m >= 3,
    ensures
        match out {
            InsertOutcome::Duplicate(n2) => kvs_node(n2) == kvs_node(n) && wf_node(n2, m as int)
                && height_node(n2) == height_node(n) && seq_lookup(
                kvs_node(n),
                value_rank(key),
            ) is Some && fill_ok(n2, m as int, true) && (fill_ok(n, m as int, false) ==> fill_ok(
                n2,
                m as int,
                false,
            )),
            InsertOutcome::Fit(n2) => kvs_node(n2) == insert_sorted(
                kvs_node(n),
                value_rank(key),
                value,
            ) && wf_node(n2, m as int) && height_node(n2) == height_node(n) && seq_lookup(
                kvs_node(n),
                value_rank(key),
            ) is None && fill_ok(n2, m as int, true) && (fill_ok(n, m as int, false) ==> fill_ok(
                n2,
                m as int,
                false,
            )),
            InsertOutcome::Split(l, sep, r) => kvs_node(l) + kvs_node(r) == insert_sorted(
                kvs_node(n),
                value_rank(key),
                value,
            ) && wf_node(l, m as int) && wf_node(r, m as int) && height_node(l) == height_node(n)
                && height_node(r) == height_node(n) && fill_ok(l, m as int, false) && fill_ok(
                r,
                m as int,
                false,
            ) && kvs_node(l).len() >= 1 && kvs_node(r).len() >= 1 && below(
                kvs_node(l),
                value_rank(sep),
            ) && at_least(kvs_node(r), value_rank(sep)) && seq_lookup(
                kvs_node(n),
                value_rank(key),
            ) is None,
        },
    decreases height_node(n),
{
    match n {
        Node::Leaf { mut entries } => {
            let ghost s0 = kvs_node(n);
            let ghost k = value_rank(key);
            proof {
                assert(s0 == entries@.map_values(|e: Entry| entry_kv(e)));
            }
            let mut i: usize = 0;
            while i < entries.len() && value_lt(&entries[i].key, &key)
                invariant
                    i <= entries@.len(),
                    s0 == entries@.map_values(|e: Entry| entry_kv(e)),
                    k == value_rank(key),
                    forall|j: int| 0 <= j < i ==> value_rank(entries@[j].key) < k,
                decreases entries@.len() - i,
            {
                i = i + 1;
            }
            if i < entries.len() && entries[i].key == key {
                proof {
                    assert(s0[i as int] == entry_kv(entries@[i as int]));
                    lemma_lookup_found(s0, k, i as int);
                }
                let n2 = Node::Leaf { entries };
                proof {
                    assert(n2 == n);
                }
                InsertOutcome::Duplicate(n2)
            } else {
                proof {
                    if i < entries.len() {
                        lemma_rank_injective(entries@[i as int].key, key);
                        assert(s0[i as int].0 > k);
                    }
                    assert forall|j: int| 0 <= j < s0.len() implies (#[trigger] s0[j]).0 != k by {
                        if j < i as int {
                        } else {
                            assert(i < entries@.len());
                            assert(s0[i as int].0 > k);
                            if j > i as int {
                                assert(s0[i as int].0 < s0[j].0);
                            }
                        }
                    }
                    lemma_lookup_none(s0, k);
                    lemma_insert_sorted_at(s0, k, value, i as int);
                    lemma_insert_sorted_sorted(s0, k, value);
                }
                entries.insert(i, Entry { key, value });
                proof {
                    assert(entries@.map_values(|e: Entry| entry_kv(e)) =~= s0.subrange(0, i as int)
                        + seq![(k, value)] + s0.subrange(i as int, s0.len() as int));
                }
                if entries.len() <= m {
                    let n2 = Node::Leaf { entries };
                    proof {
                        assert(kvs_node(n2) == insert_sorted(s0, k, value));
                    }
                    InsertOutcome::Fit(n2)
                } else {
                    let mid = entries.len() / 2;
                    let ghost e1 = entries@;
                    let right = entries.split_off(mid);
                    let sep = right[0].key;
                    proof {
                        assert(e1.map_values(|e: Entry| entry_kv(e)) == insert_sorted(
                            s0,
                            k,
                            value,
                        ));
                        assert(entries@ =~= e1.subrange(0, mid as int));
                        assert(right@ =~= e1.subrange(mid as int, e1.len() as int));
                        let ls = entries@.map_values(|e: Entry| entry_kv(e));
                        let rs = right@.map_values(|e: Entry| entry_kv(e));
                        assert(ls + rs =~= e1.map_values(|e: Entry| entry_kv(e)));
                        lemma_sorted_parts(ls, rs);
                        assert(rs[0].0 == value_rank(sep));
                        assert(below(ls, value_rank(sep)));
                        assert(at_least(rs, value_rank(sep)));
                    }
                    InsertOutcome::Split(
                        Node::Leaf { entries },
                        sep,
                        Node::Leaf { entries: right },
                    )
                }
            }
        },
        Node::Internal { mut keys, mut children } => {
            let ghost ks0 = keys@;
            let ghost cs0 = children@;
            let ghost k = value_rank(key);
            proof {
                assert(kvs_node(n) == kvs_children(cs0));
                assert(internal_shape(ks0, cs0, m as int));
                assert(height_node(n) == 1 + height_node(cs0[0]));
            }
            let mut i: usize = 0;
            while i < keys.len() && !value_lt(&key, &keys[i])
                invariant
                    i <= keys@.len(),
                    keys@ == ks0,
                    k == value_rank(key),
                    forall|j: int| 0 <= j < i ==> value_rank(ks0[j]) <= k,
                decreases keys@.len() - i,
            {
                i = i + 1;
            }
            let child = children.remove(i);
            proof {
                assert(child == cs0[i as int]);
                assert(wf_node(child, m as int));
                assert(fill_ok(child, m as int, false));
                lemma_fill_weaken(child, m as int);
                assert(height_node(child) == height_node(cs0[0]));
                lemma_route(ks0, cs0, i as int, k, value, m as int);
            }
            let out = node_insert(child, key, value, m);
            let ghost pk = kvs_children(cs0.subrange(0, i as int));
            let ghost mk = kvs_node(cs0[i as int]);
            let ghost sk = kvs_children(cs0.subrange(i as int + 1, cs0.len() as int));
            match out {
                InsertOutcome::Duplicate(c2) => {
                    children.insert(i, c2);
                    let n2 = Node::Internal { keys, children };
                    proof {
                        assert(n2 matches Node::Internal { keys: k2, children: cc } && k2@ == ks0
                            && cc@ =~= cs0.update(i as int, c2));
                        lemma_shape_update(ks0, cs0, i as int, c2, m as int);
                        assert(kvs_node(n2) == pk + kvs_node(c2) + sk);
                        assert(kvs_node(n2) == kvs_children(cs0));
                        assert(height_node(n2) == height_node(n)) by {
                            let cs2 = cs0.update(i as int, c2);
                            assert(height_node(cs2[0]) == height_node(cs0[0]));
                        }
                        assert(fill_ok(n2, m as int, true) && (fill_ok(n, m as int, false)
                            ==> fill_ok(n2, m as int, false))) by {
                            let cs2 = cs0.update(i as int, c2);
                            assert forall|j: int| 0 <= j < cs2.len() implies fill_ok(
                                #[trigger] cs2[j],
                                m as int,
                                false,
                            ) by {
                                if j != i as int {
                                    assert(cs2[j] == cs0[j]);
                                }
                            }
                        }
                    }
                    InsertOutcome::Duplicate(n2)
                },
                InsertOutcome::Fit(c2) => {
                    children.insert(i, c2);
                    let n2 = Node::Internal { keys, children };
                    proof {
                        assert(n2 matches Node::Internal { keys: k2, children: cc } && k2@ == ks0
                            && cc@ =~= cs0.update(i as int, c2));
                        assert(sorted(mk)) by {
                            assert(wf_node(cs0[i as int], m as int));
                        }
                        if i < keys.len() {
                            lemma_insert_below(mk, k, value, value_rank(ks0[i as int]));
                        }
                        if i >= 1 {
                            lemma_insert_at_least(mk, k, value, value_rank(ks0[i as int - 1]));
                        }
                        lemma_shape_update(ks0, cs0, i as int, c2, m as int);
                        assert(kvs_node(n2) == pk + insert_sorted(mk, k, value) + sk);
                        assert(kvs_node(n2) == insert_sorted(kvs_children(cs0), k, value));
                        lemma_insert_sorted_sorted(kvs_children(cs0), k, value);
                        assert(height_node(n2) == height_node(n)) by {
                            let cs2 = cs0.update(i as int, c2);
                            assert(height_node(cs2[0]) == height_node(cs0[0]));
                        }
                        assert(fill_ok(n2, m as int, true) && (fill_ok(n, m as int, false)
                            ==> fill_ok(n2, m as int, false))) by {
                            let cs2 = cs0.update(i as int, c2);
                            assert forall|j: int| 0 <= j < cs2.len() implies fill_ok(
                                #[trigger] cs2[j],
                                m as int,
                                false,
                            ) by {
                                if j != i as int {
                                    assert(cs2[j] == cs0[j]);
                                }
                            }
                        }
                    }
                    InsertOutcome::Fit(n2)
                },
                InsertOutcome::Split(c_l, sep, c_r) => {
                    children.insert(i, c_l);
                    children.insert(i + 1, c_r);
                    keys.insert(i, sep);
                    let ghost ks2 = ks0.insert(i as int, sep);
                    let ghost cs2 = cs0.subrange(0, i as int) + seq![c_l, c_r] + cs0.subrange(
                        i as int + 1,
                        cs0.len() as int,
                    );
                    proof {
                        assert(keys@ =~= ks2);
                        assert(children@ =~= cs2);
                        lemma_shape_split(ks0, cs0, i as int, c_l, sep, c_r, m as int, k, value);
                        lemma_insert_sorted_sorted(kvs_children(cs0), k, value);
                        assert(kvs_children(cs2) == insert_sorted(kvs_children(cs0), k, value));
                        assert(forall|j: int|
                            0 <= j < cs2.len() ==> fill_ok(#[trigger] cs2[j], m as int, false))
                            by {
                            assert(forall|j: int| 0 <= j < i ==> #[trigger] cs2[j] == cs0[j]);
                            assert(cs2[i as int] == c_l && cs2[i as int + 1] == c_r);
                            assert(forall|j: int|
                                i + 1 < j < cs2.len() ==> #[trigger] cs2[j] == cs0[j - 1]);
                        }
                        assert(height_node(cs2[0]) == height_node(cs0[0])) by {
                            if i == 0 {
                                assert(cs2[0] == c_l);
                            } else {
                                assert(cs2[0] == cs0[0]);
                            }
                        }
                    }
                    if children.len() <= m {
                        let n2 = Node::Internal { keys, children };
                        proof {
                            assert(n2 matches Node::Internal { keys: k2, children: cc } && k2@
                                == ks2 && cc@ == cs2);
                            assert(kvs_node(n2) == insert_sorted(kvs_children(cs0), k, value));
                            assert(height_node(n2) == height_node(n));
                        }
                        InsertOutcome::Fit(n2)
                    } else {
                        let mid = keys.len() / 2;
                        let right_keys = keys.split_off(mid + 1);
                        let sep_up = match keys.pop() {
                            Some(s) => s,
                            None => {
                                proof {
                                    assert(false);
                                }
                                sep
                            },
                        };
                        let right_children = children.split_off(mid + 1);
                        proof {
                            assert(cs2.len() == m + 1 && ks2.len() == m);
                            assert(keys@ =~= ks2.subrange(0, mid as int));
                            assert(right_keys@ =~= ks2.subrange(mid as int + 1, ks2.len() as int));
                            assert(sep_up == ks2[mid as int]);
                            assert(children@ =~= cs2.subrange(0, mid as int + 1));
                            assert(right_children@ =~= cs2.subrange(
                                mid as int + 1,
                                cs2.len() as int,
                            ));
                            lemma_shape_cut(ks2, cs2, mid as int, m as int);
                            lemma_sorted_parts(
                                kvs_children(cs2.subrange(0, mid as int + 1)),
                                kvs_children(cs2.subrange(mid as int + 1, cs2.len() as int)),
                            );
                            assert(fill_ok(cs2[0], m as int, false) && wf_node(cs2[0], m as int));
                            lemma_fill_nonempty(cs2[0], m as int);
                            lemma_kvs_children_decompose(cs2.subrange(0, mid as int + 1), 0);
                            assert(cs2.subrange(0, mid as int + 1)[0] == cs2[0]);
                            assert(fill_ok(cs2[mid as int + 1], m as int, false) && wf_node(
                                cs2[mid as int + 1],
                                m as int,
                            ));
                            lemma_fill_nonempty(cs2[mid as int + 1], m as int);
                            lemma_kvs_children_decompose(
                                cs2.subrange(mid as int + 1, cs2.len() as int),
                                0,
                            );
                            assert(cs2.subrange(mid as int + 1, cs2.len() as int)[0] == cs2[mid
                                as int + 1]);
                        }
                        let left = Node::Internal { keys, children };
                        let right = Node::Internal { keys: right_keys, children: right_children };
                        proof {
                            assert(kvs_node(left) == kvs_children(
                                cs2.subrange(0, mid as int + 1),
                            ));
                            assert(kvs_node(right) == kvs_children(
                                cs2.subrange(mid as int + 1, cs2.len() as int),
                            ));
                            assert(kvs_node(left) + kvs_node(right) == insert_sorted(
                                kvs_children(cs0),
                                k,
                                value,
                            ));
                            assert(height_node(left) == height_node(n)) by {
                                assert(cs2.subrange(0, mid as int + 1)[0] == cs2[0]);
                            }
                            assert(height_node(right) == height_node(n)) by {
                                assert(cs2.subrange(mid as int + 1, cs2.len() as int)[0] == cs2[mid
                                    as int + 1]);
                                assert(height_node(cs2[mid as int + 1]) == height_node(cs2[0]));
                            }
                        }
                        InsertOutcome::Split(left, sep_up, right)
                    }
                },
            }
        },
    }
}

fn node_lookup(n: &Node, key: &Value, m: usize) -> (r: Option<RecordID>)
    requires
        wf_node(*n, m as int),
    ensures
        r == seq_lookup(kvs_node(*n), value_rank(*key)),
    decreases height_node(*n),
{
    match n {
        Node::Leaf { entries } => {
            let ghost s0 = kvs_node(*n);
            let ghost k = value_rank(*key);
            let mut i: usize = 0;
            while i < entries.len() && value_lt(&entries[i].key, key)
                invariant
                    i <= entries@.len(),
                    s0 == entries@.map_values(|e: Entry| entry_kv(e)),
                    k == value_rank(*key),
                    forall|j: int| 0 <= j < i ==> value_rank(entries@[j].key) < k,
                decreases entries@.len() - i,
            {
                i = i + 1;
            }
            if i < entries.len() && entries[i].key == *key {
                proof {
                    lemma_lookup_found(s0, k, i as int);
                }
                Some(entries[i].value)
            } else {
                proof {
                    if i < entries.len() {
                        lemma_rank_injective(entries@[i as int].key, *key);
                        assert(s0[i as int].0 > k);
                    }
                    assert forall|j: int| 0 <= j < s0.len() implies (#[trigger] s0[j]).0 != k by {
                        if j < i as int {
                        } else {
                            assert(i < entries@.len());
                            if j > i as int {
                                assert(s0[i as int].0 < s0[j].0);
                            }
                        }
                    }
                    lemma_lookup_none(s0, k);
                }
                None
            }
        },
        Node::Internal { keys, children } => {
            let ghost ks0 = keys@;
            let ghost cs0 = children@;
            let ghost k = value_rank(*key);
            let mut i: usize = 0;
            while i < keys.len() && !value_lt(key, &keys[i])
                invariant
                    i <= keys@.len(),
                    keys@ == ks0,
                    k == value_rank(*key),
                    forall|j: int| 0 <= j < i ==> value_rank(ks0[j]) <= k,
                decreases keys@.len() - i,
            {
                i = i + 1;
            }
            proof {
                lemma_route(
                    ks0,
                    cs0,
                    i as int,
                    k,
                    RecordID { page_number: 0, slot_id: 0 },
                    m as int,
                );
                assert(wf_node(cs0[i as int], m as int));
                assert(height_node(cs0[i as int]) == height_node(cs0[0]));
            }
            node_lookup(&children[i], key, m)
        },
    }
}

proof fn lemma_kvs_children_snoc(cs: Seq<Node>, i: int)
    requires
        0 <= i < cs.len(),
    ensures
        kvs_children(cs.subrange(0, i + 1)) == kvs_children(cs.subrange(0, i)) + kvs_node(cs[i]),
{
    let pre = cs.subrange(0, i + 1);
    lemma_kvs_children_decompose(pre, i);
    assert(pre.subrange(0, i) =~= cs.subrange(0, i));
    assert(pre[i] == cs[i]);
    assert(pre.subrange(i + 1, pre.len() as int) =~= Seq::<Node>::empty());
    assert(kvs_children(Seq::<Node>::empty()) == Seq::<(int, RecordID)>::empty());
    assert(kvs_children(pre) =~= kvs_children(cs.subrange(0, i)) + kvs_node(cs[i]));
}

fn node_collect(n: &Node, out: &mut Vec<Entry>, m: usize)
    requires
        wf_node(*n, m as int),
    ensures
        final(out)@.map_values(|e: Entry| entry_kv(e)) == old(out)@.map_values(
            |e: Entry| entry_kv(e),
        ) + kvs_node(*n),
    decreases height_node(*n),
{
    let ghost base = out@.map_values(|e: Entry| entry_kv(e));
    match n {
        Node::Leaf { entries } => {
            let ghost s0 = kvs_node(*n);
            proof {
                assert(base.len() == out@.len());
            }
            let mut i: usize = 0;
            while i < entries.len()
                invariant
                    i <= entries@.len(),
                    s0 == entries@.map_values(|e: Entry| entry_kv(e)),
                    out@.len() == base.len() + i,
                    out@.map_values(|e: Entry| entry_kv(e)) == base + s0.subrange(0, i as int),
                decreases entries@.len() - i,
            {
                out.push(entries[i]);
                proof {
                    let cur = out@.map_values(|e: Entry| entry_kv(e));
                    let tgt = base + s0.subrange(0, i as int + 1);
                    assert(s0.len() == entries@.len());
                    assert(cur.len() == out@.len());
                    assert(cur.len() == tgt.len());
                    assert forall|j: int| 0 <= j < cur.len() implies cur[j] == tgt[j] by {
                        assert(cur[j] == entry_kv(out@[j]));
                        if j < base.len() + i as int {
                            assert(cur[j] == (base + s0.subrange(0, i as int))[j]);
                        } else {
                            assert(out@[j] == entries@[i as int]);
                            assert(cur[j] == s0[i as int]);
                        }
                    }
                    assert(cur =~= tgt);
                }
                i = i + 1;
            }
            proof {
                assert(base + s0.subrange(0, entries@.len() as int) =~= base + s0);
            }
        },
        Node::Internal { keys, children } => {
            let ghost cs0 = children@;
            let mut i: usize = 0;
            while i < children.len()
                invariant
                    i <= cs0.len(),
                    cs0 == children@,
                    forall|j: int| 0 <= j < cs0.len() ==> wf_node(#[trigger] cs0[j], m as int),
                    forall|j: int|
                        0 <= j < cs0.len() ==> height_node(#[trigger] cs0[j]) < height_node(*n),
                    out@.map_values(|e: Entry| entry_kv(e)) == base + kvs_children(
                        cs0.subrange(0, i as int),
                    ),
                decreases cs0.len() - i,
            {
                node_collect(&children[i], out, m);
                proof {
                    lemma_kvs_children_snoc(cs0, i as int);
                }
                i = i + 1;
            }
            proof {
                assert(cs0.subrange(0, cs0.len() as int) =~= cs0);
            }
        },
    }
}

/// The balanced ordered index: a tree of fan-out `order` mapping `Value`
/// keys to `RecordID`s, with strictly increasing keys across the leaves.
pub struct BPTree {
    root: Node,
    order: usize,
}

impl BPTree {
    /// The tree invariant: a well-formed, balanced tree whose every
    /// non-root node is at least half full.
    pub closed spec fn wf(self) -> bool {
        &&& wf_node(self.root, self.order as int)
        &&& fill_ok(self.root, self.order as int, true)
        &&& self.order >= 3
    }

    /// The in-order sequence of (key rank, record) pairs the tree holds.
    pub closed spec fn kvs(self) -> Seq<(int, RecordID)> {
        kvs_node(self.root)
    }

    pub closed spec fn spec_order(self) -> int {
        self.order as int
    }

    pub closed spec fn spec_root(self) -> Node {
        self.root
    }

    /// Fill law: in a well-formed tree — so after any sequence of inserts —
    /// every node holds at most `order` entries or children, every non-root
    /// node at least `ceil(order/2)`, and the root, when internal, at least two.
    pub proof fn lemma_fill_invariant(self)
        requires
            self.wf(),
        ensures
            wf_node(self.spec_root(), self.spec_order()),
            fill_ok(self.spec_root(), self.spec_order(), true),
    {
    }

    /// Ordering law: the in-order leaf traversal of a well-formed tree
    /// yields keys in strictly increasing order, after any sequence of inserts.
    pub proof fn lemma_inorder_sorted(self)
        requires
            self.wf(),
        ensures
            sorted(self.kvs()),
    {
    }

    /// Round-trip law: a pair just inserted is found by a lookup of its key.
    pub proof fn lemma_insert_lookup(s: Seq<(int, RecordID)>, k: int, v: RecordID)
        requires
            sorted(s),
            seq_lookup(s, k) is None,
        ensures
            seq_lookup(insert_sorted(s, k, v), k) == Some(v),
        decreases s.len(),
    {
        if s.len() == 0 {
        } else if k < s[0].0 {
        } else if k == s[0].0 {
            assert(false);
        } else {
            assert(sorted(s.drop_first()));
            Self::lemma_insert_lookup(s.drop_first(), k, v);
            let res = seq![s[0]] + insert_sorted(s.drop_first(), k, v);
            assert(res.drop_first() =~= insert_sorted(s.drop_first(), k, v));
            assert(res[0] == s[0]);
        }
    }

    /// Round-trip law: inserting a different key leaves a key's association
    /// untouched, so pairs never overwritten keep their value.
    pub proof fn lemma_insert_preserves_other(s: Seq<(int, RecordID)>, k: int, v: RecordID, k2: int)
        requires
            sorted(s),
            k2 != k,
        ensures
            seq_lookup(insert_sorted(s, k, v), k2) == seq_lookup(s, k2),
        decreases s.len(),
    {
        if s.len() == 0 {
            let res = insert_sorted(s, k, v);
            assert(res == seq![(k, v)]);
            assert(res[0].0 == k);
            assert(res.drop_first() =~= Seq::<(int, RecordID)>::empty());
            assert(seq_lookup(res, k2) == seq_lookup(res.drop_first(), k2));
            assert(seq_lookup(res.drop_first(), k2) == None::<RecordID>);
        } else if k < s[0].0 {
            let res = insert_sorted(s, k, v);
            assert(res == seq![(k, v)] + s);
            assert(res[0] == (k, v));
            assert(res.drop_first() =~= s);
            assert(seq_lookup(res, k2) == seq_lookup(s, k2));
        } else if k == s[0].0 {
        } else {
            assert(sorted(s.drop_first()));
            Self::lemma_insert_preserves_other(s.drop_first(), k, v, k2);
            let res = insert_sorted(s, k, v);
            assert(res == seq![s[0]] + insert_sorted(s.drop_first(), k, v));
            assert(res.drop_first() =~= insert_sorted(s.drop_first(), k, v));
            assert(res[0] == s[0]);
            if s[0].0 == k2 {
                assert(seq_lookup(res, k2) == Some(res[0].1));
                assert(seq_lookup(s, k2) == Some(s[0].1));
            } else {
                assert(seq_lookup(res, k2) == seq_lookup(res.drop_first(), k2));
                assert(seq_lookup(s, k2) == seq_lookup(s.drop_first(), k2));
            }
        }
    }

    /// Builds an empty tree with the given fan-out.
    pub fn new(order: usize) -> (t: BPTree)
        requires
            order >= 3,
        ensures
            t.wf(),
            t.kvs() == Seq::<(int, RecordID)>::empty(),
            t.spec_order() == order,
    {
        let t = BPTree { root: Node::Leaf { entries: Vec::new() }, order };
        proof {
            assert(t.kvs() =~= Seq::<(int, RecordID)>::empty());
        }
        t
    }

    /// Inserts a key/value pair. A key already present is rejected with
    /// `DuplicateKey` and the tree is unchanged; otherwise the pair lands
    /// at its ordered position, splitting nodes as needed.
    pub fn insert(&mut self, key: Value, value: RecordID) -> (r: Result<(), DbError>)
        requires
            old(self).wf(),
        ensures
            final(self).wf(),
            final(self).spec_order() == old(self).spec_order(),
            match r {
                Ok(()) => seq_lookup(old(self).kvs(), value_rank(key)) is None && final(self).kvs()
                    == insert_sorted(old(self).kvs(), value_rank(key), value),
                Err(e) => e == DbError::DuplicateKey && final(self).kvs() == old(self).kvs()
                    && seq_lookup(old(self).kvs(), value_rank(key)) is Some,
            },
    {
        let ghost kvs0 = self.kvs();
        let ghost k = value_rank(key);
        let mut root = Node::Leaf { entries: Vec::new() };
        core::mem::swap(&mut root, &mut self.root);
        let order = self.order;
        match node_insert(root, key, value, order) {
            InsertOutcome::Duplicate(n2) => {
                self.root = n2;
                Err(DbError::DuplicateKey)
            },
            InsertOutcome::Fit(n2) => {
                self.root = n2;
                Ok(())
            },
            InsertOutcome::Split(l, sep, r) => {
                let mut children: Vec<Node> = Vec::new();
                children.push(l);
                children.push(r);
                let mut keys: Vec<Value> = Vec::new();
                keys.push(sep);
                proof {
                    let two = children@;
                    assert(two.len() == 2 && two[0] == l && two[1] == r);
                    let one = two.drop_first();
                    assert(one =~= seq![r]);
                    assert(one[0] == r && one.len() == 1);
                    assert(one.drop_first() =~= Seq::<Node>::empty());
                    assert(kvs_children(Seq::<Node>::empty()) == Seq::<(int, RecordID)>::empty());
                    assert(kvs_children(one) =~= kvs_node(r));
                    assert(kvs_children(two) =~= kvs_node(l) + kvs_node(r));
                    lemma_insert_sorted_sorted(kvs0, k, value);
                }
                self.root = Node::Internal { keys, children };
                Ok(())
            },
        }
    }

    /// Finds the record stored under a key, or nothing when the key is absent.
    pub fn lookup(&self, key: &Value) -> (r: Option<RecordID>)
        requires
            self.wf(),
        ensures
            r == seq_lookup(self.kvs(), value_rank(*key)),
    {
        node_lookup(&self.root, key, self.order)
    }

    /// The in-order traversal of all entries, in strictly increasing key order.
    pub fn entries(&self) -> (r: Vec<Entry>)
        requires
            self.wf(),
        ensures
            r@.map_values(|e: Entry| entry_kv(e)) == self.kvs(),
    {
        let mut out: Vec<Entry> = Vec::new();
        proof {
            assert(out@.map_values(|e: Entry| entry_kv(e)) =~= Seq::<(int, RecordID)>::empty());
        }
        node_collect(&self.root, &mut out, self.order);
        proof {
            assert(Seq::<(int, RecordID)>::empty() + self.kvs() =~= self.kvs());
        }
        out
    }

    /// The entries whose keys lie between the bounds, inclusive at both
    /// ends, in increasing key order. The scan is an in-order traversal of
    /// the owned tree: the tree holds no next-leaf links, since sibling
    /// references need shared mutable aliasing that verified owned data
    /// cannot carry, and the traversal visits the same leaves in the same
    /// order the links would.
    pub fn range(&self, lo: &Value, hi: &Value) -> (r: Vec<Entry>)
        requires
            self.wf(),
        ensures
            r@.map_values(|e: Entry| entry_kv(e)) == self.kvs().filter(
                |kv: (int, RecordID)| value_rank(*lo) <= kv.0 <= value_rank(*hi),
            ),
    {
        let ghost pred = |kv: (int, RecordID)| value_rank(*lo) <= kv.0 <= value_rank(*hi);
        let all = self.entries();
        let ghost s = self.kvs();
        let mut out: Vec<Entry> = Vec::new();
        proof {
            reveal(Seq::filter);
            assert(s.subrange(0, 0) =~= Seq::<(int, RecordID)>::empty());
            assert(Seq::<(int, RecordID)>::empty().filter(pred) =~= Seq::<
                (int, RecordID),
            >::empty());
            assert(out@.map_values(|e: Entry| entry_kv(e)) =~= Seq::<(int, RecordID)>::empty());
        }
        let mut i: usize = 0;
        while i < all.len()
            invariant
                i <= all@.len(),
                all@.map_values(|e: Entry| entry_kv(e)) == s,
                pred == (|kv: (int, RecordID)| value_rank(*lo) <= kv.0 <= value_rank(*hi)),
                out@.map_values(|e: Entry| entry_kv(e)) == s.subrange(0, i as int).filter(pred),
            decreases all@.len() - i,
        {
            let e = all[i];
            let keep = !value_lt(&e.key, lo) && !value_lt(hi, &e.key);
            proof {
                reveal(Seq::filter);
                assert(entry_kv(e) == s[i as int]);
                assert(keep == pred(s[i as int]));
                let prev = s.subrange(0, i as int);
                let cur = s.subrange(0, i as int + 1);
                assert(cur.drop_last() =~= prev);
                assert(cur.last() == s[i as int]);
                assert(cur.filter(pred) == if pred(s[i as int]) {
                    prev.filter(pred).push(s[i as int])
                } else {
                    prev.filter(pred)
                });
            }
            if keep {
                out.push(e);
                proof {
                    assert(out@.map_values(|e: Entry| entry_kv(e)) =~= s.subrange(
                        0,
                        i as int,
                    ).filter(pred).push(s[i as int]));
                }
            }
            i = i + 1;
        }
        proof {
            reveal(Seq::filter);
            assert(s.subrange(0, s.len() as int) =~= s);
        }
        out
    }
}

} // verus!
